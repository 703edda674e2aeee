use http1::uri::authority::Authority;
use http1::uri::convert::{
    decode_uri_component, encode_uri_component, encode_uri_component_with, CookieCharset,
};
use http1::json::map::OrderedMap;
use http1::uri::path_query::{PathAndQuery, QueryMap, QueryValue};
use http1::uri::scheme::{AnyScheme, Scheme};
use http1::uri::uri::{InvalidUri, Uri};

#[test]
fn should_parse_full_authority() {
    let authority = Authority::from_str("user:pass@10.0.2.2:8080").unwrap();

    assert_eq!(authority.user_info(), Some("user:pass"));
    assert_eq!(authority.host(), "10.0.2.2");
    assert_eq!(authority.port(), Some(8080));
}

#[test]
fn should_parse_host_name_and_port() {
    let authority = Authority::from_str("localhost:4321").unwrap();

    assert_eq!(authority.host(), "localhost");
    assert_eq!(authority.port(), Some(4321));
}

#[test]
fn should_parse_ipv4_and_port() {
    let authority = Authority::from_str("127.0.0.1:9000").unwrap();

    assert_eq!(authority.host(), "127.0.0.1");
    assert_eq!(authority.port(), Some(9000));
}

#[test]
fn should_parse_ipv6_and_port() {
    let authority = Authority::from_str("[2001:db8:85a3:0:0:8a2e:370:7334]:22300").unwrap();
    assert_eq!(authority.host(), "2001:db8:85a3:0:0:8a2e:370:7334");
    assert_eq!(authority.port(), Some(22300));
}

#[test]
fn should_parse_only_host() {
    let authority = Authority::from_str("127.0.0.1").unwrap();

    assert_eq!(authority.host(), "127.0.0.1");
    assert_eq!(authority.port(), None);
}

#[test]
fn should_fail_on_missing_port() {
    assert!(Authority::from_str("127.0.0.1:").is_err());
}

#[test]
fn should_encode_special_characters() {
    assert_eq!(encode_uri_component("hello@world"), "hello%40world");
    assert_eq!(encode_uri_component("100% free"), "100%25%20free");
    assert_eq!(encode_uri_component("a+b=c"), "a%2Bb%3Dc");
    assert_eq!(encode_uri_component("rust-lang.org"), "rust-lang.org");
}

#[test]
fn should_encode_reserved_characters() {
    assert_eq!(encode_uri_component("! * ' ( ) ; : @ & = + $ , / ? # [ ]"),
        "%21%20%2A%20%27%20%28%20%29%20%3B%20%3A%20%40%20%26%20%3D%20%2B%20%24%20%2C%20%2F%20%3F%20%23%20%5B%20%5D");
}

#[test]
fn should_encode_unicode_characters() {
    assert_eq!(
        encode_uri_component("こんにちは"),
        "%E3%81%93%E3%82%93%E3%81%AB%E3%81%A1%E3%81%AF"
    );
    assert_eq!(encode_uri_component("你好"), "%E4%BD%A0%E5%A5%BD");
    assert_eq!(encode_uri_component("😊"), "%F0%9F%98%8A");
}

#[test]
fn should_decode_str() {
    assert_eq!(
        decode_uri_component("hello%20world").unwrap(),
        "hello world"
    );
}

#[test]
fn should_decode_special_characters() {
    assert_eq!(
        decode_uri_component("hello%40world").unwrap(),
        "hello@world"
    );
    assert_eq!(decode_uri_component("100%25%20free").unwrap(), "100% free");
    assert_eq!(decode_uri_component("a%2Bb%3Dc").unwrap(), "a+b=c");
}

#[test]
fn should_decode_unicode_characters() {
    assert_eq!(
        decode_uri_component("%E3%81%93%E3%82%93%E3%81%AB%E3%81%A1%E3%81%AF").unwrap(),
        "こんにちは"
    );
    assert_eq!(decode_uri_component("%E4%BD%A0%E5%A5%BD").unwrap(), "你好");
    assert_eq!(decode_uri_component("%F0%9F%98%8A").unwrap(), "😊");
}

#[test]
fn should_decode_incomplete_percent_encoding() {
    assert!(decode_uri_component("hello%2world").is_err());
    assert!(decode_uri_component("hello%").is_err());
}

#[test]
fn should_handle_empty_string() {
    assert_eq!(encode_uri_component(""), "");
    assert_eq!(decode_uri_component("").unwrap(), "");
}

#[test]
fn should_parse_path() {
    let pq = PathAndQuery::from_str("/makoto/ryuji/saki").unwrap();

    assert_eq!(pq.path(), "/makoto/ryuji/saki");
    assert_eq!(pq.query(), None);
    assert_eq!(pq.fragment(), None);
}

#[test]
fn should_parse_path_and_query() {
    let pq = PathAndQuery::from_str("/users/?limit=10&sort=email").unwrap();

    assert_eq!(pq.path(), "/users/");
    assert_eq!(pq.query(), Some("limit=10&sort=email"));
    assert_eq!(pq.fragment(), None);
}

#[test]
fn should_parse_path_and_fragment() {
    let pq = PathAndQuery::from_str("/erwin#general").unwrap();

    assert_eq!(pq.path(), "/erwin");
    assert_eq!(pq.query(), None);
    assert_eq!(pq.fragment(), Some("general"));
}

#[test]
fn should_get_query_map() {
    let pq = PathAndQuery::from_str("/users/?limit=10&sort=email").unwrap();

    let query_map = pq.query_map();
    assert_eq!(query_map.get("limit"), Some("10"));
    assert_eq!(query_map.get("sort"), Some("email"));
}

#[test]
fn should_get_path_segments() {
    let p = PathAndQuery::from_str("/one/two/three").unwrap();
    let mut segments = p.segments().into_iter();

    assert_eq!(segments.next().as_deref(), Some("one"));
    assert_eq!(segments.next().as_deref(), Some("two"));
    assert_eq!(segments.next().as_deref(), Some("three"));
    assert_eq!(segments.next().as_deref(), None);
}

#[test]
fn should_get_path_segments_ending_in_slash() {
    let p = PathAndQuery::from_str("/one/two/three/").unwrap();
    let mut segments = p.segments().into_iter();

    assert_eq!(segments.next().as_deref(), Some("one"));
    assert_eq!(segments.next().as_deref(), Some("two"));
    assert_eq!(segments.next().as_deref(), Some("three"));
    assert_eq!(segments.next().as_deref(), None);
}

#[test]
fn should_get_path_segments_empty() {
    let p = PathAndQuery::from_str("/").unwrap();
    let mut segments = p.segments().into_iter();

    assert_eq!(segments.next().as_deref(), Some(""));
    assert_eq!(segments.next().as_deref(), None);
}

#[test]
fn should_get_single_segment() {
    let p = PathAndQuery::from_str("/one").unwrap();
    let mut segments = p.segments().into_iter();

    assert_eq!(segments.next().as_deref(), Some("one"));
    assert_eq!(segments.next().as_deref(), None);
}

#[test]
fn should_parse_http_scheme() {
    assert_eq!(Scheme::from("http"), Scheme::Http);
    assert_eq!(Scheme::from("HTTP"), Scheme::Http);
    assert_eq!(Scheme::from("hTTp"), Scheme::Http);
}

#[test]
fn should_parse_https_scheme() {
    assert_eq!(Scheme::from("https"), Scheme::Https);
    assert_eq!(Scheme::from("HTTPS"), Scheme::Https);
    assert_eq!(Scheme::from("hTTpS"), Scheme::Https);
}

#[test]
fn should_parse_any_scheme() {
    assert_eq!(
        Scheme::from("ftp"),
        Scheme::Other(AnyScheme("ftp".to_owned()))
    );
    assert_eq!(
        Scheme::from("POSTGRES"),
        Scheme::Other(AnyScheme("postgres".to_owned()))
    );
    assert_eq!(
        Scheme::from("Redis"),
        Scheme::Other(AnyScheme("redis".to_owned()))
    );
}

#[test]
fn should_parse_uri_with_empty_path() {
    let uri_str = "http://www.rust-lang.org";
    let uri = Uri::from_str(uri_str).expect("Failed to parse URI");

    assert_eq!(uri.scheme().unwrap().as_str(), "http");
    assert!(uri.authority().is_some());

    let authority = uri.authority().unwrap();

    assert_eq!(authority.user_info(), None);
    assert_eq!(authority.host(), "www.rust-lang.org");
    assert_eq!(authority.port(), None);
    assert_eq!(uri.path_and_query().path(), "/");
    assert_eq!(uri.path_and_query().query(), None);
}

#[test]
fn should_parse_uri_without_path() {
    let uri_str = "https://www.rust-lang.org/";
    let uri = Uri::from_str(uri_str).expect("Failed to parse URI");

    assert_eq!(uri.scheme().unwrap().as_str(), "https");
    assert!(uri.authority().is_some());

    let authority = uri.authority().unwrap();

    assert_eq!(authority.user_info(), None);
    assert_eq!(authority.host(), "www.rust-lang.org");
    assert_eq!(authority.port(), None);
    assert_eq!(uri.path_and_query().path(), "/");
    assert_eq!(uri.path_and_query().query(), None);
}

#[test]
fn should_parse_uri_with_full_components() {
    let uri_str = "https://john.doe@www.example.com:1234/forum/questions/?tag=networking&order=newest#top";
    let uri = Uri::from_str(uri_str).expect("Failed to parse URI");

    assert_eq!(uri.scheme().unwrap().as_str(), "https");
    assert!(uri.authority().is_some());

    let authority = uri.authority().unwrap();

    assert_eq!(authority.user_info(), Some("john.doe"));
    assert_eq!(authority.host(), "www.example.com");
    assert_eq!(authority.port(), Some(1234));
    assert_eq!(uri.path_and_query().path(), "/forum/questions/");
    assert_eq!(
        uri.path_and_query().query(),
        Some("tag=networking&order=newest")
    );
    assert_eq!(uri.path_and_query().fragment(), Some("top"));
}

#[test]
fn should_parse_uri_without_scheme() {
    let uri_str = "localhost:5000/api/posts?limit=100&sort=asc";
    let uri = Uri::from_str(uri_str).expect("Failed to parse URI");

    assert_eq!(uri.scheme(), None);
    assert!(uri.authority().is_some());

    let authority = uri.authority().unwrap();

    assert_eq!(authority.user_info(), None);
    assert_eq!(authority.host(), "localhost");
    assert_eq!(authority.port(), Some(5000));
    assert_eq!(uri.path_and_query().path(), "/api/posts");
    assert_eq!(uri.path_and_query().query(), Some("limit=100&sort=asc"));
}

#[test]
fn should_parse_uri_with_fragment() {
    let uri_str = "https://www.youtube.com/watch?v=dQw4w9WgXcQ#never";
    let uri = Uri::from_str(uri_str).expect("Failed to parse URI");

    assert_eq!(uri.scheme().unwrap().as_str(), "https");
    assert!(uri.authority().is_some());

    let authority = uri.authority().unwrap();

    assert_eq!(authority.user_info(), None);
    assert_eq!(authority.host(), "www.youtube.com");
    assert_eq!(authority.port(), None);
    assert_eq!(uri.path_and_query().path(), "/watch");
    assert_eq!(uri.path_and_query().query(), Some("v=dQw4w9WgXcQ"));
    assert_eq!(uri.path_and_query().fragment(), Some("never"));
}

#[test]
fn should_parse_uri_only_with_fragment() {
    let uri_str = "https://www.example.com#hello-world";
    let uri = Uri::from_str(uri_str).expect("Failed to parse URI");

    assert_eq!(uri.scheme().unwrap().as_str(), "https");
    assert!(uri.authority().is_some());

    let authority = uri.authority().unwrap();

    assert_eq!(authority.user_info(), None);
    assert_eq!(authority.host(), "www.example.com");
    assert_eq!(authority.port(), None);
    assert_eq!(uri.path_and_query().path(), "/");
    assert_eq!(uri.path_and_query().query(), None);
    assert_eq!(uri.path_and_query().fragment(), Some("hello-world"));
}

#[test]
fn should_parse_uri_only_with_query() {
    let uri_str = "https://www.example.com?name=value";
    let uri = Uri::from_str(uri_str).expect("Failed to parse URI");

    assert_eq!(uri.scheme().unwrap().as_str(), "https");
    assert!(uri.authority().is_some());

    let authority = uri.authority().unwrap();

    assert_eq!(authority.user_info(), None);
    assert_eq!(authority.host(), "www.example.com");
    assert_eq!(authority.port(), None);
    assert_eq!(uri.path_and_query().path(), "/");
    assert_eq!(uri.path_and_query().query(), Some("name=value"));
    assert_eq!(uri.path_and_query().fragment(), None);
}

#[test]
fn should_parse_fragment_with_query() {
    let uri_str = "https://www.example.com#fragment?name=value";
    let uri = Uri::from_str(uri_str).expect("Failed to parse URI");

    assert_eq!(uri.scheme().unwrap().as_str(), "https");
    assert!(uri.authority().is_some());

    let authority = uri.authority().unwrap();

    assert_eq!(authority.user_info(), None);
    assert_eq!(authority.host(), "www.example.com");
    assert_eq!(authority.port(), None);
    assert_eq!(uri.path_and_query().path(), "/");
    assert_eq!(uri.path_and_query().query(), None);
    assert_eq!(uri.path_and_query().fragment(), Some("fragment?name=value"));
}

#[test]
fn should_parse_ipv6_uri() {
    let uri_str = "ldap://[2001:db8::7]/c=GB?objectClass?one";
    let uri = Uri::from_str(uri_str).expect("Failed to parse URI");

    assert_eq!(uri.scheme().unwrap().as_str(), "ldap");
    assert!(uri.authority().is_some());

    let authority = uri.authority().unwrap();

    assert_eq!(authority.user_info(), None);
    assert_eq!(authority.host(), "2001:db8::7");
    assert_eq!(authority.port(), None);
    assert_eq!(uri.path_and_query().path(), "/c=GB");
    assert_eq!(uri.path_and_query().query(), Some("objectClass?one"));
    assert_eq!(uri.path_and_query().fragment(), None);
}

#[test]
fn should_parse_only_with_path() {
    let uri_str = "/api/senpai/is/otonoko?name=Makoto";
    let uri = Uri::from_str(uri_str).expect("Failed to parse URI");

    assert_eq!(uri.scheme(), None);
    assert_eq!(uri.authority(), None);

    assert_eq!(uri.path_and_query().path(), "/api/senpai/is/otonoko");
    assert_eq!(uri.path_and_query().query(), Some("name=Makoto"));
    assert_eq!(uri.path_and_query().fragment(), None);
}


#[test]
fn should_test_is_empty_and_len() {
    let empty_map = OrderedMap::new();
    let query_map = QueryMap::new(empty_map);

    assert!(query_map.is_empty());
    assert_eq!(query_map.len(), 0);

    let mut non_empty_map = OrderedMap::new();
    non_empty_map.insert("key".to_string(), QueryValue::One("value".to_string()));
    let query_map = QueryMap::new(non_empty_map);

    assert!(!query_map.is_empty());
    assert_eq!(query_map.len(), 1);
}

#[test]
fn should_test_get() {
    let mut map = OrderedMap::new();
    map.insert("key1".to_string(), QueryValue::One("value1".to_string()));
    map.insert(
        "key2".to_string(),
        QueryValue::List(vec!["value2".to_string(), "value3".to_string()]),
    );
    let query_map = QueryMap::new(map);

    assert_eq!(query_map.get("key1"), Some("value1"));
    assert_eq!(query_map.get("key2"), Some("value2"));
    assert_eq!(query_map.get("key3"), None);
}

#[test]
fn should_test_to_string() {
    let mut map = OrderedMap::new();
    map.insert("key1".to_string(), QueryValue::One("value1".to_string()));
    map.insert(
        "key2".to_string(),
        QueryValue::List(vec!["value2".to_string(), "value3".to_string()]),
    );
    let query_map = QueryMap::new(map);

    let result = query_map.to_string();
    assert_eq!(result, "key1=value1&key2=value2&key2=value3");
}

#[test]
fn query_list_of_first_entry_has_no_separator() {
    let mut map = OrderedMap::new();
    map.insert(
        "a".to_string(),
        QueryValue::List(vec!["1".to_string(), "2".to_string()]),
    );
    map.insert("b".to_string(), QueryValue::One("3".to_string()));
    assert_eq!(QueryMap::new(map).to_string(), "a=1a=2&b=3");
}

#[test]
fn uri_text_joins_its_parts() {
    let uri = Uri::from_str(
        "https://john.doe@www.example.com:1234/forum/questions/?tag=networking&order=newest#top",
    )
    .unwrap();
    assert_eq!(
        uri.to_string(),
        "https://john.doe@www.example.com:1234/forum/questions/?tag=networking&order=newest#top"
    );
    assert_eq!(
        uri.authority().unwrap().to_string(),
        "john.doe@www.example.com:1234"
    );
    assert_eq!(
        uri.path_and_query().to_string(),
        "/forum/questions/?tag=networking&order=newest#top"
    );
    assert_eq!(uri.scheme().unwrap().to_string(), "https");
    assert_eq!(Uri::from_str("/a?b").unwrap().to_string(), "/a?b");
}

#[test]
fn invalid_uri_has_a_message() {
    assert_eq!(InvalidUri::EmptyUri.to_string(), "Empty URI");
    assert_eq!(
        InvalidUri::InvalidPort("x".to_string()).to_string(),
        "Invalid port in URI: x"
    );
}

#[test]
fn decoding_undoes_encoding() {
    for text in ["", "plain", "a b+c%d&e=f", "héllo wörld/?#", "日本語 😀", "%%++"] {
        let encoded = encode_uri_component(text);
        assert_eq!(decode_uri_component(&encoded).unwrap(), text);
        let cookie_encoded = encode_uri_component_with(text, CookieCharset);
        assert_eq!(decode_uri_component(&cookie_encoded).unwrap(), text);
    }
}

#[test]
fn plain_text_decodes_to_itself() {
    for text in ["é", "héllo wörld", "日本語", "a/b?c=d"] {
        assert_eq!(decode_uri_component(text).unwrap(), text);
    }
    assert_eq!(decode_uri_component("caf%C3%A9+au+lait").unwrap(), "café au lait");
}

#[test]
fn cookie_alphabet_escapes_separators() {
    assert_eq!(
        encode_uri_component_with("a;b,c\\d\"e f", CookieCharset),
        "a%3Bb%2Cc%5Cd%22e%20f"
    );
    assert_eq!(encode_uri_component_with("(x)=<y>@[z]", CookieCharset), "(x)=<y>@[z]");
}

#[test]
fn uri_text_reads_back() {
    for text in [
        "http://user@example.com:8080/a/b?x=1&y=2#top",
        "https://example.com/",
        "http://h/",
        "https://example.com/path?q",
        "ftp://files.example.com/pub/a.txt",
        "ldap://host/c=GB?objectClass",
    ] {
        let uri = Uri::from_str(text).unwrap();
        assert_eq!(uri.to_string(), text);
        assert_eq!(Uri::from_str(&uri.to_string()).unwrap(), uri);
    }
}

#[test]
fn path_and_query_text_reads_back() {
    for text in ["/", "/a/b", "/a?x=1", "/a?x=1#f", "/a#f"] {
        let pq = PathAndQuery::from_str(text).unwrap();
        assert_eq!(pq.to_string(), text);
    }
}
