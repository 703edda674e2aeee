use http1::cookies::{Builder, Cookie, CookieParseError, Cookies, SameSite};
use http1::headers::Headers;

#[test]
fn should_create_new_cookie_with_name_and_value() {
    let cookie = Builder::new("session_id", "abc123").build();
    assert_eq!(cookie.name(), "session_id");
    assert_eq!(cookie.value(), "abc123");
    assert_eq!(cookie.to_string(), "session_id=abc123");
}

#[test]
fn should_create_cookie_with_http_only_and_secure_flags() {
    let cookie = Builder::new("session_id", "abc123")
        .http_only(true)
        .secure(true)
        .build();

    assert_eq!(cookie.is_http_only(), true);
    assert_eq!(cookie.is_secure(), true);
    assert_eq!(cookie.to_string(), "session_id=abc123; HttpOnly; Secure");
}

#[test]
fn should_create_cookie_with_path_and_domain() {
    let cookie = Builder::new("session_id", "abc123")
        .path("/app")
        .domain("example.com")
        .build();

    assert_eq!(cookie.path(), Some("/app"));
    assert_eq!(cookie.domain(), Some("example.com"));
    assert_eq!(
        cookie.to_string(),
        "session_id=abc123; Path=/app; Domain=example.com"
    );
}

#[test]
fn should_create_cookie_with_max_age_and_expires() {
    let expires = "Tue, 31 Dec 2024 23:59:59 GMT";
    let cookie = Builder::new("session_id", "abc123")
        .max_age(3600)
        .expires(expires)
        .build();

    assert_eq!(cookie.max_age(), Some(3600));
    assert_eq!(cookie.expires(), Some(expires));
    assert_eq!(
        cookie.to_string(),
        format!("session_id=abc123; Max-Age=3600; Expires={}", expires)
    );
}

#[test]
fn should_create_cookie_with_partitioned() {
    let cookie = Builder::new("session_id", "abc123")
        .partitioned(true)
        .build();

    assert_eq!(cookie.is_partitioned(), true);
    assert_eq!(cookie.to_string(), "session_id=abc123; Partitioned");
}

#[test]
fn should_encode_special_characters_in_cookie_name_and_value() {
    let cookie = Builder::new("special_cookie", "value with spaces").build();
    assert_eq!(cookie.to_string(), "special_cookie=value%20with%20spaces");
}

#[test]
fn should_create_empty_cookies() {
    let cookies = Cookies::new();
    assert!(cookies.is_empty());
    assert_eq!(cookies.len(), 0);
}

#[test]
fn should_add_cookie() {
    let mut cookies = Cookies::new();
    let cookie = Builder::new("session_id", "abc123").build();

    cookies.set(cookie.clone());

    assert_eq!(cookies.len(), 1);
    assert_eq!(cookies.get("session_id").unwrap(), &cookie);
}

#[test]
fn should_replace_cookie_with_same_name() {
    let mut cookies = Cookies::new();
    let cookie1 = Builder::new("session_id", "abc123").build();
    let cookie2 = Builder::new("session_id", "xyz789").build();

    cookies.set(cookie1.clone());
    cookies.replace(cookie2.clone());

    assert_eq!(cookies.len(), 1);
    assert_eq!(cookies.get("session_id").unwrap(), &cookie2);
}

#[test]
fn should_delete_cookie() {
    let mut cookies = Cookies::new();
    let cookie = Builder::new("session_id", "abc123").build();

    cookies.set(cookie.clone());

    let deleted_cookie = cookies.del("session_id").unwrap();

    assert_eq!(deleted_cookie.name(), "session_id");
    assert!(cookies.is_empty());
    assert_eq!(cookies.len(), 0);
}

#[test]
fn should_return_none_when_deleting_non_existent_cookie() {
    let mut cookies = Cookies::new();
    assert!(cookies.del("non_existent").is_none());
}

#[test]
fn should_clear_all_cookies() {
    let mut cookies = Cookies::new();
    cookies.set(Builder::new("cookie1", "value1").build());
    cookies.set(Builder::new("cookie2", "value2").build());

    assert_eq!(cookies.len(), 2);
    cookies.clear();

    assert!(cookies.is_empty());
    assert_eq!(cookies.len(), 0);
}

#[test]
fn should_retrieve_cookie_by_name() {
    let mut cookies = Cookies::new();
    let cookie = Builder::new("session_id", "abc123").build();

    cookies.set(cookie.clone());

    let retrieved_cookie = cookies.get("session_id").unwrap();

    assert_eq!(retrieved_cookie, &cookie);
}

#[test]
fn should_return_none_for_non_existent_cookie() {
    let cookies = Cookies::new();
    assert!(cookies.get("non_existent").is_none());
}

#[test]
fn should_get_all_cookies_with_same_name() {
    let mut cookies = Cookies::new();
    let cookie1 = Builder::new("session_id", "abc123").build();
    let cookie2 = Builder::new("session_id", "xyz789").build();

    cookies.set(cookie1.clone());
    cookies.set(cookie2.clone());

    let all_cookies: Vec<&Cookie> = cookies.get_all("session_id");

    assert_eq!(all_cookies.len(), 2);
    assert!(all_cookies.contains(&&cookie1));
    assert!(all_cookies.contains(&&cookie2));
}

#[test]
fn should_iterate_over_all_cookies() {
    let mut cookies = Cookies::new();
    let cookie1 = Builder::new("cookie1", "value1").build();
    let cookie2 = Builder::new("cookie2", "value2").build();

    cookies.set(cookie1.clone());
    cookies.set(cookie2.clone());

    let mut iter = cookies.iter().into_iter();
    assert_eq!(iter.next().unwrap(), &cookie1);
    assert_eq!(iter.next().unwrap(), &cookie2);
    assert!(iter.next().is_none());
}

#[test]
fn should_parse_cookie_with_attributes() {
    let c = Cookie::from_str(" id = 42 ; HttpOnly; secure; path=/a; domain=x.org; max-age=+10; samesite=LAX; expires=Wed, 21 Oct 2015 07:28:00 GMT; other").unwrap();
    assert_eq!(c.name(), "id ");
    assert_eq!(c.value(), " 42");
    assert!(c.is_http_only());
    assert!(c.is_secure());
    assert!(!c.is_partitioned());
    assert_eq!(c.path(), Some("/a"));
    assert_eq!(c.domain(), Some("x.org"));
    assert_eq!(c.max_age(), Some(10));
    assert_eq!(c.same_site(), Some(SameSite::Lax));
    assert_eq!(c.expires(), Some("Wed, 21 Oct 2015 07:28:00 GMT"));
}

#[test]
fn should_reject_malformed_cookies() {
    assert_eq!(Cookie::from_str("novalue").unwrap_err(), CookieParseError::InvalidCookie);
    assert_eq!(Cookie::from_str("a=b; max-age=x").unwrap_err(), CookieParseError::InvalidMaxAge);
    assert_eq!(
        Cookie::from_str("a=b; max-age=18446744073709551616").unwrap_err(),
        CookieParseError::InvalidMaxAge
    );
    assert_eq!(Cookie::from_str("a=b; samesite=sometimes").unwrap_err(), CookieParseError::InvalidSameSite);
    assert_eq!(Cookie::from_str("a=b; Path=/x").unwrap().path(), None);
    assert_eq!(CookieParseError::InvalidCookie.to_string(), "invalid cookie format");
}

#[test]
fn same_site_names() {
    assert_eq!(SameSite::from_str("STRICT"), Ok(SameSite::Strict));
    assert_eq!(SameSite::from_str("none"), Ok(SameSite::NoRestriction));
    assert!(SameSite::from_str("nope").is_err());
    assert_eq!(SameSite::NoRestriction.to_string(), "None");
}

#[test]
fn deleted_cookie_is_emptied_and_expired() {
    let mut cookies = Cookies::new();
    cookies.set(Builder::new("a", "1").build());
    let d = cookies.del("a").unwrap().clone();
    assert_eq!(d.value(), "");
    assert_eq!(d.expires(), Some("Thu, 01 Jan 1970 00:00:00 GMT"));
    assert_eq!(cookies.iter().len(), 1);
    cookies.set(Builder::new("a", "2").build());
    assert_eq!(cookies.iter().len(), 1);
}

#[test]
fn cookies_come_from_cookie_headers_and_go_to_set_cookie_headers() {
    let mut h = Headers::new();
    h.append("cookie".to_string(), "a=1".to_string());
    h.append("Accept".to_string(), "b=2".to_string());
    h.append("Cookie".to_string(), "bad".to_string());
    h.append("COOKIE".to_string(), "c=3; Secure".to_string());
    let cookies = Cookies::from_headers(&h);
    assert_eq!(cookies.len(), 2);
    assert_eq!(cookies.get("c").unwrap().is_secure(), true);
    let out = cookies.into_headers();
    assert_eq!(out.get_all("Set-Cookie"), vec!["a=1".to_string(), "c=3; Secure".to_string()]);
}
