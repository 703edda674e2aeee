use http1::client_ip::{get_ip_from_headers, try_get_ip_from_headers, ClientIp, IpAddress};
use http1::headers::Headers;

fn headers(entries: &[(&str, &str)]) -> Headers {
    let mut h = Headers::new();
    for (n, v) in entries {
        h.append(n.to_string(), v.to_string());
    }
    h
}

#[test]
fn should_take_all_valid_forwarded_for_addresses() {
    let h = headers(&[
        ("X-Forwarded-For", "10.0.0.1"),
        ("x-forwarded-for", "garbage"),
        ("X-FORWARDED-FOR", "::1"),
    ]);
    match get_ip_from_headers(&h) {
        Some(ClientIp::List(v)) => {
            assert_eq!(
                v,
                vec![
                    IpAddress::V4([10, 0, 0, 1]),
                    IpAddress::V6([0, 0, 0, 0, 0, 0, 0, 1])
                ]
            );
        }
        other => panic!("unexpected {:?}", other),
    }
}

#[test]
fn should_fall_back_to_real_ip() {
    let h = headers(&[("X-Forwarded-For", "nope"), ("X-Real-IP", "192.168.1.2")]);
    match get_ip_from_headers(&h) {
        Some(c) => {
            assert_eq!(c.ip(), IpAddress::V4([192, 168, 1, 2]));
            assert_eq!(c.addrs(), vec![IpAddress::V4([192, 168, 1, 2])]);
        }
        None => panic!("no address"),
    }
}

#[test]
fn should_fall_back_to_client_ip() {
    let h = headers(&[("X-Real-IP", "bad"), ("X-Client-IP", "1.2.3.4")]);
    assert!(matches!(
        get_ip_from_headers(&h),
        Some(ClientIp::Ip(IpAddress::V4([1, 2, 3, 4])))
    ));
}

#[test]
fn should_read_forwarded_header() {
    let h = headers(&[
        ("Forwarded", "For=\"10.1.1.1\""),
        ("Forwarded", "by=10.9.9.9"),
        ("Forwarded", "for=10.2.2.2"),
    ]);
    match get_ip_from_headers(&h) {
        Some(ClientIp::List(v)) => assert_eq!(
            v,
            vec![IpAddress::V4([10, 1, 1, 1]), IpAddress::V4([10, 2, 2, 2])]
        ),
        other => panic!("unexpected {:?}", other),
    }
}

#[test]
fn should_give_none_without_address() {
    let h = headers(&[("Host", "example.com")]);
    assert!(get_ip_from_headers(&h).is_none());
}

#[test]
fn should_refuse_malformed_forwarded_value() {
    let h = headers(&[("Forwarded", "fo")]);
    assert!(try_get_ip_from_headers(&h).is_err());
    let h = headers(&[("Forwarded", "for=\"")]);
    assert!(try_get_ip_from_headers(&h).is_err());
    // Not reached: an earlier header gives the address.
    let h = headers(&[("X-Real-IP", "1.1.1.1"), ("Forwarded", "fo")]);
    assert!(matches!(try_get_ip_from_headers(&h), Ok(Some(ClientIp::Ip(_)))));
}
