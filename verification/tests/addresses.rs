use scour::address::{check, drop_slash, is_internal_host, normalize_url, parse_octet, validate, UrlError};
use scour::bindings::url::UrlParts;

#[test]
fn rejects_local_schemes() {
    assert!(validate("https://example.com").is_ok());
    assert!(validate("file:///etc/passwd").is_err());
    assert!(validate("not a url").is_err());
}

#[test]
fn normalize_strips_fragment() {
    assert_eq!(normalize_url("https://example.com/a#frag"), "https://example.com/a");
    assert_eq!(normalize_url("https://example.com/b/"), "https://example.com/b");
}

#[test]
fn normal_forms() {
    assert_eq!(normalize_url("HTTP://Example.COM"), "http://example.com");
    assert_eq!(normalize_url("not a url/"), "not a url/");
    assert_eq!(drop_slash("http://a"), "http://a");
    assert_eq!(drop_slash("http:///"), "http:///");
    assert_eq!(drop_slash("http://a/"), "http://a");
}

#[test]
fn errors_are_worded() {
    assert!(matches!(validate("not a url"), Err(UrlError::Invalid(_))));
    assert_eq!(
        validate("not a url").err().unwrap().message(),
        "relative URL without a base"
    );
    assert_eq!(
        validate("ftp://example.com").err().unwrap().message(),
        "refusing non-http scheme: ftp"
    );
    assert_eq!(
        validate("http://127.0.0.1:80/x").err().unwrap().message(),
        "refusing private/loopback/link-local IP: 127.0.0.1"
    );
}

#[test]
fn internal_hosts_are_refused() {
    for host in [
        "127.0.0.1", "127.255.255.255", "0.0.0.0", "10.0.0.1", "172.16.0.1", "172.31.255.255",
        "192.168.1.1", "169.254.169.254",
    ] {
        assert!(is_internal_host(host), "{host}");
        assert!(validate(&format!("http://{host}/")).is_err());
    }
    for host in [
        "126.0.0.1", "0.0.0.1", "11.0.0.1", "172.15.0.1", "172.32.0.1", "192.167.1.1",
        "169.253.1.1", "8.8.8.8", "example.com", "127.0.0", "127.0.0.1.2", "127.0.0.01",
        "127.0.0.256", "127.0.0.", "", "localhost", "[::1]",
    ] {
        assert!(!is_internal_host(host), "{host}");
    }
    // The parser writes numeric hosts in full before they are looked at.
    assert!(validate("http://0x7f.1/").is_err());
    assert!(validate("http://8.8.8.8/").is_ok());
}

#[test]
fn octets() {
    assert_eq!(parse_octet("0"), Some(0));
    assert_eq!(parse_octet("255"), Some(255));
    for s in ["256", "00", "01", "", "-1", "+1", "1a", "99999999999999999999"] {
        assert_eq!(parse_octet(s), None, "{s}");
    }
}

#[test]
fn parts_are_checked() {
    let mut u = UrlParts {
        text: "gopher://h/".to_string(),
        scheme: "gopher".to_string(),
        host: Some("h".to_string()),
    };
    assert!(matches!(check(&u), Err(UrlError::Scheme(s)) if s == "gopher"));
    u.scheme = "https".to_string();
    assert!(check(&u).is_ok());
    u.host = Some("10.1.2.3".to_string());
    assert!(matches!(check(&u), Err(UrlError::Internal(h)) if h == "10.1.2.3"));
    u.host = None;
    assert!(check(&u).is_ok());
}
