use requestr::HttpMethod;
use requestr::RequestConfig;
use requestr::RequestrError;
use requestr::classify_method;
use requestr::default_header;

fn b(s: &str) -> Vec<u8> {
    s.as_bytes().to_vec()
}

#[test]
fn default_header_is_empty() {
    let h = default_header();
    assert_eq!(h.len(), 0);
    assert_eq!(h.get(&b("Accept")), None);
}

#[test]
fn classify_absent_method_is_get() {
    assert_eq!(classify_method(&None), Ok(HttpMethod::Get));
}

#[test]
fn classify_known_methods_any_case() {
    assert_eq!(classify_method(&Some(b("GET"))), Ok(HttpMethod::Get));
    assert_eq!(classify_method(&Some(b("get"))), Ok(HttpMethod::Get));
    assert_eq!(classify_method(&Some(b("PoSt"))), Ok(HttpMethod::Post));
    assert_eq!(classify_method(&Some(b("delete"))), Ok(HttpMethod::Delete));
    assert_eq!(classify_method(&Some(b("put"))), Ok(HttpMethod::Put));
    assert_eq!(classify_method(&Some(b("patch"))), Ok(HttpMethod::Patch));
}

#[test]
fn classify_unknown_method_fails_with_uppercased_name() {
    match classify_method(&Some(b("head"))) {
        Err(RequestrError::BrokenRequestConfig(name)) => assert_eq!(name, b("HEAD")),
        _ => panic!("expected a broken-request-config failure"),
    }
    match classify_method(&Some(b(""))) {
        Err(RequestrError::BrokenRequestConfig(name)) => assert_eq!(name, b("")),
        _ => panic!("expected a broken-request-config failure"),
    }
}

#[test]
fn request_config_holds_plain_fields() {
    let mut header = default_header();
    header.insert(b("Accept"), b("application/json"));
    let cfg = RequestConfig {
        url: b("http://example.test/api"),
        header,
        body: Some(b("payload")),
        method: Some(b("post")),
    };
    assert_eq!(cfg.url, b("http://example.test/api"));
    assert_eq!(cfg.header.get(&b("Accept")), Some(&b("application/json")));
    assert_eq!(classify_method(&cfg.method), Ok(HttpMethod::Post));
}
