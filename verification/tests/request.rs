use aries::request::{prepare_request, sanitize_url, ReqErr};

#[test]
fn sanitize_adds_scheme_and_slash() {
    assert_eq!(sanitize_url("example.org".to_string()), "gemini://example.org/");
    assert_eq!(sanitize_url("gemini://example.org".to_string()), "gemini://example.org/");
    assert_eq!(sanitize_url("gemini://example.org/".to_string()), "gemini://example.org//");
    assert_eq!(sanitize_url(String::new()), "gemini:///");
    assert_eq!(sanitize_url("gemini:/x".to_string()), "gemini://gemini:/x/");
}

#[test]
fn malformed_url() {
    assert_eq!(prepare_request("http://example.org").err(), Some(ReqErr::MalformedUrl));
    assert_eq!(prepare_request("").err(), Some(ReqErr::MalformedUrl));
}

#[test]
fn request_parts() {
    let r = prepare_request("gemini://example.org/docs/a.gmi").ok().unwrap();
    assert_eq!(r.host, "example.org");
    assert_eq!(r.address, "example.org:1965");
    assert_eq!(r.line, "gemini://example.org/docs/a.gmi\r\n");
}

#[test]
fn request_without_path() {
    let r = prepare_request("gemini://host").ok().unwrap();
    assert_eq!(r.host, "host");
    assert_eq!(r.address, "host:1965");
    let r = prepare_request("gemini:///x").ok().unwrap();
    assert_eq!(r.host, "");
}
