use base64::Engine;
use ostp::http_upgrade::{build_upgrade_request, build_upgrade_response, find_head_end, generate_ws_key, ws_accept_key};

#[test]
fn rfc6455_accept_vector() {
    assert_eq!(ws_accept_key("dGhlIHNhbXBsZSBub25jZQ=="), "s3pPLMBiTxaQ9kYGzzhZRbK+xOo=");
}

#[test]
fn head_end_includes_blank_line() {
    let req = build_upgrade_request("/p", "h", "k");
    assert_eq!(find_head_end(&req), Some(req.len()));
    let mut more = req.clone();
    more.extend_from_slice(b"\x00\x05hello");
    assert_eq!(find_head_end(&more), Some(req.len()));
    assert_eq!(find_head_end(b"GET / HTTP/1.1\r\n"), None);
}

#[test]
fn generated_keys_are_16_bytes() {
    let k = generate_ws_key();
    let raw = base64::engine::general_purpose::STANDARD.decode(k).unwrap();
    assert_eq!(raw.len(), 16);
}

#[test]
fn responses_name_the_accepted_key() {
    let r = String::from_utf8(build_upgrade_response("abc")).unwrap();
    assert!(r.starts_with("HTTP/1.1 101 "), "{r}");
    assert!(r.contains("Sec-WebSocket-Accept: abc\r\n"), "{r}");
    assert!(r.ends_with("\r\n\r\n"), "{r}");
}
