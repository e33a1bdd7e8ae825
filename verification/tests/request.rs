use text_runs::request::{
    is_cors_safelisted_language, is_cors_safelisted_request_accept,
    is_cors_safelisted_request_content_type, is_cors_safelisted_request_header,
    is_cors_safelisted_request_range, is_cors_unsafe_request_header_byte, validate_range_header,
};

#[test]
fn test_unsafe_header_bytes() {
    assert!(is_cors_unsafe_request_header_byte(&0x00));
    assert!(is_cors_unsafe_request_header_byte(&b'"'));
    assert!(is_cors_unsafe_request_header_byte(&b'('));
    assert!(is_cors_unsafe_request_header_byte(&0x7F));
    assert!(!is_cors_unsafe_request_header_byte(&b'a'));
    assert!(!is_cors_unsafe_request_header_byte(&b'/'));
    assert!(!is_cors_unsafe_request_header_byte(&b' '));
}

#[test]
fn test_safelisted_accept() {
    assert!(is_cors_safelisted_request_accept(b"text/html,application/xhtml+xml"));
    assert!(!is_cors_safelisted_request_accept(b"text/\"html\""));
}

#[test]
fn test_safelisted_language() {
    assert!(is_cors_safelisted_language(b"en-US,en;q=0.9"));
    assert!(is_cors_safelisted_language(b"*"));
    assert!(!is_cors_safelisted_language(b"en_US"));
}

#[test]
fn test_safelisted_content_type() {
    assert!(is_cors_safelisted_request_content_type(b"text/plain"));
    assert!(is_cors_safelisted_request_content_type(b"text/plain; charset=utf-8"));
    assert!(is_cors_safelisted_request_content_type(b"multipart/form-data; boundary=x"));
    assert!(is_cors_safelisted_request_content_type(b"application/x-www-form-urlencoded"));
    assert!(!is_cors_safelisted_request_content_type(b"application/json"));
    assert!(!is_cors_safelisted_request_content_type(b"not a mime type at all;;"));
    assert!(!is_cors_safelisted_request_content_type(&[0xFF, 0xFE]));
}

#[test]
fn test_validate_range_header_values() {
    assert!(validate_range_header("bytes=0-100"));
    assert!(validate_range_header("bytes=5-"));
    assert!(validate_range_header("bytes=5"));
    assert!(validate_range_header("  bytes=7-9  "));
    assert!(validate_range_header("bytes=+5-+9"));
    assert!(!validate_range_header("bytes=100-5"));
    assert!(!validate_range_header("bytes=abc"));
    assert!(!validate_range_header("byte=0-1"));
    assert!(!validate_range_header("bytes="));
    assert!(!validate_range_header("bytes=-5"));
    assert!(!validate_range_header("bytes=99999999999999999999999999-"));
}

#[test]
fn test_safelisted_range() {
    assert!(is_cors_safelisted_request_range(b"bytes=0-100"));
    assert!(!is_cors_safelisted_request_range(b"bytes=100-0"));
    assert!(!is_cors_safelisted_request_range(&[0xFF]));
}

#[test]
fn test_safelisted_header_dispatch() {
    assert!(is_cors_safelisted_request_header("accept", b"text/html"));
    assert!(!is_cors_safelisted_request_header("accept", b"text/\"html\""));
    assert!(is_cors_safelisted_request_header("accept-language", b"en-US"));
    assert!(is_cors_safelisted_request_header("content-language", b"en"));
    assert!(is_cors_safelisted_request_header("content-type", b"text/plain"));
    assert!(!is_cors_safelisted_request_header("content-type", b"application/json"));
    assert!(is_cors_safelisted_request_header("range", b"bytes=0-9"));
    assert!(!is_cors_safelisted_request_header("x-custom", b"1"));
    let long = vec![b'a'; 129];
    assert!(!is_cors_safelisted_request_header("accept", &long));
    let edge = vec![b'a'; 128];
    assert!(is_cors_safelisted_request_header("accept", &edge));
}
