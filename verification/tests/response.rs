//! Tests for the response builders and their serialization.

use dumb_cgi::Error;
use dumb_cgi::EmptyResponse;

#[test]
fn add_header_concatenates_duplicate_names() {
    let mut r = EmptyResponse::new(200);
    r.add_header("Custom-header", "value0");
    r.add_header("Custom-header", "value1");
    assert_eq!(r.get_header("Custom-header"), Some("value0, value1"));
}

#[test]
fn with_header_builder_concatenates_too() {
    let r = EmptyResponse::new(200)
        .with_header("Custom-header", "value0")
        .with_header("custom-HEADER", "value1");
    assert_eq!(r.get_header("custom-header"), Some("value0, value1"));
}

#[test]
fn get_header_is_case_insensitive() {
    let r = EmptyResponse::new(200).with_header("Cache-Control", "no-store");
    assert_eq!(r.get_header("cache-control"), Some("no-store"));
    assert_eq!(r.get_header("CACHE-CONTROL"), Some("no-store"));
    assert_eq!(r.get_header("x-other"), None);
}

#[test]
fn status_can_be_read_and_changed() {
    let mut r = EmptyResponse::new(200);
    assert_eq!(r.get_status(), 200);
    r.set_status(404);
    assert_eq!(r.get_status(), 404);
}

#[test]
fn with_body_replaces_the_body() {
    let r = EmptyResponse::new(200)
        .with_content_type("text/plain")
        .with_body(b"This is the first body.")
        .with_body(b"This is the second body.");
    assert_eq!(r.get_body(), b"This is the second body.");
}

#[test]
fn append_body_extends_the_body() {
    let mut r = EmptyResponse::new(200).with_content_type("text/plain");
    r.append_body(b"one ");
    r.append_body(b"two");
    assert_eq!(r.get_body(), b"one two");
}

#[test]
fn empty_response_renders_status_line_only() {
    let r = EmptyResponse::new(204);
    assert_eq!(r.render(), b"Status: 204\r\n\r\n");
}

#[test]
fn empty_response_renders_headers_in_insertion_order() {
    let r = EmptyResponse::new(200)
        .with_header("Cache-Control", "no-store")
        .with_header("Request-Status", "logged");
    assert_eq!(
        r.render(),
        b"Cache-Control: no-store\r\nRequest-Status: logged\r\nStatus: 200\r\n\r\n"
    );
}

#[test]
fn explicit_status_header_is_replaced_on_render() {
    let r = EmptyResponse::new(200).with_header("Status", "999 made up");
    assert_eq!(r.render(), b"Status: 200\r\n\r\n");
}

#[test]
fn full_response_renders_content_headers_and_body() {
    let r = EmptyResponse::new(200).with_content_type("text/plain").with_body(b"hi");
    assert_eq!(
        r.render(),
        b"Status: 200\r\nContent-type: text/plain\r\nContent-length: 2\r\n\r\nhi"
    );
}

#[test]
fn full_response_with_empty_body_omits_content_headers() {
    let r = EmptyResponse::new(200).with_content_type("text/plain");
    assert_eq!(r.render(), b"Status: 200\r\n\r\n");
}

#[test]
fn full_response_keeps_custom_headers() {
    let mut r = EmptyResponse::new(201).with_content_type("text/x");
    r.add_header("X-One", "1");
    assert_eq!(r.get_status(), 201);
    assert_eq!(r.get_header("x-one"), Some("1"));
}

#[test]
fn error_describes_itself() {
    let e = Error::new(400, "Bad input.", "detail text".to_string());
    assert_eq!(e.describe(), "detail text (400)");
}

#[test]
fn error_becomes_a_response() {
    let e = Error::new(400, "Bad input.", "detail text".to_string());
    assert_eq!(e.code, 400);
    assert_eq!(e.message, "Bad input.");
    assert_eq!(e.details, "detail text");
    let r = e.to_response();
    assert_eq!(r.get_status(), 400);
    assert_eq!(r.get_body(), b"Bad input.");
}
