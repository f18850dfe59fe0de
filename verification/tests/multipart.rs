//! Tests for multipart body splitting and part parsing.

use dumb_cgi::header::match_header;
use dumb_cgi::multipart::read_multipart_body;
use dumb_cgi::multipart::read_multipart_chunk;
use dumb_cgi::Body;

#[test]
fn two_parts_round_trip() {
    let body = b"--XYZ\r\nContent-Disposition: form-data; name=\"a\"\r\n\r\nhello\r\n--XYZ\r\nX-Head: v\r\n\r\nworld!\r\n--XYZ--\r\n";
    match read_multipart_body(body, b"XYZ") {
        Body::Multipart(parts) => {
            assert_eq!(parts.len(), 2);
            assert_eq!(
                parts[0].headers.get("content-disposition"),
                Some("form-data; name=\"a\"")
            );
            assert_eq!(parts[0].body, b"hello");
            assert_eq!(parts[1].headers.get("x-head"), Some("v"));
            assert_eq!(parts[1].body, b"world!");
        },
        _ => panic!("expected a multipart body"),
    }
}

#[test]
fn missing_boundary_is_an_error() {
    match read_multipart_body(b"there is no delimiter in here\r\n", b"XYZ") {
        Body::Failed(e) => {
            assert_eq!(e.code, 400);
            assert_eq!(e.details, "multipart body missing boundary string");
        },
        _ => panic!("expected an error"),
    }
}

#[test]
fn delimiter_without_newline_is_empty_success() {
    match read_multipart_body(b"--XYZjunk that goes on and on", b"XYZ") {
        Body::Multipart(parts) => assert_eq!(parts.len(), 0),
        _ => panic!("expected an empty multipart body"),
    }
}

#[test]
fn delimiter_at_very_end_is_empty_success() {
    match read_multipart_body(b"--XYZ\r\n", b"XYZ") {
        Body::Multipart(parts) => assert_eq!(parts.len(), 0),
        _ => panic!("expected an empty multipart body"),
    }
}

#[test]
fn body_without_closing_delimiter_has_no_parts() {
    match read_multipart_body(b"--XYZ\r\ndata without any end", b"XYZ") {
        Body::Multipart(parts) => assert_eq!(parts.len(), 0),
        _ => panic!("expected a multipart body"),
    }
}

#[test]
fn empty_header_block_keeps_full_payload() {
    let part = read_multipart_chunk(b"\r\npayload");
    assert_eq!(part.headers.len(), 0);
    assert_eq!(part.body, b"payload");
}

#[test]
fn chunk_without_any_newline_is_all_payload() {
    let part = read_multipart_chunk(b"just bytes");
    assert_eq!(part.headers.len(), 0);
    assert_eq!(part.body, b"just bytes");
}

#[test]
fn chunk_headers_stop_at_blank_line() {
    let part = read_multipart_chunk(b"A: 1\r\nB: 2\r\n\r\nbody\r\nwith newline");
    assert_eq!(part.headers.len(), 2);
    assert_eq!(part.headers.get("a"), Some("1"));
    assert_eq!(part.headers.get("b"), Some("2"));
    assert_eq!(part.body, b"body\r\nwith newline");
}

#[test]
fn part_with_binary_payload() {
    let body = b"--B\r\nX: y\r\n\r\n\x00\x01\xFF\r\n--B--";
    match read_multipart_body(body, b"B") {
        Body::Multipart(parts) => {
            assert_eq!(parts.len(), 1);
            assert_eq!(parts[0].body, b"\x00\x01\xFF");
        },
        _ => panic!("expected a multipart body"),
    }
}

#[test]
fn header_line_name_is_normalized() {
    let (k, v) = match_header(b"  Content-Type : text/html  ").unwrap();
    assert_eq!(k, "content-type");
    assert_eq!(v, "text/html  ");
}

#[test]
fn header_line_without_colon_is_no_header() {
    assert!(match_header(b"no separator here").is_none());
}

#[test]
fn header_line_lossy_value() {
    let (k, v) = match_header(b"X: a\xFFb").unwrap();
    assert_eq!(k, "x");
    assert_eq!(v, "a\u{FFFD}b");
}
