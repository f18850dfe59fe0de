//! Tests for percent-decoding and byte scanning.

use dumb_cgi::decode::url_decode;
use dumb_cgi::scan::slicey_find;

#[test]
fn decode_plus_and_escape() {
    assert_eq!(url_decode("a+b%20c").unwrap(), "a b c");
}

#[test]
fn decode_plain_passthrough() {
    assert_eq!(url_decode("hello-world_99.txt").unwrap(), "hello-world_99.txt");
}

#[test]
fn decode_empty_string() {
    assert_eq!(url_decode("").unwrap(), "");
}

#[test]
fn decode_truncated_escape_fails() {
    assert_eq!(
        url_decode("abc%2").unwrap_err(),
        "Query string ended during escape sequence."
    );
}

#[test]
fn decode_lone_percent_fails() {
    assert_eq!(
        url_decode("100%").unwrap_err(),
        "Query string ended during escape sequence."
    );
}

#[test]
fn decode_bad_hex_fails() {
    assert_eq!(
        url_decode("%G1").unwrap_err(),
        "Error %-decoding at index 0: invalid hexadecimal digits"
    );
    assert_eq!(
        url_decode("ab%+5").unwrap_err(),
        "Error %-decoding at index 2: invalid hexadecimal digits"
    );
}

#[test]
fn decode_hex_case_insensitive() {
    assert_eq!(url_decode("%2F").unwrap(), "/");
    assert_eq!(url_decode("%2f").unwrap(), "/");
}

#[test]
fn decode_multibyte_utf8() {
    assert_eq!(url_decode("caf%C3%A9").unwrap(), "café");
}

#[test]
fn decode_invalid_utf8_fails() {
    assert_eq!(url_decode("%FF").unwrap_err(), "%-decoded query string not UTF-8");
}

#[test]
fn find_locates_first_occurrence() {
    assert_eq!(slicey_find(b"abcabc", b"bc"), Some(1));
    assert_eq!(slicey_find(b"abcabc", b"ca"), Some(2));
    assert_eq!(slicey_find(b"abc", b"abc"), Some(0));
}

#[test]
fn find_missing_needle() {
    assert_eq!(slicey_find(b"abcabc", b"zz"), None);
    assert_eq!(slicey_find(b"ab", b"abc"), None);
}

#[test]
fn find_empty_needle_is_none() {
    assert_eq!(slicey_find(b"abc", b""), None);
}
