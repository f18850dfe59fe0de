//! Tests for query-string parsing.

use dumb_cgi::query::parse_query_string;
use dumb_cgi::Query;

#[test]
fn last_write_wins_on_duplicates() {
    match parse_query_string("a=1&b=2&a=3") {
        Query::Parsed(m) => {
            assert_eq!(m.get("a"), Some("3"));
            assert_eq!(m.get("b"), Some("2"));
            assert_eq!(m.len(), 2);
        },
        _ => panic!("expected a parsed query"),
    }
}

#[test]
fn chunk_without_equals_fails_whole_query() {
    match parse_query_string("a=1&bogus") {
        Query::Failed(e) => {
            assert_eq!(e.code, 400);
            assert_eq!(e.message, "Invalid query string.");
            assert!(e.details.contains("bogus"));
        },
        _ => panic!("expected a failed query"),
    }
}

#[test]
fn empty_query_string_fails() {
    assert!(matches!(parse_query_string(""), Query::Failed(_)));
}

#[test]
fn empty_value_and_empty_name() {
    match parse_query_string("a=&=b") {
        Query::Parsed(m) => {
            assert_eq!(m.get("a"), Some(""));
            assert_eq!(m.get(""), Some("b"));
        },
        _ => panic!("expected a parsed query"),
    }
}

#[test]
fn splits_on_first_equals_only() {
    match parse_query_string("a=b=c") {
        Query::Parsed(m) => {
            assert_eq!(m.get("a"), Some("b=c"));
        },
        _ => panic!("expected a parsed query"),
    }
}

#[test]
fn decodes_both_halves() {
    match parse_query_string("na%6De=v%61lue+1") {
        Query::Parsed(m) => {
            assert_eq!(m.get("name"), Some("value 1"));
        },
        _ => panic!("expected a parsed query"),
    }
}

#[test]
fn bad_escape_in_name_fails() {
    match parse_query_string("a=1&%zz=2&b=3") {
        Query::Failed(e) => assert!(e.details.contains("%zz=2")),
        _ => panic!("expected a failed query"),
    }
}

#[test]
fn bad_escape_in_value_fails() {
    assert!(matches!(parse_query_string("a=%2"), Query::Failed(_)));
}
