//! Tests for environment classification and request assembly.

use dumb_cgi::request::body_plan;
use dumb_cgi::request::classify_env;
use dumb_cgi::request::parse_usize;
use dumb_cgi::Body;
use dumb_cgi::BodyPlan;
use dumb_cgi::BodyRead;
use dumb_cgi::Query;
use dumb_cgi::Request;

fn env(pairs: &[(&str, &str)]) -> Vec<(String, String)> {
    pairs.iter().map(|(k, v)| (k.to_string(), v.to_string())).collect()
}

#[test]
fn http_prefixed_keys_become_headers() {
    let (vars, headers) = classify_env(&env(&[
        ("HTTP_X_CUSTOM_HEADER", "yes"),
        ("REQUEST_METHOD", "GET"),
    ]));
    assert_eq!(headers.get("x-custom-header"), Some("yes"));
    assert_eq!(headers.get("request-method"), None);
    assert_eq!(vars.get("REQUEST_METHOD"), Some("GET"));
    assert_eq!(vars.get("HTTP_X_CUSTOM_HEADER"), None);
}

#[test]
fn colliding_header_keys_last_write_wins() {
    let (_vars, headers) = classify_env(&env(&[
        ("HTTP_X_KEY", "first"),
        ("HTTP_X_kEy", "second"),
    ]));
    assert_eq!(headers.get("x-key"), Some("second"));
    assert_eq!(headers.len(), 1);
}

#[test]
fn var_keys_are_upper_cased() {
    let (vars, _headers) = classify_env(&env(&[("path_info", "/x")]));
    assert_eq!(vars.get("PATH_INFO"), Some("/x"));
}

#[test]
fn later_env_entries_overwrite_earlier() {
    let (vars, _headers) = classify_env(&env(&[("A", "1"), ("a", "2")]));
    assert_eq!(vars.get("A"), Some("2"));
    assert_eq!(vars.len(), 1);
}

#[test]
fn parse_usize_accepts_digits_and_plus() {
    assert_eq!(parse_usize("123"), Some(123));
    assert_eq!(parse_usize("+123"), Some(123));
    assert_eq!(parse_usize("0"), Some(0));
}

#[test]
fn parse_usize_rejects_garbage() {
    assert_eq!(parse_usize(""), None);
    assert_eq!(parse_usize("+"), None);
    assert_eq!(parse_usize("-1"), None);
    assert_eq!(parse_usize(" 1"), None);
    assert_eq!(parse_usize("1a"), None);
    assert_eq!(parse_usize("18446744073709551616"), None);
}

#[test]
fn body_plan_follows_content_length() {
    let (_vars, headers) = classify_env(&env(&[("HTTP_CONTENT_LENGTH", "42")]));
    assert!(matches!(body_plan(&headers), BodyPlan::Read(42)));

    let (_vars, headers) = classify_env(&env(&[("HTTP_CONTENT_LENGTH", "nope")]));
    assert!(matches!(body_plan(&headers), BodyPlan::BadLength));

    let (_vars, headers) = classify_env(&env(&[("REQUEST_METHOD", "GET")]));
    assert!(matches!(body_plan(&headers), BodyPlan::NoBody));
}

#[test]
fn no_content_length_means_no_body() {
    let (vars, headers) = classify_env(&env(&[("REQUEST_METHOD", "GET")]));
    let req = Request::assemble(vars, headers, BodyRead::Skipped);
    assert!(matches!(req.body(), Body::Absent));
    assert!(matches!(req.query(), Query::Absent));
}

#[test]
fn bad_content_length_is_an_error_but_query_still_parses() {
    let (vars, headers) = classify_env(&env(&[
        ("HTTP_CONTENT_LENGTH", "many"),
        ("QUERY_STRING", "a=1"),
    ]));
    let req = Request::assemble(vars, headers, BodyRead::Skipped);
    match req.body() {
        Body::Failed(e) => assert_eq!(e.code, 400),
        _ => panic!("expected a failed body"),
    }
    match req.query() {
        Query::Parsed(m) => assert_eq!(m.get("a"), Some("1")),
        _ => panic!("expected a parsed query"),
    }
}

#[test]
fn failed_read_is_a_server_error() {
    let (vars, headers) = classify_env(&env(&[("HTTP_CONTENT_LENGTH", "5")]));
    let req = Request::assemble(vars, headers, BodyRead::IoFailed("broken pipe".to_string()));
    match req.body() {
        Body::Failed(e) => {
            assert_eq!(e.code, 500);
            assert_eq!(e.details, "broken pipe");
        },
        _ => panic!("expected a failed body"),
    }
}

#[test]
fn plain_body_is_kept_opaque() {
    let (vars, headers) = classify_env(&env(&[
        ("HTTP_CONTENT_LENGTH", "5"),
        ("HTTP_CONTENT_TYPE", "text/plain"),
    ]));
    let req = Request::assemble(vars, headers, BodyRead::Got(b"hello".to_vec()));
    match req.body() {
        Body::Opaque(bytes) => assert_eq!(bytes, b"hello"),
        _ => panic!("expected an opaque body"),
    }
}

#[test]
fn multipart_body_is_parsed() {
    let body = b"--XYZ\r\nContent-Disposition: form-data; name=\"a\"\r\n\r\nhello\r\n--XYZ--\r\n";
    let (vars, headers) = classify_env(&env(&[
        ("HTTP_CONTENT_LENGTH", &body.len().to_string()),
        ("HTTP_CONTENT_TYPE", "multipart/form-data; boundary=XYZ"),
    ]));
    let req = Request::assemble(vars, headers, BodyRead::Got(body.to_vec()));
    match req.body() {
        Body::Multipart(parts) => {
            assert_eq!(parts.len(), 1);
            assert_eq!(parts[0].body, b"hello");
        },
        _ => panic!("expected a multipart body"),
    }
}

#[test]
fn multipart_without_boundary_parameter_is_an_error() {
    let (vars, headers) = classify_env(&env(&[
        ("HTTP_CONTENT_LENGTH", "4"),
        ("HTTP_CONTENT_TYPE", "multipart/form-data"),
    ]));
    let req = Request::assemble(vars, headers, BodyRead::Got(b"data".to_vec()));
    match req.body() {
        Body::Failed(e) => assert_eq!(e.code, 400),
        _ => panic!("expected a failed body"),
    }
}

#[test]
fn bad_query_string_is_scoped_to_the_query() {
    let (vars, headers) = classify_env(&env(&[("QUERY_STRING", "oops")]));
    let req = Request::assemble(vars, headers, BodyRead::Skipped);
    assert!(matches!(req.query(), Query::Failed(_)));
    assert!(matches!(req.body(), Body::Absent));
}

#[test]
fn var_lookup_upper_cases_its_argument() {
    let (vars, headers) = classify_env(&env(&[("REQUEST_METHOD", "POST")]));
    let req = Request::assemble(vars, headers, BodyRead::Skipped);
    assert_eq!(req.var("request_method"), Some("POST"));
    assert_eq!(req.var("REQUEST_METHOD"), Some("POST"));
    assert_eq!(req.var("missing"), None);
}

#[test]
fn header_lookup_normalizes_its_argument() {
    let (vars, headers) = classify_env(&env(&[("HTTP_CONTENT_TYPE", "text/x")]));
    let req = Request::assemble(vars, headers, BodyRead::Skipped);
    assert_eq!(req.header("Content_Type"), Some("text/x"));
    assert_eq!(req.header("content-type"), Some("text/x"));
    assert_eq!(req.header("x-missing"), None);
}

#[test]
fn vars_iteration_covers_all_pairs() {
    let (vars, headers) = classify_env(&env(&[("A", "1"), ("B", "2")]));
    let req = Request::assemble(vars, headers, BodyRead::Skipped);
    let all = req.vars();
    assert_eq!(all.len(), 2);
    let mut seen = Vec::new();
    for i in 0..all.len() {
        let (k, v) = all.get(i);
        seen.push((k.to_string(), v.to_string()));
    }
    seen.sort();
    assert_eq!(seen[0], ("A".to_string(), "1".to_string()));
    assert_eq!(seen[1], ("B".to_string(), "2".to_string()));
}
