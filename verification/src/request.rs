//! The `Request` type: the assembled view of one CGI request, built from
//! the classified environment and the request body handed in by the
//! embedding program.
//!
//! The embedding program enumerates the environment and reads the standard
//! input stream; everything here works on the plain values it hands in.
//! `classify_env` sorts the environment into variables and exposed
//! headers, `body_plan` says whether and how many body bytes to read, and
//! `Request::assemble` puts the full request view together.

use crate::multipart::multipart_body_result;
use crate::multipart::read_multipart_body;
use crate::multipart::MultipartPart;
use crate::query::parse_query_string;
use crate::query::query_result_matches;
use crate::scan::first_match_from;
use crate::scan::lemma_first_match_from;
use crate::scan::lemma_first_match_skip;
use crate::scan::slicey_find;
use crate::strmap::kv_of;
use crate::strmap::StrMap;
use crate::text::header_norm_chars;
use crate::text::lower_char_exec;
use crate::text::normalize_header_name;
use crate::text::push_char;
use crate::text::upper_chars;
use crate::text::upper_string;
use crate::Error;
use vstd::prelude::*;
use vstd::slice::slice_subrange;
use vstd::string::StrSliceExecFns;
use vstd::string::StringExecFns;
use vstd::utf8::encode_utf8;

verus! {

/// What became of the request's query string.
pub enum Query {
    /// No `QUERY_STRING` environment variable was present.
    Absent,
    /// The query string was split into `name=value` pairs and
    /// percent-decoded.
    Parsed(StrMap),
    /// The query string was malformed; the error says why.
    Failed(Error),
}

/// What became of the request's body.
pub enum Body {
    /// The request has no `content-length` header, so no body was read.
    Absent,
    /// A body was read and its content type is not `multipart/form-data`:
    /// the raw bytes, unparsed.
    Opaque(Vec<u8>),
    /// A `multipart/form-data` body, split into its parts.
    Multipart(Vec<MultipartPart>),
    /// The body could not be read or parsed; the error says why.
    Failed(Error),
}

/// True for environment keys that carry a forwarded HTTP header: those
/// that begin with `HTTP_`.
pub open spec fn is_http_key(k: Seq<char>) -> bool {
    k.len() >= 5 && k[0] == 'H' && k[1] == 'T' && k[2] == 'T' && k[3] == 'P' && k[4] == '_'
}

/// How the environment is classified: a key beginning with `HTTP_` has the
/// prefix stripped and the rest header-normalized (underscores to hyphens,
/// lower-cased) and goes to the header map; any other key is upper-cased
/// and goes to the variable map.  Later entries overwrite earlier ones.
pub open spec fn classify(env: Seq<(Seq<char>, Seq<char>)>) -> (
    Map<Seq<char>, Seq<char>>,
    Map<Seq<char>, Seq<char>>,
)
    decreases env.len(),
{
    if env.len() == 0 {
        (Map::empty(), Map::empty())
    } else {
        let (vm, hm) = classify(env.drop_last());
        let kv = env.last();
        if is_http_key(kv.0) {
            (vm, hm.insert(header_norm_chars(kv.0.skip(5)), kv.1))
        } else {
            (vm.insert(upper_chars(kv.0), kv.1), hm)
        }
    }
}

/// The header name an `HTTP_`-prefixed environment key stands for.
fn header_key_from(k: &str) -> (r: String)
    requires
        k@.len() >= 5,
    ensures
        r@ == header_norm_chars(k@.skip(5)),
{
    let n = k.unicode_len();
    let mut out = String::new();
    let mut i: usize = 5;
    proof {
        assert(k@.skip(5).take(0) =~= Seq::<char>::empty());
        assert(out@ =~= header_norm_chars(k@.skip(5).take(0)));
    }
    while i < n
        invariant
            5 <= i <= n,
            n == k@.len(),
            out@ == header_norm_chars(k@.skip(5).take(i - 5)),
        decreases n - i,
    {
        let c = k.get_char(i);
        if c == '_' {
            push_char(&mut out, '-');
        } else {
            push_char(&mut out, lower_char_exec(c));
        }
        proof {
            assert(k@.skip(5).take(i - 5 + 1).drop_last() =~= k@.skip(5).take(i - 5));
            assert(out@ =~= header_norm_chars(k@.skip(5).take(i - 5 + 1)));
        }
        i = i + 1;
    }
    proof {
        assert(k@.skip(5).take(n - 5) =~= k@.skip(5));
    }
    out
}

/// Classify the environment into plain variables and exposed headers.
pub fn classify_env(env: &Vec<(String, String)>) -> (r: (StrMap, StrMap))
    ensures
        (r.0@, r.1@) == classify(kv_of(env@)),
{
    let n = env.len();
    let mut vars = StrMap::new();
    let mut headers = StrMap::new();
    let mut i: usize = 0;
    proof {
        assert(kv_of(env@.take(0)) =~= Seq::<(Seq<char>, Seq<char>)>::empty());
    }
    while i < n
        invariant
            i <= n,
            n == env@.len(),
            (vars@, headers@) == classify(kv_of(env@.take(i as int))),
        decreases n - i,
    {
        let k = &env[i].0;
        let v = &env[i].1;
        let is_http = k.as_str().unicode_len() >= 5 && k.as_str().get_char(0) == 'H'
            && k.as_str().get_char(1) == 'T' && k.as_str().get_char(2) == 'T'
            && k.as_str().get_char(3) == 'P' && k.as_str().get_char(4) == '_';
        if is_http {
            let hk = header_key_from(k.as_str());
            headers.set(hk, v.clone());
        } else {
            let uk = upper_string(k.as_str());
            vars.set(uk, v.clone());
        }
        proof {
            assert(kv_of(env@.take(i + 1)).drop_last() =~= kv_of(env@.take(i as int)));
            assert(kv_of(env@.take(i + 1)).last() == (k@, v@));
        }
        i = i + 1;
    }
    proof {
        assert(env@.take(n as int) =~= env@);
    }
    (vars, headers)
}

/// True for decimal digit characters.
pub open spec fn is_digit_char(c: char) -> bool {
    48 <= c as u32 <= 57
}

/// The value of a sequence of decimal digit characters, most significant
/// first.
pub open spec fn digits_value(s: Seq<char>) -> int
    decreases s.len(),
{
    if s.len() == 0 {
        0
    } else {
        digits_value(s.drop_last()) * 10 + (s.last() as u32 - 48)
    }
}

/// The number a digit sequence stands for: one or more decimal digits
/// whose value fits in `usize`.
pub open spec fn parse_usize_spec_of(digits: Seq<char>) -> Option<usize> {
    if digits.len() >= 1 && (forall|i: int|
        0 <= i < digits.len() ==> is_digit_char(#[trigger] digits[i])) && digits_value(digits)
        <= usize::MAX {
        Some(digits_value(digits) as usize)
    } else {
        None
    }
}

/// The number a string stands for, as `str::parse::<usize>` reads it: an
/// optional leading `+`, then one or more decimal digits, whose value must
/// fit in `usize`.
pub open spec fn parse_usize_spec(s: Seq<char>) -> Option<usize> {
    if s.len() >= 1 && s[0] == '+' {
        parse_usize_spec_of(s.skip(1))
    } else {
        parse_usize_spec_of(s)
    }
}

/// The value of a digit sequence is never below the value of any prefix.
proof fn lemma_digits_value_prefix(s: Seq<char>, k: int)
    requires
        0 <= k <= s.len(),
        forall|i: int| 0 <= i < s.len() ==> is_digit_char(#[trigger] s[i]),
    ensures
        digits_value(s.take(k)) >= 0,
        digits_value(s) >= digits_value(s.take(k)),
    decreases s.len(),
{
    if s.len() == 0 {
        assert(s.take(k) =~= s);
    } else if k == s.len() {
        lemma_digits_value_prefix(s.drop_last(), k - 1);
        assert(s.take(k) =~= s);
        assert(s.drop_last().take(k - 1) =~= s.drop_last());
    } else {
        assert(s.drop_last().take(k) =~= s.take(k));
        lemma_digits_value_prefix(s.drop_last(), k);
        assert(digits_value(s) == digits_value(s.drop_last()) * 10 + (s.last() as u32 - 48));
        assert(digits_value(s.drop_last()) * 10 >= digits_value(s.drop_last())) by {
            lemma_digits_value_prefix(s.drop_last(), s.len() - 1);
            assert(s.drop_last().take(s.len() - 1) =~= s.drop_last());
        }
    }
}

/// Parse a string as a non-negative integer, accepting an optional
/// leading `+`.
pub fn parse_usize(s: &str) -> (r: Option<usize>)
    ensures
        r == parse_usize_spec(s@),
{
    let n = s.unicode_len();
    let mut start: usize = 0;
    if n >= 1 && s.get_char(0) == '+' {
        start = 1;
    }
    let ghost digits = if s@.len() >= 1 && s@[0] == '+' {
        s@.skip(1)
    } else {
        s@
    };
    proof {
        assert(digits =~= s@.skip(start as int));
    }
    if start == n {
        return None;
    }
    let mut acc: usize = 0;
    let mut i: usize = start;
    proof {
        assert(digits.take(0) =~= Seq::<char>::empty());
    }
    while i < n
        invariant
            start <= i <= n,
            n == s@.len(),
            digits == s@.skip(start as int),
            digits.len() >= 1,
            parse_usize_spec(s@) == parse_usize_spec_of(digits),
            acc == digits_value(digits.take(i - start)),
            forall|j: int| 0 <= j < i - start ==> is_digit_char(#[trigger] digits[j]),
        decreases n - i,
    {
        let c = s.get_char(i);
        let u = c as u32;
        if !(48 <= u && u <= 57) {
            proof {
                assert(digits[i - start] == s@[i as int]);
                assert(!is_digit_char(digits[i - start]));
            }
            return None;
        }
        let d = (u - 48) as usize;
        let acc10 = match acc.checked_mul(10) {
            Some(x) => x,
            None => {
                proof {
                    lemma_parse_overflow(digits, i - start, acc as int, d as int);
                }
                return None;
            },
        };
        acc = match acc10.checked_add(d) {
            Some(x) => x,
            None => {
                proof {
                    lemma_parse_overflow(digits, i - start, acc as int, d as int);
                }
                return None;
            },
        };
        proof {
            assert(digits.take(i - start + 1).drop_last() =~= digits.take(i - start));
            assert(digits.take(i - start + 1).last() == digits[i - start]);
        }
        i = i + 1;
    }
    proof {
        assert(digits.take(n - start) =~= digits);
    }
    Some(acc)
}

/// If the digits seen so far already push the value past `usize::MAX`, the
/// whole string parses to nothing.
proof fn lemma_parse_overflow(digits: Seq<char>, k: int, acc: int, d: int)
    requires
        0 <= k < digits.len(),
        acc == digits_value(digits.take(k)),
        is_digit_char(digits[k]),
        d == digits[k] as u32 - 48,
        acc * 10 + d > usize::MAX,
    ensures
        parse_usize_spec_of(digits) is None,
{
    if forall|i: int| 0 <= i < digits.len() ==> is_digit_char(#[trigger] digits[i]) {
        assert(digits.take(k + 1).drop_last() =~= digits.take(k));
        assert(digits.take(k + 1).last() == digits[k]);
        assert(digits_value(digits.take(k + 1)) == acc * 10 + d);
        lemma_digits_value_prefix(digits, k + 1);
    }
}

/// The header that carries the body length.
pub open spec fn content_length_key() -> Seq<char> {
    "content-length"@
}

/// The header that carries the body's media type.
pub open spec fn content_type_key() -> Seq<char> {
    "content-type"@
}

/// Whether a body should be read, and how many bytes.
pub enum BodyPlan {
    /// No `content-length` header: no body to read.
    NoBody,
    /// The `content-length` header does not parse as a non-negative
    /// integer.
    BadLength,
    /// Read exactly this many bytes from the input stream.
    Read(usize),
}

/// Decide from the exposed headers whether a body should be read, and how
/// many bytes.
pub fn body_plan(headers: &StrMap) -> (r: BodyPlan)
    ensures
        ({
            let h = headers@;
            if !h.dom().contains(content_length_key()) {
                r == BodyPlan::NoBody
            } else {
                match parse_usize_spec(h[content_length_key()]) {
                    Some(len) => r == BodyPlan::Read(len),
                    None => r == BodyPlan::BadLength,
                }
            }
        }),
{
    match headers.get("content-length") {
        None => BodyPlan::NoBody,
        Some(v) => match parse_usize(v) {
            Some(len) => BodyPlan::Read(len),
            None => BodyPlan::BadLength,
        },
    }
}

/// The media type marker that announces a multipart body.
pub open spec fn multipart_marker() -> Seq<u8> {
    encode_utf8("multipart/form-data"@)
}

/// The parameter that carries the boundary token.
pub open spec fn boundary_marker() -> Seq<u8> {
    encode_utf8("boundary="@)
}

/// What dispatching body bytes on the content type yields: the raw bytes
/// when there is no content type or it is not multipart; an error when the
/// multipart marker is present but no boundary parameter follows it; and
/// otherwise the multipart parse against the boundary token, which is
/// everything after the first `boundary=` past the marker.
pub open spec fn dispatch_matches(r: Body, bytes: Seq<u8>, ct: Option<Seq<char>>) -> bool {
    match ct {
        None => r matches Body::Opaque(b) && b@ == bytes,
        Some(ctv) => {
            let cb = encode_utf8(ctv);
            match first_match_from(cb, multipart_marker(), 0) {
                None => r matches Body::Opaque(b) && b@ == bytes,
                Some(mi) => match first_match_from(
                    cb,
                    boundary_marker(),
                    mi + multipart_marker().len(),
                ) {
                    None => r matches Body::Failed(e) && e.code == 400 && e.message@
                        == "Content-type: multipart/form-data lacks valid boundary specification."@,
                    Some(bi) => multipart_body_result(
                        r,
                        bytes,
                        cb.subrange(bi + boundary_marker().len(), cb.len() as int),
                    ),
                },
            }
        },
    }
}

/// Dispatch already-read body bytes on the request's content type: parse
/// them as multipart when the content type calls for it, keep them as
/// plain bytes otherwise.
pub fn body_from_bytes(body_bytes: Vec<u8>, content_type: Option<&str>) -> (r: Body)
    ensures
        ({
            let ct = match content_type {
                Some(c) => Some(c@),
                None => None,
            };
            dispatch_matches(r, body_bytes@, ct)
        }),
{
    let ct = match content_type {
        None => {
            return Body::Opaque(body_bytes);
        },
        Some(c) => c,
    };
    let cb = ct.as_bytes();
    let cn = cb.len();
    let marker = "multipart/form-data".as_bytes();
    let mi = match slicey_find(cb, marker) {
        None => {
            return Body::Opaque(body_bytes);
        },
        Some(x) => x,
    };
    proof {
        lemma_first_match_from(cb@, marker@, 0);
    }
    let rest_from = mi + marker.len();
    let bmarker = "boundary=".as_bytes();
    let sub = slice_subrange(cb, rest_from, cn);
    proof {
        assert(sub@ =~= cb@.skip(rest_from as int));
    }
    let bi_rel = match slicey_find(sub, bmarker) {
        None => {
            proof {
                lemma_first_match_skip(cb@, bmarker@, rest_from as int);
            }
            let mut details = String::from_str("cannot find boundary in content-type header: ");
            details.append(ct);
            return Body::Failed(
                Error::new(
                    400,
                    "Content-type: multipart/form-data lacks valid boundary specification.",
                    details,
                ),
            );
        },
        Some(x) => x,
    };
    proof {
        lemma_first_match_skip(cb@, bmarker@, rest_from as int);
        lemma_first_match_from(cb@, bmarker@, rest_from as int);
    }
    let bstart = rest_from + bi_rel + bmarker.len();
    let boundary = slice_subrange(cb, bstart, cb.len());
    read_multipart_body(body_bytes.as_slice(), boundary)
}

/// The outcome of one attempt to read the request body, handed in by the
/// embedding program.
pub enum BodyRead {
    /// No read was attempted.
    Skipped,
    /// The read delivered these bytes.
    Got(Vec<u8>),
    /// The read failed; the text says why.
    IoFailed(String),
}

/// What the request's body field holds, given the exposed headers and the
/// outcome of the body read.
pub open spec fn body_outcome_matches(
    b: Body,
    headers: Map<Seq<char>, Seq<char>>,
    body_read: BodyRead,
) -> bool {
    if !headers.dom().contains(content_length_key()) {
        b is Absent
    } else {
        match parse_usize_spec(headers[content_length_key()]) {
            None => b matches Body::Failed(e) && e.code == 400 && e.message@
                == "Invalid Content-length header value."@,
            Some(_len) => match body_read {
                BodyRead::Skipped => b matches Body::Failed(e) && e.code == 500 && e.message@
                    == "Unable to read request body."@,
                BodyRead::IoFailed(d) => b matches Body::Failed(e) && e.code == 500 && e.message@
                    == "Unable to read request body."@ && e.details@ == d@,
                BodyRead::Got(bytes) => dispatch_matches(
                    b,
                    bytes@,
                    if headers.dom().contains(content_type_key()) {
                        Some(headers[content_type_key()])
                    } else {
                        None
                    },
                ),
            },
        }
    }
}

/// Details about the CGI environment and the request that has been made.
pub struct Request {
    vars: StrMap,
    headers: StrMap,
    query: Query,
    body: Body,
}

/// The name/value pairs of one of the request's two maps, for iteration.
pub struct Vars {
    pairs: Vec<(String, String)>,
}

impl View for Vars {
    type V = Seq<(Seq<char>, Seq<char>)>;

    closed spec fn view(&self) -> Seq<(Seq<char>, Seq<char>)> {
        kv_of(self.pairs@)
    }
}

impl Vars {
    /// The number of pairs.
    pub fn len(&self) -> (r: usize)
        ensures
            r == self@.len(),
    {
        self.pairs.len()
    }

    /// The pair at the given position.
    pub fn get(&self, i: usize) -> (r: (&str, &str))
        requires
            i < self@.len(),
        ensures
            (r.0@, r.1@) == self@[i as int],
    {
        let p = &self.pairs[i];
        (p.0.as_str(), p.1.as_str())
    }
}

/// True when the pairs enumerate the map exactly: every pair is in the
/// map, no key repeats, and every key of the map occurs.
pub open spec fn enumerates(pairs: Seq<(Seq<char>, Seq<char>)>, m: Map<Seq<char>, Seq<char>>) -> bool {
    &&& forall|i: int| 0 <= i < pairs.len() ==> m.contains_pair(#[trigger] pairs[i].0, pairs[i].1)
    &&& forall|i: int, j: int| 0 <= i < j < pairs.len() ==> pairs[i].0 != pairs[j].0
    &&& forall|k: Seq<char>|
        m.dom().contains(k) ==> exists|i: int| 0 <= i < pairs.len() && #[trigger] pairs[i].0 == k
}

/// The view bridge for `Vars`: pairs of strings that enumerate a map do
/// so as character sequences too.
proof fn lemma_entries_enumerate(pairs: Seq<(String, String)>, m: Map<Seq<char>, Seq<char>>)
    requires
        forall|i: int| 0 <= i < pairs.len() ==> m.contains_pair(#[trigger] pairs[i].0@, pairs[i].1@),
        forall|i: int, j: int| 0 <= i < j < pairs.len() ==> pairs[i].0@ != pairs[j].0@,
        forall|k: Seq<char>|
            m.dom().contains(k) ==> exists|i: int| 0 <= i < pairs.len() && #[trigger] pairs[i].0@
                == k,
    ensures
        enumerates(kv_of(pairs), m),
{
    let kv = kv_of(pairs);
    assert(forall|i: int| 0 <= i < kv.len() ==> #[trigger] kv[i] == (pairs[i].0@, pairs[i].1@));
    assert forall|k: Seq<char>| m.dom().contains(k) implies exists|i: int|
        0 <= i < kv.len() && #[trigger] kv[i].0 == k by {
        let i = choose|i: int| 0 <= i < pairs.len() && #[trigger] pairs[i].0@ == k;
        assert(kv[i].0 == k);
    }
}

impl Request {
    /// The request's environment variables.
    pub closed spec fn spec_vars(&self) -> Map<Seq<char>, Seq<char>> {
        self.vars@
    }

    /// The request's exposed headers.
    pub closed spec fn spec_headers(&self) -> Map<Seq<char>, Seq<char>> {
        self.headers@
    }

    /// The request's query-string result.
    pub closed spec fn spec_query(&self) -> &Query {
        &self.query
    }

    /// The request's body result.
    pub closed spec fn spec_body(&self) -> &Body {
        &self.body
    }

    /// Assemble the request view from the classified environment and the
    /// outcome of the body read.
    ///
    /// The query string is parsed whenever the `QUERY_STRING` variable is
    /// present, independently of the body.  The body field is an error
    /// when the `content-length` header does not parse, when the read
    /// failed or was skipped although a length was given; otherwise the
    /// bytes are dispatched on the `content-type` header.
    pub fn assemble(vars: StrMap, headers: StrMap, body_read: BodyRead) -> (r: Request)
        ensures
            r.spec_vars() == vars@,
            r.spec_headers() == headers@,
            ({
                if vars@.dom().contains("QUERY_STRING"@) {
                    query_result_matches(*r.spec_query(), vars@["QUERY_STRING"@])
                } else {
                    *r.spec_query() is Absent
                }
            }),
            body_outcome_matches(*r.spec_body(), headers@, body_read),
    {
        let query = match vars.get("QUERY_STRING") {
            Some(q) => parse_query_string(q),
            None => Query::Absent,
        };
        let body = match body_plan(&headers) {
            BodyPlan::NoBody => Body::Absent,
            BodyPlan::BadLength => {
                let mut details = String::from_str(
                    "cannot parse content-length header value: ",
                );
                match headers.get("content-length") {
                    Some(v) => details.append(v),
                    None => (),
                };
                Body::Failed(Error::new(400, "Invalid Content-length header value.", details))
            },
            BodyPlan::Read(_len) => match body_read {
                BodyRead::Got(bytes) => match headers.get("content-type") {
                    Some(ct) => body_from_bytes(bytes, Some(ct)),
                    None => body_from_bytes(bytes, None),
                },
                BodyRead::IoFailed(d) => Body::Failed(
                    Error::new(500, "Unable to read request body.", d),
                ),
                BodyRead::Skipped => Body::Failed(
                    Error::new(
                        500,
                        "Unable to read request body.",
                        String::from_str("the request body was not read"),
                    ),
                ),
            },
        };
        Request { vars, headers, query, body }
    }

    /// Return the value of the environment variable `k`, upper-cased
    /// before the lookup, if it was passed to the program.
    pub fn var<'a>(&'a self, k: &str) -> (r: Option<&'a str>)
        ensures
            match r {
                Some(v) => self.spec_vars().contains_pair(upper_chars(k@), v@),
                None => !self.spec_vars().dom().contains(upper_chars(k@)),
            },
    {
        let modded = upper_string(k);
        self.vars.get(modded.as_str())
    }

    /// Return all `(VARIABLE, value)` pairs of the environment variables
    /// passed to the program.
    pub fn vars(&self) -> (r: Vars)
        ensures
            enumerates(r@, self.spec_vars()),
    {
        let pairs = self.vars.entries();
        proof {
            lemma_entries_enumerate(pairs@, self.vars@);
        }
        Vars { pairs }
    }

    /// Return the value of the header `k`, normalized (underscores to
    /// hyphens, lower-cased) before the lookup, if the web server exposed
    /// it.
    pub fn header<'a>(&'a self, k: &str) -> (r: Option<&'a str>)
        ensures
            match r {
                Some(v) => self.spec_headers().contains_pair(header_norm_chars(k@), v@),
                None => !self.spec_headers().dom().contains(header_norm_chars(k@)),
            },
    {
        let modded = normalize_header_name(k);
        self.headers.get(modded.as_str())
    }

    /// Return all `(header-name, value)` pairs of the headers the web
    /// server exposed to the program.
    pub fn headers(&self) -> (r: Vars)
        ensures
            enumerates(r@, self.spec_headers()),
    {
        let pairs = self.headers.entries();
        proof {
            lemma_entries_enumerate(pairs@, self.headers@);
        }
        Vars { pairs }
    }

    /// Return the request's decoded query string.
    pub fn query(&self) -> (r: &Query)
        ensures
            r == self.spec_query(),
    {
        &self.query
    }

    /// Return the request's body.
    pub fn body(&self) -> (r: &Body)
        ensures
            r == self.spec_body(),
    {
        &self.body
    }
}

} // verus!
