//! Parsing of one `Name: value` header line.
//!
//! The name is everything before the first colon, trimmed of surrounding
//! whitespace and lower-cased; the value is everything after the colon with
//! only its leading whitespace removed.  Both halves are lossily converted
//! to UTF-8.  A line without a colon yields no pair: the caller treats such
//! a line as the end of a header block, not as an error.

use crate::scan::first_byte_from;
use crate::scan::lemma_first_byte_from;
use crate::text::is_ws;
use crate::text::is_ws_byte;
use crate::text::lemma_trim_end_bytes;
use crate::text::lemma_trim_start_bytes;
use crate::text::lossy_string;
use crate::text::lossy_utf8;
use crate::text::lower_byte_exec;
use crate::text::lower_bytes;
use crate::text::trim_bytes;
use crate::text::trim_start_bytes;
use vstd::prelude::*;
use vstd::slice::slice_subrange;

verus! {

/// The name/value pair described by one header line, if the line holds a
/// colon.
pub open spec fn header_split_of(line: Seq<u8>) -> Option<(Seq<char>, Seq<char>)> {
    match first_byte_from(line, 58, 0) {
        None => None,
        Some(i) => Some(
            (
                lossy_utf8(lower_bytes(trim_bytes(line.subrange(0, i)))),
                lossy_utf8(trim_start_bytes(line.subrange(i + 1, line.len() as int))),
            ),
        ),
    }
}

/// Parse one header line into its name/value pair, or return `None` when
/// the line holds no colon.
pub fn match_header(bytes: &[u8]) -> (r: Option<(String, String)>)
    ensures
        match r {
            Some(kv) => header_split_of(bytes@) matches Some(p) && kv.0@ == p.0 && kv.1@ == p.1,
            None => header_split_of(bytes@) is None,
        },
{
    let n = bytes.len();
    let sep = match crate::scan::find_byte(bytes, 58) {
        None => {
            return None;
        },
        Some(i) => i,
    };
    proof {
        lemma_first_byte_from(bytes@, 58, 0);
    }
    let ghost name_part = bytes@.subrange(0, sep as int);

    // Trim the name of surrounding whitespace.
    let mut a: usize = 0;
    while a < sep && is_ws(bytes[a])
        invariant
            a <= sep <= n,
            n == bytes@.len(),
            forall|k: int| 0 <= k < a ==> is_ws_byte(bytes@[k]),
        decreases sep - a,
    {
        a = a + 1;
    }
    let mut b: usize = sep;
    while b > a && is_ws(bytes[b - 1])
        invariant
            a <= b <= sep <= n,
            n == bytes@.len(),
            forall|k: int| b <= k < sep ==> is_ws_byte(bytes@[k]),
        decreases b,
    {
        b = b - 1;
    }
    proof {
        assert(forall|k: int| 0 <= k < name_part.len() ==> name_part[k] == bytes@[k]);
        lemma_trim_start_bytes(name_part, a as int);
        let started = name_part.subrange(a as int, sep as int);
        lemma_trim_end_bytes(started, b - a);
        assert(trim_bytes(name_part) =~= bytes@.subrange(a as int, b as int));
    }

    // Lower-case the trimmed name.
    let mut lowered: Vec<u8> = Vec::new();
    let mut j: usize = a;
    while j < b
        invariant
            a <= j <= b <= n,
            n == bytes@.len(),
            lowered@ == lower_bytes(bytes@.subrange(a as int, j as int)),
        decreases b - j,
    {
        lowered.push(lower_byte_exec(bytes[j]));
        proof {
            assert(lowered@ =~= lower_bytes(bytes@.subrange(a as int, j + 1)));
        }
        j = j + 1;
    }
    let name = lossy_string(lowered.as_slice());

    // Trim the value of leading whitespace.
    let ghost value_part = bytes@.subrange(sep + 1, n as int);
    let mut c: usize = sep + 1;
    while c < n && is_ws(bytes[c])
        invariant
            sep + 1 <= c <= n,
            n == bytes@.len(),
            forall|k: int| sep + 1 <= k < c ==> is_ws_byte(bytes@[k]),
        decreases n - c,
    {
        c = c + 1;
    }
    proof {
        assert(forall|k: int|
            0 <= k < value_part.len() ==> value_part[k] == bytes@[k + sep + 1]);
        lemma_trim_start_bytes(value_part, c - (sep + 1));
        assert(trim_start_bytes(value_part) =~= bytes@.subrange(c as int, n as int));
    }
    let value = lossy_string(slice_subrange(bytes, c, n));

    Some((name, value))
}

} // verus!
