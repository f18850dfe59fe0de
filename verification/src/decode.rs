//! Percent-decoding of query-string text: `+` becomes a space, `%XX`
//! becomes the byte with hexadecimal value `XX`, and the decoded bytes
//! must form valid UTF-8.

use vstd::prelude::*;
use vstd::string::StringExecFns;
use vstd::utf8::decode_utf8;
use vstd::utf8::encode_utf8;
use vstd::utf8::valid_utf8;

verus! {

/// The value of an ASCII hexadecimal digit byte.
pub open spec fn hex_digit_value(b: u8) -> Option<u8> {
    if 48 <= b <= 57 {
        Some((b - 48) as u8)
    } else if 65 <= b <= 70 {
        Some((b - 55) as u8)
    } else if 97 <= b <= 102 {
        Some((b - 87) as u8)
    } else {
        None
    }
}

/// Percent-decoding of a byte sequence.  `None` when a `%` is followed by
/// fewer than two bytes or by bytes that are not hexadecimal digits.
pub open spec fn pct_decode(s: Seq<u8>) -> Option<Seq<u8>>
    decreases s.len(),
{
    if s.len() == 0 {
        Some(seq![])
    } else if s[0] == 43 {
        match pct_decode(s.drop_first()) {
            Some(t) => Some(seq![32u8] + t),
            None => None,
        }
    } else if s[0] == 37 {
        if s.len() < 3 {
            None
        } else {
            match (hex_digit_value(s[1]), hex_digit_value(s[2])) {
                (Some(hi), Some(lo)) => match pct_decode(s.skip(3)) {
                    Some(t) => Some(seq![(16 * (hi as int) + (lo as int)) as u8] + t),
                    None => None,
                },
                _ => None,
            }
        }
    } else {
        match pct_decode(s.drop_first()) {
            Some(t) => Some(seq![s[0]] + t),
            None => None,
        }
    }
}

/// Where percent-decoding of `s` first fails, with offsets counted from
/// `at`: the offset of the offending `%`, and whether the input ended
/// inside the escape (`true`: fewer than two bytes follow the `%`;
/// `false`: the two following bytes are not hexadecimal digits).  `None`
/// when decoding succeeds.
pub open spec fn pct_failure_at(s: Seq<u8>, at: int) -> Option<(int, bool)>
    decreases s.len(),
{
    if s.len() == 0 {
        None
    } else if s[0] == 43 {
        pct_failure_at(s.drop_first(), at + 1)
    } else if s[0] == 37 {
        if s.len() < 3 {
            Some((at, true))
        } else if hex_digit_value(s[1]) is Some && hex_digit_value(s[2]) is Some {
            pct_failure_at(s.skip(3), at + 3)
        } else {
            Some((at, false))
        }
    } else {
        pct_failure_at(s.drop_first(), at + 1)
    }
}

/// `o` with `p` prepended to a successful result.
pub open spec fn opt_prepend(p: Seq<u8>, o: Option<Seq<u8>>) -> Option<Seq<u8>> {
    match o {
        Some(t) => Some(p + t),
        None => None,
    }
}

/// The value of an ASCII hexadecimal digit byte.
pub fn hex_value(b: u8) -> (r: Option<u8>)
    ensures
        r == hex_digit_value(b),
{
    if 48 <= b && b <= 57 {
        Some(b - 48)
    } else if 65 <= b && b <= 70 {
        Some(b - 55)
    } else if 97 <= b && b <= 102 {
        Some(b - 87)
    } else {
        None
    }
}

/// Percent-decode a byte slice.  The scan is bounds-checked: a `%` with
/// fewer than two following bytes reports failure rather than reading past
/// the end.
pub fn percent_decode_bytes(s: &[u8]) -> (r: Result<Vec<u8>, (usize, bool)>)
    ensures
        match r {
            Ok(v) => pct_decode(s@) == Some(v@) && pct_failure_at(s@, 0) is None,
            Err(f) => pct_decode(s@) is None && pct_failure_at(s@, 0) == Some(
                (f.0 as int, f.1),
            ),
        },
{
    let n = s.len();
    let mut out: Vec<u8> = Vec::new();
    let mut i: usize = 0;
    proof {
        assert(s@.skip(0) =~= s@);
        if pct_decode(s@) is Some {
            let t = pct_decode(s@)->Some_0;
            assert(out@ + t =~= t);
        }
    }
    while i < n
        invariant
            i <= n,
            n == s@.len(),
            pct_decode(s@) == opt_prepend(out@, pct_decode(s@.skip(i as int))),
            pct_failure_at(s@, 0) == pct_failure_at(s@.skip(i as int), i as int),
        decreases n - i,
    {
        let ghost u = s@.skip(i as int);
        let b = s[i];
        if b == 43 {
            out.push(32);
            proof {
                assert(u.drop_first() =~= s@.skip(i + 1));
                if pct_decode(s@.skip(i + 1)) is Some {
                    let t = pct_decode(s@.skip(i + 1))->Some_0;
                    assert(out@ + t =~= out@.drop_last() + (seq![32u8] + t));
                }
            }
            i = i + 1;
        } else if b == 37 {
            if n - i < 3 {
                return Err((i, true));
            }
            let hi = hex_value(s[i + 1]);
            let lo = hex_value(s[i + 2]);
            match (hi, lo) {
                (Some(h), Some(l)) => {
                    proof {
                        assert(h <= 15 && l <= 15);
                        assert(u[1] == s@[i + 1] && u[2] == s@[i + 2]);
                    }
                    let d = 16 * h + l;
                    out.push(d);
                    proof {
                        assert(u.skip(3) =~= s@.skip(i + 3));
                        if pct_decode(s@.skip(i + 3)) is Some {
                            let t = pct_decode(s@.skip(i + 3))->Some_0;
                            assert(out@ + t =~= out@.drop_last() + (seq![d] + t));
                        }
                    }
                    i = i + 3;
                },
                _ => {
                    proof {
                        assert(u[1] == s@[i + 1] && u[2] == s@[i + 2]);
                    }
                    return Err((i, false));
                },
            }
        } else {
            out.push(b);
            proof {
                assert(u.drop_first() =~= s@.skip(i + 1));
                if pct_decode(s@.skip(i + 1)) is Some {
                    let t = pct_decode(s@.skip(i + 1))->Some_0;
                    assert(out@ + t =~= out@.drop_last() + (seq![b] + t));
                }
            }
            i = i + 1;
        }
    }
    proof {
        assert(s@.skip(n as int) =~= Seq::<u8>::empty());
        assert(out@ + Seq::<u8>::empty() =~= out@);
    }
    Ok(out)
}

/// Decode a percent-and-plus encoded string into UTF-8 text.
///
/// Succeeds exactly when the percent-decoding of the string's bytes
/// succeeds and yields valid UTF-8.  The error text says what went wrong:
/// a string that ends inside an escape, an escape whose two bytes are not
/// hexadecimal digits (naming the byte offset of its `%`), or decoded
/// bytes that are not valid UTF-8.
pub fn url_decode(qstr: &str) -> (r: Result<String, String>)
    ensures
        match r {
            Ok(t) => pct_decode(encode_utf8(qstr@)) matches Some(d) && valid_utf8(d) && t@
                == decode_utf8(d),
            Err(m) => {
                ||| (pct_failure_at(encode_utf8(qstr@), 0) matches Some(f) && f.1 && pct_decode(
                    encode_utf8(qstr@),
                ) is None && m@ == "Query string ended during escape sequence."@)
                ||| (pct_failure_at(encode_utf8(qstr@), 0) matches Some(f) && !f.1 && pct_decode(
                    encode_utf8(qstr@),
                ) is None && m@ == "Error %-decoding at index "@ + crate::text::dec_chars(f.0)
                    + ": invalid hexadecimal digits"@)
                ||| (pct_decode(encode_utf8(qstr@)) matches Some(d) && !valid_utf8(d) && m@
                    == "%-decoded query string not UTF-8"@)
            },
        },
{
    let bytes = qstr.as_bytes();
    match percent_decode_bytes(bytes) {
        Err(f) => {
            if f.1 {
                Err(String::from_str("Query string ended during escape sequence."))
            } else {
                let mut m = String::from_str("Error %-decoding at index ");
                crate::text::push_dec(&mut m, f.0 as u64);
                m.append(": invalid hexadecimal digits");
                Err(m)
            }
        },
        Ok(v) => {
            let ghost dv = v@;
            match crate::text::utf8_string(v) {
                Some(t) => Ok(t),
                None => Err(String::from_str("%-decoded query string not UTF-8")),
            }
        },
    }
}

/// True for byte sequences made of printable ASCII bytes and `%XX` escapes
/// whose hexadecimal value is below 128.
pub open spec fn ascii_encoded(s: Seq<u8>) -> bool
    decreases s.len(),
{
    if s.len() == 0 {
        true
    } else if s[0] == 37 {
        &&& s.len() >= 3
        &&& hex_digit_value(s[1]) matches Some(h) && h < 8
        &&& hex_digit_value(s[2]) is Some
        &&& ascii_encoded(s.skip(3))
    } else {
        32 <= s[0] <= 126 && ascii_encoded(s.drop_first())
    }
}

/// Law: decoding a byte sequence of printable ASCII bytes and well-formed
/// escapes with ASCII values always succeeds, and the decoded bytes are
/// all ASCII.
pub proof fn lemma_ascii_encoded_decodes(s: Seq<u8>)
    requires
        ascii_encoded(s),
    ensures
        pct_decode(s) is Some,
        forall|i: int| 0 <= i < pct_decode(s)->Some_0.len() ==> pct_decode(s)->Some_0[i] < 128,
    decreases s.len(),
{
    if s.len() == 0 {
    } else if s[0] == 37 {
        lemma_ascii_encoded_decodes(s.skip(3));
    } else {
        lemma_ascii_encoded_decodes(s.drop_first());
    }
}

/// A byte sequence whose bytes are all below 128 is valid UTF-8 and
/// decodes to one character per byte, each with the byte's value.
pub proof fn lemma_ascii_bytes_utf8(d: Seq<u8>)
    requires
        forall|i: int| 0 <= i < d.len() ==> d[i] < 128,
    ensures
        valid_utf8(d),
        decode_utf8(d).len() == d.len(),
        forall|i: int| 0 <= i < d.len() ==> decode_utf8(d)[i] as u8 == d[i],
{
    broadcast use vstd::utf8::group_utf8_lib;

    assert(valid_utf8(d.subrange(0, 0)));
    assert(vstd::utf8::partial_valid_utf8(d, 0));
    assert(forall|i: int| 0 <= i < d.len() ==> vstd::utf8::is_leading_byte_width_1(#[trigger] d[i]));
    vstd::utf8::partial_valid_utf8_extend_ascii_block(d, 0, d.len() as int);
    assert(d.subrange(0, d.len() as int) =~= d);
    let c = decode_utf8(d);
    assert(encode_utf8(c) == d);
    lemma_ascii_encoding_ascii_chars(c);
    assert(vstd::utf8::is_ascii_chars(c));
}

/// A character whose scalar value is below 128 is an ASCII character.
proof fn lemma_ascii_char_bound(a: char)
    requires
        a as u32 <= 127,
    ensures
        '\0' <= a <= '\u{7f}',
{
}

/// If the UTF-8 encoding of a character sequence has only bytes below 128,
/// the characters are all ASCII.
proof fn lemma_ascii_encoding_ascii_chars(c: Seq<char>)
    requires
        forall|i: int| 0 <= i < encode_utf8(c).len() ==> encode_utf8(c)[i] < 128,
    ensures
        vstd::utf8::is_ascii_chars(c),
    decreases c.len(),
{
    if c.len() > 0 {
        vstd::utf8::char_is_scalar(c[0]);
        let s0 = c[0] as u32;
        let e = vstd::utf8::encode_scalar(s0);
        assert(encode_utf8(c) == e + encode_utf8(c.drop_first()));
        assert(e.len() >= 1);
        assert(encode_utf8(c)[0] == e[0]);
        if !vstd::utf8::has_width_1_encoding(s0) {
            if vstd::utf8::has_width_2_encoding(s0) {
                let x = ((s0 >> 6) & 0x1F) as u8;
                assert(e[0] == 0xC0u8 | x);
                assert(0xC0u8 | x >= 128) by (bit_vector);
            } else if vstd::utf8::has_width_3_encoding(s0) {
                let x = ((s0 >> 12) & 0x0F) as u8;
                assert(e[0] == 0xE0u8 | x);
                assert(0xE0u8 | x >= 128) by (bit_vector);
            } else {
                let x = ((s0 >> 18) & 0x7) as u8;
                assert(e[0] == 0xF0u8 | x);
                assert(0xF0u8 | x >= 128) by (bit_vector);
            }
            assert(false);
        }
        lemma_ascii_char_bound(c[0]);
        assert forall|i: int|
            0 <= i < encode_utf8(c.drop_first()).len() implies encode_utf8(c.drop_first())[i]
            < 128 by {
            assert(encode_utf8(c)[e.len() + i] == encode_utf8(c.drop_first())[i]);
        }
        lemma_ascii_encoding_ascii_chars(c.drop_first());
        assert forall|i: int| 0 <= i < c.len() implies '\0' <= #[trigger] c[i] <= '\u{7f}' by {
            if i > 0 {
                assert(c.drop_first()[i - 1] == c[i]);
            }
        }
    }
}

/// Law: a percent-encoded string of printable ASCII bytes whose escapes
/// all carry ASCII values decodes successfully, one character per decoded
/// byte, each character being exactly the decoded byte.
pub proof fn lemma_ascii_encoded_decode_is_exact(s: Seq<u8>)
    requires
        ascii_encoded(s),
    ensures
        pct_decode(s) is Some,
        valid_utf8(pct_decode(s)->Some_0),
        decode_utf8(pct_decode(s)->Some_0).len() == pct_decode(s)->Some_0.len(),
        forall|i: int|
            0 <= i < pct_decode(s)->Some_0.len() ==> decode_utf8(pct_decode(s)->Some_0)[i] as u8
                == pct_decode(s)->Some_0[i],
{
    lemma_ascii_encoded_decodes(s);
    lemma_ascii_bytes_utf8(pct_decode(s)->Some_0);
}

/// Shifting the offset base of `pct_failure_at` shifts a reported offset
/// by the same amount.
proof fn lemma_pct_failure_shift(s: Seq<u8>, a: int, b: int)
    ensures
        pct_failure_at(s, b) == match pct_failure_at(s, a) {
            None => None,
            Some(f) => Some((f.0 + b - a, f.1)),
        },
    decreases s.len(),
{
    if s.len() == 0 {
    } else if s[0] == 43 {
        lemma_pct_failure_shift(s.drop_first(), a + 1, b + 1);
    } else if s[0] == 37 {
        if s.len() >= 3 && hex_digit_value(s[1]) is Some && hex_digit_value(s[2]) is Some {
            lemma_pct_failure_shift(s.skip(3), a + 3, b + 3);
        }
    } else {
        lemma_pct_failure_shift(s.drop_first(), a + 1, b + 1);
    }
}

/// Law: a string that decodes successfully stops decoding when a truncated
/// escape is appended; a `%` with fewer than two bytes after it always
/// makes the whole decode fail, and the reported failure is of the
/// ended-inside-an-escape kind.
pub proof fn lemma_truncated_escape_fails(p: Seq<u8>, t: Seq<u8>)
    requires
        pct_decode(p) is Some,
        t.len() == 1 || t.len() == 2,
        t[0] == 37,
    ensures
        pct_decode(p + t) is None,
        pct_failure_at(p + t, 0) matches Some(f) && f.1,
    decreases p.len(),
{
    if p.len() == 0 {
        assert(p + t =~= t);
    } else if p[0] == 37 {
        assert((p + t).skip(3) =~= p.skip(3) + t);
        lemma_truncated_escape_fails(p.skip(3), t);
        lemma_pct_failure_shift(p.skip(3) + t, 0, 3);
    } else {
        assert((p + t).drop_first() =~= p.drop_first() + t);
        lemma_truncated_escape_fails(p.drop_first(), t);
        lemma_pct_failure_shift(p.drop_first() + t, 0, 1);
    }
}

} // verus!
