//! Parsing of a query string: split on `&`, split each chunk on its first
//! `=`, and percent-decode both halves.  A chunk without `=` or with a
//! half that does not decode makes the whole query string fail.

use crate::decode::pct_decode;
use crate::decode::percent_decode_bytes;
use crate::request::Query;
use crate::scan::find_byte;
use crate::scan::first_byte_from;
use crate::scan::lemma_first_byte_from;
use crate::strmap::pairs_map;
use crate::strmap::StrMap;
use crate::text::lossy_string;
use crate::text::lossy_utf8;
use crate::text::utf8_string;
use crate::Error;
use vstd::prelude::*;
use vstd::slice::slice_subrange;
use vstd::string::StringExecFns;
use vstd::utf8::decode_utf8;
use vstd::utf8::encode_utf8;
use vstd::utf8::valid_utf8;

verus! {

/// The chunks of a query string: the spans between `&` separators, in
/// order.  A string without `&` is one chunk; every separator begins a new
/// chunk, so an empty string still holds one empty chunk.
pub open spec fn amp_chunks(s: Seq<u8>) -> Seq<Seq<u8>>
    decreases s.len(),
{
    match first_byte_from(s, 38, 0) {
        None => seq![s],
        Some(i) => {
            if 0 <= i < s.len() {
                seq![s.subrange(0, i)] + amp_chunks(s.skip(i + 1))
            } else {
                seq![s]
            }
        },
    }
}

/// The offset of the first `=` in a chunk.
pub open spec fn chunk_eq_pos(c: Seq<u8>) -> Option<int> {
    first_byte_from(c, 61, 0)
}

/// True when a chunk holds an `=` and both of its halves percent-decode
/// into valid UTF-8.
pub open spec fn chunk_ok(c: Seq<u8>) -> bool {
    match chunk_eq_pos(c) {
        None => false,
        Some(i) => {
            &&& pct_decode(c.subrange(0, i)) matches Some(n) && valid_utf8(n)
            &&& pct_decode(c.subrange(i + 1, c.len() as int)) matches Some(v) && valid_utf8(v)
        },
    }
}

/// The decoded name/value pair of a chunk.
pub open spec fn chunk_pair(c: Seq<u8>) -> (Seq<char>, Seq<char>)
    recommends
        chunk_ok(c),
{
    let i = chunk_eq_pos(c)->Some_0;
    (
        decode_utf8(pct_decode(c.subrange(0, i))->Some_0),
        decode_utf8(pct_decode(c.subrange(i + 1, c.len() as int))->Some_0),
    )
}

/// The decoded pairs of a chunk list.
pub open spec fn chunk_pairs(cs: Seq<Seq<u8>>) -> Seq<(Seq<char>, Seq<char>)> {
    cs.map_values(|c: Seq<u8>| chunk_pair(c))
}

/// True when the diagnostic text ends with the lossy text of the given
/// chunk, so that the chunk that triggered a failure can be read off the
/// diagnostic.
pub open spec fn diagnostic_names_chunk(details: Seq<char>, chunk: Seq<u8>) -> bool {
    exists|prefix: Seq<char>| details == #[trigger] (prefix + lossy_utf8(chunk))
}

/// Split one chunk on its first `=` and percent-decode both halves.
fn parse_chunk(c: &[u8]) -> (r: Result<(String, String), Error>)
    ensures
        match r {
            Ok(kv) => chunk_ok(c@) && kv.0@ == chunk_pair(c@).0 && kv.1@ == chunk_pair(c@).1,
            Err(e) => !chunk_ok(c@) && e.code == 400 && e.message@ == "Invalid query string."@
                && diagnostic_names_chunk(e.details@, c@),
        },
{
    let n = c.len();
    let eq = match find_byte(c, 61) {
        None => {
            let mut details = String::from_str("chunk is not a name=value pair: ");
            details.append(lossy_string(c).as_str());
            proof {
                let p = "chunk is not a name=value pair: "@;
                assert(details@ == p + lossy_utf8(c@));
            }
            return Err(Error::new(400, "Invalid query string.", details));
        },
        Some(i) => i,
    };
    proof {
        lemma_first_byte_from(c@, 61, 0);
    }
    let name_b = slice_subrange(c, 0, eq);
    let val_b = slice_subrange(c, eq + 1, n);
    let name = match percent_decode_bytes(name_b) {
        Err(_) => {
            let mut details = String::from_str("cannot decode name in chunk: ");
            details.append(lossy_string(c).as_str());
            proof {
                let p = "cannot decode name in chunk: "@;
                assert(details@ == p + lossy_utf8(c@));
            }
            return Err(Error::new(400, "Invalid query string.", details));
        },
        Ok(v) => match utf8_string(v) {
            None => {
                let mut details = String::from_str("name is not valid UTF-8 in chunk: ");
                details.append(lossy_string(c).as_str());
                proof {
                    let p = "name is not valid UTF-8 in chunk: "@;
                    assert(details@ == p + lossy_utf8(c@));
                }
                return Err(Error::new(400, "Invalid query string.", details));
            },
            Some(s) => s,
        },
    };
    let value = match percent_decode_bytes(val_b) {
        Err(_) => {
            let mut details = String::from_str("cannot decode value in chunk: ");
            details.append(lossy_string(c).as_str());
            proof {
                let p = "cannot decode value in chunk: "@;
                assert(details@ == p + lossy_utf8(c@));
            }
            return Err(Error::new(400, "Invalid query string.", details));
        },
        Ok(v) => match utf8_string(v) {
            None => {
                let mut details = String::from_str("value is not valid UTF-8 in chunk: ");
                details.append(lossy_string(c).as_str());
                proof {
                    let p = "value is not valid UTF-8 in chunk: "@;
                    assert(details@ == p + lossy_utf8(c@));
                }
                return Err(Error::new(400, "Invalid query string.", details));
            },
            Some(s) => s,
        },
    };
    Ok((name, value))
}

/// What parsing a query string yields: a map of the decoded pairs (a later
/// chunk with the same decoded name overwriting an earlier one) when every
/// `&`-separated chunk holds an `=` and both halves of every chunk
/// percent-decode into valid UTF-8, and one error for the whole query
/// string as soon as any chunk is malformed.
pub open spec fn query_result_matches(r: Query, qs: Seq<char>) -> bool {
    let cs = amp_chunks(encode_utf8(qs));
    match r {
        Query::Parsed(m) => (forall|i: int| 0 <= i < cs.len() ==> chunk_ok(#[trigger] cs[i])) && m@
            == pairs_map(chunk_pairs(cs)),
        Query::Failed(e) => e.code == 400 && e.message@ == "Invalid query string."@ && exists|i: int|
            0 <= i < cs.len() && !chunk_ok(#[trigger] cs[i]) && (forall|j: int|
                0 <= j < i ==> chunk_ok(#[trigger] cs[j])) && diagnostic_names_chunk(
                e.details@,
                cs[i],
            ),
        Query::Absent => false,
    }
}

/// Parse a query string into a map of decoded name/value pairs.
pub fn parse_query_string(qstr: &str) -> (r: Query)
    ensures
        query_result_matches(r, qstr@),
{
    let bytes = qstr.as_bytes();
    let n = bytes.len();
    let ghost cs = amp_chunks(bytes@);
    let mut m = StrMap::new();
    let mut pos: usize = 0;
    let ghost mut done: Seq<Seq<u8>> = seq![];
    proof {
        assert(bytes@.skip(0) =~= bytes@);
        assert(done + amp_chunks(bytes@.skip(0)) =~= cs);
        assert(chunk_pairs(done) =~= Seq::<(Seq<char>, Seq<char>)>::empty());
    }
    loop
        invariant_except_break
            pos <= n,
            n == bytes@.len(),
            bytes@ == encode_utf8(qstr@),
            cs == amp_chunks(encode_utf8(qstr@)),
            cs == done + amp_chunks(bytes@.skip(pos as int)),
            forall|i: int| 0 <= i < done.len() ==> chunk_ok(#[trigger] done[i]),
            m@ == pairs_map(chunk_pairs(done)),
        ensures
            (forall|i: int| 0 <= i < cs.len() ==> chunk_ok(#[trigger] cs[i])) && m@ == pairs_map(
                chunk_pairs(cs),
            ),
        decreases n - pos,
    {
        let sub = slice_subrange(bytes, pos, n);
        proof {
            assert(sub@ =~= bytes@.skip(pos as int));
        }
        let sep = find_byte(sub, 38);
        proof {
            lemma_first_byte_from(sub@, 38, 0);
        }
        let (chunk_to, last) = match sep {
            None => (n, true),
            Some(i) => (pos + i, false),
        };
        proof {
            if sep is Some {
                assert(sub@.subrange(0, sep->Some_0 as int) =~= bytes@.subrange(
                    pos as int,
                    chunk_to as int,
                ));
            } else {
                assert(sub@.subrange(0, sub@.len() as int) =~= sub@);
                assert(sub@ =~= bytes@.subrange(pos as int, n as int));
            }
        }
        let chunk = slice_subrange(bytes, pos, chunk_to);
        let ghost cur = chunk@;
        proof {
            // The current chunk heads the chunk list of the unprocessed
            // tail.
            if sep is Some {
                assert(amp_chunks(bytes@.skip(pos as int)) =~= seq![cur] + amp_chunks(
                    bytes@.skip(pos as int).skip(sep->Some_0 + 1),
                ));
            } else {
                assert(amp_chunks(bytes@.skip(pos as int)) =~= seq![cur]);
            }
            assert(cs[done.len() as int] == cur);
        }
        match parse_chunk(chunk) {
            Err(e) => {
                proof {
                    let bad = done.len() as int;
                    assert(0 <= bad < cs.len());
                    assert(!chunk_ok(cs[bad]));
                    assert(forall|j: int| 0 <= j < bad ==> cs[j] == done[j]);
                    assert(forall|j: int| 0 <= j < bad ==> chunk_ok(#[trigger] cs[j]));
                    assert(diagnostic_names_chunk(e.details@, cs[bad]));
                }
                return Query::Failed(e);
            },
            Ok((name, value)) => {
                let ghost kv = (name@, value@);
                m.set(name, value);
                proof {
                    let old_done = done;
                    done = done.push(cur);
                    assert(chunk_pairs(done) =~= chunk_pairs(old_done).push(kv));
                    assert(chunk_pairs(done).drop_last() =~= chunk_pairs(old_done));
                }
            },
        }
        if last {
            proof {
                assert(cs =~= done);
            }
            break ;
        }
        let next = chunk_to + 1;
        proof {
            assert(bytes@.skip(pos as int).skip((chunk_to - pos) + 1) =~= bytes@.skip(
                next as int,
            ));
            assert(cs =~= done + amp_chunks(bytes@.skip(next as int)));
        }
        pos = next;
    }
    Query::Parsed(m)
}

} // verus!
