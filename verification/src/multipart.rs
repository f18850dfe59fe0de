//! Splitting a `multipart/form-data` body into its boundary-delimited
//! chunks, and parsing one chunk into a header map plus raw payload bytes.

use crate::header::header_split_of;
use crate::header::match_header;
use crate::scan::bytes_eq_at;
use crate::scan::first_match_from;
use crate::scan::lemma_first_match_from;
use crate::scan::matches_at;
use crate::strmap::pairs_map;
use crate::strmap::StrMap;
use crate::Error;
use vstd::string::StringExecFns;
use vstd::prelude::*;
use vstd::slice::slice_subrange;
use vstd::slice::slice_to_vec;

verus! {

/// The HTTP newline sequence, carriage return then line feed.
pub open spec fn crlf() -> Seq<u8> {
    seq![13u8, 10u8]
}

/// The delimiter that separates parts in the body: the boundary token with
/// two hyphens prepended.
pub open spec fn delim_of(boundary: Seq<u8>) -> Seq<u8> {
    seq![45u8, 45u8] + boundary
}

/// The least offset at or after `from` where a newline immediately
/// followed by the delimiter occurs: the end of the chunk in progress.
pub open spec fn next_part_end(body: Seq<u8>, delim: Seq<u8>, from: int) -> Option<int>
    decreases body.len() - from,
{
    if from < 0 || from + 2 > body.len() {
        None
    } else if matches_at(body, crlf(), from) && matches_at(body, delim, from + 2) {
        Some(from)
    } else {
        next_part_end(body, delim, from + 1)
    }
}

/// `next_part_end` finds exactly the least chunk end at or after `from`.
pub proof fn lemma_next_part_end(body: Seq<u8>, delim: Seq<u8>, from: int)
    requires
        0 <= from,
    ensures
        match next_part_end(body, delim, from) {
            Some(i) => from <= i && matches_at(body, crlf(), i) && matches_at(body, delim, i + 2)
                && forall|j: int|
                from <= j < i ==> !(matches_at(body, crlf(), j) && matches_at(body, delim, j + 2)),
            None => forall|j: int|
                from <= j ==> !(matches_at(body, crlf(), j) && matches_at(body, delim, j + 2)),
        },
    decreases body.len() - from,
{
    if from + 2 <= body.len() && !(matches_at(body, crlf(), from) && matches_at(
        body,
        delim,
        from + 2,
    )) {
        lemma_next_part_end(body, delim, from + 1);
    }
}

/// Return the offset of the next newline at or after `current_position`
/// that is immediately followed by `boundary`: the first offset past the
/// end of the chunk that begins at `current_position`.  The scan tolerates
/// newlines that are not followed by the delimiter and stops cleanly at the
/// end of the buffer.
pub fn find_next_multipart_chunk_end(bytes: &[u8], current_position: usize, boundary: &[u8]) -> (r:
    Option<usize>)
    ensures
        match r {
            Some(i) => next_part_end(bytes@, boundary@, current_position as int) == Some(i as int),
            None => next_part_end(bytes@, boundary@, current_position as int) is None,
        },
{
    let n = bytes.len();
    let dl = boundary.len();
    let mut idx = current_position;
    while idx < n && n - idx >= 2
        invariant
            current_position <= idx,
            n == bytes@.len(),
            dl == boundary@.len(),
            forall|j: int|
                current_position <= j < idx ==> !(matches_at(bytes@, crlf(), j) && matches_at(
                    bytes@,
                    boundary@,
                    j + 2,
                )),
        decreases n - idx,
    {
        let is_nl = bytes[idx] == 13 && bytes[idx + 1] == 10;
        let rem = n - idx - 2;
        if is_nl && rem >= dl && bytes_eq_at(bytes, boundary, idx + 2) {
            proof {
                assert(bytes@.subrange(idx as int, idx + 2) =~= crlf());
                assert(matches_at(bytes@, crlf(), idx as int));
                assert(matches_at(bytes@, boundary@, idx + 2));
                lemma_next_part_end(bytes@, boundary@, current_position as int);
            }
            return Some(idx);
        }
        proof {
            if matches_at(bytes@, crlf(), idx as int) && matches_at(bytes@, boundary@, idx + 2) {
                assert(bytes@.subrange(idx as int, idx + 2)[0] == bytes@[idx as int]);
                assert(bytes@.subrange(idx as int, idx + 2)[1] == bytes@[idx + 1]);
                assert(is_nl);
                assert(idx + 2 + dl <= n);
                assert(false);
            }
        }
        idx = idx + 1;
    }
    proof {
        lemma_next_part_end(bytes@, boundary@, current_position as int);
    }
    None
}

/// The header pairs found at the start of a chunk from offset `pos` on,
/// and the offset where the part's payload begins: the payload starts
/// right after the first line that is not a header line (usually the blank
/// line that ends the header block), or at `pos` itself when no newline is
/// left.
pub open spec fn part_fields_from(chunk: Seq<u8>, pos: int) -> (Seq<(Seq<char>, Seq<char>)>, int)
    decreases chunk.len() - pos,
{
    match first_match_from(chunk, crlf(), pos) {
        None => (seq![], pos),
        Some(e) => match header_split_of(chunk.subrange(pos, e)) {
            None => (seq![], e + 2),
            Some(kv) => {
                if pos <= e && e + 2 <= chunk.len() {
                    let rest = part_fields_from(chunk, e + 2);
                    (seq![kv] + rest.0, rest.1)
                } else {
                    (seq![], pos)
                }
            },
        },
    }
}

/// A single part of a `multipart/form-data` body.
///
/// Header names have been trimmed, lower-cased, and lossily converted to
/// UTF-8; header values keep their trailing whitespace.  The payload bytes
/// are untouched: they exclude the blank line that ends the header block
/// and the boundary delimiter that follows the part.
pub struct MultipartPart {
    pub headers: StrMap,
    pub body: Vec<u8>,
}

/// True when `p` is the parse of the given chunk: its headers are the
/// chunk's header lines (later duplicates winning) and its payload is
/// everything after the header block.
pub open spec fn part_matches_chunk(p: MultipartPart, chunk: Seq<u8>) -> bool {
    &&& p.headers@ == pairs_map(part_fields_from(chunk, 0).0)
    &&& p.body@ == chunk.subrange(part_fields_from(chunk, 0).1, chunk.len() as int)
}

/// The spans `[start, end)` of the body chunks, scanning from `pos`: each
/// chunk runs up to the next newline-plus-delimiter, and chunking goes on
/// only while the delimiter is followed by another newline (the closing
/// delimiter is followed by `--` instead, which ends the scan normally).
pub open spec fn part_spans_from(body: Seq<u8>, delim: Seq<u8>, pos: int) -> Seq<(int, int)>
    decreases body.len() - pos,
{
    match next_part_end(body, delim, pos) {
        None => seq![],
        Some(e) => {
            let next = e + 2 + delim.len();
            if pos <= e && next + 2 <= body.len() && matches_at(body, crlf(), next) {
                seq![(pos, e)] + part_spans_from(body, delim, next + 2)
            } else {
                seq![(pos, e)]
            }
        },
    }
}

/// True when `parts` holds exactly the parses of the chunks at `spans`,
/// in order.
pub open spec fn parts_match_spans(
    parts: Seq<MultipartPart>,
    body: Seq<u8>,
    spans: Seq<(int, int)>,
) -> bool {
    &&& parts.len() == spans.len()
    &&& forall|i: int|
        0 <= i < parts.len() ==> #[trigger] part_matches_chunk(
            parts[i],
            body.subrange(spans[i].0, spans[i].1),
        )
}

/// The byte form of the sections of a well-framed multipart body, from
/// the first section on: each section is followed by a newline and the
/// delimiter; every delimiter but the last is followed by another
/// newline, and the closing delimiter by two hyphens.
pub open spec fn framed_rest(cs: Seq<Seq<u8>>, delim: Seq<u8>) -> Seq<u8>
    decreases cs.len(),
{
    if cs.len() == 0 {
        seq![]
    } else if cs.len() == 1 {
        cs[0] + crlf() + delim + seq![45u8, 45u8]
    } else {
        cs[0] + crlf() + delim + crlf() + framed_rest(cs.drop_first(), delim)
    }
}

/// A well-framed multipart body: the delimiter, a newline, and the framed
/// sections.
pub open spec fn framed_body(cs: Seq<Seq<u8>>, boundary: Seq<u8>) -> Seq<u8> {
    delim_of(boundary) + crlf() + framed_rest(cs, delim_of(boundary))
}

/// True when no newline-plus-delimiter occurs inside the section, so that
/// the framing around it is found exactly.  (A scan window that starts
/// inside the section always lies within the section and the framing that
/// immediately follows it.)
pub open spec fn section_clean(c: Seq<u8>, delim: Seq<u8>) -> bool {
    forall|j: int|
        0 <= j < c.len() ==> !((#[trigger] matches_at(c + crlf() + delim, crlf(), j))
            && matches_at(c + crlf() + delim, delim, j + 2))
}

/// The framing facts of the first section of a well-framed tail: the
/// first chunk end falls exactly at the section's end, and the span up to
/// it holds exactly the section's bytes.
proof fn lemma_framed_head(body: Seq<u8>, cs: Seq<Seq<u8>>, delim: Seq<u8>, pos: int)
    requires
        cs.len() >= 1,
        delim.len() >= 2,
        0 <= pos <= body.len(),
        body.subrange(pos, body.len() as int) == framed_rest(cs, delim),
        section_clean(cs[0], delim),
    ensures
        next_part_end(body, delim, pos) == Some(pos + cs[0].len()),
        body.subrange(pos, pos + cs[0].len()) == cs[0],
{
    let region = body.subrange(pos, body.len() as int);
    let c0 = cs[0];
    let ln = c0.len() as int;
    let dl = delim.len() as int;
    let e = pos + ln;
    let h1 = c0 + crlf();
    let head = h1 + delim;
    let tail0: Seq<u8> = if cs.len() == 1 {
        seq![45u8, 45u8]
    } else {
        crlf() + framed_rest(cs.drop_first(), delim)
    };
    assert(region == head + tail0) by {
        if cs.len() >= 2 {
            assert(framed_rest(cs, delim) =~= head + tail0);
        }
    }
    assert(region.len() == ln + 2 + dl + tail0.len());

    // A newline stands right after the section, and the delimiter right
    // after the newline.
    crate::scan::lemma_window_of_tail(body, pos, ln, ln + 2);
    crate::scan::lemma_window_left(head, tail0, ln, ln + 2);
    crate::scan::lemma_window_right(c0, crlf(), ln, ln + 2);
    assert(h1.subrange(ln, ln + 2) == head.subrange(ln, ln + 2)) by {
        crate::scan::lemma_window_left(h1, delim, ln, ln + 2);
    }
    assert(crlf().subrange(0, 2) =~= crlf());
    assert(matches_at(body, crlf(), e));

    crate::scan::lemma_window_of_tail(body, pos, ln + 2, ln + 2 + dl);
    crate::scan::lemma_window_left(head, tail0, ln + 2, ln + 2 + dl);
    crate::scan::lemma_window_right(h1, delim, ln + 2, ln + 2 + dl);
    assert(delim.subrange(0, dl) =~= delim);
    assert(matches_at(body, delim, e + 2));

    // The span up to the newline holds exactly the section's bytes.
    crate::scan::lemma_window_of_tail(body, pos, 0, ln);
    crate::scan::lemma_window_left(head, tail0, 0, ln);
    crate::scan::lemma_window_left(h1, delim, 0, ln);
    crate::scan::lemma_window_left(c0, crlf(), 0, ln);
    assert(c0.subrange(0, ln) =~= c0);
    assert(body.subrange(pos, e) == c0);

    // No earlier chunk end exists: a match before the section's end would
    // lie wholly inside the section and its framing, which the section
    // forbids.
    assert forall|j: int|
        pos <= j < e implies !(matches_at(body, crlf(), j) && matches_at(body, delim, j + 2)) by {
        if matches_at(body, crlf(), j) && matches_at(body, delim, j + 2) {
            let jj = j - pos;
            crate::scan::lemma_window_of_tail(body, pos, jj, jj + 2);
            crate::scan::lemma_window_left(head, tail0, jj, jj + 2);
            assert(matches_at(head, crlf(), jj));
            crate::scan::lemma_window_of_tail(body, pos, jj + 2, jj + 2 + dl);
            crate::scan::lemma_window_left(head, tail0, jj + 2, jj + 2 + dl);
            assert(matches_at(head, delim, jj + 2));
            assert(false);
        }
    }
    lemma_next_part_end(body, delim, pos);
    assert(next_part_end(body, delim, pos) == Some(e));
}

/// The chunk spans of a well-framed tail are exactly the sections.
proof fn lemma_framed_rest_spans(body: Seq<u8>, cs: Seq<Seq<u8>>, delim: Seq<u8>, pos: int)
    requires
        cs.len() >= 1,
        delim.len() >= 2,
        0 <= pos <= body.len(),
        body.subrange(pos, body.len() as int) == framed_rest(cs, delim),
        forall|i: int| 0 <= i < cs.len() ==> section_clean(#[trigger] cs[i], delim),
    ensures
        part_spans_from(body, delim, pos).len() == cs.len(),
        forall|i: int|
            0 <= i < cs.len() ==> {
                let sp = #[trigger] part_spans_from(body, delim, pos)[i];
                0 <= sp.0 <= sp.1 <= body.len() && body.subrange(sp.0, sp.1) == cs[i]
            },
    decreases cs.len(),
{
    let region = body.subrange(pos, body.len() as int);
    let c0 = cs[0];
    let ln = c0.len() as int;
    let dl = delim.len() as int;
    let e = pos + ln;
    let head = (c0 + crlf()) + delim;
    let tail0: Seq<u8> = if cs.len() == 1 {
        seq![45u8, 45u8]
    } else {
        crlf() + framed_rest(cs.drop_first(), delim)
    };
    assert(region == head + tail0) by {
        if cs.len() >= 2 {
            assert(framed_rest(cs, delim) =~= head + tail0);
        }
    }
    assert(region.len() == ln + 2 + dl + tail0.len());
    lemma_framed_head(body, cs, delim, pos);

    let next = e + 2 + dl;
    if cs.len() == 1 {
        // The closing delimiter is followed by two hyphens, so chunking
        // stops after the one span.
        assert(body.len() == next + 2);
        crate::scan::lemma_window_of_tail(body, pos, ln + 2 + dl, ln + 2 + dl + 1);
        crate::scan::lemma_window_right(head, tail0, ln + 2 + dl, ln + 2 + dl + 1);
        assert(tail0.subrange(0, 1) =~= seq![45u8]);
        assert(body[next] == body.subrange(next, next + 1)[0]);
        assert(body[next] == 45);
        if matches_at(body, crlf(), next) {
            assert(body.subrange(next, next + 2)[0] == body[next]);
            assert(false);
        }
        assert(part_spans_from(body, delim, pos) =~= seq![(pos, e)]);
    } else {
        // The delimiter is followed by another newline, so chunking goes
        // on with the remaining sections.
        let rest = framed_rest(cs.drop_first(), delim);
        assert(next + 2 <= body.len());
        crate::scan::lemma_window_of_tail(body, pos, ln + 2 + dl, ln + 4 + dl);
        crate::scan::lemma_window_right(head, tail0, ln + 2 + dl, ln + 4 + dl);
        crate::scan::lemma_window_left(crlf(), rest, 0, 2);
        assert(crlf().subrange(0, 2) =~= crlf());
        assert(matches_at(body, crlf(), next));
        assert(part_spans_from(body, delim, pos) =~= seq![(pos, e)] + part_spans_from(
            body,
            delim,
            next + 2,
        ));
        crate::scan::lemma_window_of_tail(body, pos, ln + 4 + dl, region.len() as int);
        crate::scan::lemma_window_right(head, tail0, ln + 4 + dl, region.len() as int);
        crate::scan::lemma_window_right(crlf(), rest, 2, 2 + rest.len() as int);
        assert(rest.subrange(0, rest.len() as int) =~= rest);
        assert(body.subrange(next + 2, body.len() as int) == rest);
        assert forall|i: int|
            0 <= i < cs.drop_first().len() implies section_clean(
            #[trigger] cs.drop_first()[i],
            delim,
        ) by {
            assert(cs.drop_first()[i] == cs[i + 1]);
        }
        lemma_framed_rest_spans(body, cs.drop_first(), delim, next + 2);
        let spans = part_spans_from(body, delim, pos);
        let rest_spans = part_spans_from(body, delim, next + 2);
        assert forall|i: int|
            0 <= i < cs.len() implies {
            let sp = #[trigger] spans[i];
            0 <= sp.0 <= sp.1 <= body.len() && body.subrange(sp.0, sp.1) == cs[i]
        } by {
            if i > 0 {
                assert(spans[i] == rest_spans[i - 1]);
                assert(cs.drop_first()[i - 1] == cs[i]);
            }
        }
    }
}

/// Law: a well-framed multipart body — the delimiter, a newline, then one
/// or more sections each followed by newline-plus-delimiter, the closing
/// delimiter followed by two hyphens — parses to exactly one part per
/// section, in input order, each part being the parse of its section.
pub proof fn lemma_framed_body_parses(
    r: crate::request::Body,
    cs: Seq<Seq<u8>>,
    boundary: Seq<u8>,
)
    requires
        cs.len() >= 1,
        forall|i: int| 0 <= i < cs.len() ==> section_clean(#[trigger] cs[i], delim_of(boundary)),
        multipart_body_result(r, framed_body(cs, boundary), boundary),
    ensures
        r matches crate::request::Body::Multipart(parts) && parts@.len() == cs.len() && forall|
            i: int,
        | 0 <= i < cs.len() ==> part_matches_chunk(parts@[i], #[trigger] cs[i]),
{
    let body = framed_body(cs, boundary);
    let d = delim_of(boundary);
    let dl = d.len() as int;
    let rest = framed_rest(cs, d);
    let prefix = d + crlf();
    assert(body == prefix + rest);
    assert(rest.len() >= cs[0].len() + 2 + dl + 2) by {
        if cs.len() >= 2 {
            assert(framed_rest(cs, d) =~= ((cs[0] + crlf()) + d) + (crlf() + framed_rest(
                cs.drop_first(),
                d,
            )));
        }
    }

    // The first occurrence of the delimiter is at the very start.
    crate::scan::lemma_window_left(prefix, rest, 0, dl);
    crate::scan::lemma_window_left(d, crlf(), 0, dl);
    assert(d.subrange(0, dl) =~= d);
    assert(matches_at(body, d, 0));
    lemma_first_match_from(body, d, 0);
    assert(first_match_from(body, d, 0) == Some(0int));

    // It is followed by a newline with the framed sections after it.
    crate::scan::lemma_window_left(prefix, rest, dl, dl + 2);
    crate::scan::lemma_window_right(d, crlf(), dl, dl + 2);
    assert(crlf().subrange(0, 2) =~= crlf());
    assert(matches_at(body, crlf(), dl));
    assert(body.len() > dl + 2);

    let parts = r->Multipart_0;
    assert(parts_match_spans(parts@, body, part_spans_from(body, d, dl + 2)));
    crate::scan::lemma_window_right(prefix, rest, dl + 2, body.len() as int);
    assert(rest.subrange(0, rest.len() as int) =~= rest);
    assert(body.subrange(dl + 2, body.len() as int) == rest);
    lemma_framed_rest_spans(body, cs, d, dl + 2);
    let spans = part_spans_from(body, d, dl + 2);
    assert forall|i: int| 0 <= i < cs.len() implies part_matches_chunk(
        parts@[i],
        #[trigger] cs[i],
    ) by {
        assert(part_matches_chunk(parts@[i], body.subrange(spans[i].0, spans[i].1)));
        assert(body.subrange(spans[i].0, spans[i].1) == cs[i]);
    }
}

/// Parse one chunk of a multipart body into a part.  This never fails: a
/// chunk without header lines yields a part with an empty header map and
/// the remaining bytes as payload.
pub fn read_multipart_chunk(chunk: &[u8]) -> (p: MultipartPart)
    ensures
        part_matches_chunk(p, chunk@),
{
    let n = chunk.len();
    let mut headers = StrMap::new();
    let mut pos: usize = 0;
    let ghost fields = part_fields_from(chunk@, 0);
    let ghost mut acc: Seq<(Seq<char>, Seq<char>)> = seq![];
    proof {
        assert(acc + part_fields_from(chunk@, 0).0 =~= part_fields_from(chunk@, 0).0);
    }
    loop
        invariant_except_break
            pos <= n,
            n == chunk@.len(),
            headers@ == pairs_map(acc),
            fields.0 == acc + part_fields_from(chunk@, pos as int).0,
            fields.1 == part_fields_from(chunk@, pos as int).1,
        ensures
            pos <= n,
            n == chunk@.len(),
            headers@ == pairs_map(fields.0),
            fields.1 == pos,
        decreases n - pos,
    {
        let e = match find_crlf_from(chunk, pos) {
            None => {
                proof {
                    assert(fields.0 =~= acc);
                }
                break ;
            },
            Some(e) => e,
        };
        proof {
            lemma_first_match_from(chunk@, crlf(), pos as int);
        }
        match match_header(slice_subrange(chunk, pos, e)) {
            Some((k, v)) => {
                let ghost kv = (k@, v@);
                headers.set(k, v);
                proof {
                    let old_acc = acc;
                    acc = acc.push(kv);
                    assert(acc.drop_last() =~= old_acc);
                    assert(pairs_map(acc) == pairs_map(old_acc).insert(kv.0, kv.1));
                    let rest = part_fields_from(chunk@, e + 2);
                    assert(part_fields_from(chunk@, pos as int).0 =~= seq![kv] + rest.0);
                    assert(part_fields_from(chunk@, pos as int).1 == rest.1);
                    assert(old_acc + (seq![kv] + rest.0) =~= acc + rest.0);
                }
                pos = e + 2;
            },
            None => {
                pos = e + 2;
                proof {
                    assert(fields.0 =~= acc);
                }
                break ;
            },
        }
    }
    let body: Vec<u8> = slice_to_vec(slice_subrange(chunk, pos, n));
    MultipartPart { headers, body }
}

/// What parsing a multipart body against a boundary token yields: an
/// error when the delimiter does not occur in the body at all; a
/// successful parse with zero parts when the first occurrence is not
/// followed by a newline with at least one byte after it (deliberately not
/// an error); otherwise one part per chunk between delimiters, in order.
pub open spec fn multipart_body_result(
    r: crate::request::Body,
    body: Seq<u8>,
    boundary: Seq<u8>,
) -> bool {
    let d = delim_of(boundary);
    match first_match_from(body, d, 0) {
        None => r matches crate::request::Body::Failed(e) && e.code == 400 && e.message@
            == "Not a valid multipart/form-data body."@ && e.details@
            == "multipart body missing boundary string"@,
        Some(fst) => {
            let start = fst + d.len() + 2;
            if body.len() > start && matches_at(body, crlf(), fst + d.len()) {
                r matches crate::request::Body::Multipart(parts) && parts_match_spans(
                    parts@,
                    body,
                    part_spans_from(body, d, start),
                )
            } else {
                r matches crate::request::Body::Multipart(parts) && parts@.len() == 0
            }
        },
    }
}

/// Parse a `multipart/form-data` body against the given boundary token
/// (without its leading `--`).
pub fn read_multipart_body(body_bytes: &[u8], boundary: &[u8]) -> (r: crate::request::Body)
    ensures
        multipart_body_result(r, body_bytes@, boundary@),
{
    let n = body_bytes.len();
    let bl = boundary.len();
    let ghost d = delim_of(boundary@);

    // The boundary token appears in the body with two hyphens prepended.
    let mut delim: Vec<u8> = Vec::new();
    delim.push(45);
    delim.push(45);
    let mut bi: usize = 0;
    while bi < bl
        invariant
            bi <= bl,
            bl == boundary@.len(),
            delim@ == seq![45u8, 45u8] + boundary@.take(bi as int),
        decreases bl - bi,
    {
        delim.push(boundary[bi]);
        proof {
            assert(delim@ =~= seq![45u8, 45u8] + boundary@.take(bi + 1));
        }
        bi = bi + 1;
    }
    proof {
        assert(boundary@.take(bl as int) =~= boundary@);
        assert(delim@ == d);
    }
    let dl = delim.len();

    // Position just after the first occurrence of the delimiter.
    let first = match crate::scan::slicey_find(body_bytes, delim.as_slice()) {
        None => {
            return crate::request::Body::Failed(
                Error::new(
                    400,
                    "Not a valid multipart/form-data body.",
                    String::from_str("multipart body missing boundary string"),
                ),
            );
        },
        Some(x) => x,
    };
    proof {
        lemma_first_match_from(body_bytes@, d, 0);
    }
    let after = first + dl;

    // The first delimiter must be followed by a newline, with at least one
    // byte of body after it; otherwise the parse succeeds with no parts.
    if !(n - after > 2 && body_bytes[after] == 13 && body_bytes[after + 1] == 10) {
        proof {
            if n - after > 2 && matches_at(body_bytes@, crlf(), after as int) {
                assert(body_bytes@.subrange(after as int, after + 2)[0] == body_bytes@[after as int]);
                assert(body_bytes@.subrange(after as int, after + 2)[1] == body_bytes@[after + 1]);
            }
        }
        return crate::request::Body::Multipart(Vec::new());
    }
    proof {
        assert(body_bytes@.subrange(after as int, after + 2) =~= crlf());
        assert(matches_at(body_bytes@, crlf(), after as int));
    }

    let mut parts: Vec<MultipartPart> = Vec::new();
    let mut pos: usize = after + 2;
    let ghost spans = part_spans_from(body_bytes@, d, pos as int);
    let ghost mut done: Seq<(int, int)> = seq![];
    proof {
        assert(done + part_spans_from(body_bytes@, d, pos as int) =~= spans);
    }
    loop
        invariant_except_break
            pos <= n,
            n == body_bytes@.len(),
            delim@ == d,
            dl == d.len(),
            parts@.len() == done.len(),
            forall|i: int|
                0 <= i < done.len() ==> #[trigger] part_matches_chunk(
                    parts@[i],
                    body_bytes@.subrange(done[i].0, done[i].1),
                ),
            spans == done + part_spans_from(body_bytes@, d, pos as int),
        ensures
            parts_match_spans(parts@, body_bytes@, spans),
        decreases n - pos,
    {
        let e = match find_next_multipart_chunk_end(body_bytes, pos, delim.as_slice()) {
            None => {
                proof {
                    assert(spans =~= done);
                }
                break ;
            },
            Some(e) => e,
        };
        proof {
            lemma_next_part_end(body_bytes@, d, pos as int);
        }
        // One chunk runs from the previous position up to the newline.
        let part = read_multipart_chunk(slice_subrange(body_bytes, pos, e));
        parts.push(part);
        let ghost old_done = done;
        proof {
            done = done.push((pos as int, e as int));
        }
        // If the delimiter is followed by another newline, the next chunk
        // starts right after it; otherwise chunking is over (the closing
        // delimiter is followed by `--` instead).
        let next = e + 2 + dl;
        if n - next >= 2 && body_bytes[next] == 13 && body_bytes[next + 1] == 10 {
            proof {
                assert(body_bytes@.subrange(next as int, next + 2) =~= crlf());
                assert(matches_at(body_bytes@, crlf(), next as int));
                assert(part_spans_from(body_bytes@, d, pos as int) =~= seq![
                    (pos as int, e as int),
                ] + part_spans_from(body_bytes@, d, next + 2));
                assert(old_done + (seq![(pos as int, e as int)] + part_spans_from(
                    body_bytes@,
                    d,
                    next + 2,
                )) =~= done + part_spans_from(body_bytes@, d, next + 2));
            }
            pos = next + 2;
        } else {
            proof {
                if next + 2 <= n && matches_at(body_bytes@, crlf(), next as int) {
                    assert(body_bytes@.subrange(next as int, next + 2)[0] == body_bytes@[next as int]);
                    assert(body_bytes@.subrange(next as int, next + 2)[1] == body_bytes@[next + 1]);
                    assert(false);
                }
                assert(part_spans_from(body_bytes@, d, pos as int) =~= seq![
                    (pos as int, e as int),
                ]);
                assert(old_done + seq![(pos as int, e as int)] =~= done);
                assert(spans =~= done);
            }
            break ;
        }
    }
    crate::request::Body::Multipart(parts)
}

/// Return the least offset at or after `from` where a newline sequence
/// occurs in `s`.
fn find_crlf_from(s: &[u8], from: usize) -> (r: Option<usize>)
    ensures
        match r {
            Some(i) => first_match_from(s@, crlf(), from as int) == Some(i as int),
            None => first_match_from(s@, crlf(), from as int) is None,
        },
{
    let n = s.len();
    let mut idx = from;
    while idx < n && n - idx >= 2
        invariant
            from <= idx,
            n == s@.len(),
            forall|j: int| from <= j < idx ==> !matches_at(s@, crlf(), j),
        decreases n - idx,
    {
        if s[idx] == 13 && s[idx + 1] == 10 {
            proof {
                assert(s@.subrange(idx as int, idx + 2) =~= crlf());
                assert(matches_at(s@, crlf(), idx as int));
                lemma_first_match_from(s@, crlf(), from as int);
            }
            return Some(idx);
        }
        proof {
            if matches_at(s@, crlf(), idx as int) {
                assert(s@.subrange(idx as int, idx + 2)[0] == s@[idx as int]);
                assert(s@.subrange(idx as int, idx + 2)[1] == s@[idx + 1]);
                assert(false);
            }
        }
        idx = idx + 1;
    }
    proof {
        lemma_first_match_from(s@, crlf(), from as int);
    }
    None
}

} // verus!
