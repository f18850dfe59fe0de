//! Primitive substring search over byte slices: no allocation and no
//! encoding assumptions.

use vstd::prelude::*;

verus! {

/// True when `needle` occurs in `haystack` starting at offset `i`.
pub open spec fn matches_at(haystack: Seq<u8>, needle: Seq<u8>, i: int) -> bool {
    &&& 0 <= i
    &&& i + needle.len() <= haystack.len()
    &&& haystack.subrange(i, i + needle.len()) == needle
}

/// The least offset at or after `from` where `needle` occurs in `haystack`,
/// or `None` when `needle` is empty or does not occur there.
pub open spec fn first_match_from(haystack: Seq<u8>, needle: Seq<u8>, from: int) -> Option<int>
    decreases haystack.len() - from,
{
    if needle.len() == 0 || from < 0 || from + needle.len() > haystack.len() {
        None
    } else if matches_at(haystack, needle, from) {
        Some(from)
    } else {
        first_match_from(haystack, needle, from + 1)
    }
}

/// `first_match_from` finds exactly the least occurrence at or after `from`.
pub proof fn lemma_first_match_from(haystack: Seq<u8>, needle: Seq<u8>, from: int)
    requires
        0 <= from,
    ensures
        match first_match_from(haystack, needle, from) {
            Some(i) => from <= i && matches_at(haystack, needle, i) && forall|j: int|
                from <= j < i ==> !matches_at(haystack, needle, j),
            None => needle.len() == 0 || forall|j: int|
                from <= j ==> !matches_at(haystack, needle, j),
        },
    decreases haystack.len() - from,
{
    if needle.len() == 0 {
    } else if from + needle.len() > haystack.len() {
    } else if matches_at(haystack, needle, from) {
    } else {
        lemma_first_match_from(haystack, needle, from + 1);
    }
}

/// Searching in the tail of a sequence finds the same occurrence as
/// searching the whole sequence from that offset.
pub proof fn lemma_first_match_skip(s: Seq<u8>, needle: Seq<u8>, p: int)
    requires
        0 <= p <= s.len(),
    ensures
        first_match_from(s, needle, p) == match first_match_from(s.skip(p), needle, 0) {
            Some(r) => Some(p + r),
            None => None::<int>,
        },
{
    lemma_first_match_from(s, needle, p);
    lemma_first_match_from(s.skip(p), needle, 0);
    assert forall|j: int| 0 <= j implies matches_at(s.skip(p), needle, j) == matches_at(
        s,
        needle,
        p + j,
    ) by {
        if j + needle.len() <= s.skip(p).len() {
            assert(s.skip(p).subrange(j, j + needle.len()) =~= s.subrange(
                p + j,
                p + j + needle.len(),
            ));
        }
    }
    match first_match_from(s.skip(p), needle, 0) {
        Some(r) => {
            assert(matches_at(s, needle, p + r));
            match first_match_from(s, needle, p) {
                Some(i) => {
                    if i < p + r {
                        assert(matches_at(s.skip(p), needle, i - p));
                    }
                },
                None => {
                    assert(needle.len() > 0);
                },
            }
        },
        None => {
            if first_match_from(s, needle, p) is Some {
                let i = first_match_from(s, needle, p)->Some_0;
                assert(matches_at(s.skip(p), needle, i - p));
            }
        },
    }
}

/// A window of the tail of `s` that starts at `pos` is the same window of
/// `s`, shifted by `pos`.
pub proof fn lemma_window_of_tail(s: Seq<u8>, pos: int, a: int, b: int)
    requires
        0 <= pos <= s.len(),
        0 <= a <= b <= s.len() - pos,
    ensures
        s.subrange(pos + a, pos + b) == s.subrange(pos, s.len() as int).subrange(a, b),
{
    assert(s.subrange(pos + a, pos + b) =~= s.subrange(pos, s.len() as int).subrange(a, b));
}

/// A window that lies inside the left half of a concatenation.
pub proof fn lemma_window_left(x: Seq<u8>, y: Seq<u8>, a: int, b: int)
    requires
        0 <= a <= b <= x.len(),
    ensures
        (x + y).subrange(a, b) == x.subrange(a, b),
{
    assert((x + y).subrange(a, b) =~= x.subrange(a, b));
}

/// A window that lies inside the right half of a concatenation.
pub proof fn lemma_window_right(x: Seq<u8>, y: Seq<u8>, a: int, b: int)
    requires
        x.len() <= a <= b <= x.len() + y.len(),
    ensures
        (x + y).subrange(a, b) == y.subrange(a - x.len(), b - x.len()),
{
    assert((x + y).subrange(a, b) =~= y.subrange(a - x.len(), b - x.len()));
}

/// The least offset at or after `from` where byte `b` occurs in `s`.
pub open spec fn first_byte_from(s: Seq<u8>, b: u8, from: int) -> Option<int>
    decreases s.len() - from,
{
    if from < 0 || from >= s.len() {
        None
    } else if s[from] == b {
        Some(from)
    } else {
        first_byte_from(s, b, from + 1)
    }
}

/// `first_byte_from` finds exactly the least occurrence at or after `from`.
pub proof fn lemma_first_byte_from(s: Seq<u8>, b: u8, from: int)
    requires
        0 <= from,
    ensures
        match first_byte_from(s, b, from) {
            Some(i) => from <= i < s.len() && s[i] == b && forall|j: int|
                from <= j < i ==> s[j] != b,
            None => forall|j: int| from <= j < s.len() ==> s[j] != b,
        },
    decreases s.len() - from,
{
    if from < s.len() && s[from] != b {
        lemma_first_byte_from(s, b, from + 1);
    }
}

/// Return the least offset at which byte `b` occurs in `s`.
pub fn find_byte(s: &[u8], b: u8) -> (r: Option<usize>)
    ensures
        match r {
            Some(i) => first_byte_from(s@, b, 0) == Some(i as int),
            None => first_byte_from(s@, b, 0) is None,
        },
{
    let n = s.len();
    let mut i: usize = 0;
    while i < n
        invariant
            i <= n,
            n == s@.len(),
            forall|j: int| 0 <= j < i ==> s@[j] != b,
        decreases n - i,
    {
        if s[i] == b {
            proof {
                lemma_first_byte_from(s@, b, 0);
            }
            return Some(i);
        }
        i = i + 1;
    }
    proof {
        lemma_first_byte_from(s@, b, 0);
    }
    None
}

/// True when `needle` occurs at offset `at` of `haystack`.
pub(crate) fn bytes_eq_at(haystack: &[u8], needle: &[u8], at: usize) -> (r: bool)
    requires
        at + needle@.len() <= haystack@.len(),
    ensures
        r == matches_at(haystack@, needle@, at as int),
{
    let n = needle.len();
    let h = haystack.len();
    let mut j: usize = 0;
    while j < n
        invariant
            at + n <= h,
            haystack@.len() == h,
            needle@.len() == n,
            j <= n,
            forall|k: int| 0 <= k < j ==> haystack@[at + k] == needle@[k],
        decreases n - j,
    {
        if haystack[at + j] != needle[j] {
            proof {
                assert(haystack@.subrange(at as int, at + n as int)[j as int] == haystack@[at
                    + j]);
            }
            return false;
        }
        j = j + 1;
    }
    proof {
        assert(haystack@.subrange(at as int, at + n as int) =~= needle@);
    }
    true
}

/// Return the offset of the beginning of `needle` in `haystack`, or `None`
/// if it is not there (an empty `needle` is never found).
pub fn slicey_find(haystack: &[u8], needle: &[u8]) -> (r: Option<usize>)
    ensures
        match r {
            Some(i) => first_match_from(haystack@, needle@, 0) == Some(i as int),
            None => first_match_from(haystack@, needle@, 0) is None,
        },
{
    let n = needle.len();
    let h = haystack.len();
    if n == 0 || h < n {
        return None;
    }
    let mut i: usize = 0;
    while i <= h - n
        invariant
            1 <= n <= h,
            haystack@.len() == h,
            needle@.len() == n,
            i <= h - n + 1,
            forall|j: int| 0 <= j < i ==> !matches_at(haystack@, needle@, j),
        decreases h - n - i + 1,
    {
        if bytes_eq_at(haystack, needle, i) {
            proof {
                lemma_first_match_from(haystack@, needle@, 0);
            }
            return Some(i);
        }
        i = i + 1;
    }
    proof {
        lemma_first_match_from(haystack@, needle@, 0);
    }
    None
}

} // verus!
