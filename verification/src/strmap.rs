//! A string-to-string map with a mathematical `Map` view, used for
//! environment variables, exposed headers, decoded query pairs, and the
//! headers of multipart parts.  Keys are unique; inserting an existing key
//! overwrites its value (last write wins).

use vstd::pervasive::VecAdditionalExecFns;
use vstd::prelude::*;

verus! {

/// The map described by a list of key/value pairs where a later pair with
/// the same key overwrites an earlier one.
pub open spec fn pairs_map(ps: Seq<(Seq<char>, Seq<char>)>) -> Map<Seq<char>, Seq<char>>
    decreases ps.len(),
{
    if ps.len() == 0 {
        Map::empty()
    } else {
        pairs_map(ps.drop_last()).insert(ps.last().0, ps.last().1)
    }
}

/// A key is in the map exactly when some pair of the list holds it.
pub proof fn lemma_pairs_map_dom(ps: Seq<(Seq<char>, Seq<char>)>, k: Seq<char>)
    ensures
        pairs_map(ps).dom().contains(k) <==> exists|i: int| 0 <= i < ps.len() && ps[i].0 == k,
    decreases ps.len(),
{
    if ps.len() > 0 {
        lemma_pairs_map_dom(ps.drop_last(), k);
        assert(forall|i: int| 0 <= i < ps.len() - 1 ==> ps.drop_last()[i] == ps[i]);
        if ps.last().0 != k && pairs_map(ps).dom().contains(k) {
            let i = choose|i: int| 0 <= i < ps.drop_last().len() && ps.drop_last()[i].0 == k;
            assert(ps[i].0 == k);
        }
        if exists|i: int| 0 <= i < ps.len() && ps[i].0 == k {
            let i = choose|i: int| 0 <= i < ps.len() && ps[i].0 == k;
            if i < ps.len() - 1 {
                assert(ps.drop_last()[i].0 == k);
            }
        }
    }
}

/// Law: when a key occurs several times in a pair list, the map built from
/// the list holds the value of the key's last occurrence (last write wins).
pub proof fn lemma_pairs_map_last_write_wins(ps: Seq<(Seq<char>, Seq<char>)>, i: int)
    requires
        0 <= i < ps.len(),
        forall|j: int| i < j < ps.len() ==> ps[j].0 != ps[i].0,
    ensures
        pairs_map(ps).dom().contains(ps[i].0),
        pairs_map(ps)[ps[i].0] == ps[i].1,
    decreases ps.len(),
{
    if i == ps.len() - 1 {
    } else {
        assert(ps.drop_last()[i] == ps[i]);
        lemma_pairs_map_last_write_wins(ps.drop_last(), i);
    }
}

/// True when no two pairs of the list share a key.
pub open spec fn unique_keys(ps: Seq<(Seq<char>, Seq<char>)>) -> bool {
    forall|i: int, j: int| 0 <= i < j < ps.len() ==> ps[i].0 != ps[j].0
}

/// With unique keys, the map has exactly as many entries as the list.
pub proof fn lemma_pairs_map_len(ps: Seq<(Seq<char>, Seq<char>)>)
    requires
        unique_keys(ps),
    ensures
        pairs_map(ps).dom().finite(),
        pairs_map(ps).dom().len() == ps.len(),
    decreases ps.len(),
{
    broadcast use vstd::set::axiom_set_insert_len;

    if ps.len() > 0 {
        assert(unique_keys(ps.drop_last()));
        lemma_pairs_map_len(ps.drop_last());
        lemma_pairs_map_dom(ps.drop_last(), ps.last().0);
        assert(forall|i: int|
            0 <= i < ps.drop_last().len() ==> ps.drop_last()[i] == ps[i]);
        assert(!pairs_map(ps.drop_last()).dom().contains(ps.last().0));
    }
}

/// A map from strings to strings with unique keys.
pub struct StrMap {
    pairs: Vec<(String, String)>,
}

impl View for StrMap {
    type V = Map<Seq<char>, Seq<char>>;

    closed spec fn view(&self) -> Map<Seq<char>, Seq<char>> {
        pairs_map(self.kv())
    }
}

/// The character sequences of a list of string pairs.
pub open spec fn kv_of(ps: Seq<(String, String)>) -> Seq<(Seq<char>, Seq<char>)> {
    ps.map_values(|p: (String, String)| (p.0@, p.1@))
}

impl StrMap {
    /// The underlying pair list, as character sequences.
    pub closed spec fn kv(&self) -> Seq<(Seq<char>, Seq<char>)> {
        kv_of(self.pairs@)
    }

    #[verifier::type_invariant]
    spec fn inv(&self) -> bool {
        unique_keys(self.kv())
    }

    /// An empty map.
    pub fn new() -> (r: StrMap)
        ensures
            r@ == Map::<Seq<char>, Seq<char>>::empty(),
    {
        let r = StrMap { pairs: Vec::new() };
        proof {
            assert(r.kv() =~= Seq::<(Seq<char>, Seq<char>)>::empty());
        }
        r
    }

    /// Insert a pair, overwriting the value of an existing key.
    pub fn set(&mut self, k: String, v: String)
        ensures
            final(self)@ == old(self)@.insert(k@, v@),
    {
        proof {
            use_type_invariant(&*self);
        }
        let mut pairs: Vec<(String, String)> = Vec::new();
        core::mem::swap(&mut self.pairs, &mut pairs);
        let ghost old_kv = kv_of(pairs@);
        proof {
            assert(old_kv == old(self).kv());
        }
        let n = pairs.len();
        let mut i: usize = 0;
        while i < n
            invariant
                n == pairs@.len(),
                i <= n,
                kv_of(pairs@) == old_kv,
                old_kv == old(self).kv(),
                unique_keys(old_kv),
                forall|j: int| 0 <= j < i ==> old_kv[j].0 != k@,
            decreases n - i,
        {
            if crate::text::str_eq(pairs[i].0.as_str(), k.as_str()) {
                pairs.set(i, (k, v));
                proof {
                    assert(kv_of(pairs@) =~= old_kv.update(i as int, (k@, v@)));
                    assert(old_kv[i as int].0 == k@);
                    assert(forall|j: int|
                        0 <= j < kv_of(pairs@).len() ==> kv_of(pairs@)[j].0 == old_kv[j].0);
                    assert(unique_keys(kv_of(pairs@)));
                    lemma_pairs_map_update(old_kv, i as int, k@, v@);
                }
                self.pairs = pairs;
                return;
            }
            i = i + 1;
        }
        pairs.push((k, v));
        proof {
            assert(kv_of(pairs@) =~= old_kv.push((k@, v@)));
            assert(kv_of(pairs@).drop_last() =~= old_kv);
            lemma_pairs_map_dom(old_kv, k@);
        }
        self.pairs = pairs;
    }

    /// Look a key up.
    pub fn get(&self, k: &str) -> (r: Option<&str>)
        ensures
            match r {
                Some(v) => self@.dom().contains(k@) && v@ == self@[k@],
                None => !self@.dom().contains(k@),
            },
    {
        proof {
            use_type_invariant(self);
        }
        let n = self.pairs.len();
        let mut i: usize = 0;
        while i < n
            invariant
                n == self.pairs@.len(),
                i <= n,
                unique_keys(self.kv()),
                forall|j: int| 0 <= j < i ==> self.kv()[j].0 != k@,
            decreases n - i,
        {
            if crate::text::str_eq(self.pairs[i].0.as_str(), k) {
                proof {
                    lemma_pairs_map_last_write_wins(self.kv(), i as int);
                }
                return Some(self.pairs[i].1.as_str());
            }
            i = i + 1;
        }
        proof {
            lemma_pairs_map_dom(self.kv(), k@);
        }
        None
    }

    /// The number of entries.
    pub fn len(&self) -> (r: usize)
        ensures
            self@.dom().finite(),
            r == self@.dom().len(),
    {
        proof {
            use_type_invariant(self);
            lemma_pairs_map_len(self.kv());
        }
        self.pairs.len()
    }

    /// All entries, in insertion order.  Every returned pair is in the map,
    /// the returned keys are distinct, and every key of the map is
    /// returned.
    pub fn entries(&self) -> (r: Vec<(String, String)>)
        ensures
            forall|i: int|
                0 <= i < r@.len() ==> self@.contains_pair(#[trigger] r@[i].0@, r@[i].1@),
            forall|i: int, j: int| 0 <= i < j < r@.len() ==> r@[i].0@ != r@[j].0@,
            forall|k: Seq<char>|
                self@.dom().contains(k) ==> exists|i: int| 0 <= i < r@.len() && #[trigger] r@[i].0@
                    == k,
            self@.dom().finite(),
            r@.len() == self@.dom().len(),
    {
        proof {
            use_type_invariant(self);
            lemma_pairs_map_len(self.kv());
        }
        let n = self.pairs.len();
        let mut out: Vec<(String, String)> = Vec::new();
        let mut i: usize = 0;
        while i < n
            invariant
                n == self.pairs@.len(),
                i <= n,
                out@.len() == i,
                forall|j: int| 0 <= j < i ==> (#[trigger] out@[j].0@, out@[j].1@) == self.kv()[j],
            decreases n - i,
        {
            let p = &self.pairs[i];
            out.push((p.0.clone(), p.1.clone()));
            i = i + 1;
        }
        proof {
            assert forall|i: int| 0 <= i < out@.len() implies self@.contains_pair(
                #[trigger] out@[i].0@,
                out@[i].1@,
            ) by {
                lemma_pairs_map_last_write_wins(self.kv(), i);
            }
            assert forall|k: Seq<char>| self@.dom().contains(k) implies exists|i: int|
                0 <= i < out@.len() && #[trigger] out@[i].0@ == k by {
                lemma_pairs_map_dom(self.kv(), k);
                let i = choose|i: int| 0 <= i < self.kv().len() && self.kv()[i].0 == k;
                assert(out@[i].0@ == k);
            }
        }
        out
    }
}

/// Updating the pair at the unique position of a key rewrites that key's
/// entry in the map.
proof fn lemma_pairs_map_update(
    ps: Seq<(Seq<char>, Seq<char>)>,
    i: int,
    k: Seq<char>,
    v: Seq<char>,
)
    requires
        unique_keys(ps),
        0 <= i < ps.len(),
        ps[i].0 == k,
    ensures
        pairs_map(ps.update(i, (k, v))) == pairs_map(ps).insert(k, v),
    decreases ps.len(),
{
    let updated = ps.update(i, (k, v));
    if i == ps.len() - 1 {
        assert(updated.drop_last() =~= ps.drop_last());
        assert(pairs_map(ps).insert(k, v) =~= pairs_map(ps.drop_last()).insert(k, v));
    } else {
        assert(updated.drop_last() =~= ps.drop_last().update(i, (k, v)));
        assert(unique_keys(ps.drop_last()));
        assert(ps.drop_last()[i] == ps[i]);
        lemma_pairs_map_update(ps.drop_last(), i, k, v);
        let last = ps.last();
        assert(last.0 != k);
        assert(updated.last() == last);
        assert(pairs_map(ps.drop_last()).insert(k, v).insert(last.0, last.1) =~= pairs_map(
            ps.drop_last(),
        ).insert(last.0, last.1).insert(k, v));
    }
}

} // verus!
