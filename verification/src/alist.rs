//! Association lists keyed by package identity.
//!
//! Every side table of the resolved graph is held as a vector of
//! `(PackageId, value)` pairs with pairwise-distinct keys.  The ghost view
//! of such a table is the sequence of `(PkgIdView, value view)` pairs; the
//! functions here give that sequence map semantics (`alist_get`,
//! `alist_map`) and relate the executable linear search to it.

use crate::types::PackageId;
use crate::types::PkgIdView;
use vstd::prelude::*;

verus! {

/// The keys of the pairs are pairwise distinct.
pub open spec fn unique_keys<V>(s: Seq<(PkgIdView, V)>) -> bool {
    forall|i: int, j: int| 0 <= i < j < s.len() ==> (#[trigger] s[i]).0 != (#[trigger] s[j]).0
}

/// Some pair carries the key `k`.
pub open spec fn alist_contains<V>(s: Seq<(PkgIdView, V)>, k: PkgIdView) -> bool {
    exists|i: int| 0 <= i < s.len() && (#[trigger] s[i]).0 == k
}

/// The value of the first pair carrying the key `k`, if any.
pub open spec fn alist_get<V>(s: Seq<(PkgIdView, V)>, k: PkgIdView) -> Option<V>
    decreases s.len(),
{
    if s.len() == 0 {
        None
    } else if s[0].0 == k {
        Some(s[0].1)
    } else {
        alist_get(s.drop_first(), k)
    }
}

/// The pairs read as a map; a later pair wins over an earlier one with the
/// same key.
pub open spec fn alist_map<V>(s: Seq<(PkgIdView, V)>) -> Map<PkgIdView, V>
    decreases s.len(),
{
    if s.len() == 0 {
        Map::empty()
    } else {
        alist_map(s.drop_last()).insert(s.last().0, s.last().1)
    }
}

/// The domain of `alist_map` is exactly the set of keys that occur.
pub proof fn lemma_alist_map_dom<V>(s: Seq<(PkgIdView, V)>)
    ensures
        forall|k: PkgIdView| #[trigger]
            alist_map(s).dom().contains(k) <==> alist_contains(s, k),
    decreases s.len(),
{
    if s.len() > 0 {
        lemma_alist_map_dom(s.drop_last());
        assert forall|k: PkgIdView| #[trigger]
            alist_map(s).dom().contains(k) <==> alist_contains(s, k) by {
            if alist_map(s).dom().contains(k) {
                if k == s.last().0 {
                    assert(s[s.len() - 1].0 == k);
                } else {
                    assert(alist_map(s.drop_last()).dom().contains(k));
                    assert(alist_contains(s.drop_last(), k));
                    let i = choose|i: int|
                        0 <= i < s.drop_last().len() && (#[trigger] s.drop_last()[i]).0 == k;
                    assert(s.drop_last()[i] == s[i]);
                    assert(s[i].0 == k);
                }
            }
            if alist_contains(s, k) {
                let i = choose|i: int| 0 <= i < s.len() && (#[trigger] s[i]).0 == k;
                if i < s.len() - 1 {
                    assert(s.drop_last()[i] == s[i]);
                    assert(alist_contains(s.drop_last(), k));
                    assert(alist_map(s.drop_last()).dom().contains(k));
                }
            }
        }
    }
}

/// With distinct keys, `alist_map` maps each occurring key to its value.
pub proof fn lemma_alist_map_index<V>(s: Seq<(PkgIdView, V)>)
    requires
        unique_keys(s),
    ensures
        forall|i: int| 0 <= i < s.len() ==> alist_map(s)[(#[trigger] s[i]).0] == s[i].1,
    decreases s.len(),
{
    if s.len() > 0 {
        assert(unique_keys(s.drop_last())) by {
            assert forall|i: int, j: int|
                0 <= i < j < s.drop_last().len() implies (#[trigger] s.drop_last()[i]).0 != (
            #[trigger] s.drop_last()[j]).0 by {
                assert(s[i].0 != s[j].0);
            }
        }
        lemma_alist_map_index(s.drop_last());
        assert forall|i: int| 0 <= i < s.len() implies alist_map(s)[(#[trigger] s[i]).0] == s[i].1
        by {
            if i < s.len() - 1 {
                assert(s[i].0 != s[s.len() - 1].0);
                assert(s.drop_last()[i] == s[i]);
            }
        }
    }
}

/// The first pair carrying the key decides `alist_get`.
pub proof fn lemma_alist_get_present<V>(s: Seq<(PkgIdView, V)>, i: int)
    requires
        0 <= i < s.len(),
        forall|j: int| 0 <= j < i ==> (#[trigger] s[j]).0 != s[i].0,
    ensures
        alist_get(s, s[i].0) == Some(s[i].1),
    decreases i,
{
    if i > 0 {
        assert(s[0].0 != s[i].0);
        assert forall|j: int| 0 <= j < i - 1 implies (#[trigger] s.drop_first()[j]).0
            != s.drop_first()[i - 1].0 by {
            assert(s[j + 1].0 != s[i].0);
        }
        lemma_alist_get_present(s.drop_first(), i - 1);
        assert(s.drop_first()[i - 1] == s[i]);
    }
}

/// A key that occurs nowhere gives `None`.
pub proof fn lemma_alist_get_absent<V>(s: Seq<(PkgIdView, V)>, k: PkgIdView)
    requires
        forall|i: int| 0 <= i < s.len() ==> (#[trigger] s[i]).0 != k,
    ensures
        alist_get(s, k) == None::<V>,
    decreases s.len(),
{
    if s.len() > 0 {
        assert forall|i: int| 0 <= i < s.drop_first().len() implies (#[trigger] s.drop_first()[
        i]).0 != k by {
            assert(s[i + 1].0 != k);
        }
        lemma_alist_get_absent(s.drop_first(), k);
    }
}

/// With distinct keys, `alist_get` and `alist_map` agree.
pub proof fn lemma_alist_get_map<V>(s: Seq<(PkgIdView, V)>, k: PkgIdView)
    requires
        unique_keys(s),
    ensures
        alist_map(s).dom().contains(k) <==> alist_contains(s, k),
        alist_contains(s, k) ==> alist_get(s, k) == Some(alist_map(s)[k]),
        !alist_contains(s, k) ==> alist_get(s, k) == None::<V>,
{
    lemma_alist_map_dom(s);
    lemma_alist_map_index(s);
    if alist_contains(s, k) {
        let i = choose|i: int| 0 <= i < s.len() && (#[trigger] s[i]).0 == k;
        assert forall|j: int| 0 <= j < i implies (#[trigger] s[j]).0 != s[i].0 by {}
        lemma_alist_get_present(s, i);
    } else {
        assert forall|i: int| 0 <= i < s.len() implies (#[trigger] s[i]).0 != k by {}
        lemma_alist_get_absent(s, k);
    }
}

/// Appending a pair changes `alist_get` only for a key not yet present.
pub proof fn lemma_alist_get_push<V>(s: Seq<(PkgIdView, V)>, p: (PkgIdView, V), k: PkgIdView)
    ensures
        alist_contains(s, k) ==> alist_get(s.push(p), k) == alist_get(s, k),
        !alist_contains(s, k) && p.0 == k ==> alist_get(s.push(p), k) == Some(p.1),
        !alist_contains(s, k) && p.0 != k ==> alist_get(s.push(p), k) is None,
    decreases s.len(),
{
    if s.len() == 0 {
        assert(s.push(p)[0] == p);
        assert(s.push(p).len() == 1);
        if p.0 != k {
            assert(s.push(p).drop_first() =~= Seq::<(PkgIdView, V)>::empty());
            assert(alist_get(Seq::<(PkgIdView, V)>::empty(), k) is None);
        }
    } else {
        assert(s.push(p)[0] == s[0]);
        if s[0].0 == k {
            assert(s[0].0 == k && 0 < s.len());
            assert(alist_contains(s, k));
        } else {
            assert(s.push(p).drop_first() =~= s.drop_first().push(p));
            lemma_alist_get_push(s.drop_first(), p, k);
            assert(alist_contains(s, k) <==> alist_contains(s.drop_first(), k)) by {
                if alist_contains(s, k) {
                    let i = choose|i: int| 0 <= i < s.len() && (#[trigger] s[i]).0 == k;
                    assert(i > 0);
                    assert(s.drop_first()[i - 1].0 == k);
                }
                if alist_contains(s.drop_first(), k) {
                    let i = choose|i: int|
                        0 <= i < s.drop_first().len() && (#[trigger] s.drop_first()[i]).0 == k;
                    assert(s[i + 1].0 == k);
                }
            }
        }
    }
}

/// The keys of the pairs, in order.
pub open spec fn alist_keys<V>(s: Seq<(PkgIdView, V)>) -> Seq<PkgIdView> {
    s.map_values(|p: (PkgIdView, V)| p.0)
}

/// With distinct keys, the key sequence is duplicate-free, and a key
/// occurs in it exactly when it is present.
pub proof fn lemma_alist_keys<V>(s: Seq<(PkgIdView, V)>)
    ensures
        unique_keys(s) ==> alist_keys(s).no_duplicates(),
        forall|k: PkgIdView| #[trigger] alist_keys(s).contains(k) <==> alist_contains(s, k),
{
    if unique_keys(s) {
        assert forall|i: int, j: int|
            0 <= i < alist_keys(s).len() && 0 <= j < alist_keys(s).len() && i != j implies
            alist_keys(s)[i] != alist_keys(s)[j] by {
            if i < j {
                assert(s[i].0 != s[j].0);
            } else {
                assert(s[j].0 != s[i].0);
            }
        }
    }
    assert forall|k: PkgIdView| #[trigger] alist_keys(s).contains(k) <==> alist_contains(s, k) by {
        if alist_keys(s).contains(k) {
            let i = choose|i: int| 0 <= i < alist_keys(s).len() && #[trigger] alist_keys(s)[i] == k;
            assert(s[i].0 == k);
        }
        if alist_contains(s, k) {
            let i = choose|i: int| 0 <= i < s.len() && (#[trigger] s[i]).0 == k;
            assert(alist_keys(s)[i] == k);
        }
    }
}

/// Appending a pair adds exactly its key to the keys present.
pub proof fn lemma_alist_contains_push<V>(s: Seq<(PkgIdView, V)>, p: (PkgIdView, V))
    ensures
        forall|k: PkgIdView| #[trigger]
            alist_contains(s.push(p), k) <==> alist_contains(s, k) || p.0 == k,
{
    assert forall|k: PkgIdView| #[trigger]
        alist_contains(s.push(p), k) <==> alist_contains(s, k) || p.0 == k by {
        if alist_contains(s.push(p), k) {
            let i = choose|i: int| 0 <= i < s.push(p).len() && (#[trigger] s.push(p)[i]).0 == k;
            if i < s.len() {
                assert(s[i].0 == k);
            } else {
                assert(s.push(p)[i] == p);
            }
        }
        if alist_contains(s, k) {
            let i = choose|i: int| 0 <= i < s.len() && (#[trigger] s[i]).0 == k;
            assert(s.push(p)[i].0 == k);
        }
        if p.0 == k {
            assert(s.push(p)[s.len() as int].0 == k);
        }
    }
}

/// With pointwise-equal keys, the same keys are present.
pub proof fn lemma_alist_contains_same_keys<V, W>(s: Seq<(PkgIdView, V)>, t: Seq<(PkgIdView, W)>)
    requires
        s.len() == t.len(),
        forall|i: int| 0 <= i < s.len() ==> (#[trigger] s[i]).0 == (#[trigger] t[i]).0,
    ensures
        forall|k: PkgIdView| #[trigger] alist_contains(s, k) <==> #[trigger] alist_contains(t, k),
{
    assert forall|k: PkgIdView| #[trigger]
        alist_contains(s, k) <==> #[trigger] alist_contains(t, k) by {
        if alist_contains(s, k) {
            let i = choose|i: int| 0 <= i < s.len() && (#[trigger] s[i]).0 == k;
            assert(t[i].0 == k);
        }
        if alist_contains(t, k) {
            let i = choose|i: int| 0 <= i < t.len() && (#[trigger] t[i]).0 == k;
            assert(s[i].0 == k);
        }
    }
}

/// Replacing the value of the first pair carrying a key changes
/// `alist_get` only for that key.
pub proof fn lemma_alist_get_update<V>(s: Seq<(PkgIdView, V)>, i: int, v: V, k: PkgIdView)
    requires
        0 <= i < s.len(),
        forall|j: int| 0 <= j < i ==> (#[trigger] s[j]).0 != s[i].0,
    ensures
        alist_get(s.update(i, (s[i].0, v)), k) == if k == s[i].0 {
            Some(v)
        } else {
            alist_get(s, k)
        },
    decreases i,
{
    let t = s.update(i, (s[i].0, v));
    if i == 0 {
        assert(t[0] == (s[0].0, v));
        if k != s[0].0 {
            assert(t.drop_first() =~= s.drop_first());
        }
    } else {
        assert(t[0] == s[0]);
        assert(s[0].0 != s[i].0);
        assert(t.drop_first() =~= s.drop_first().update(i - 1, (s.drop_first()[i - 1].0, v)));
        assert forall|j: int| 0 <= j < i - 1 implies (#[trigger] s.drop_first()[j]).0
            != s.drop_first()[i - 1].0 by {
            assert(s[j + 1].0 != s[i].0);
        }
        lemma_alist_get_update(s.drop_first(), i - 1, v, k);
        if s[0].0 == k {
            assert(alist_get(t, k) == Some(s[0].1));
        }
    }
}

/// Each pair turned around: the value becomes the key.
pub open spec fn swap_pairs(s: Seq<(PkgIdView, PkgIdView)>) -> Seq<(PkgIdView, PkgIdView)> {
    s.map_values(|p: (PkgIdView, PkgIdView)| (p.1, p.0))
}

/// Replacing the value at a key's position reads as a map insertion.
pub proof fn lemma_alist_map_update<V>(s: Seq<(PkgIdView, V)>, idx: int, v: V)
    requires
        unique_keys(s),
        0 <= idx < s.len(),
    ensures
        alist_map(s.update(idx, (s[idx].0, v))) == alist_map(s).insert(s[idx].0, v),
{
    let t = s.update(idx, (s[idx].0, v));
    assert(unique_keys(t)) by {
        assert forall|i: int, j: int| 0 <= i < j < t.len() implies (#[trigger] t[i]).0 != (
        #[trigger] t[j]).0 by {
            assert(s[i].0 != s[j].0);
        }
    }
    lemma_alist_map_dom(s);
    lemma_alist_map_dom(t);
    lemma_alist_map_index(s);
    lemma_alist_map_index(t);
    lemma_alist_contains_same_keys(t, s);
    assert forall|k: PkgIdView| #[trigger]
        alist_map(t).dom().contains(k) <==> alist_map(s).insert(s[idx].0, v).dom().contains(k) by {
        if k == s[idx].0 {
            assert(alist_contains(s, k));
        }
    }
    assert forall|k: PkgIdView| alist_map(t).dom().contains(k) implies #[trigger] alist_map(t)[k]
        == alist_map(s).insert(s[idx].0, v)[k] by {
        if k == s[idx].0 {
            assert(t[idx] == (s[idx].0, v));
            assert(alist_map(t)[t[idx].0] == t[idx].1);
        } else {
            assert(alist_contains(s, k));
            let w = choose|w: int| 0 <= w < s.len() && (#[trigger] s[w]).0 == k;
            assert(w != idx);
            assert(t[w] == s[w]);
            assert(alist_map(t)[t[w].0] == t[w].1);
            assert(alist_map(s)[s[w].0] == s[w].1);
        }
    }
    assert(alist_map(t) =~= alist_map(s).insert(s[idx].0, v));
}

/// Finds the first pair whose key equals `k` and returns its position.
pub fn find_key_index<W>(s: &Vec<(PackageId, W)>, k: &PackageId) -> (r: Option<usize>)
    ensures
        match r {
            Some(i) => i < s@.len() && s@[i as int].0@ == k@ && forall|j: int|
                0 <= j < i ==> (#[trigger] s@[j]).0@ != k@,
            None => forall|j: int| 0 <= j < s@.len() ==> (#[trigger] s@[j]).0@ != k@,
        },
{
    let mut i: usize = 0;
    while i < s.len()
        invariant
            i <= s@.len(),
            forall|j: int| 0 <= j < i ==> (#[trigger] s@[j]).0@ != k@,
        decreases s@.len() - i,
    {
        if s[i].0 == *k {
            return Some(i);
        }
        i = i + 1;
    }
    None
}

} // verus!
