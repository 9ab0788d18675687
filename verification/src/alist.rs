//! Association lists and the finite maps they describe.
//!
//! The per-layer slot stores and the persistent registry keep their entries in
//! vectors of key-value pairs whose keys are pairwise distinct.  Contracts
//! speak about the [`Map`] such a list describes; the lemmas here connect the
//! list operations the executable code performs to the corresponding map
//! operations.

use vstd::prelude::*;

verus! {

/// The map described by the key-value pairs `s`; a later entry wins over an
/// earlier one with the same key.
pub open spec fn alist_map<K, V>(s: Seq<(K, V)>) -> Map<K, V>
    decreases s.len(),
{
    if s.len() == 0 {
        Map::empty()
    } else {
        alist_map(s.drop_last()).insert(s.last().0, s.last().1)
    }
}

/// Whether the keys of `s` are pairwise distinct.
pub open spec fn unique_keys<K, V>(s: Seq<(K, V)>) -> bool {
    forall|i: int, j: int| 0 <= i < j < s.len() ==> s[i].0 != s[j].0
}

/// The map contains exactly the keys that occur in the list.
pub proof fn lemma_alist_contains<K, V>(s: Seq<(K, V)>, k: K)
    ensures
        alist_map(s).contains_key(k) <==> exists|i: int| 0 <= i < s.len() && s[i].0 == k,
    decreases s.len(),
{
    if s.len() > 0 {
        lemma_alist_contains(s.drop_last(), k);
        if s.last().0 == k {
            assert(s[s.len() - 1].0 == k);
        } else if exists|i: int| 0 <= i < s.len() - 1 && s.drop_last()[i].0 == k {
            let i = choose|i: int| 0 <= i < s.len() - 1 && s.drop_last()[i].0 == k;
            assert(s[i].0 == k);
        } else if exists|i: int| 0 <= i < s.len() && s[i].0 == k {
            let i = choose|i: int| 0 <= i < s.len() && s[i].0 == k;
            assert(s.drop_last()[i].0 == k);
        }
    }
}

/// With distinct keys, the entry at position `i` gives its key's map value.
pub proof fn lemma_alist_at<K, V>(s: Seq<(K, V)>, i: int)
    requires
        unique_keys(s),
        0 <= i < s.len(),
    ensures
        alist_map(s).contains_key(s[i].0),
        alist_map(s)[s[i].0] == s[i].1,
    decreases s.len(),
{
    if i < s.len() - 1 {
        assert(unique_keys(s.drop_last())) by {
            assert(forall|x: int, y: int|
                0 <= x < y < s.len() - 1 ==> s.drop_last()[x].0 != s.drop_last()[y].0);
        }
        lemma_alist_at(s.drop_last(), i);
        assert(s.last().0 != s[i].0);
    }
}

/// Appending a pair inserts its key into the map.
pub proof fn lemma_alist_push<K, V>(s: Seq<(K, V)>, k: K, v: V)
    ensures
        alist_map(s.push((k, v))) == alist_map(s).insert(k, v),
{
    assert(s.push((k, v)).drop_last() =~= s);
}

/// Replacing the value at position `i` updates its key in the map.
pub proof fn lemma_alist_update<K, V>(s: Seq<(K, V)>, i: int, v: V)
    requires
        unique_keys(s),
        0 <= i < s.len(),
    ensures
        alist_map(s.update(i, (s[i].0, v))) == alist_map(s).insert(s[i].0, v),
    decreases s.len(),
{
    let k = s[i].0;
    let t = s.update(i, (k, v));
    if i == s.len() - 1 {
        assert(t.drop_last() =~= s.drop_last());
        assert(alist_map(s.drop_last()).insert(k, s[i].1).insert(k, v) =~= alist_map(
            s.drop_last(),
        ).insert(k, v));
    } else {
        assert(unique_keys(s.drop_last())) by {
            assert(forall|x: int, y: int|
                0 <= x < y < s.len() - 1 ==> s.drop_last()[x].0 != s.drop_last()[y].0);
        }
        lemma_alist_update(s.drop_last(), i, v);
        assert(t.drop_last() =~= s.drop_last().update(i, (k, v)));
        assert(s.last().0 != k);
        assert(alist_map(s.drop_last()).insert(k, v).insert(s.last().0, s.last().1) =~= alist_map(
            s.drop_last(),
        ).insert(s.last().0, s.last().1).insert(k, v));
        assert(t.last() == s.last());
    }
}

} // verus!
