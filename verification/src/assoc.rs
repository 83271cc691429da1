//! Association lists modelled as finite maps.
//!
//! Each table of a scope is stored as a vector of key/value pairs whose
//! keys are pairwise distinct, and is specified through the finite map it
//! denotes. The lemmas here relate the vector operations the environment
//! performs (scan, overwrite in place, append) to `Map` operations.

use vstd::prelude::*;

verus! {

/// The finite map an association list denotes; a later entry wins over an
/// earlier one with the same key.
pub open spec fn al_map<K, V>(s: Seq<(K, V)>) -> Map<K, V>
    decreases s.len(),
{
    if s.len() == 0 {
        Map::empty()
    } else {
        al_map(s.drop_last()).insert(s.last().0, s.last().1)
    }
}

/// All keys of the association list are pairwise distinct.
pub open spec fn al_unique<K, V>(s: Seq<(K, V)>) -> bool {
    forall|i: int, j: int|
        0 <= i < j < s.len() ==> (#[trigger] s[i]).0 != (#[trigger] s[j]).0
}

/// The map contains a key exactly when some entry carries it.
pub proof fn lemma_al_contains<K, V>(s: Seq<(K, V)>, k: K)
    ensures
        al_map(s).contains_key(k) <==> exists|i: int| 0 <= i < s.len() && (#[trigger] s[i]).0 == k,
    decreases s.len(),
{
    if s.len() > 0 {
        lemma_al_contains(s.drop_last(), k);
        if s.last().0 == k {
            assert(s[s.len() - 1].0 == k);
        } else if al_map(s).contains_key(k) {
            let i = choose|i: int| 0 <= i < s.drop_last().len() && (#[trigger] s.drop_last()[i]).0 == k;
            assert(s[i].0 == k);
        } else {
            assert forall|i: int| 0 <= i < s.len() implies (#[trigger] s[i]).0 != k by {
                if i < s.len() - 1 {
                    assert(s.drop_last()[i] == s[i]);
                }
            }
        }
    }
}

/// In a list with distinct keys, the entry that carries a key gives the
/// map's value at that key.
pub proof fn lemma_al_index<K, V>(s: Seq<(K, V)>, i: int)
    requires
        al_unique(s),
        0 <= i < s.len(),
    ensures
        al_map(s).contains_key(s[i].0),
        al_map(s)[s[i].0] == s[i].1,
    decreases s.len(),
{
    if i == s.len() - 1 {
    } else {
        assert(s[i].0 != s[s.len() - 1].0);
        assert(s.drop_last()[i] == s[i]);
        lemma_al_index(s.drop_last(), i);
    }
}

/// Appending an entry with a fresh key inserts it into the map and keeps
/// the keys distinct.
pub proof fn lemma_al_push<K, V>(s: Seq<(K, V)>, k: K, v: V)
    requires
        forall|i: int| 0 <= i < s.len() ==> (#[trigger] s[i]).0 != k,
    ensures
        al_map(s.push((k, v))) == al_map(s).insert(k, v),
        al_unique(s) ==> al_unique(s.push((k, v))),
{
    assert(s.push((k, v)).drop_last() =~= s);
    assert forall|i: int, j: int| 0 <= i < j < s.push((k, v)).len() implies (#[trigger] s.push(
        (k, v),
    )[i]).0 != (#[trigger] s.push((k, v))[j]).0 || !al_unique(s) by {
        if al_unique(s) {
            if j < s.len() {
                assert(s.push((k, v))[i] == s[i]);
                assert(s.push((k, v))[j] == s[j]);
            } else {
                assert(s.push((k, v))[i] == s[i]);
                assert(s.push((k, v))[j].0 == k);
            }
        }
    }
}

/// Overwriting the entry that carries a key updates the map at that key
/// and keeps the keys distinct.
pub proof fn lemma_al_update<K, V>(s: Seq<(K, V)>, i: int, v: V)
    requires
        al_unique(s),
        0 <= i < s.len(),
    ensures
        al_map(s.update(i, (s[i].0, v))) == al_map(s).insert(s[i].0, v),
        al_unique(s.update(i, (s[i].0, v))),
    decreases s.len(),
{
    let k = s[i].0;
    let t = s.update(i, (k, v));
    assert forall|p: int, q: int| 0 <= p < q < t.len() implies (#[trigger] t[p]).0 != (
    #[trigger] t[q]).0 by {
        assert(t[p].0 == s[p].0);
        assert(t[q].0 == s[q].0);
    }
    if i == s.len() - 1 {
        assert(t.drop_last() =~= s.drop_last());
    } else {
        assert(t.drop_last() =~= s.drop_last().update(i, (k, v)));
        assert(s.drop_last()[i] == s[i]);
        lemma_al_update(s.drop_last(), i, v);
        let lk = s.last().0;
        let lv = s.last().1;
        assert(lk != k);
        assert(t.last() == s.last());
        assert(al_map(t) == al_map(s.drop_last()).insert(k, v).insert(lk, lv));
        assert(al_map(s.drop_last()).insert(k, v).insert(lk, lv) =~= al_map(s.drop_last()).insert(
            lk,
            lv,
        ).insert(k, v));
    }
}

/// Inserting every entry of an association list into a map, in order,
/// overlays the list's own map onto it.
pub proof fn lemma_al_overlay_step<K, V>(base: Map<K, V>, s: Seq<(K, V)>, i: int)
    requires
        0 <= i < s.len(),
    ensures
        base.union_prefer_right(al_map(s.subrange(0, i))).insert(s[i].0, s[i].1)
            == base.union_prefer_right(al_map(s.subrange(0, i + 1))),
{
    assert(s.subrange(0, i + 1).drop_last() =~= s.subrange(0, i));
    assert(s.subrange(0, i + 1).last() == s[i]);
    assert(base.union_prefer_right(al_map(s.subrange(0, i))).insert(s[i].0, s[i].1)
        =~= base.union_prefer_right(al_map(s.subrange(0, i)).insert(s[i].0, s[i].1)));
}

} // verus!
