//! Association lists: sequences of `(key, value)` pairs seen as maps, a
//! later pair winning.
use vstd::prelude::*;

verus! {

/// The map of an association list; a later pair wins.
pub open spec fn assoc_map<K, V>(e: Seq<(K, V)>) -> Map<K, V>
    decreases e.len(),
{
    if e.len() == 0 {
        Map::empty()
    } else {
        assoc_map(e.drop_last()).insert(e.last().0, e.last().1)
    }
}

/// No key occurs twice.
pub open spec fn keys_distinct<K, V>(e: Seq<(K, V)>) -> bool {
    forall|i: int, j: int| 0 <= i < j < e.len() ==> (#[trigger] e[i]).0 != (#[trigger] e[j]).0
}

/// The keys of an association list.
pub proof fn lemma_assoc_dom<K, V>(e: Seq<(K, V)>, k: K)
    ensures
        assoc_map(e).contains_key(k) <==> exists|i: int| 0 <= i < e.len() && (#[trigger] e[i]).0 == k,
    decreases e.len(),
{
    if e.len() > 0 {
        lemma_assoc_dom(e.drop_last(), k);
        if assoc_map(e.drop_last()).contains_key(k) {
            let i = choose|i: int| 0 <= i < e.len() - 1 && (#[trigger] e.drop_last()[i]).0 == k;
            assert(e[i].0 == k);
        }
        if exists|i: int| 0 <= i < e.len() && (#[trigger] e[i]).0 == k {
            let i = choose|i: int| 0 <= i < e.len() && (#[trigger] e[i]).0 == k;
            if i < e.len() - 1 {
                assert(e.drop_last()[i].0 == k);
            }
        }
    }
}

/// Each value of the map is that of some pair with its key.
pub proof fn lemma_assoc_value<K, V>(e: Seq<(K, V)>, k: K)
    requires
        assoc_map(e).contains_key(k),
    ensures
        exists|i: int| 0 <= i < e.len() && #[trigger] e[i] == (k, assoc_map(e)[k]),
    decreases e.len(),
{
    if e.len() > 0 {
        if e.last().0 == k {
            assert(e[e.len() - 1] == (k, assoc_map(e)[k]));
        } else {
            lemma_assoc_value(e.drop_last(), k);
            let i = choose|i: int| 0 <= i < e.len() - 1 && #[trigger] e.drop_last()[i] == (k, assoc_map(e.drop_last())[k]);
            assert(e[i] == e.drop_last()[i]);
        }
    }
}

/// With distinct keys, each pair is found in the map.
pub proof fn lemma_assoc_get<K, V>(e: Seq<(K, V)>, i: int)
    requires
        keys_distinct(e),
        0 <= i < e.len(),
    ensures
        assoc_map(e).contains_key(e[i].0),
        assoc_map(e)[e[i].0] == e[i].1,
    decreases e.len(),
{
    if i < e.len() - 1 {
        lemma_assoc_get(e.drop_last(), i);
    }
}

/// Replacing the value of a pair replaces it in the map.
pub proof fn lemma_assoc_update<K, V>(e: Seq<(K, V)>, i: int, v: V)
    requires
        keys_distinct(e),
        0 <= i < e.len(),
    ensures
        keys_distinct(e.update(i, (e[i].0, v))),
        assoc_map(e.update(i, (e[i].0, v))) == assoc_map(e).insert(e[i].0, v),
    decreases e.len(),
{
    let e2 = e.update(i, (e[i].0, v));
    assert(keys_distinct(e2)) by {
        assert forall|a: int, b: int| 0 <= a < b < e2.len() implies (#[trigger] e2[a]).0 != (
        #[trigger] e2[b]).0 by {
            assert(e2[a].0 == e[a].0);
            assert(e2[b].0 == e[b].0);
        }
    }
    if i == e.len() - 1 {
        assert(e2.drop_last() =~= e.drop_last());
        assert(assoc_map(e2) =~= assoc_map(e).insert(e[i].0, v));
    } else {
        lemma_assoc_update(e.drop_last(), i, v);
        assert(e2.drop_last() =~= e.drop_last().update(i, (e[i].0, v)));
        assert(e.last().0 != e[i].0);
        assert(assoc_map(e2) =~= assoc_map(e).insert(e[i].0, v));
    }
}

/// Appending a pair with a new key adds it to the map.
pub proof fn lemma_assoc_push<K, V>(e: Seq<(K, V)>, k: K, v: V)
    requires
        keys_distinct(e),
        !assoc_map(e).contains_key(k),
    ensures
        keys_distinct(e.push((k, v))),
        assoc_map(e.push((k, v))) == assoc_map(e).insert(k, v),
{
    lemma_assoc_dom(e, k);
    let e2 = e.push((k, v));
    assert(e2.drop_last() =~= e);
    assert(keys_distinct(e2)) by {
        assert forall|a: int, b: int| 0 <= a < b < e2.len() implies (#[trigger] e2[a]).0 != (
        #[trigger] e2[b]).0 by {
            assert(e2[a] == e[a]);
            if b < e.len() {
                assert(e2[b] == e[b]);
            }
        }
    }
}

} // verus!
