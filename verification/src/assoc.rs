//! Association lists with string keys, viewed as finite maps. Both the
//! sprite table of an actor and the actor pool store their entries as a
//! vector of pairs with pairwise-distinct keys; these definitions say what
//! map such a vector denotes.

use vstd::prelude::*;

verus! {

/// The map denoted by a list of key-value pairs; a later pair with the
/// same key overrides an earlier one.
pub open spec fn assoc_map<V>(es: Seq<(Seq<char>, V)>) -> Map<Seq<char>, V>
    decreases es.len(),
{
    if es.len() == 0 {
        Map::empty()
    } else {
        assoc_map(es.drop_last()).insert(es.last().0, es.last().1)
    }
}

/// Whether the keys of the list are pairwise distinct.
pub open spec fn distinct_keys<V>(es: Seq<(Seq<char>, V)>) -> bool {
    forall|i: int, j: int| 0 <= i < j < es.len() ==> es[i].0 != es[j].0
}

/// A key is in the denoted map exactly when some pair carries it.
pub proof fn lemma_assoc_map_contains<V>(es: Seq<(Seq<char>, V)>, k: Seq<char>)
    ensures
        assoc_map(es).contains_key(k) <==> exists|i: int| 0 <= i < es.len() && es[i].0 == k,
    decreases es.len(),
{
    if es.len() > 0 {
        lemma_assoc_map_contains(es.drop_last(), k);
        if es.last().0 == k {
            assert(es[es.len() - 1].0 == k);
        } else if assoc_map(es).contains_key(k) {
            let i = choose|i: int| 0 <= i < es.drop_last().len() && es.drop_last()[i].0 == k;
            assert(es[i].0 == k);
        } else if exists|i: int| 0 <= i < es.len() && es[i].0 == k {
            let i = choose|i: int| 0 <= i < es.len() && es[i].0 == k;
            assert(es.drop_last()[i].0 == k);
        }
    }
}

/// With distinct keys, the denoted map sends each pair's key to its value.
pub proof fn lemma_assoc_map_index<V>(es: Seq<(Seq<char>, V)>, i: int)
    requires
        distinct_keys(es),
        0 <= i < es.len(),
    ensures
        assoc_map(es).contains_key(es[i].0),
        assoc_map(es)[es[i].0] == es[i].1,
    decreases es.len(),
{
    if i == es.len() - 1 {
    } else {
        assert(distinct_keys(es.drop_last())) by {
            assert(forall|a: int, b: int|
                0 <= a < b < es.drop_last().len() ==> es.drop_last()[a].0 == es[a].0
                    && es.drop_last()[b].0 == es[b].0);
        }
        assert(es.drop_last()[i] == es[i]);
        lemma_assoc_map_index(es.drop_last(), i);
        assert(es[i].0 != es.last().0);
    }
}

/// Appending a pair denotes inserting it into the map.
pub proof fn lemma_assoc_map_push<V>(es: Seq<(Seq<char>, V)>, k: Seq<char>, v: V)
    ensures
        assoc_map(es.push((k, v))) == assoc_map(es).insert(k, v),
{
    assert(es.push((k, v)).drop_last() =~= es);
}

/// Replacing the value at position `i` denotes inserting under that
/// pair's key.
pub proof fn lemma_assoc_map_update<V>(es: Seq<(Seq<char>, V)>, i: int, v: V)
    requires
        distinct_keys(es),
        0 <= i < es.len(),
    ensures
        assoc_map(es.update(i, (es[i].0, v))) == assoc_map(es).insert(es[i].0, v),
{
    let key = es[i].0;
    let es2 = es.update(i, (key, v));
    assert(forall|j: int| 0 <= j < es.len() ==> es2[j].0 == es[j].0);
    assert(distinct_keys(es2));
    let lhs = assoc_map(es2);
    let rhs = assoc_map(es).insert(key, v);
    lemma_assoc_map_index(es, i);
    assert forall|k: Seq<char>| lhs.contains_key(k) implies rhs.contains_key(k) by {
        lemma_assoc_map_contains(es2, k);
        let j = choose|j: int| 0 <= j < es2.len() && es2[j].0 == k;
        lemma_assoc_map_contains(es, k);
        assert(es[j].0 == k);
    }
    assert forall|k: Seq<char>| rhs.contains_key(k) implies lhs.contains_key(k) by {
        if k == key {
            lemma_assoc_map_index(es2, i);
        } else {
            lemma_assoc_map_contains(es, k);
            let j = choose|j: int| 0 <= j < es.len() && es[j].0 == k;
            lemma_assoc_map_contains(es2, k);
            assert(es2[j].0 == k);
        }
    }
    assert forall|k: Seq<char>| lhs.contains_key(k) implies lhs[k] == rhs[k] by {
        if k == key {
            lemma_assoc_map_index(es2, i);
        } else {
            lemma_assoc_map_contains(es2, k);
            let j = choose|j: int| 0 <= j < es2.len() && es2[j].0 == k;
            assert(j != i);
            lemma_assoc_map_index(es2, j);
            lemma_assoc_map_index(es, j);
        }
    }
    assert(lhs =~= rhs);
}

/// With distinct keys, the denoted map has as many keys as the list has
/// pairs.
pub proof fn lemma_assoc_map_len<V>(es: Seq<(Seq<char>, V)>)
    requires
        distinct_keys(es),
    ensures
        assoc_map(es).dom().finite(),
        assoc_map(es).dom().len() == es.len(),
    decreases es.len(),
{
    if es.len() == 0 {
        assert(assoc_map(es).dom() =~= Set::<Seq<char>>::empty());
    } else {
        assert(distinct_keys(es.drop_last())) by {
            assert(forall|a: int, b: int|
                0 <= a < b < es.drop_last().len() ==> es.drop_last()[a].0 == es[a].0
                    && es.drop_last()[b].0 == es[b].0);
        }
        lemma_assoc_map_len(es.drop_last());
        lemma_assoc_map_contains(es.drop_last(), es.last().0);
        assert(forall|j: int| 0 <= j < es.len() - 1 ==> es.drop_last()[j].0 == es[j].0);
        assert(!assoc_map(es.drop_last()).contains_key(es.last().0));
        assert(assoc_map(es).dom() =~= assoc_map(es.drop_last()).dom().insert(es.last().0));
    }
}

} // verus!
