//! Sequences of (key, value) pairs with distinct keys, seen as maps.
use vstd::prelude::*;

verus! {

/// No key occurs twice.
pub open spec fn keys_distinct<K, V>(s: Seq<(K, V)>) -> bool {
    forall|i: int, j: int| 0 <= i < s.len() && 0 <= j < s.len() && i != j ==> s[i].0 != s[j].0
}

/// The map from each key to its value; a later pair wins over an earlier one.
pub open spec fn pairs_map<K, V>(s: Seq<(K, V)>) -> Map<K, V>
    decreases s.len(),
{
    if s.len() == 0 {
        Map::empty()
    } else {
        pairs_map(s.drop_last()).insert(s.last().0, s.last().1)
    }
}

/// The map holds exactly the keys of the pairs.
pub proof fn lemma_pairs_map_dom<K, V>(s: Seq<(K, V)>, k: K)
    ensures
        pairs_map(s).contains_key(k) <==> exists|i: int| 0 <= i < s.len() && #[trigger] s[i].0 == k,
    decreases s.len(),
{
    if s.len() > 0 {
        lemma_pairs_map_dom(s.drop_last(), k);
        if pairs_map(s.drop_last()).contains_key(k) {
            let i = choose|i: int| 0 <= i < s.drop_last().len() && #[trigger] s.drop_last()[i].0 == k;
            assert(s[i].0 == k);
        }
        if exists|i: int| 0 <= i < s.len() && #[trigger] s[i].0 == k {
            let i = choose|i: int| 0 <= i < s.len() && #[trigger] s[i].0 == k;
            if i < s.len() - 1 {
                assert(s.drop_last()[i].0 == k);
            }
        }
    }
}

/// With distinct keys, each pair's value is what the map holds for its key.
pub proof fn lemma_pairs_map_index<K, V>(s: Seq<(K, V)>, i: int)
    requires
        keys_distinct(s),
        0 <= i < s.len(),
    ensures
        pairs_map(s).contains_key(s[i].0),
        pairs_map(s)[s[i].0] == s[i].1,
    decreases s.len(),
{
    if i < s.len() - 1 {
        let t = s.drop_last();
        assert(keys_distinct(t)) by {
            assert forall|a: int, b: int|
                0 <= a < t.len() && 0 <= b < t.len() && a != b implies t[a].0 != t[b].0 by {
                assert(t[a] == s[a] && t[b] == s[b]);
            }
        }
        assert(t[i] == s[i]);
        lemma_pairs_map_index(t, i);
        assert(s.last().0 != s[i].0) by {
            assert(s[s.len() - 1].0 != s[i].0);
        }
    }
}

/// A key that no pair has is absent from the map.
pub proof fn lemma_pairs_map_absent<K, V>(s: Seq<(K, V)>, k: K)
    requires
        forall|i: int| 0 <= i < s.len() ==> #[trigger] s[i].0 != k,
    ensures
        !pairs_map(s).contains_key(k),
{
    lemma_pairs_map_dom(s, k);
}

proof fn lemma_distinct_drop_last<K, V>(s: Seq<(K, V)>)
    requires
        keys_distinct(s),
        s.len() > 0,
    ensures
        keys_distinct(s.drop_last()),
{
    let t = s.drop_last();
    assert forall|a: int, b: int|
        0 <= a < t.len() && 0 <= b < t.len() && a != b implies t[a].0 != t[b].0 by {
        assert(t[a] == s[a] && t[b] == s[b]);
    }
}

/// Replacing the value of one pair replaces it in the map.
pub proof fn lemma_pairs_map_update<K, V>(s: Seq<(K, V)>, i: int, v: V)
    requires
        keys_distinct(s),
        0 <= i < s.len(),
    ensures
        pairs_map(s.update(i, (s[i].0, v))) == pairs_map(s).insert(s[i].0, v),
        keys_distinct(s.update(i, (s[i].0, v))),
    decreases s.len(),
{
    let u = s.update(i, (s[i].0, v));
    assert(keys_distinct(u)) by {
        assert forall|a: int, b: int|
            0 <= a < u.len() && 0 <= b < u.len() && a != b implies u[a].0 != u[b].0 by {
            assert(u[a].0 == s[a].0 && u[b].0 == s[b].0);
        }
    }
    lemma_distinct_drop_last(s);
    if i == s.len() - 1 {
        assert(u.drop_last() =~= s.drop_last());
        assert(pairs_map(u) =~= pairs_map(s).insert(s[i].0, v));
    } else {
        assert(u.drop_last() =~= s.drop_last().update(i, (s[i].0, v)));
        lemma_pairs_map_update(s.drop_last(), i, v);
        assert(s.last().0 != s[i].0) by {
            assert(s[s.len() - 1].0 != s[i].0);
        }
        assert(pairs_map(u) =~= pairs_map(s).insert(s[i].0, v));
    }
}

/// Taking out one pair takes its key out of the map.
pub proof fn lemma_pairs_map_remove<K, V>(s: Seq<(K, V)>, i: int)
    requires
        keys_distinct(s),
        0 <= i < s.len(),
    ensures
        pairs_map(s.remove(i)) == pairs_map(s).remove(s[i].0),
        keys_distinct(s.remove(i)),
    decreases s.len(),
{
    let u = s.remove(i);
    assert(keys_distinct(u)) by {
        assert forall|a: int, b: int|
            0 <= a < u.len() && 0 <= b < u.len() && a != b implies u[a].0 != u[b].0 by {
            let a2 = if a < i {
                a
            } else {
                a + 1
            };
            let b2 = if b < i {
                b
            } else {
                b + 1
            };
            assert(u[a] == s[a2] && u[b] == s[b2]);
        }
    }
    lemma_distinct_drop_last(s);
    if i == s.len() - 1 {
        assert(u =~= s.drop_last());
        lemma_pairs_map_absent(s.drop_last(), s[i].0);
        assert(pairs_map(u) =~= pairs_map(s).remove(s[i].0));
    } else {
        assert(u.drop_last() =~= s.drop_last().remove(i));
        assert(u.last() == s.last());
        lemma_pairs_map_remove(s.drop_last(), i);
        assert(s.last().0 != s[i].0) by {
            assert(s[s.len() - 1].0 != s[i].0);
        }
        assert(pairs_map(u) =~= pairs_map(s).remove(s[i].0));
    }
}

/// Adding a pair with a new key keeps the keys distinct.
pub proof fn lemma_push_distinct<K, V>(s: Seq<(K, V)>, p: (K, V))
    requires
        keys_distinct(s),
        forall|i: int| 0 <= i < s.len() ==> #[trigger] s[i].0 != p.0,
    ensures
        keys_distinct(s.push(p)),
        pairs_map(s.push(p)) == pairs_map(s).insert(p.0, p.1),
{
    let u = s.push(p);
    assert(u.drop_last() =~= s);
    assert forall|a: int, b: int|
        0 <= a < u.len() && 0 <= b < u.len() && a != b implies u[a].0 != u[b].0 by {
        if a < s.len() && b < s.len() {
            assert(u[a] == s[a] && u[b] == s[b]);
        } else if a < s.len() {
            assert(u[a] == s[a]);
        } else {
            assert(u[b] == s[b]);
        }
    }
}

} // verus!
