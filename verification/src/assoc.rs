//! Maps given as two parallel sequences, one of distinct keys and one of
//! values, and how edits of the sequences show in the map.

use vstd::prelude::*;

verus! {

/// The map that sends `keys[i]` to `vals[i]`.
pub open spec fn assoc<K, V>(keys: Seq<K>, vals: Seq<V>) -> Map<K, V> {
    Map::new(|k: K| keys.contains(k), |k: K| vals[keys.index_of(k)])
}

/// With distinct keys, each key finds the value at its own position.
pub proof fn lemma_assoc_at<K, V>(keys: Seq<K>, vals: Seq<V>, i: int)
    requires
        keys.no_duplicates(),
        0 <= i < keys.len(),
    ensures
        assoc(keys, vals).contains_key(keys[i]),
        assoc(keys, vals)[keys[i]] == vals[i],
        keys.index_of(keys[i]) == i,
{
    assert(keys.contains(keys[i]));
    let j = keys.index_of(keys[i]);
    assert(0 <= j < keys.len() && keys[j] == keys[i]);
}

/// Inserting a new key and its value at the same position adds one pair.
pub proof fn lemma_assoc_insert<K, V>(keys: Seq<K>, vals: Seq<V>, idx: int, k: K, v: V)
    requires
        keys.no_duplicates(),
        keys.len() == vals.len(),
        0 <= idx <= keys.len(),
        !keys.contains(k),
    ensures
        keys.insert(idx, k).no_duplicates(),
        assoc(keys.insert(idx, k), vals.insert(idx, v)) == assoc(keys, vals).insert(k, v),
{
    let keys2 = keys.insert(idx, k);
    let vals2 = vals.insert(idx, v);
    assert forall|i: int, j: int| 0 <= i < keys2.len() && 0 <= j < keys2.len() && i != j implies keys2[i]
        != keys2[j] by {
        let oi = if i < idx { i } else { i - 1 };
        let oj = if j < idx { j } else { j - 1 };
        if i != idx && j != idx {
            assert(keys2[i] == keys[oi] && keys2[j] == keys[oj]);
        } else if i == idx {
            assert(keys2[j] == keys[oj]);
            assert(keys.contains(keys[oj]));
        } else {
            assert(keys2[i] == keys[oi]);
            assert(keys.contains(keys[oi]));
        }
    }
    assert forall|x: K| #[trigger] keys2.contains(x) <==> (x == k || keys.contains(x)) by {
        if keys2.contains(x) {
            let i = choose|i: int| 0 <= i < keys2.len() && keys2[i] == x;
            if i != idx {
                let oi = if i < idx { i } else { i - 1 };
                assert(keys[oi] == x);
            }
        }
        if x == k {
            assert(keys2[idx] == x);
        }
        if keys.contains(x) {
            let i = choose|i: int| 0 <= i < keys.len() && keys[i] == x;
            let ni = if i < idx { i } else { i + 1 };
            assert(keys2[ni] == x);
        }
    }
    assert forall|x: K| keys2.contains(x) implies #[trigger] assoc(keys2, vals2)[x] == assoc(
        keys,
        vals,
    ).insert(k, v)[x] by {
        let i = keys2.index_of(x);
        assert(0 <= i < keys2.len() && keys2[i] == x);
        if i != idx {
            let oi = if i < idx { i } else { i - 1 };
            assert(keys[oi] == x);
            lemma_assoc_at(keys, vals, oi);
        }
    }
    assert(assoc(keys2, vals2) =~= assoc(keys, vals).insert(k, v));
}

/// Replacing the value at one position replaces one pair.
pub proof fn lemma_assoc_update<K, V>(keys: Seq<K>, vals: Seq<V>, idx: int, v: V)
    requires
        keys.no_duplicates(),
        keys.len() == vals.len(),
        0 <= idx < keys.len(),
    ensures
        assoc(keys, vals.update(idx, v)) == assoc(keys, vals).insert(keys[idx], v),
{
    let vals2 = vals.update(idx, v);
    assert(keys.contains(keys[idx]));
    assert forall|x: K| keys.contains(x) implies #[trigger] assoc(keys, vals2)[x] == assoc(
        keys,
        vals,
    ).insert(keys[idx], v)[x] by {
        let i = keys.index_of(x);
        assert(0 <= i < keys.len() && keys[i] == x);
    }
    assert(assoc(keys, vals2) =~= assoc(keys, vals).insert(keys[idx], v));
}

/// Removing a key and its value at the same position removes one pair.
pub proof fn lemma_assoc_remove<K, V>(keys: Seq<K>, vals: Seq<V>, idx: int)
    requires
        keys.no_duplicates(),
        keys.len() == vals.len(),
        0 <= idx < keys.len(),
    ensures
        keys.remove(idx).no_duplicates(),
        !keys.remove(idx).contains(keys[idx]),
        assoc(keys.remove(idx), vals.remove(idx)) == assoc(keys, vals).remove(keys[idx]),
{
    let keys2 = keys.remove(idx);
    let vals2 = vals.remove(idx);
    assert forall|i: int, j: int| 0 <= i < keys2.len() && 0 <= j < keys2.len() && i != j implies keys2[i]
        != keys2[j] by {
        let oi = if i < idx { i } else { i + 1 };
        let oj = if j < idx { j } else { j + 1 };
        assert(keys2[i] == keys[oi] && keys2[j] == keys[oj]);
    }
    assert forall|x: K| #[trigger] keys2.contains(x) <==> (x != keys[idx] && keys.contains(x)) by {
        if keys2.contains(x) {
            let i = choose|i: int| 0 <= i < keys2.len() && keys2[i] == x;
            let oi = if i < idx { i } else { i + 1 };
            assert(keys[oi] == x);
        }
        if x != keys[idx] && keys.contains(x) {
            let i = choose|i: int| 0 <= i < keys.len() && keys[i] == x;
            let ni = if i < idx { i } else { i - 1 };
            assert(keys2[ni] == x);
        }
    }
    assert forall|x: K| keys2.contains(x) implies #[trigger] assoc(keys2, vals2)[x] == assoc(
        keys,
        vals,
    ).remove(keys[idx])[x] by {
        let i = keys2.index_of(x);
        assert(0 <= i < keys2.len() && keys2[i] == x);
        let oi = if i < idx { i } else { i + 1 };
        assert(keys[oi] == x);
        lemma_assoc_at(keys, vals, oi);
    }
    assert(assoc(keys2, vals2) =~= assoc(keys, vals).remove(keys[idx]));
}

} // verus!
