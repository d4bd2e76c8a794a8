//! The total order on keys: byte strings compared lexicographically.

use vstd::prelude::*;

verus! {

/// `a` sorts strictly before `b` when both are compared from index `i` on.
pub open spec fn lt_from(a: Seq<u8>, b: Seq<u8>, i: int) -> bool
    decreases a.len() - i,
{
    if i < 0 || i >= b.len() {
        false
    } else if i >= a.len() {
        true
    } else if a[i] != b[i] {
        a[i] < b[i]
    } else {
        lt_from(a, b, i + 1)
    }
}

/// `a` sorts strictly before `b` in lexicographic byte order: at the first
/// index where they differ `a` holds the smaller byte, or `a` is a proper
/// prefix of `b`.
pub open spec fn bytes_lt(a: Seq<u8>, b: Seq<u8>) -> bool {
    lt_from(a, b, 0)
}

/// The elements of `s` are strictly increasing, so none occurs twice.
pub open spec fn strictly_sorted(s: Seq<Seq<u8>>) -> bool {
    forall|i: int, j: int| 0 <= i < j < s.len() ==> bytes_lt(#[trigger] s[i], #[trigger] s[j])
}

/// How one key stands relative to another.
#[derive(Clone, Copy, Debug, PartialEq, Eq, Structural)]
pub enum Rank {
    Before,
    Same,
    After,
}

pub proof fn lemma_lt_from_irreflexive(a: Seq<u8>, i: int)
    ensures
        !lt_from(a, a, i),
    decreases a.len() - i,
{
    if 0 <= i < a.len() {
        lemma_lt_from_irreflexive(a, i + 1);
    }
}

pub proof fn lemma_lt_from_transitive(a: Seq<u8>, b: Seq<u8>, c: Seq<u8>, i: int)
    requires
        lt_from(a, b, i),
        lt_from(b, c, i),
    ensures
        lt_from(a, c, i),
    decreases a.len() - i,
{
    if i < a.len() && a[i] == b[i] && b[i] == c[i] {
        lemma_lt_from_transitive(a, b, c, i + 1);
    }
}

pub proof fn lemma_lt_from_total(a: Seq<u8>, b: Seq<u8>, i: int)
    requires
        0 <= i,
        forall|j: int| 0 <= j < i && j < a.len() && j < b.len() ==> a[j] == b[j],
        i <= a.len(),
        i <= b.len(),
    ensures
        lt_from(a, b, i) || lt_from(b, a, i) || a == b,
    decreases a.len() - i,
{
    if i < a.len() && i < b.len() {
        if a[i] == b[i] {
            lemma_lt_from_total(a, b, i + 1);
        }
    } else if i >= a.len() && i >= b.len() {
        assert(a =~= b);
    }
}

pub proof fn lemma_lt_from_prefix(a: Seq<u8>, b: Seq<u8>, i: int)
    requires
        0 <= i <= a.len() < b.len(),
        forall|j: int| 0 <= j < a.len() ==> a[j] == b[j],
    ensures
        lt_from(a, b, i),
    decreases a.len() - i,
{
    if i < a.len() {
        lemma_lt_from_prefix(a, b, i + 1);
    }
}

/// A key sorts before every longer key that begins with it.
pub proof fn lemma_prefix_sorts_first(a: Seq<u8>, b: Seq<u8>)
    requires
        a.len() < b.len(),
        a == b.subrange(0, a.len() as int),
    ensures
        bytes_lt(a, b),
{
    lemma_lt_from_prefix(a, b, 0);
}

/// No key sorts before itself.
pub proof fn lemma_bytes_lt_irreflexive(a: Seq<u8>)
    ensures
        !bytes_lt(a, a),
{
    lemma_lt_from_irreflexive(a, 0);
}

/// The order is transitive.
pub proof fn lemma_bytes_lt_transitive(a: Seq<u8>, b: Seq<u8>, c: Seq<u8>)
    requires
        bytes_lt(a, b),
        bytes_lt(b, c),
    ensures
        bytes_lt(a, c),
{
    lemma_lt_from_transitive(a, b, c, 0);
}

/// Two keys never sort before each other.
pub proof fn lemma_bytes_lt_asymmetric(a: Seq<u8>, b: Seq<u8>)
    requires
        bytes_lt(a, b),
    ensures
        !bytes_lt(b, a),
        a != b,
{
    lemma_bytes_lt_irreflexive(a);
    if bytes_lt(b, a) {
        lemma_bytes_lt_transitive(a, b, a);
    }
}

/// Any two distinct keys are ordered one way or the other.
pub proof fn lemma_bytes_lt_total(a: Seq<u8>, b: Seq<u8>)
    ensures
        bytes_lt(a, b) || bytes_lt(b, a) || a == b,
{
    lemma_lt_from_total(a, b, 0);
}

/// Compares two keys byte by byte.
pub fn bytes_rank(a: &[u8], b: &[u8]) -> (r: Rank)
    ensures
        r == Rank::Before <==> bytes_lt(a@, b@),
        r == Rank::Same <==> a@ == b@,
        r == Rank::After <==> bytes_lt(b@, a@),
{
    let mut i: usize = 0;
    while i < a.len() && i < b.len()
        invariant
            i <= a@.len(),
            i <= b@.len(),
            forall|j: int| 0 <= j < i ==> a@[j] == b@[j],
            bytes_lt(a@, b@) == lt_from(a@, b@, i as int),
            bytes_lt(b@, a@) == lt_from(b@, a@, i as int),
        decreases a@.len() - i,
    {
        if a[i] < b[i] {
            proof {
                lemma_bytes_lt_asymmetric(a@, b@);
            }
            return Rank::Before;
        }
        if a[i] > b[i] {
            proof {
                lemma_bytes_lt_asymmetric(b@, a@);
            }
            return Rank::After;
        }
        i = i + 1;
    }
    if i < b.len() {
        proof {
            lemma_bytes_lt_asymmetric(a@, b@);
        }
        Rank::Before
    } else if i < a.len() {
        proof {
            lemma_bytes_lt_asymmetric(b@, a@);
        }
        Rank::After
    } else {
        assert(a@ =~= b@);
        proof {
            lemma_bytes_lt_irreflexive(a@);
        }
        Rank::Same
    }
}

/// Strictly increasing keys are pairwise distinct.
pub proof fn lemma_sorted_distinct(keys: Seq<Seq<u8>>)
    requires
        strictly_sorted(keys),
    ensures
        keys.no_duplicates(),
{
    assert forall|i: int, j: int| 0 <= i < keys.len() && 0 <= j < keys.len() && i != j implies keys[i]
        != keys[j] by {
        if i < j {
            lemma_bytes_lt_asymmetric(keys[i], keys[j]);
        } else {
            lemma_bytes_lt_asymmetric(keys[j], keys[i]);
        }
    }
}

/// A key that falls strictly between its neighbours at `idx` is not among
/// the keys, and inserting it there keeps them strictly increasing.
pub proof fn lemma_sorted_insert(keys: Seq<Seq<u8>>, idx: int, key: Seq<u8>)
    requires
        strictly_sorted(keys),
        0 <= idx <= keys.len(),
        forall|j: int| 0 <= j < idx ==> bytes_lt(#[trigger] keys[j], key),
        forall|j: int| idx <= j < keys.len() ==> bytes_lt(key, #[trigger] keys[j]),
    ensures
        !keys.contains(key),
        strictly_sorted(keys.insert(idx, key)),
{
    assert forall|j: int| 0 <= j < keys.len() implies keys[j] != key by {
        if j < idx {
            lemma_bytes_lt_asymmetric(keys[j], key);
        } else {
            lemma_bytes_lt_asymmetric(key, keys[j]);
        }
    }
    let keys2 = keys.insert(idx, key);
    assert forall|i: int, j: int| 0 <= i < j < keys2.len() implies bytes_lt(
        #[trigger] keys2[i],
        #[trigger] keys2[j],
    ) by {
        let oi = if i < idx { i } else { i - 1 };
        let oj = if j < idx { j } else { j - 1 };
        if i != idx && j != idx {
            assert(keys2[i] == keys[oi] && keys2[j] == keys[oj]);
        } else if i == idx {
            assert(keys2[j] == keys[oj]);
        } else {
            assert(keys2[i] == keys[oi]);
        }
    }
}

/// Removing one key keeps the others strictly increasing.
pub proof fn lemma_sorted_remove(keys: Seq<Seq<u8>>, idx: int)
    requires
        strictly_sorted(keys),
        0 <= idx < keys.len(),
    ensures
        strictly_sorted(keys.remove(idx)),
{
    let keys2 = keys.remove(idx);
    assert forall|i: int, j: int| 0 <= i < j < keys2.len() implies bytes_lt(
        #[trigger] keys2[i],
        #[trigger] keys2[j],
    ) by {
        let oi = if i < idx { i } else { i + 1 };
        let oj = if j < idx { j } else { j + 1 };
        assert(keys2[i] == keys[oi] && keys2[j] == keys[oj]);
    }
}

/// `q` lists the elements of `s` in key order, each once.
pub open spec fn lists_in_order(q: Seq<Seq<u8>>, s: Set<Seq<u8>>) -> bool {
    &&& strictly_sorted(q)
    &&& forall|k: Seq<u8>| q.contains(k) <==> s.contains(k)
}

/// The elements of `s` in key order.
pub open spec fn sorted_keys(s: Set<Seq<u8>>) -> Seq<Seq<u8>> {
    choose|q: Seq<Seq<u8>>| lists_in_order(q, s)
}

/// A set is listed in key order by at most one sequence.
pub proof fn lemma_listing_unique(a: Seq<Seq<u8>>, b: Seq<Seq<u8>>, s: Set<Seq<u8>>)
    requires
        lists_in_order(a, s),
        lists_in_order(b, s),
    ensures
        a == b,
    decreases a.len(),
{
    if a.len() == 0 {
        if b.len() > 0 {
            assert(b.contains(b[0]));
            assert(a.contains(b[0]));
        }
        assert(a =~= b);
    } else {
        let la = a.last();
        assert(a.contains(la));
        assert(b.contains(la));
        let j = choose|j: int| 0 <= j < b.len() && b[j] == la;
        let lb = b.last();
        assert(b.contains(lb));
        assert(a.contains(lb));
        let i = choose|i: int| 0 <= i < a.len() && a[i] == lb;
        if la != lb {
            assert(bytes_lt(b[j], b[b.len() - 1]));
            assert(bytes_lt(a[i], a[a.len() - 1]));
            lemma_bytes_lt_asymmetric(la, lb);
        }
        let a2 = a.drop_last();
        let b2 = b.drop_last();
        let s2 = s.remove(la);
        assert forall|k: Seq<u8>| a2.contains(k) <==> s2.contains(k) by {
            if a2.contains(k) {
                let x = choose|x: int| 0 <= x < a2.len() && a2[x] == k;
                assert(a[x] == k);
                assert(a.contains(k));
                assert(bytes_lt(a[x], a[a.len() - 1]));
                lemma_bytes_lt_asymmetric(k, la);
            }
            if s2.contains(k) {
                assert(a.contains(k));
                let x = choose|x: int| 0 <= x < a.len() && a[x] == k;
                assert(a2[x] == k);
            }
        }
        assert forall|k: Seq<u8>| b2.contains(k) <==> s2.contains(k) by {
            if b2.contains(k) {
                let x = choose|x: int| 0 <= x < b2.len() && b2[x] == k;
                assert(b[x] == k);
                assert(b.contains(k));
                assert(bytes_lt(b[x], b[b.len() - 1]));
                lemma_bytes_lt_asymmetric(k, lb);
            }
            if s2.contains(k) {
                assert(b.contains(k));
                let x = choose|x: int| 0 <= x < b.len() && b[x] == k;
                assert(b2[x] == k);
            }
        }
        assert(strictly_sorted(a2)) by {
            assert forall|x: int, y: int| 0 <= x < y < a2.len() implies bytes_lt(
                #[trigger] a2[x],
                #[trigger] a2[y],
            ) by {
                assert(a2[x] == a[x] && a2[y] == a[y]);
            }
        }
        assert(strictly_sorted(b2)) by {
            assert forall|x: int, y: int| 0 <= x < y < b2.len() implies bytes_lt(
                #[trigger] b2[x],
                #[trigger] b2[y],
            ) by {
                assert(b2[x] == b[x] && b2[y] == b[y]);
            }
        }
        lemma_listing_unique(a2, b2, s2);
        assert(a =~= a2.push(la));
        assert(b =~= b2.push(lb));
    }
}

/// A key that is not in a sorted list has a place in it.
pub proof fn lemma_place_exists(q: Seq<Seq<u8>>, key: Seq<u8>) -> (idx: int)
    requires
        strictly_sorted(q),
        !q.contains(key),
    ensures
        0 <= idx <= q.len(),
        forall|j: int| 0 <= j < idx ==> bytes_lt(#[trigger] q[j], key),
        forall|j: int| idx <= j < q.len() ==> bytes_lt(key, #[trigger] q[j]),
    decreases q.len(),
{
    if q.len() == 0 {
        0
    } else {
        let last = q.last();
        assert(q.contains(last));
        lemma_bytes_lt_total(last, key);
        if bytes_lt(last, key) {
            assert forall|j: int| 0 <= j < q.len() implies bytes_lt(#[trigger] q[j], key) by {
                if j < q.len() - 1 {
                    assert(bytes_lt(q[j], q[q.len() - 1]));
                    lemma_bytes_lt_transitive(q[j], last, key);
                }
            }
            q.len() as int
        } else {
            let q2 = q.drop_last();
            assert(strictly_sorted(q2)) by {
                assert forall|x: int, y: int| 0 <= x < y < q2.len() implies bytes_lt(
                    #[trigger] q2[x],
                    #[trigger] q2[y],
                ) by {
                    assert(q2[x] == q[x] && q2[y] == q[y]);
                }
            }
            assert(!q2.contains(key)) by {
                if q2.contains(key) {
                    let x = choose|x: int| 0 <= x < q2.len() && q2[x] == key;
                    assert(q[x] == key);
                }
            }
            let idx = lemma_place_exists(q2, key);
            assert forall|j: int| 0 <= j < idx implies bytes_lt(#[trigger] q[j], key) by {
                assert(q[j] == q2[j]);
            }
            assert forall|j: int| idx <= j < q.len() implies bytes_lt(key, #[trigger] q[j]) by {
                if j < q.len() - 1 {
                    assert(q[j] == q2[j]);
                }
            }
            idx
        }
    }
}

/// Every finite set of keys can be listed in key order.
pub proof fn lemma_sorted_keys(s: Set<Seq<u8>>)
    requires
        s.finite(),
    ensures
        lists_in_order(sorted_keys(s), s),
    decreases s.len(),
{
    if s.len() == 0 {
        let q = Seq::<Seq<u8>>::empty();
        assert(lists_in_order(q, s)) by {
            assert forall|k: Seq<u8>| q.contains(k) <==> s.contains(k) by {
                if s.contains(k) {
                    assert(s.len() > 0);
                }
            }
        }
    } else {
        let x = s.choose();
        let s2 = s.remove(x);
        lemma_sorted_keys(s2);
        let q2 = sorted_keys(s2);
        let idx = lemma_place_exists(q2, x);
        lemma_sorted_insert(q2, idx, x);
        let q = q2.insert(idx, x);
        assert forall|k: Seq<u8>| q.contains(k) <==> s.contains(k) by {
            if q.contains(k) {
                let i = choose|i: int| 0 <= i < q.len() && q[i] == k;
                if i != idx {
                    let oi = if i < idx { i } else { i - 1 };
                    assert(q2[oi] == k);
                    assert(q2.contains(k));
                }
            }
            if s.contains(k) {
                if k == x {
                    assert(q[idx] == k);
                } else {
                    assert(s2.contains(k));
                    assert(q2.contains(k));
                    let i = choose|i: int| 0 <= i < q2.len() && q2[i] == k;
                    let ni = if i < idx { i } else { i + 1 };
                    assert(q[ni] == k);
                }
            }
        }
        assert(lists_in_order(q, s));
    }
}

} // verus!
