//! Vectors of key-value pairs with pairwise-distinct keys, read as maps.
//!
//! The traffic accumulators and the watchdog's peer cache hold their entries
//! in plain vectors; these spec functions give such a vector its meaning as
//! a mathematical map, and the lemmas translate the vector operations
//! (update in place, push, remove) into map insertions and removals.

use vstd::prelude::*;

verus! {

/// The keys of the pairs are pairwise distinct.
pub open spec fn kv_unique<K, V>(s: Seq<(K, V)>) -> bool {
    forall|i: int, j: int| 0 <= i < j < s.len() ==> s[i].0 != s[j].0
}

/// Whether some pair holds the key.
pub open spec fn kv_contains<K, V>(s: Seq<(K, V)>, k: K) -> bool {
    exists|i: int| 0 <= i < s.len() && s[i].0 == k
}

/// The value paired with a key.
pub open spec fn kv_at<K, V>(s: Seq<(K, V)>, k: K) -> V {
    s[choose|i: int| 0 <= i < s.len() && s[i].0 == k].1
}

/// The pairs as a mathematical map.
pub open spec fn kv_map<K, V>(s: Seq<(K, V)>) -> Map<K, V> {
    Map::new(|k: K| kv_contains(s, k), |k: K| kv_at(s, k))
}

/// With distinct keys, the pair at any index is what the map gives.
pub proof fn lemma_kv_at_index<K, V>(s: Seq<(K, V)>, i: int)
    requires
        kv_unique(s),
        0 <= i < s.len(),
    ensures
        kv_contains(s, s[i].0),
        kv_at(s, s[i].0) == s[i].1,
{
    let k = s[i].0;
    assert(0 <= i < s.len() && s[i].0 == k);
    let w = choose|w: int| 0 <= w < s.len() && s[w].0 == k;
    if w != i {
        if w < i {
            assert(s[w].0 != s[i].0);
        } else {
            assert(s[i].0 != s[w].0);
        }
    }
}

/// Replacing the value at an index inserts at its key.
pub proof fn lemma_kv_update<K, V>(s: Seq<(K, V)>, i: int, v: V)
    requires
        kv_unique(s),
        0 <= i < s.len(),
    ensures
        kv_unique(s.update(i, (s[i].0, v))),
        kv_map(s.update(i, (s[i].0, v))) =~= kv_map(s).insert(s[i].0, v),
{
    let k = s[i].0;
    let t = s.update(i, (k, v));
    assert forall|a: int, b: int| 0 <= a < b < t.len() implies t[a].0 != t[b].0 by {
        assert(s[a].0 != s[b].0);
    }
    assert forall|q: K| #[trigger] kv_map(t).dom().contains(q) == kv_map(s).insert(
        k,
        v,
    ).dom().contains(q) by {
        if q == k {
            assert(t[i].0 == k);
            assert(kv_contains(t, k));
        } else {
            if kv_contains(t, q) {
                let w = choose|w: int| 0 <= w < t.len() && t[w].0 == q;
                assert(s[w].0 == q);
            }
            if kv_contains(s, q) {
                let w = choose|w: int| 0 <= w < s.len() && s[w].0 == q;
                assert(t[w].0 == q);
            }
        }
    }
    assert forall|q: K| kv_map(t).dom().contains(q) implies #[trigger] kv_map(t)[q] == kv_map(
        s,
    ).insert(k, v)[q] by {
        if q == k {
            lemma_kv_at_index(t, i);
        } else {
            let w = choose|w: int| 0 <= w < t.len() && t[w].0 == q;
            lemma_kv_at_index(t, w);
            lemma_kv_at_index(s, w);
        }
    }
}

/// Pushing a pair with a fresh key inserts at that key.
pub proof fn lemma_kv_push<K, V>(s: Seq<(K, V)>, k: K, v: V)
    requires
        kv_unique(s),
        !kv_contains(s, k),
    ensures
        kv_unique(s.push((k, v))),
        kv_map(s.push((k, v))) =~= kv_map(s).insert(k, v),
{
    let t = s.push((k, v));
    let n = s.len() as int;
    assert forall|a: int, b: int| 0 <= a < b < t.len() implies t[a].0 != t[b].0 by {
        if b < n {
            assert(s[a].0 != s[b].0);
        } else {
            assert(t[b].0 == k);
            assert(s[a].0 != k);
        }
    }
    assert forall|q: K| #[trigger] kv_map(t).dom().contains(q) == kv_map(s).insert(
        k,
        v,
    ).dom().contains(q) by {
        if q == k {
            assert(t[n].0 == k);
            assert(kv_contains(t, k));
        } else {
            if kv_contains(t, q) {
                let w = choose|w: int| 0 <= w < t.len() && t[w].0 == q;
                assert(w < n);
                assert(s[w].0 == q);
            }
            if kv_contains(s, q) {
                let w = choose|w: int| 0 <= w < s.len() && s[w].0 == q;
                assert(t[w].0 == q);
            }
        }
    }
    assert forall|q: K| kv_map(t).dom().contains(q) implies #[trigger] kv_map(t)[q] == kv_map(
        s,
    ).insert(k, v)[q] by {
        if q == k {
            lemma_kv_at_index(t, n);
        } else {
            let w = choose|w: int| 0 <= w < t.len() && t[w].0 == q;
            assert(w < n);
            lemma_kv_at_index(t, w);
            lemma_kv_at_index(s, w);
        }
    }
}

/// Removing the pair at an index removes its key from the map.
pub proof fn lemma_kv_remove<K, V>(s: Seq<(K, V)>, i: int)
    requires
        kv_unique(s),
        0 <= i < s.len(),
    ensures
        kv_unique(s.remove(i)),
        kv_map(s.remove(i)) =~= kv_map(s).remove(s[i].0),
{
    let k = s[i].0;
    let t = s.remove(i);
    assert forall|a: int, b: int| 0 <= a < b < t.len() implies t[a].0 != t[b].0 by {
        let a0 = if a < i {
            a
        } else {
            a + 1
        };
        let b0 = if b < i {
            b
        } else {
            b + 1
        };
        assert(s[a0].0 != s[b0].0);
    }
    assert forall|q: K| #[trigger] kv_map(t).dom().contains(q) == kv_map(s).remove(
        k,
    ).dom().contains(q) by {
        if kv_contains(t, q) {
            let w = choose|w: int| 0 <= w < t.len() && t[w].0 == q;
            let w0 = if w < i {
                w
            } else {
                w + 1
            };
            assert(s[w0].0 == q);
            if q == k {
                if w0 < i {
                    assert(s[w0].0 != s[i].0);
                } else {
                    assert(s[i].0 != s[w0].0);
                }
            }
        }
        if q != k && kv_contains(s, q) {
            let w = choose|w: int| 0 <= w < s.len() && s[w].0 == q;
            assert(w != i);
            if w < i {
                assert(t[w].0 == q);
            } else {
                assert(t[w - 1].0 == q);
            }
        }
    }
    assert forall|q: K| kv_map(t).dom().contains(q) implies #[trigger] kv_map(t)[q] == kv_map(
        s,
    ).remove(k)[q] by {
        let w = choose|w: int| 0 <= w < t.len() && t[w].0 == q;
        let w0 = if w < i {
            w
        } else {
            w + 1
        };
        assert(s[w0] == t[w]);
        lemma_kv_at_index(t, w);
        lemma_kv_at_index(s, w0);
    }
}

} // verus!
