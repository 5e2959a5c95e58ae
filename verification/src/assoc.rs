//! Association lists: small maps kept as a sequence of key/value pairs with
//! no key twice, read as the map they stand for.

use vstd::prelude::*;

verus! {

/// The value stored under `k`, looked up from the end.
pub open spec fn assoc_lookup<K, V>(s: Seq<(K, V)>, k: K) -> Option<V>
    decreases s.len(),
{
    if s.len() == 0 {
        None
    } else if s.last().0 == k {
        Some(s.last().1)
    } else {
        assoc_lookup(s.drop_last(), k)
    }
}

/// No key occurs twice.
pub open spec fn keys_unique<K, V>(s: Seq<(K, V)>) -> bool {
    forall|i: int, j: int| 0 <= i < j < s.len() ==> #[trigger] s[i].0 != #[trigger] s[j].0
}

/// The map an association list stands for.
pub open spec fn assoc_map<K, V>(s: Seq<(K, V)>) -> Map<K, V> {
    Map::new(|k: K| assoc_lookup(s, k) is Some, |k: K| assoc_lookup(s, k)->0)
}

/// With unique keys, the lookup of a key stored at `i` finds that entry, and
/// a key stored nowhere is not found.
pub proof fn lemma_assoc_lookup<K, V>(s: Seq<(K, V)>, k: K)
    requires
        keys_unique(s),
    ensures
        (exists|i: int| 0 <= i < s.len() && s[i].0 == k) ==> {
            let i = choose|i: int| 0 <= i < s.len() && s[i].0 == k;
            assoc_lookup(s, k) == Some(s[i].1)
        },
        (forall|i: int| 0 <= i < s.len() ==> s[i].0 != k) ==> assoc_lookup(s, k) is None,
    decreases s.len(),
{
    if s.len() > 0 {
        let t = s.drop_last();
        assert(keys_unique(t)) by {
            assert forall|i: int, j: int| 0 <= i < j < t.len() implies #[trigger] t[i].0
                != #[trigger] t[j].0 by {
                assert(s[i].0 != s[j].0);
            }
        }
        lemma_assoc_lookup(t, k);
        if exists|i: int| 0 <= i < s.len() && s[i].0 == k {
            let i = choose|i: int| 0 <= i < s.len() && s[i].0 == k;
            if i < s.len() - 1 {
                assert(t[i].0 == k);
                assert(s.last().0 != k) by {
                    assert(s[i].0 != s[s.len() - 1].0);
                }
                let i2 = choose|i: int| 0 <= i < t.len() && t[i].0 == k;
                if i2 != i {
                    assert(s[i2].0 == k);
                    if i2 < i {
                        assert(s[i2].0 != s[i].0);
                    } else {
                        assert(s[i].0 != s[i2].0);
                    }
                }
            }
        } else {
            assert forall|i: int| 0 <= i < t.len() implies t[i].0 != k by {
                assert(s[i].0 != k);
            }
        }
    }
}

/// The value at index `i` is what the map holds for its key.
pub proof fn lemma_assoc_at<K, V>(s: Seq<(K, V)>, i: int)
    requires
        keys_unique(s),
        0 <= i < s.len(),
    ensures
        assoc_map(s).dom().contains(s[i].0),
        assoc_map(s)[s[i].0] == s[i].1,
{
    lemma_assoc_lookup(s, s[i].0);
    let j = choose|j: int| 0 <= j < s.len() && s[j].0 == s[i].0;
    if j != i {
        if j < i {
            assert(s[j].0 != s[i].0);
        } else {
            assert(s[i].0 != s[j].0);
        }
    }
}

/// A key stored at no index is not in the map.
pub proof fn lemma_assoc_absent<K, V>(s: Seq<(K, V)>, k: K)
    requires
        keys_unique(s),
        forall|i: int| 0 <= i < s.len() ==> s[i].0 != k,
    ensures
        !assoc_map(s).dom().contains(k),
{
    lemma_assoc_lookup(s, k);
}

/// A key in the map is stored at some index.
pub proof fn lemma_assoc_present<K, V>(s: Seq<(K, V)>, k: K)
    requires
        keys_unique(s),
        assoc_map(s).dom().contains(k),
    ensures
        exists|i: int| 0 <= i < s.len() && s[i].0 == k,
{
    lemma_assoc_lookup(s, k);
}

/// The map of a list with unique keys, entry by entry.
pub proof fn lemma_assoc_map_ext<K, V>(s: Seq<(K, V)>, m: Map<K, V>)
    requires
        keys_unique(s),
        forall|i: int| 0 <= i < s.len() ==> m.dom().contains(#[trigger] s[i].0) && m[s[i].0] == s[i].1,
        forall|k: K| #[trigger] m.dom().contains(k) ==> exists|i: int| 0 <= i < s.len() && s[i].0 == k,
    ensures
        assoc_map(s) == m,
{
    assert forall|k: K| #[trigger] assoc_map(s).dom().contains(k) == m.dom().contains(k) by {
        if m.dom().contains(k) {
            let i = choose|i: int| 0 <= i < s.len() && s[i].0 == k;
            lemma_assoc_at(s, i);
        } else {
            if exists|i: int| 0 <= i < s.len() && s[i].0 == k {
                let i = choose|i: int| 0 <= i < s.len() && s[i].0 == k;
                assert(m.dom().contains(s[i].0));
            }
            lemma_assoc_lookup(s, k);
        }
    }
    assert forall|k: K| #[trigger] m.dom().contains(k) implies assoc_map(s)[k] == m[k] by {
        let i = choose|i: int| 0 <= i < s.len() && s[i].0 == k;
        lemma_assoc_at(s, i);
    }
    assert(assoc_map(s) =~= m);
}


/// Overwriting the value at index `i` overwrites its key's value.
pub proof fn lemma_assoc_update<K, V>(s: Seq<(K, V)>, i: int, v: V)
    requires
        keys_unique(s),
        0 <= i < s.len(),
    ensures
        keys_unique(s.update(i, (s[i].0, v))),
        assoc_map(s.update(i, (s[i].0, v))) == assoc_map(s).insert(s[i].0, v),
{
    let t = s.update(i, (s[i].0, v));
    let k = s[i].0;
    let target = assoc_map(s).insert(k, v);
    assert(keys_unique(t)) by {
        assert forall|a: int, b: int| 0 <= a < b < t.len() implies #[trigger] t[a].0
            != #[trigger] t[b].0 by {
            assert(s[a].0 != s[b].0);
        }
    }
    assert forall|j: int| 0 <= j < t.len() implies target.dom().contains(#[trigger] t[j].0)
        && target[t[j].0] == t[j].1 by {
        if j != i {
            lemma_assoc_at(s, j);
            assert(s[j].0 != s[i].0) by {
                if j < i {
                    assert(s[j].0 != s[i].0);
                } else {
                    assert(s[i].0 != s[j].0);
                }
            }
        }
    }
    assert forall|key: K| #[trigger] target.dom().contains(key) implies exists|j: int|
        0 <= j < t.len() && t[j].0 == key by {
        if key == k {
            assert(t[i].0 == key);
        } else {
            lemma_assoc_present(s, key);
            let j = choose|j: int| 0 <= j < s.len() && s[j].0 == key;
            assert(t[j].0 == key);
        }
    }
    lemma_assoc_map_ext(t, target);
}

/// Appending a new key adds it to the map.
pub proof fn lemma_assoc_push<K, V>(s: Seq<(K, V)>, k: K, v: V)
    requires
        keys_unique(s),
        forall|j: int| 0 <= j < s.len() ==> s[j].0 != k,
    ensures
        keys_unique(s.push((k, v))),
        assoc_map(s.push((k, v))) == assoc_map(s).insert(k, v),
{
    let t = s.push((k, v));
    assert(t.drop_last() =~= s);
    let target = assoc_map(s).insert(k, v);
    assert(keys_unique(t)) by {
        assert forall|a: int, b: int| 0 <= a < b < t.len() implies #[trigger] t[a].0
            != #[trigger] t[b].0 by {
            if b < s.len() {
                assert(s[a].0 != s[b].0);
            }
        }
    }
    assert forall|j: int| 0 <= j < t.len() implies target.dom().contains(#[trigger] t[j].0)
        && target[t[j].0] == t[j].1 by {
        if j < s.len() {
            lemma_assoc_at(s, j);
        }
    }
    assert forall|key: K| #[trigger] target.dom().contains(key) implies exists|j: int|
        0 <= j < t.len() && t[j].0 == key by {
        if key == k {
            assert(t[s.len() as int].0 == key);
        } else {
            lemma_assoc_present(s, key);
            let j = choose|j: int| 0 <= j < s.len() && s[j].0 == key;
            assert(t[j].0 == key);
        }
    }
    lemma_assoc_map_ext(t, target);
}

/// Removing the entry at `i` removes its key from the map.
pub proof fn lemma_assoc_remove<K, V>(s: Seq<(K, V)>, i: int)
    requires
        keys_unique(s),
        0 <= i < s.len(),
    ensures
        keys_unique(s.remove(i)),
        assoc_map(s.remove(i)) == assoc_map(s).remove(s[i].0),
{
    let t = s.remove(i);
    let target = assoc_map(s).remove(s[i].0);
    assert(keys_unique(t)) by {
        assert forall|a: int, b: int| 0 <= a < b < t.len() implies #[trigger] t[a].0
            != #[trigger] t[b].0 by {
            let a2 = if a < i { a } else { a + 1 };
            let b2 = if b < i { b } else { b + 1 };
            assert(t[a] == s[a2] && t[b] == s[b2]);
        }
    }
    assert forall|j: int| 0 <= j < t.len() implies target.dom().contains(#[trigger] t[j].0)
        && target[t[j].0] == t[j].1 by {
        let j2 = if j < i { j } else { j + 1 };
        assert(t[j] == s[j2]);
        lemma_assoc_at(s, j2);
        if j2 < i {
            assert(s[j2].0 != s[i].0);
        } else {
            assert(s[i].0 != s[j2].0);
        }
    }
    assert forall|key: K| #[trigger] target.dom().contains(key) implies exists|j: int|
        0 <= j < t.len() && t[j].0 == key by {
        lemma_assoc_present(s, key);
        let j = choose|j: int| 0 <= j < s.len() && s[j].0 == key;
        if j < i {
            assert(t[j] == s[j]);
        } else {
            assert(j != i);
            assert(t[j - 1] == s[j]);
        }
    }
    lemma_assoc_map_ext(t, target);
}

/// Every element kept by a filter comes from the filtered sequence.
pub proof fn lemma_filter_sub<A>(s: Seq<A>, pred: spec_fn(A) -> bool)
    ensures
        forall|i: int| #![trigger s.filter(pred)[i]]
            0 <= i < s.filter(pred).len() ==> exists|j: int| 0 <= j < s.len() && s[j] == s.filter(pred)[i],
    decreases s.len(),
{
    reveal(Seq::filter);
    if s.len() > 0 {
        lemma_filter_sub(s.drop_last(), pred);
        let f = s.filter(pred);
        let g = s.drop_last().filter(pred);
        assert forall|i: int| #![trigger f[i]] 0 <= i < f.len() implies exists|j: int|
            0 <= j < s.len() && s[j] == f[i] by {
            if i < g.len() {
                assert(f[i] == g[i]);
                let j = choose|j: int| 0 <= j < s.drop_last().len() && s.drop_last()[j] == g[i];
                assert(s[j] == f[i]);
            } else {
                assert(f[i] == s.last());
                assert(s[s.len() - 1] == f[i]);
            }
        }
    }
}

/// Filtering a sequence without duplicates keeps it without duplicates.
pub proof fn lemma_filter_no_dup<A>(s: Seq<A>, pred: spec_fn(A) -> bool)
    requires
        s.no_duplicates(),
    ensures
        s.filter(pred).no_duplicates(),
    decreases s.len(),
{
    reveal(Seq::filter);
    if s.len() > 0 {
        let t = s.drop_last();
        assert(t.no_duplicates()) by {
            assert forall|i: int, j: int| 0 <= i < t.len() && 0 <= j < t.len() && i != j implies t[i]
                != t[j] by {
                assert(s[i] != s[j]);
            }
        }
        lemma_filter_no_dup(t, pred);
        lemma_filter_sub(t, pred);
        let g = t.filter(pred);
        let f = s.filter(pred);
        if pred(s.last()) {
            assert forall|i: int, j: int| 0 <= i < f.len() && 0 <= j < f.len() && i != j implies f[i]
                != f[j] by {
                if i == f.len() - 1 || j == f.len() - 1 {
                    let o = if i == f.len() - 1 { j } else { i };
                    assert(f[o] == g[o]);
                    let a = choose|a: int| 0 <= a < t.len() && t[a] == g[o];
                    assert(s[a] != s[s.len() - 1]);
                } else {
                    assert(f[i] == g[i] && f[j] == g[j]);
                }
            }
        }
    }
}

} // verus!
