//! Sequences of values with distinct keys, read as maps from key to view.

use vstd::prelude::*;

verus! {

/// Some element of `s` has key `k`.
pub open spec fn has_key<T>(s: Seq<T>, key: spec_fn(T) -> Seq<char>, k: Seq<char>) -> bool {
    exists|i: int| 0 <= i < s.len() && key(#[trigger] s[i]) == k
}

/// No two elements of `s` have the same key.
pub open spec fn distinct_keys<T>(s: Seq<T>, key: spec_fn(T) -> Seq<char>) -> bool {
    forall|i: int, j: int| 0 <= i < j < s.len() ==> key(#[trigger] s[i]) != key(#[trigger] s[j])
}

/// The map from each key of `s` to the view of the element with that key.
pub open spec fn keyed_map<T, V>(s: Seq<T>, key: spec_fn(T) -> Seq<char>, view: spec_fn(T) -> V) -> Map<Seq<char>, V> {
    Map::new(
        |k: Seq<char>| has_key(s, key, k),
        |k: Seq<char>| view(s[choose|i: int| 0 <= i < s.len() && key(#[trigger] s[i]) == k]),
    )
}

/// With distinct keys, the map holds each element's view under its key.
pub proof fn lemma_keyed_lookup<T, V>(s: Seq<T>, key: spec_fn(T) -> Seq<char>, view: spec_fn(T) -> V, i: int)
    requires
        distinct_keys(s, key),
        0 <= i < s.len(),
    ensures
        keyed_map(s, key, view).contains_key(key(s[i])),
        keyed_map(s, key, view)[key(s[i])] == view(s[i]),
{
    let k = key(s[i]);
    assert(has_key(s, key, k));
    let j = choose|j: int| 0 <= j < s.len() && key(#[trigger] s[j]) == k;
    if j != i {
        if j < i {
            assert(key(s[j]) != key(s[i]));
        } else {
            assert(key(s[i]) != key(s[j]));
        }
    }
}

/// Replacing the element at `i` by one with the same key replaces its view.
pub proof fn lemma_keyed_update<T, V>(s: Seq<T>, key: spec_fn(T) -> Seq<char>, view: spec_fn(T) -> V, i: int, x: T)
    requires
        distinct_keys(s, key),
        0 <= i < s.len(),
        key(x) == key(s[i]),
    ensures
        distinct_keys(s.update(i, x), key),
        keyed_map(s.update(i, x), key, view) == keyed_map(s, key, view).insert(key(x), view(x)),
{
    let t = s.update(i, x);
    assert forall|a: int, b: int| 0 <= a < b < t.len() implies key(#[trigger] t[a]) != key(#[trigger] t[b]) by {
        assert(key(t[a]) == key(s[a]));
        assert(key(t[b]) == key(s[b]));
    }
    let m1 = keyed_map(t, key, view);
    let m2 = keyed_map(s, key, view).insert(key(x), view(x));
    assert forall|k: Seq<char>| #[trigger] m1.contains_key(k) == m2.contains_key(k) by {
        if has_key(t, key, k) {
            let j = choose|j: int| 0 <= j < t.len() && key(#[trigger] t[j]) == k;
            assert(key(s[j]) == k);
        }
        if has_key(s, key, k) {
            let j = choose|j: int| 0 <= j < s.len() && key(#[trigger] s[j]) == k;
            assert(key(t[j]) == k);
        }
        assert(key(t[i]) == key(x));
    }
    assert forall|k: Seq<char>| #[trigger] m1.contains_key(k) implies m1[k] == m2[k] by {
        let j = choose|j: int| 0 <= j < t.len() && key(#[trigger] t[j]) == k;
        lemma_keyed_lookup(t, key, view, j);
        if j == i {
            assert(t[j] == x);
        } else {
            assert(t[j] == s[j]);
            lemma_keyed_lookup(s, key, view, j);
        }
    }
    assert(m1 =~= m2);
}

/// Adding an element under a new key adds its view.
pub proof fn lemma_keyed_push<T, V>(s: Seq<T>, key: spec_fn(T) -> Seq<char>, view: spec_fn(T) -> V, x: T)
    requires
        distinct_keys(s, key),
        !has_key(s, key, key(x)),
    ensures
        distinct_keys(s.push(x), key),
        keyed_map(s.push(x), key, view) == keyed_map(s, key, view).insert(key(x), view(x)),
{
    let t = s.push(x);
    assert forall|a: int, b: int| 0 <= a < b < t.len() implies key(#[trigger] t[a]) != key(#[trigger] t[b]) by {
        assert(t[a] == s[a]);
        if b < s.len() {
            assert(t[b] == s[b]);
        } else {
            assert(t[b] == x);
        }
    }
    let m1 = keyed_map(t, key, view);
    let m2 = keyed_map(s, key, view).insert(key(x), view(x));
    assert forall|k: Seq<char>| #[trigger] m1.contains_key(k) == m2.contains_key(k) by {
        if has_key(t, key, k) {
            let j = choose|j: int| 0 <= j < t.len() && key(#[trigger] t[j]) == k;
            if j < s.len() {
                assert(t[j] == s[j]);
            }
        }
        if has_key(s, key, k) {
            let j = choose|j: int| 0 <= j < s.len() && key(#[trigger] s[j]) == k;
            assert(t[j] == s[j]);
        }
        assert(t[s.len() as int] == x);
    }
    assert forall|k: Seq<char>| #[trigger] m1.contains_key(k) implies m1[k] == m2[k] by {
        let j = choose|j: int| 0 <= j < t.len() && key(#[trigger] t[j]) == k;
        lemma_keyed_lookup(t, key, view, j);
        if j < s.len() {
            assert(t[j] == s[j]);
            lemma_keyed_lookup(s, key, view, j);
        }
    }
    assert(m1 =~= m2);
}

/// Dropping the element at `i` drops its key.
pub proof fn lemma_keyed_remove<T, V>(s: Seq<T>, key: spec_fn(T) -> Seq<char>, view: spec_fn(T) -> V, i: int)
    requires
        distinct_keys(s, key),
        0 <= i < s.len(),
    ensures
        distinct_keys(s.remove(i), key),
        keyed_map(s.remove(i), key, view) == keyed_map(s, key, view).remove(key(s[i])),
{
    let t = s.remove(i);
    assert forall|j: int| 0 <= j < t.len() implies #[trigger] t[j] == s[if j < i { j } else { j + 1 }] by {}
    assert forall|a: int, b: int| 0 <= a < b < t.len() implies key(#[trigger] t[a]) != key(#[trigger] t[b]) by {
        assert(t[a] == s[if a < i { a } else { a + 1 }]);
        assert(t[b] == s[if b < i { b } else { b + 1 }]);
    }
    let m1 = keyed_map(t, key, view);
    let m2 = keyed_map(s, key, view).remove(key(s[i]));
    assert forall|k: Seq<char>| #[trigger] m1.contains_key(k) == m2.contains_key(k) by {
        if has_key(t, key, k) {
            let j = choose|j: int| 0 <= j < t.len() && key(#[trigger] t[j]) == k;
            let src = if j < i { j } else { j + 1 };
            assert(t[j] == s[src]);
            if k == key(s[i]) {
                if src < i {
                    assert(key(s[src]) != key(s[i]));
                } else {
                    assert(key(s[i]) != key(s[src]));
                }
            }
        }
        if has_key(s, key, k) && k != key(s[i]) {
            let j = choose|j: int| 0 <= j < s.len() && key(#[trigger] s[j]) == k;
            assert(j != i);
            let dst = if j < i { j } else { j - 1 };
            assert(t[dst] == s[j]);
        }
    }
    assert forall|k: Seq<char>| #[trigger] m1.contains_key(k) implies m1[k] == m2[k] by {
        let j = choose|j: int| 0 <= j < t.len() && key(#[trigger] t[j]) == k;
        let src = if j < i { j } else { j + 1 };
        lemma_keyed_lookup(t, key, view, j);
        assert(t[j] == s[src]);
        lemma_keyed_lookup(s, key, view, src);
    }
    assert(m1 =~= m2);
}

/// The empty sequence is the empty map.
pub proof fn lemma_keyed_empty<T, V>(s: Seq<T>, key: spec_fn(T) -> Seq<char>, view: spec_fn(T) -> V)
    requires
        s.len() == 0,
    ensures
        distinct_keys(s, key),
        keyed_map(s, key, view) == Map::<Seq<char>, V>::empty(),
{
    assert(keyed_map(s, key, view) =~= Map::<Seq<char>, V>::empty());
}

} // verus!
