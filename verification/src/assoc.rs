//! Association sequences: sequences of records carrying a key, with at
//! most one record per key.
//!
//! The store keeps its feed registry, subscriber index and link-preview
//! matrix as vectors of records.  These spec functions and lemmas give
//! such a vector the reading of a finite map: which keys are present,
//! which record a key names, and how pushing, updating or removing a
//! record changes that reading.

use vstd::prelude::*;

verus! {

/// No two records of `s` carry the same key.
pub open spec fn assoc_distinct<T, K>(s: Seq<T>, key: spec_fn(T) -> K) -> bool {
    forall|i: int, j: int|
        0 <= i < j < s.len() ==> #[trigger] key(s[i]) != #[trigger] key(s[j])
}

/// Some record of `s` carries the key `k`.
pub open spec fn assoc_has<T, K>(s: Seq<T>, key: spec_fn(T) -> K, k: K) -> bool {
    exists|i: int| 0 <= i < s.len() && #[trigger] key(s[i]) == k
}

/// The record of `s` that carries the key `k` (meaningful only when
/// `assoc_distinct` holds and some record carries `k`).
pub open spec fn assoc_at<T, K>(s: Seq<T>, key: spec_fn(T) -> K, k: K) -> T {
    s[choose|i: int| 0 <= i < s.len() && #[trigger] key(s[i]) == k]
}

/// Pushing an element extends exactly what a sequence contains.
pub proof fn lemma_contains_push<A>(s: Seq<A>, x: A, y: A)
    ensures
        s.push(x).contains(y) <==> (s.contains(y) || y == x),
{
    if s.contains(y) {
        let i = choose|i: int| 0 <= i < s.len() && s[i] == y;
        assert(s.push(x)[i] == y);
    }
    assert(s.push(x)[s.len() as int] == x);
    if s.push(x).contains(y) {
        let i = choose|i: int| 0 <= i < s.push(x).len() && s.push(x)[i] == y;
        if i < s.len() {
            assert(s[i] == y);
        }
    }
}

/// Removing one position of a duplicate-free sequence removes exactly
/// that element.
pub proof fn lemma_contains_remove<A>(s: Seq<A>, i: int, y: A)
    requires
        0 <= i < s.len(),
        forall|a: int, b: int| 0 <= a < b < s.len() ==> s[a] != s[b],
    ensures
        s.remove(i).contains(y) <==> (s.contains(y) && y != s[i]),
{
    let t = s.remove(i);
    if t.contains(y) {
        let j = choose|j: int| 0 <= j < t.len() && t[j] == y;
        let j2: int = if j < i {
            j
        } else {
            j + 1
        };
        assert(s[j2] == y);
        assert(j2 != i);
        if y == s[i] {
            if j2 < i {
                assert(s[j2] != s[i]);
            } else {
                assert(s[i] != s[j2]);
            }
        }
    }
    if s.contains(y) && y != s[i] {
        let j = choose|j: int| 0 <= j < s.len() && s[j] == y;
        let j2: int = if j < i {
            j
        } else {
            j - 1
        };
        assert(t[j2] == y);
    }
}

/// The record at a given index is the one its key names.
pub proof fn lemma_assoc_at_index<T, K>(s: Seq<T>, key: spec_fn(T) -> K, i: int)
    requires
        assoc_distinct(s, key),
        0 <= i < s.len(),
    ensures
        assoc_has(s, key, key(s[i])),
        assoc_at(s, key, key(s[i])) == s[i],
{
    assert(assoc_has(s, key, key(s[i])));
    let j = choose|j: int| 0 <= j < s.len() && #[trigger] key(s[j]) == key(s[i]);
    if i != j {
        assert(key(s[i]) != key(s[j]));
    }
}

/// Pushing a record with a fresh key adds exactly that key.
pub proof fn lemma_assoc_push<T, K>(s: Seq<T>, key: spec_fn(T) -> K, x: T)
    requires
        assoc_distinct(s, key),
        !assoc_has(s, key, key(x)),
    ensures
        assoc_distinct(s.push(x), key),
        forall|k: K| assoc_has(s.push(x), key, k) <==> (assoc_has(s, key, k) || k == key(x)),
        forall|k: K|
            k != key(x) && assoc_has(s, key, k) ==> assoc_at(s.push(x), key, k) == assoc_at(
                s,
                key,
                k,
            ),
        assoc_at(s.push(x), key, key(x)) == x,
{
    let t = s.push(x);
    assert forall|i: int| 0 <= i < s.len() implies key(t[i]) == #[trigger] key(s[i]) by {
        assert(t[i] == s[i]);
    }
    assert(key(t[s.len() as int]) == key(x));
    assert forall|i: int, j: int| 0 <= i < j < t.len() implies #[trigger] key(t[i])
        != #[trigger] key(t[j]) by {
        if j < s.len() {
            assert(key(s[i]) != key(s[j]));
        } else {
            assert(j == s.len());
            if key(t[i]) == key(x) {
                assert(assoc_has(s, key, key(s[i])));
            }
        }
    }
    assert forall|k: K| assoc_has(t, key, k) implies (assoc_has(s, key, k) || k == key(x)) by {
        let i = choose|i: int| 0 <= i < t.len() && #[trigger] key(t[i]) == k;
        if i < s.len() {
            assert(key(s[i]) == k);
        }
    }
    assert forall|k: K| assoc_has(s, key, k) implies assoc_has(t, key, k) by {
        let i = choose|i: int| 0 <= i < s.len() && #[trigger] key(s[i]) == k;
        assert(key(t[i]) == k);
    }
    assert(assoc_has(t, key, key(x)));
    assert forall|k: K| k != key(x) && assoc_has(s, key, k) implies assoc_at(t, key, k)
        == assoc_at(s, key, k) by {
        let i = choose|i: int| 0 <= i < s.len() && #[trigger] key(s[i]) == k;
        lemma_assoc_at_index(s, key, i);
        assert(key(t[i]) == k);
        lemma_assoc_at_index(t, key, i);
    }
    lemma_assoc_at_index(t, key, s.len() as int);
}

/// Replacing the record at an index by one with the same key changes
/// only what that key names.
pub proof fn lemma_assoc_update<T, K>(s: Seq<T>, key: spec_fn(T) -> K, i: int, x: T)
    requires
        assoc_distinct(s, key),
        0 <= i < s.len(),
        key(x) == key(s[i]),
    ensures
        assoc_distinct(s.update(i, x), key),
        forall|k: K| assoc_has(s.update(i, x), key, k) <==> assoc_has(s, key, k),
        forall|k: K|
            k != key(x) && assoc_has(s, key, k) ==> assoc_at(s.update(i, x), key, k) == assoc_at(
                s,
                key,
                k,
            ),
        assoc_at(s.update(i, x), key, key(x)) == x,
{
    let t = s.update(i, x);
    assert forall|j: int| 0 <= j < s.len() implies #[trigger] key(t[j]) == key(s[j]) by {
        if j != i {
            assert(t[j] == s[j]);
        }
    }
    assert forall|a: int, b: int| 0 <= a < b < t.len() implies #[trigger] key(t[a])
        != #[trigger] key(t[b]) by {
        assert(key(s[a]) != key(s[b]));
    }
    assert forall|k: K| assoc_has(t, key, k) <==> assoc_has(s, key, k) by {
        if assoc_has(t, key, k) {
            let j = choose|j: int| 0 <= j < t.len() && #[trigger] key(t[j]) == k;
            assert(key(s[j]) == k);
        }
        if assoc_has(s, key, k) {
            let j = choose|j: int| 0 <= j < s.len() && #[trigger] key(s[j]) == k;
            assert(key(t[j]) == k);
        }
    }
    assert forall|k: K| k != key(x) && assoc_has(s, key, k) implies assoc_at(t, key, k)
        == assoc_at(s, key, k) by {
        let j = choose|j: int| 0 <= j < s.len() && #[trigger] key(s[j]) == k;
        lemma_assoc_at_index(s, key, j);
        if j == i {
            assert(key(s[i]) == k);
        }
        assert(t[j] == s[j]);
        assert(key(t[j]) == k);
        lemma_assoc_at_index(t, key, j);
    }
    assert(key(t[i]) == key(x));
    lemma_assoc_at_index(t, key, i);
}

/// Removing the record at an index removes exactly its key.
pub proof fn lemma_assoc_remove<T, K>(s: Seq<T>, key: spec_fn(T) -> K, i: int)
    requires
        assoc_distinct(s, key),
        0 <= i < s.len(),
    ensures
        assoc_distinct(s.remove(i), key),
        !assoc_has(s.remove(i), key, key(s[i])),
        forall|k: K|
            k != key(s[i]) ==> (assoc_has(s.remove(i), key, k) <==> assoc_has(s, key, k)),
        forall|k: K|
            k != key(s[i]) && assoc_has(s, key, k) ==> assoc_at(s.remove(i), key, k) == assoc_at(
                s,
                key,
                k,
            ),
{
    let t = s.remove(i);
    assert(t.len() == s.len() - 1);
    assert forall|j: int| 0 <= j < t.len() implies #[trigger] key(t[j]) == (if j < i {
        key(s[j])
    } else {
        key(s[j + 1])
    }) by {
        if j < i {
            assert(t[j] == s[j]);
        } else {
            assert(t[j] == s[j + 1]);
        }
    }
    assert forall|a: int, b: int| 0 <= a < b < t.len() implies #[trigger] key(t[a])
        != #[trigger] key(t[b]) by {
        let a2: int = if a < i { a } else { a + 1 };
        let b2: int = if b < i { b } else { b + 1 };
        assert(key(s[a2]) != key(s[b2]));
    }
    assert forall|k: K| assoc_has(t, key, k) implies (k != key(s[i]) && assoc_has(s, key, k)) by {
        let j = choose|j: int| 0 <= j < t.len() && #[trigger] key(t[j]) == k;
        let j2: int = if j < i { j } else { j + 1 };
        assert(key(s[j2]) == k);
        assert(j2 != i);
        assert(key(s[j2]) != key(s[i]));
    }
    assert forall|k: K| k != key(s[i]) && assoc_has(s, key, k) implies assoc_has(t, key, k) by {
        let j = choose|j: int| 0 <= j < s.len() && #[trigger] key(s[j]) == k;
        assert(j != i);
        let j2: int = if j < i { j } else { j - 1 };
        assert(key(t[j2]) == k);
    }
    assert forall|k: K| k != key(s[i]) && assoc_has(s, key, k) implies assoc_at(t, key, k)
        == assoc_at(s, key, k) by {
        let j = choose|j: int| 0 <= j < s.len() && #[trigger] key(s[j]) == k;
        lemma_assoc_at_index(s, key, j);
        assert(j != i);
        let j2: int = if j < i { j } else { j - 1 };
        assert(t[j2] == s[j]);
        assert(key(t[j2]) == k);
        lemma_assoc_at_index(t, key, j2);
    }
}

} // verus!
