//! Lookup by key in sequences of named entries: the first entry whose key
//! matches wins, as in a map that never holds a key twice.
use vstd::prelude::*;

verus! {

/// The index of the first occurrence of `key` in `keys`, if any.
pub open spec fn first_index(keys: Seq<Seq<char>>, key: Seq<char>) -> Option<int> {
    if exists|i: int| 0 <= i < keys.len() && keys[i] == key {
        Some(
            choose|i: int|
                0 <= i < keys.len() && keys[i] == key && forall|j: int| 0 <= j < i ==> keys[j] != key,
        )
    } else {
        None
    }
}

/// No key occurs twice.
pub open spec fn distinct(keys: Seq<Seq<char>>) -> bool {
    forall|i: int, j: int| 0 <= i < keys.len() && 0 <= j < keys.len() && i != j ==> keys[i] != keys[j]
}

/// `key` occurs in `keys`.
pub open spec fn has_key(keys: Seq<Seq<char>>, key: Seq<char>) -> bool {
    exists|i: int| 0 <= i < keys.len() && keys[i] == key
}

pub proof fn lemma_first_index_found(keys: Seq<Seq<char>>, key: Seq<char>, i: int)
    requires
        0 <= i < keys.len(),
        keys[i] == key,
        forall|j: int| 0 <= j < i ==> keys[j] != key,
    ensures
        first_index(keys, key) == Some(i),
{
    let w = choose|k: int|
        0 <= k < keys.len() && keys[k] == key && forall|j: int| 0 <= j < k ==> keys[j] != key;
    assert(w == i) by {
        if w < i {
            assert(keys[w] != key);
        } else if w > i {
            assert(keys[i] != key);
        }
    }
}

pub proof fn lemma_first_index_absent(keys: Seq<Seq<char>>, key: Seq<char>)
    requires
        forall|j: int| 0 <= j < keys.len() ==> keys[j] != key,
    ensures
        first_index(keys, key) is None,
        !has_key(keys, key),
{
}

/// What `first_index` says of its result.
pub proof fn lemma_first_index_facts(keys: Seq<Seq<char>>, key: Seq<char>)
    ensures
        first_index(keys, key) matches Some(i) ==> {
            &&& 0 <= i < keys.len()
            &&& keys[i] == key
            &&& forall|j: int| 0 <= j < i ==> keys[j] != key
        },
        first_index(keys, key) is None <==> !has_key(keys, key),
{
    if has_key(keys, key) {
        let i0 = choose|i: int| 0 <= i < keys.len() && keys[i] == key;
        lemma_least_index(keys, key, i0);
    }
}

proof fn lemma_least_index(keys: Seq<Seq<char>>, key: Seq<char>, i0: int)
    requires
        0 <= i0 < keys.len(),
        keys[i0] == key,
    ensures
        exists|i: int| 0 <= i < keys.len() && keys[i] == key && forall|j: int| 0 <= j < i ==> keys[j] != key,
    decreases i0,
{
    if exists|j: int| 0 <= j < i0 && keys[j] == key {
        let j0 = choose|j: int| 0 <= j < i0 && keys[j] == key;
        lemma_least_index(keys, key, j0);
    }
}

/// In a sequence without repeated keys, the first index of a present key is
/// the only index holding it.
pub proof fn lemma_distinct_index(keys: Seq<Seq<char>>, key: Seq<char>, i: int)
    requires
        distinct(keys),
        0 <= i < keys.len(),
        keys[i] == key,
    ensures
        first_index(keys, key) == Some(i),
{
    lemma_first_index_found(keys, key, i);
}

/// Appending a key leaves the first index of every present key as it was,
/// and a new key is found at the end.
pub proof fn lemma_first_index_push(keys: Seq<Seq<char>>, x: Seq<char>, k: Seq<char>)
    ensures
        has_key(keys, k) ==> first_index(keys.push(x), k) == first_index(keys, k),
        !has_key(keys, k) && k == x ==> first_index(keys.push(x), k) == Some(keys.len() as int),
        has_key(keys.push(x), k) <==> has_key(keys, k) || k == x,
{
    let ks = keys.push(x);
    if has_key(keys, k) {
        lemma_first_index_facts(keys, k);
        let i = first_index(keys, k).unwrap();
        assert(ks[i] == keys[i]);
        assert forall|j: int| 0 <= j < i implies ks[j] != k by {
            assert(ks[j] == keys[j]);
        }
        lemma_first_index_found(ks, k, i);
    } else if k == x {
        assert forall|j: int| 0 <= j < keys.len() implies ks[j] != k by {
            assert(ks[j] == keys[j]);
        }
        lemma_first_index_found(ks, k, keys.len() as int);
    }
    if has_key(ks, k) {
        let j = choose|j: int| 0 <= j < ks.len() && ks[j] == k;
        if j < keys.len() {
            assert(keys[j] == k);
        }
    }
    if has_key(keys, k) {
        let j = choose|j: int| 0 <= j < keys.len() && keys[j] == k;
        assert(ks[j] == k);
    }
    if k == x {
        assert(ks[keys.len() as int] == k);
    }
}

/// The index of the first element of `s` satisfying `p`, if any.
pub open spec fn first_where(s: Seq<Seq<char>>, p: spec_fn(Seq<char>) -> bool) -> Option<int> {
    if exists|i: int| 0 <= i < s.len() && p(s[i]) {
        Some(choose|i: int| 0 <= i < s.len() && p(s[i]) && forall|j: int| 0 <= j < i ==> !p(s[j]))
    } else {
        None
    }
}

pub proof fn lemma_first_where_found(s: Seq<Seq<char>>, p: spec_fn(Seq<char>) -> bool, i: int)
    requires
        0 <= i < s.len(),
        p(s[i]),
        forall|j: int| 0 <= j < i ==> !p(s[j]),
    ensures
        first_where(s, p) == Some(i),
{
    let w = choose|k: int| 0 <= k < s.len() && p(s[k]) && forall|j: int| 0 <= j < k ==> !p(s[j]);
    assert(w == i) by {
        if w < i {
            assert(!p(s[w]));
        } else if w > i {
            assert(!p(s[i]));
        }
    }
}

pub proof fn lemma_first_where_absent(s: Seq<Seq<char>>, p: spec_fn(Seq<char>) -> bool)
    requires
        forall|j: int| 0 <= j < s.len() ==> !p(s[j]),
    ensures
        first_where(s, p) is None,
{
}

} // verus!
