use vstd::prelude::*;

verus! {

/// No two entries of `s` share a key.
pub open spec fn keys_distinct<T>(s: Seq<T>, key: spec_fn(T) -> Seq<char>) -> bool {
    forall|i: int, j: int|
        0 <= i < s.len() && 0 <= j < s.len() && i != j ==> #[trigger] key(s[i]) != #[trigger] key(
            s[j],
        )
}

/// Some entry of `s` has key `k`.
pub open spec fn has_key<T>(s: Seq<T>, key: spec_fn(T) -> Seq<char>, k: Seq<char>) -> bool {
    exists|i: int| 0 <= i < s.len() && #[trigger] key(s[i]) == k
}

/// The position of the entry with key `k`.
pub open spec fn key_index<T>(s: Seq<T>, key: spec_fn(T) -> Seq<char>, k: Seq<char>) -> int {
    choose|i: int| 0 <= i < s.len() && #[trigger] key(s[i]) == k
}

/// The entries of `s` as a map from their keys.
pub open spec fn keyed_map<T>(s: Seq<T>, key: spec_fn(T) -> Seq<char>) -> Map<Seq<char>, T> {
    Map::new(|k: Seq<char>| has_key(s, key, k), |k: Seq<char>| s[key_index(s, key, k)])
}

/// Where keys are distinct, the entry at `i` is the map's value at its key.
pub proof fn lemma_keyed_at<T>(s: Seq<T>, key: spec_fn(T) -> Seq<char>, i: int)
    requires
        keys_distinct(s, key),
        0 <= i < s.len(),
    ensures
        keyed_map(s, key).dom().contains(key(s[i])),
        keyed_map(s, key)[key(s[i])] == s[i],
        key_index(s, key, key(s[i])) == i,
{
    assert(has_key(s, key, key(s[i])));
    let j = key_index(s, key, key(s[i]));
    assert(key(s[j]) == key(s[i]));
}

/// Replacing the entry at `i` by one with the same key updates the map there.
pub proof fn lemma_keyed_update<T>(s: Seq<T>, key: spec_fn(T) -> Seq<char>, i: int, v: T)
    requires
        keys_distinct(s, key),
        0 <= i < s.len(),
        key(v) == key(s[i]),
    ensures
        keys_distinct(s.update(i, v), key),
        keyed_map(s.update(i, v), key) == keyed_map(s, key).insert(key(v), v),
{
    let t = s.update(i, v);
    assert forall|a: int, b: int|
        0 <= a < t.len() && 0 <= b < t.len() && a != b implies #[trigger] key(t[a])
        != #[trigger] key(t[b]) by {
        assert(key(t[a]) == key(s[a]));
        assert(key(t[b]) == key(s[b]));
    }
    let m1 = keyed_map(t, key);
    let m2 = keyed_map(s, key).insert(key(v), v);
    assert forall|k: Seq<char>| m1.dom().contains(k) <==> m2.dom().contains(k) by {
        if has_key(t, key, k) {
            let a = choose|a: int| 0 <= a < t.len() && #[trigger] key(t[a]) == k;
            assert(key(s[a]) == k);
        }
        if has_key(s, key, k) {
            let a = choose|a: int| 0 <= a < s.len() && #[trigger] key(s[a]) == k;
            assert(key(t[a]) == k);
        }
        if k == key(v) {
            assert(key(t[i]) == k);
        }
    }
    assert forall|k: Seq<char>| #[trigger] m1.dom().contains(k) implies m1[k] == m2[k] by {
        let a = key_index(t, key, k);
        assert(key(t[a]) == k);
        if a == i {
            assert(m1[k] == v);
        } else {
            assert(key(s[a]) == k);
            lemma_keyed_at(s, key, a);
            assert(k != key(v));
        }
    }
    assert(m1 =~= m2);
}

/// Appending an entry with a new key adds it to the map.
pub proof fn lemma_keyed_push<T>(s: Seq<T>, key: spec_fn(T) -> Seq<char>, v: T)
    requires
        keys_distinct(s, key),
        !has_key(s, key, key(v)),
    ensures
        keys_distinct(s.push(v), key),
        keyed_map(s.push(v), key) == keyed_map(s, key).insert(key(v), v),
{
    let t = s.push(v);
    assert forall|a: int, b: int|
        0 <= a < t.len() && 0 <= b < t.len() && a != b implies #[trigger] key(t[a])
        != #[trigger] key(t[b]) by {
        if a < s.len() && b < s.len() {
            assert(key(t[a]) == key(s[a]));
            assert(key(t[b]) == key(s[b]));
        } else if a < s.len() {
            assert(key(t[a]) == key(s[a]));
        } else {
            assert(key(t[b]) == key(s[b]));
        }
    }
    let m1 = keyed_map(t, key);
    let m2 = keyed_map(s, key).insert(key(v), v);
    assert forall|k: Seq<char>| m1.dom().contains(k) <==> m2.dom().contains(k) by {
        if has_key(t, key, k) {
            let a = choose|a: int| 0 <= a < t.len() && #[trigger] key(t[a]) == k;
            if a < s.len() {
                assert(key(s[a]) == k);
            }
        }
        if has_key(s, key, k) {
            let a = choose|a: int| 0 <= a < s.len() && #[trigger] key(s[a]) == k;
            assert(key(t[a]) == k);
        }
        if k == key(v) {
            assert(key(t[s.len() as int]) == k);
        }
    }
    assert forall|k: Seq<char>| #[trigger] m1.dom().contains(k) implies m1[k] == m2[k] by {
        let a = key_index(t, key, k);
        assert(key(t[a]) == k);
        if a == s.len() {
            assert(m1[k] == v);
        } else {
            assert(key(s[a]) == k);
            lemma_keyed_at(s, key, a);
        }
    }
    assert(m1 =~= m2);
}

/// An empty sequence maps nothing.
pub proof fn lemma_keyed_empty<T>(s: Seq<T>, key: spec_fn(T) -> Seq<char>)
    requires
        s.len() == 0,
    ensures
        keys_distinct(s, key),
        keyed_map(s, key) == Map::<Seq<char>, T>::empty(),
{
    assert(keyed_map(s, key) =~= Map::<Seq<char>, T>::empty());
}

/// Where keys are distinct, the map has as many keys as `s` has entries.
pub proof fn lemma_keyed_len<T>(s: Seq<T>, key: spec_fn(T) -> Seq<char>)
    requires
        keys_distinct(s, key),
    ensures
        keyed_map(s, key).dom().finite(),
        keyed_map(s, key).dom().len() == s.len(),
    decreases s.len(),
{
    if s.len() == 0 {
        lemma_keyed_empty(s, key);
    } else {
        let t = s.drop_last();
        let v = s.last();
        assert forall|a: int, b: int|
            0 <= a < t.len() && 0 <= b < t.len() && a != b implies #[trigger] key(t[a])
            != #[trigger] key(t[b]) by {
            assert(key(t[a]) == key(s[a]));
            assert(key(t[b]) == key(s[b]));
        }
        if has_key(t, key, key(v)) {
            let a = choose|a: int| 0 <= a < t.len() && #[trigger] key(t[a]) == key(v);
            assert(key(s[a]) == key(s[s.len() - 1]));
        }
        lemma_keyed_len(t, key);
        lemma_keyed_push(t, key, v);
        assert(t.push(v) =~= s);
        assert(!keyed_map(t, key).dom().contains(key(v)));
    }
}

} // verus!
