//! A map kept as a list of keys beside a list of values: what the list
//! means as a map, and how the map changes as the lists do.
//!
//! Both stores of this crate hold their entries in a `Vec` in which no key
//! occurs twice. The lemmas here let them speak of that `Vec` as a `Map`.

use vstd::prelude::*;

verus! {

/// The map that sends `keys[i]` to `vals[i]`.
pub open spec fn paired<K, V>(keys: Seq<K>, vals: Seq<V>) -> Map<K, V> {
    Map::new(|k: K| keys.contains(k), |k: K| vals[keys.index_of(k)])
}

/// Where no key occurs twice, position `i` is where `keys[i]` is found.
pub proof fn lemma_paired_at<K, V>(keys: Seq<K>, vals: Seq<V>, i: int)
    requires
        keys.no_duplicates(),
        0 <= i < keys.len(),
    ensures
        keys.contains(keys[i]),
        keys.index_of(keys[i]) == i,
        paired(keys, vals).contains_key(keys[i]),
        paired(keys, vals)[keys[i]] == vals[i],
{
    let k = keys[i];
    assert(0 <= i < keys.len() && keys[i] == k);
    let p = keys.index_of(k);
    assert(0 <= p < keys.len() && keys[p] == k);
}

/// A key of the map is found at some position of the list.
pub proof fn lemma_paired_key<K, V>(keys: Seq<K>, vals: Seq<V>, k: K)
    requires
        keys.no_duplicates(),
        paired(keys, vals).contains_key(k),
    ensures
        0 <= keys.index_of(k) < keys.len(),
        keys[keys.index_of(k)] == k,
        paired(keys, vals)[k] == vals[keys.index_of(k)],
{
    let p = keys.index_of(k);
    assert(0 <= p < keys.len() && keys[p] == k);
}

/// The empty list is the empty map.
pub proof fn lemma_paired_empty<K, V>()
    ensures
        paired(Seq::<K>::empty(), Seq::<V>::empty()) == Map::<K, V>::empty(),
{
    assert(paired(Seq::<K>::empty(), Seq::<V>::empty()) =~= Map::<K, V>::empty());
}

/// Appending a key that is new inserts it.
pub proof fn lemma_paired_push<K, V>(keys: Seq<K>, vals: Seq<V>, k: K, v: V)
    requires
        keys.no_duplicates(),
        keys.len() == vals.len(),
        !keys.contains(k),
    ensures
        keys.push(k).no_duplicates(),
        paired(keys.push(k), vals.push(v)) == paired(keys, vals).insert(k, v),
{
    let keys2 = keys.push(k);
    let vals2 = vals.push(v);
    assert forall|i: int, j: int|
        0 <= i < keys2.len() && 0 <= j < keys2.len() && i != j implies keys2[i] != keys2[j] by {
        if i < keys.len() && j < keys.len() {
            assert(keys[i] != keys[j]);
        } else if i < keys.len() {
            assert(keys[i] == keys2[i]);
        } else {
            assert(keys[j] == keys2[j]);
        }
    }
    let a = paired(keys2, vals2);
    let b = paired(keys, vals).insert(k, v);
    assert forall|x: K| a.contains_key(x) == b.contains_key(x) by {
        if keys2.contains(x) {
            let i = choose|i: int| 0 <= i < keys2.len() && keys2[i] == x;
            if i < keys.len() {
                assert(keys[i] == x);
            }
        }
        if keys.contains(x) {
            let i = choose|i: int| 0 <= i < keys.len() && keys[i] == x;
            assert(keys2[i] == x);
        }
        if x == k {
            assert(keys2[keys.len() as int] == x);
        }
    }
    assert forall|x: K| a.contains_key(x) implies a[x] == b[x] by {
        lemma_paired_key(keys2, vals2, x);
        let p = keys2.index_of(x);
        if p < keys.len() {
            lemma_paired_at(keys, vals, p);
        }
    }
    assert(a =~= b);
}

/// Replacing the value at position `i` replaces the value of `keys[i]`.
pub proof fn lemma_paired_update<K, V>(keys: Seq<K>, vals: Seq<V>, i: int, v: V)
    requires
        keys.no_duplicates(),
        keys.len() == vals.len(),
        0 <= i < keys.len(),
    ensures
        paired(keys, vals.update(i, v)) == paired(keys, vals).insert(keys[i], v),
{
    let a = paired(keys, vals.update(i, v));
    let b = paired(keys, vals).insert(keys[i], v);
    lemma_paired_at(keys, vals, i);
    assert forall|x: K| a.contains_key(x) implies a[x] == b[x] by {
        lemma_paired_key(keys, vals, x);
    }
    assert(a =~= b);
}

/// Removing position `i` removes `keys[i]`.
pub proof fn lemma_paired_remove<K, V>(keys: Seq<K>, vals: Seq<V>, i: int)
    requires
        keys.no_duplicates(),
        keys.len() == vals.len(),
        0 <= i < keys.len(),
    ensures
        keys.remove(i).no_duplicates(),
        paired(keys.remove(i), vals.remove(i)) == paired(keys, vals).remove(keys[i]),
{
    let keys2 = keys.remove(i);
    let vals2 = vals.remove(i);
    assert forall|a: int, b: int|
        0 <= a < keys2.len() && 0 <= b < keys2.len() && a != b implies keys2[a] != keys2[b] by {
        let a0 = if a < i { a } else { a + 1 };
        let b0 = if b < i { b } else { b + 1 };
        assert(keys[a0] != keys[b0]);
    }
    let x = paired(keys2, vals2);
    let y = paired(keys, vals).remove(keys[i]);
    assert forall|k: K| x.contains_key(k) == y.contains_key(k) by {
        if keys2.contains(k) {
            let j = choose|j: int| 0 <= j < keys2.len() && keys2[j] == k;
            let j0 = if j < i { j } else { j + 1 };
            assert(keys[j0] == k);
            assert(keys[j0] != keys[i]);
        }
        if keys.contains(k) && k != keys[i] {
            let j = choose|j: int| 0 <= j < keys.len() && keys[j] == k;
            let j2 = if j < i { j } else { j - 1 };
            assert(keys2[j2] == k);
        }
    }
    assert forall|k: K| x.contains_key(k) implies x[k] == y[k] by {
        lemma_paired_key(keys2, vals2, k);
        let p = keys2.index_of(k);
        let p0 = if p < i { p } else { p + 1 };
        lemma_paired_at(keys, vals, p0);
    }
    assert(x =~= y);
}

/// The map has as many keys as the list has positions.
pub proof fn lemma_paired_len<K, V>(keys: Seq<K>, vals: Seq<V>)
    requires
        keys.no_duplicates(),
        keys.len() == vals.len(),
    ensures
        paired(keys, vals).dom().finite(),
        paired(keys, vals).dom().len() == keys.len(),
    decreases keys.len(),
{
    if keys.len() == 0 {
        assert(paired(keys, vals).dom() =~= Set::<K>::empty());
    } else {
        let k = keys.last();
        let v = vals.last();
        let keys0 = keys.drop_last();
        let vals0 = vals.drop_last();
        assert(keys =~= keys0.push(k));
        assert(vals =~= vals0.push(v));
        assert forall|i: int, j: int|
            0 <= i < keys0.len() && 0 <= j < keys0.len() && i != j implies keys0[i] != keys0[j] by {
            assert(keys[i] != keys[j]);
        }
        if keys0.contains(k) {
            let i = choose|i: int| 0 <= i < keys0.len() && keys0[i] == k;
            assert(keys[i] != keys[keys.len() - 1]);
        }
        lemma_paired_push(keys0, vals0, k, v);
        lemma_paired_len(keys0, vals0);
        assert(paired(keys, vals).dom() =~= paired(keys0, vals0).dom().insert(k));
    }
}

} // verus!
