//! Values kept under distinct words: the mathematical side of the tables
//! that this crate holds in vectors.

use vstd::prelude::*;

verus! {

/// The mapping that takes the `i`-th of `keys` to the `i`-th of `vals`.
/// It is meant for keys that do not repeat.
pub open spec fn keyed<V>(keys: Seq<Seq<char>>, vals: Seq<V>) -> Map<Seq<char>, V> {
    Map::new(|w: Seq<char>| keys.contains(w), |w: Seq<char>| vals[keys.index_of(w)])
}

/// Where no key repeats, the key at `i` leads to the value at `i`.
pub proof fn lemma_keyed_at<V>(keys: Seq<Seq<char>>, vals: Seq<V>, i: int)
    requires
        keys.no_duplicates(),
        0 <= i < keys.len(),
    ensures
        keys.contains(keys[i]),
        keys.index_of(keys[i]) == i,
        keyed(keys, vals).dom().contains(keys[i]),
        keyed(keys, vals)[keys[i]] == vals[i],
{
    assert(keys[i] == keys[i]);
}

/// A key that the mapping knows stands somewhere among the keys.
pub proof fn lemma_keyed_find<V>(keys: Seq<Seq<char>>, vals: Seq<V>, w: Seq<char>) -> (i: int)
    requires
        keys.no_duplicates(),
        keyed(keys, vals).dom().contains(w),
    ensures
        0 <= i < keys.len(),
        keys[i] == w,
        keyed(keys, vals)[w] == vals[i],
{
    let i = keys.index_of(w);
    lemma_keyed_at(keys, vals, i);
    i
}

/// Replacing the value at `i` replaces what the key at `i` leads to.
pub proof fn lemma_keyed_update<V>(keys: Seq<Seq<char>>, vals: Seq<V>, i: int, v: V)
    requires
        keys.no_duplicates(),
        keys.len() == vals.len(),
        0 <= i < keys.len(),
    ensures
        keyed(keys, vals.update(i, v)) == keyed(keys, vals).insert(keys[i], v),
{
    let after = keyed(keys, vals.update(i, v));
    let want = keyed(keys, vals).insert(keys[i], v);
    assert forall|w: Seq<char>| after.dom().contains(w) <==> want.dom().contains(w) by {
        lemma_keyed_at(keys, vals, i);
    }
    assert forall|w: Seq<char>| after.dom().contains(w) implies after[w] == want[w] by {
        let k = keys.index_of(w);
        lemma_keyed_at(keys, vals, k);
        lemma_keyed_at(keys, vals.update(i, v), k);
    }
    assert(after =~= want);
}

/// A new key with its value adds one pair to the mapping.
pub proof fn lemma_keyed_push<V>(keys: Seq<Seq<char>>, vals: Seq<V>, k: Seq<char>, v: V)
    requires
        keys.no_duplicates(),
        keys.len() == vals.len(),
        !keys.contains(k),
    ensures
        keys.push(k).no_duplicates(),
        keyed(keys.push(k), vals.push(v)) == keyed(keys, vals).insert(k, v),
{
    let keys2 = keys.push(k);
    let vals2 = vals.push(v);
    let n = keys.len() as int;
    assert forall|a: int, b: int| 0 <= a < keys2.len() && 0 <= b < keys2.len() && a != b implies
        keys2[a] != keys2[b] by {
        if a < n {
            assert(keys[a] == keys2[a]);
        }
        if b < n {
            assert(keys[b] == keys2[b]);
        }
    }
    let after = keyed(keys2, vals2);
    let want = keyed(keys, vals).insert(k, v);
    assert forall|w: Seq<char>| after.dom().contains(w) <==> want.dom().contains(w) by {
        if keys2.contains(w) {
            let a = keys2.index_of(w);
            if a < n {
                assert(keys[a] == w);
            }
        }
        if keys.contains(w) {
            let a = keys.index_of(w);
            assert(keys2[a] == w);
        }
        if w == k {
            assert(keys2[n] == w);
        }
    }
    assert forall|w: Seq<char>| after.dom().contains(w) implies after[w] == want[w] by {
        let a = keys2.index_of(w);
        lemma_keyed_at(keys2, vals2, a);
        if a < n {
            assert(keys[a] == w);
            lemma_keyed_at(keys, vals, a);
        }
    }
    assert(after =~= want);
}

/// Where no key repeats, the mapping has as many pairs as there are keys.
pub proof fn lemma_keyed_len<V>(keys: Seq<Seq<char>>, vals: Seq<V>)
    requires
        keys.no_duplicates(),
    ensures
        keyed(keys, vals).dom().finite(),
        keyed(keys, vals).dom().len() == keys.len(),
{
    assert(keyed(keys, vals).dom() =~= keys.to_set());
    keys.unique_seq_to_set();
    vstd::seq_lib::seq_to_set_is_finite(keys);
}

} // verus!
