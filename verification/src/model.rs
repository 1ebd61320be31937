//! The mathematical model of a queue: its elements as a sequence of
//! `(key, value)` pairs, head first, in which no key occurs twice.
use vstd::prelude::*;
use vstd::std_specs::cmp::PartialEqSpec;

verus! {

/// Cloning a `T` gives back an identical value.
pub open spec fn faithful_clone<T: Clone>() -> bool {
    forall|a: T, b: T| #[trigger] call_ensures(T::clone, (&a,), b) ==> a == b
}

/// `K` can key a queue: its `Hash` and `Eq` obey the model of a hash table's
/// key, and a clone of a key is the same key.
pub open spec fn lawful_key<K: Clone>() -> bool {
    &&& vstd::std_specs::hash::obeys_key_model::<K>()
    &&& faithful_clone::<K>()
}

/// No key occurs twice.
pub open spec fn keys_distinct<K, V>(s: Seq<(K, V)>) -> bool {
    forall|i: int, j: int|
        0 <= i < s.len() && 0 <= j < s.len() && i != j ==> #[trigger] s[i].0 != #[trigger] s[j].0
}

/// Some element has the key `k`.
pub open spec fn has_key<K, V>(s: Seq<(K, V)>, k: K) -> bool {
    exists|i: int| 0 <= i < s.len() && (#[trigger] s[i]).0 == k
}

/// The place of the element with key `k`, where there is one.
pub open spec fn position<K, V>(s: Seq<(K, V)>, k: K) -> int
    recommends
        has_key(s, k),
{
    choose|i: int| 0 <= i < s.len() && (#[trigger] s[i]).0 == k
}

/// The value that `k` is associated with.
pub open spec fn lookup<K, V>(s: Seq<(K, V)>, k: K) -> Option<V> {
    if has_key(s, k) {
        Some(s[position(s, k)].1)
    } else {
        None
    }
}

/// What is left when the element with key `k`, if any, is taken out.
pub open spec fn without<K, V>(s: Seq<(K, V)>, k: K) -> Seq<(K, V)> {
    if has_key(s, k) {
        s.remove(position(s, k))
    } else {
        s
    }
}

/// `(k, v)` at the tail, in place of any element that had the key `k`.
pub open spec fn pushed_back<K, V>(s: Seq<(K, V)>, k: K, v: V) -> Seq<(K, V)> {
    without(s, k).push((k, v))
}

/// `(k, v)` at the head, in place of any element that had the key `k`.
pub open spec fn pushed_front<K, V>(s: Seq<(K, V)>, k: K, v: V) -> Seq<(K, V)> {
    without(s, k).insert(0, (k, v))
}

/// The element with key `k`, if any, at the tail with its value untouched.
pub open spec fn moved_back<K, V>(s: Seq<(K, V)>, k: K) -> Seq<(K, V)> {
    match lookup(s, k) {
        Some(v) => pushed_back(s, k, v),
        None => s,
    }
}

/// The element with key `k`, if any, at the head with its value untouched.
pub open spec fn moved_front<K, V>(s: Seq<(K, V)>, k: K) -> Seq<(K, V)> {
    match lookup(s, k) {
        Some(v) => pushed_front(s, k, v),
        None => s,
    }
}

/// `(k, v)` directly behind the element keyed by `anchor`.
pub open spec fn inserted_after<K, V>(s: Seq<(K, V)>, anchor: K, k: K, v: V) -> Seq<(K, V)> {
    s.insert(position(s, anchor) + 1, (k, v))
}

/// `(k, v)` directly in front of the element keyed by `anchor`.
pub open spec fn inserted_before<K, V>(s: Seq<(K, V)>, anchor: K, k: K, v: V) -> Seq<(K, V)> {
    s.insert(position(s, anchor), (k, v))
}

/// The pairs of `items` pushed one after the other at the tail.
pub open spec fn extended<K, V>(s: Seq<(K, V)>, items: Seq<(K, V)>) -> Seq<(K, V)>
    decreases items.len(),
{
    if items.len() == 0 {
        s
    } else {
        extended(pushed_back(s, items[0].0, items[0].1), items.drop_first())
    }
}

/// Some element from place `from` on has the key `k`.
pub open spec fn has_key_from<K, V>(s: Seq<(K, V)>, from: int, k: K) -> bool {
    exists|i: int| from <= i < s.len() && (#[trigger] s[i]).0 == k
}

/// Of each key its last element, in the order in which these stand.
pub open spec fn last_of_each_key<K, V>(s: Seq<(K, V)>) -> Seq<(K, V)>
    decreases s.len(),
{
    if s.len() == 0 {
        s
    } else if has_key_from(s, 1, s[0].0) {
        last_of_each_key(s.drop_first())
    } else {
        seq![s[0]] + last_of_each_key(s.drop_first())
    }
}

/// The elements at the places that `keep` marks, in order.
pub open spec fn retained<K, V>(s: Seq<(K, V)>, keep: Seq<bool>) -> Seq<(K, V)>
    recommends
        s.len() == keep.len(),
    decreases s.len(),
{
    if s.len() == 0 {
        s
    } else {
        let front = retained(s.drop_last(), keep.drop_last());
        if keep.last() {
            front.push(s.last())
        } else {
            front
        }
    }
}

/// `s` and `t` hold equal pairs at equal places, as `==` on keys and values
/// has it.
pub open spec fn equal_pairs<K: PartialEq, V: PartialEq>(
    s: Seq<(K, V)>,
    t: Seq<(K, V)>,
) -> bool {
    &&& s.len() == t.len()
    &&& forall|i: int|
        #![trigger s[i], t[i]]
        0 <= i < s.len() ==> s[i].0.eq_spec(&t[i].0) && s[i].1.eq_spec(&t[i].1)
}

/// The pairs of `s`, key and value borrowed.
pub open spec fn by_ref<'a, K, V>(s: Seq<(K, V)>) -> Seq<(&'a K, &'a V)> {
    s.map_values(|pair: (K, V)| (&pair.0, &pair.1))
}

/// The keys of `s`, borrowed.
pub open spec fn keys_by_ref<'a, K, V>(s: Seq<(K, V)>) -> Seq<&'a K> {
    s.map_values(|pair: (K, V)| &pair.0)
}

/// The values of `s`, borrowed.
pub open spec fn values_by_ref<'a, K, V>(s: Seq<(K, V)>) -> Seq<&'a V> {
    s.map_values(|pair: (K, V)| &pair.1)
}

/// The cells of an arena that had `cells` of them and has to hold `n` pairs.
pub open spec fn grown(cells: nat, n: nat) -> nat {
    if cells < n {
        n
    } else {
        cells
    }
}

/// Where keys are distinct, the place of a key is the only one that holds it.
pub proof fn lemma_position<K, V>(s: Seq<(K, V)>, i: int)
    requires
        keys_distinct(s),
        0 <= i < s.len(),
    ensures
        has_key(s, s[i].0),
        position(s, s[i].0) == i,
        lookup(s, s[i].0) == Some(s[i].1),
{
    let p = position(s, s[i].0);
    assert(0 <= p < s.len() && s[p].0 == s[i].0);
}

} // verus!
