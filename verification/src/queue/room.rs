//! Room: how many elements a vector or a hash table can hold before it must
//! reallocate.
//!
//! How much there is beyond what was asked for is up to the allocator, so room
//! has no value in the contracts. They speak of whatever is reported of it.
//! vstd's contracts for these collections cover the contents alone; the
//! functions here add what the standard library documents of the room.
use std::collections::HashMap;
use std::hash::Hash;
use vstd::prelude::*;

verus! {

/// Asked for its capacity, `vec` may answer `capacity`.
pub(super) open spec fn reported<T>(vec: &Vec<T>, capacity: usize) -> bool {
    call_ensures(vec_capacity::<T>, (vec,), capacity)
}

/// Asked for its capacity, `vec` has one answer.
pub(super) open spec fn settled<T>(vec: &Vec<T>) -> bool {
    exists|c: usize|
        #[trigger] reported(vec, c) && forall|d: usize| #[trigger] reported(vec, d) ==> d == c
}

/// What `b` answers is what `a` answered.
pub(super) open spec fn same_room<T>(a: &Vec<T>, b: &Vec<T>) -> bool {
    forall|x: usize, y: usize| #[trigger] reported(a, x) && #[trigger] reported(b, y) ==> y == x
}

/// What `vec` answers is what a vector made for `n` elements answered.
pub(super) open spec fn asked_for<T>(vec: &Vec<T>, n: nat) -> bool {
    exists|made: Vec<T>|
        #[trigger] call_ensures(vec_with_capacity::<T>, (n as usize,), made) && same_room(
            &made,
            vec,
        )
}

/// Calls `Vec::capacity`, the number of elements that a vector can hold
/// without reallocating: never less than it holds.
#[verifier::external_body]
pub(super) fn vec_capacity<T>(vec: &Vec<T>) -> (capacity: usize)
    ensures
        capacity >= vec@.len(),
{
    vec.capacity()
}

/// Calls `Vec::with_capacity`, which makes an empty vector whose capacity is at
/// least the one asked for.
#[verifier::external_body]
pub(super) fn vec_with_capacity<T>(capacity: usize) -> (vec: Vec<T>)
    ensures
        vec@ == Seq::<T>::empty(),
        settled(&vec),
        forall|c: usize| #[trigger] reported(&vec, c) ==> c >= capacity,
{
    Vec::with_capacity(capacity)
}

/// Calls `Vec::reserve`, after which the capacity is at least the length plus
/// `additional`. It does nothing where the capacity suffices, so the capacity
/// never becomes less; the elements stay as they are.
#[verifier::external_body]
pub(super) fn vec_reserve<T>(vec: &mut Vec<T>, additional: usize)
    ensures
        final(vec)@ == old(vec)@,
        settled(&*final(vec)),
        forall|c: usize| #[trigger]
            reported(&*final(vec), c) ==> c >= final(vec)@.len() + additional,
        forall|b: usize, c: usize| #[trigger]
            reported(&*old(vec), b) && #[trigger] reported(&*final(vec), c) ==> c >= b,
        forall|b: usize, c: usize| #[trigger]
            reported(&*old(vec), b) && #[trigger] reported(&*final(vec), c) && b >= old(vec)@.len()
                + additional ==> c == b,
{
    vec.reserve(additional)
}

/// Calls `Vec::push`, which never reallocates where the reported capacity
/// suffices, and never shrinks a vector.
#[verifier::external_body]
pub(super) fn vec_push<T>(vec: &mut Vec<T>, value: T)
    ensures
        final(vec)@ == old(vec)@.push(value),
        settled(&*final(vec)),
        forall|b: usize, c: usize| #[trigger]
            reported(&*old(vec), b) && #[trigger] reported(&*final(vec), c) ==> {
                &&& c >= b
                &&& old(vec)@.len() < b ==> c == b
            },
{
    vec.push(value)
}

/// Calls `IndexMut::index_mut` of a vector, which lends out one element. Only
/// that element can be changed through it, not the vector's room.
#[verifier::external_body]
pub(super) fn vec_at_mut<T>(vec: &mut Vec<T>, i: usize) -> (element: &mut T)
    requires
        i < old(vec)@.len(),
    ensures
        *element == old(vec)@[i as int],
        final(vec)@ == old(vec)@.update(i as int, *final(element)),
        settled(&*final(vec)),
        same_room(&*old(vec), &*final(vec)),
{
    &mut vec[i]
}

/// Calls `Vec::clear`, which removes the elements and has no effect on the
/// capacity.
#[verifier::external_body]
pub(super) fn vec_clear<T>(vec: &mut Vec<T>)
    ensures
        final(vec)@ == Seq::<T>::empty(),
        settled(&*final(vec)),
        same_room(&*old(vec), &*final(vec)),
{
    vec.clear()
}

/// Asked for its capacity, `table` may answer `capacity`.
pub(super) open spec fn map_reported<K, V>(table: &HashMap<K, V>, capacity: usize) -> bool {
    call_ensures(map_capacity::<K, V>, (table,), capacity)
}

/// Calls `HashMap::capacity`, the number of elements that a hash table is
/// certain to hold without reallocating: never less than it holds.
#[verifier::external_body]
pub(super) fn map_capacity<K, V>(table: &HashMap<K, V>) -> (capacity: usize)
    ensures
        vstd::std_specs::hash::obeys_key_model::<K>() ==> capacity >= table@.len(),
{
    table.capacity()
}

/// Calls `HashMap::with_capacity`, which makes an empty hash table that can
/// hold at least as many elements as were asked for.
#[verifier::external_body]
pub(super) fn map_with_capacity<K, V>(capacity: usize) -> (table: HashMap<K, V>)
    ensures
        (table@ == Map::<K, V>::empty()),
        forall|c: usize| #[trigger] map_reported(&table, c) ==> c >= capacity,
{
    HashMap::with_capacity(capacity)
}

/// Calls `HashMap::reserve`, which makes room for at least `additional` more
/// elements and does nothing where there is; those that are there stay.
#[verifier::external_body]
pub(super) fn map_reserve<K: Eq + Hash, V>(table: &mut HashMap<K, V>, additional: usize)
    ensures
        final(table)@ == old(table)@,
        vstd::std_specs::hash::obeys_key_model::<K>() ==> forall|c: usize| #[trigger]
            map_reported(&*final(table), c) ==> c >= final(table)@.len() + additional,
        vstd::std_specs::hash::obeys_key_model::<K>() ==> forall|b: usize, c: usize| #[trigger]
            map_reported(&*old(table), b) && #[trigger] map_reported(&*final(table), c) && b >= old(
                table,
            )@.len() + additional ==> c == b,
{
    table.reserve(additional)
}

/// Calls `HashMap::clear`, which removes the elements and keeps the allocated
/// memory, so that there is no less room than before.
#[verifier::external_body]
pub(super) fn map_clear<K, V>(table: &mut HashMap<K, V>)
    ensures
        (final(table)@ == Map::<K, V>::empty()),
        forall|b: usize, c: usize| #[trigger]
            map_reported(&*old(table), b) && #[trigger] map_reported(&*final(table), c) ==> c >= b,
{
    table.clear()
}

} // verus!
