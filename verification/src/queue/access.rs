//! Construction, size and access to the elements.
use std::collections::HashMap;
use std::hash::Hash;
use vstd::prelude::*;

use super::room::{
    map_capacity, map_reserve, map_with_capacity, vec_at_mut, vec_capacity, vec_push, vec_reserve,
    vec_with_capacity,
};
use super::{Iter, Keys, LinkedQueue, Slot, Values, NIL};
use crate::model;

verus! {

impl<K: Eq + Hash + Clone, V> LinkedQueue<K, V> {
    /// Creates an empty queue.
    #[must_use]
    pub fn new() -> (queue: Self)
        ensures
            queue.wf(),
            queue@ == Seq::<(K, V)>::empty(),
            queue.slot_count() == 0,
            queue.asked_for_nothing(),
    {
        let queue = LinkedQueue {
            slots: vec_with_capacity(0),
            free: Vec::new(),
            index: HashMap::new(),
            head: NIL,
            tail: NIL,
            len: 0,
        };
        proof {
            queue.lemma_settled();
            queue.lemma_order(Seq::empty());
        }
        queue
    }

    /// Creates an empty queue that can hold at least `capacity` elements
    /// without reallocating its arena or index.
    ///
    /// As with the collections of the standard library, asking for more memory
    /// than can be had ends in a panic or an abort.
    #[must_use]
    pub fn with_capacity(capacity: usize) -> (queue: Self)
        ensures
            queue.wf(),
            queue@ == Seq::<(K, V)>::empty(),
            queue.slot_count() == 0,
            forall|c: usize| #[trigger] queue.reports(c) ==> c >= capacity,
            forall|c: usize| #[trigger] queue.index_reports(c) ==> c >= capacity,
            queue.asked_for(capacity),
    {
        let queue = LinkedQueue {
            slots: vec_with_capacity(capacity),
            free: Vec::new(),
            index: map_with_capacity(capacity),
            head: NIL,
            tail: NIL,
            len: 0,
        };
        proof {
            queue.lemma_settled();
            queue.lemma_order(Seq::empty());
        }
        queue
    }

    /// The number of elements in the queue.
    #[must_use]
    pub fn len(&self) -> (n: usize)
        requires
            self.wf(),
        ensures
            n == self@.len(),
    {
        self.len
    }

    /// Whether the queue holds no elements.
    #[must_use]
    pub fn is_empty(&self) -> (empty: bool)
        requires
            self.wf(),
        ensures
            empty == (self@.len() == 0),
    {
        self.len == 0
    }

    /// The number of elements that the arena can hold before it must
    /// reallocate: at least the cells that it has.
    #[must_use]
    pub fn capacity(&self) -> (capacity: usize)
        ensures
            self.reports(capacity),
            capacity >= self.slot_count(),
            self.wf() ==> capacity >= self@.len(),
    {
        vec_capacity(&self.slots)
    }

    /// The number of elements that the index is certain to hold before it must
    /// reallocate.
    #[must_use]
    pub fn index_capacity(&self) -> (capacity: usize)
        ensures
            self.index_reports(capacity),
            vstd::std_specs::hash::obeys_key_model::<K>() && self.wf() ==> capacity
                >= self@.len(),
    {
        proof {
            if self.wf() {
                self.lemma_index_len();
            }
        }
        map_capacity(&self.index)
    }

    /// Reserves space for at least `additional` more elements.
    ///
    /// The arena then has room for that many cells more than it has, and no less
    /// room than before; the index has room for that many keys more.
    ///
    /// As with the collections of the standard library, asking for more memory
    /// than can be had ends in a panic or an abort.
    pub fn reserve(&mut self, additional: usize)
        ensures
            final(self)@ == old(self)@,
            final(self).wf() == old(self).sound(),
            final(self).slot_count() == old(self).slot_count(),
            forall|c: usize| #[trigger]
                final(self).reports(c) ==> {
                    &&& c >= final(self).slot_count() + additional
                    &&& final(self).wf() ==> c >= final(self)@.len() + additional
                },
            old(self).room_not_less(*final(self)),
            old(self).room_reserved(additional, *final(self)),
            vstd::std_specs::hash::obeys_key_model::<K>() && final(self).wf() ==> forall|c: usize| #[trigger]
                final(self).index_reports(c) ==> c >= final(self)@.len() + additional,
            vstd::std_specs::hash::obeys_key_model::<K>() && final(self).wf() ==> forall|
                b: usize,
                c: usize,
            | #[trigger]
                old(self).index_reports(b) && #[trigger] final(self).index_reports(c) ==> {
                    &&& c >= b
                    &&& b >= old(self)@.len() + additional ==> c == b
                },
    {
        vec_reserve(&mut self.slots, additional);
        map_reserve(&mut self.index, additional);
        proof {
            self.lemma_settled();
            if self.sound() {
                self.lemma_index_len();
            }
        }
    }

    /// Whether `key` is present anywhere in the queue.
    #[must_use]
    pub fn contains(&self, key: &K) -> (present: bool)
        requires
            vstd::std_specs::hash::obeys_key_model::<K>(),
            self.wf(),
        ensures
            present == model::has_key(self@, *key),
    {
        proof {
            self.lemma_find(*key);
        }
        self.index.contains_key(key)
    }

    /// Borrows the value associated with `key`, if present.
    #[must_use]
    pub fn get(&self, key: &K) -> (value: Option<&V>)
        requires
            vstd::std_specs::hash::obeys_key_model::<K>(),
            self.wf(),
        ensures
            match value {
                Some(v) => model::lookup(self@, *key) == Some(*v),
                None => !model::has_key(self@, *key),
            },
    {
        proof {
            self.lemma_find(*key);
        }
        let idx = *self.index.get(key)?;
        self.slots[idx].value.as_ref()
    }

    /// Mutably borrows the value associated with `key`, if present. The
    /// element keeps its place in the queue.
    pub fn get_mut(&mut self, key: &K) -> (value: Option<&mut V>)
        requires
            vstd::std_specs::hash::obeys_key_model::<K>(),
            old(self).wf(),
        ensures
            match value {
                Some(v) => {
                    &&& model::lookup(old(self)@, *key) == Some(*v)
                    &&& final(self).wf()
                    &&& final(self)@ == old(self)@.update(
                        model::position(old(self)@, *key),
                        (*key, *final(v)),
                    )
                    &&& final(self).slot_count() == old(self).slot_count()
                    &&& old(self).room_kept(*final(self))
                },
                None => {
                    &&& !model::has_key(old(self)@, *key)
                    &&& *final(self) == *old(self)
                },
            },
    {
        proof {
            self.lemma_find(*key);
        }
        let idx = *self.index.get(key)?;
        let ghost p = model::position(self@, *key);
        let ghost after = *final(self);
        let value = vec_at_mut(&mut self.slots, idx).value.as_mut();
        proof {
            old(self).lemma_value_set(after, p, *final(value->0));
        }
        value
    }

    /// Borrows the head element without removing it.
    #[must_use]
    pub fn front(&self) -> (pair: Option<(&K, &V)>)
        requires
            self.wf(),
        ensures
            match pair {
                Some((k, v)) => self@.len() > 0 && self@.first() == (*k, *v),
                None => self@.len() == 0,
            },
    {
        assert(self.slots.len() <= usize::MAX);
        self.borrow_slot(self.head, Ghost(0int))
    }

    /// Borrows the tail element without removing it.
    #[must_use]
    pub fn back(&self) -> (pair: Option<(&K, &V)>)
        requires
            self.wf(),
        ensures
            match pair {
                Some((k, v)) => self@.len() > 0 && self@.last() == (*k, *v),
                None => self@.len() == 0,
            },
    {
        assert(self.slots.len() <= usize::MAX);
        self.borrow_slot(self.tail, Ghost(self.order().len() - 1))
    }

    /// Mutably borrows the value of the head element, with read access to its
    /// key. The element keeps its place.
    pub fn front_mut(&mut self) -> (pair: Option<(&K, &mut V)>)
        requires
            old(self).wf(),
        ensures
            match pair {
                Some((k, v)) => {
                    &&& old(self)@.len() > 0
                    &&& old(self)@.first() == (*k, *v)
                    &&& final(self).wf()
                    &&& final(self)@ == old(self)@.update(0, (*k, *final(v)))
                    &&& final(self).slot_count() == old(self).slot_count()
                    &&& old(self).room_kept(*final(self))
                },
                None => old(self)@.len() == 0 && *final(self) == *old(self),
            },
    {
        assert(self.slots.len() <= usize::MAX);
        let ghost after = *final(self);
        let pair = Self::borrow_slot_mut(&mut self.slots, self.head);
        proof {
            if old(self)@.len() > 0 {
                assert(old(self).order()[0] == old(self).head);
                old(self).lemma_value_set(after, 0, *final((pair->0).1));
            }
        }
        pair
    }

    /// Mutably borrows the value of the tail element, with read access to its
    /// key. The element keeps its place.
    pub fn back_mut(&mut self) -> (pair: Option<(&K, &mut V)>)
        requires
            old(self).wf(),
        ensures
            match pair {
                Some((k, v)) => {
                    &&& old(self)@.len() > 0
                    &&& old(self)@.last() == (*k, *v)
                    &&& final(self).wf()
                    &&& final(self)@ == old(self)@.update(old(self)@.len() - 1, (*k, *final(v)))
                    &&& final(self).slot_count() == old(self).slot_count()
                    &&& old(self).room_kept(*final(self))
                },
                None => old(self)@.len() == 0 && *final(self) == *old(self),
            },
    {
        assert(self.slots.len() <= usize::MAX);
        let ghost after = *final(self);
        let pair = Self::borrow_slot_mut(&mut self.slots, self.tail);
        proof {
            if old(self)@.len() > 0 {
                let p = old(self).order().len() - 1;
                assert(old(self).order()[p] == old(self).tail);
                old(self).lemma_value_set(after, p, *final((pair->0).1));
            }
        }
        pair
    }

    /// Borrows the pair at place `p`, whose node is `idx`; `NIL` has none.
    fn borrow_slot(&self, idx: usize, Ghost(p): Ghost<int>) -> (pair: Option<(&K, &V)>)
        requires
            self.wf(),
            self.slots@.len() <= usize::MAX,
            idx == super::node_at(self.order(), p),
        ensures
            match pair {
                Some((k, v)) => 0 <= p < self@.len() && self@[p] == (*k, *v),
                None => !(0 <= p < self@.len()),
            },
    {
        if idx == NIL {
            return None;
        }
        let s = &self.slots[idx];
        Some((s.key.as_ref()?, s.value.as_ref()?))
    }

    /// Borrows one cell's key and, mutably, its value, leaving the rest of the
    /// queue free.
    fn borrow_slot_mut(slots: &mut Vec<Slot<K, V>>, idx: usize) -> (pair: Option<(&K, &mut V)>)
        requires
            idx != NIL ==> idx < old(slots)@.len(),
        ensures
            match pair {
                Some((k, v)) => {
                    &&& idx != NIL
                    &&& old(slots)@[idx as int].key == Some(*k)
                    &&& old(slots)@[idx as int].value == Some(*v)
                    &&& final(slots)@ == old(slots)@.update(
                        idx as int,
                        Slot { value: Some(*final(v)), ..old(slots)@[idx as int] },
                    )
                    &&& super::room::settled(&*final(slots))
                    &&& super::room::same_room(&*old(slots), &*final(slots))
                },
                None => {
                    &&& idx == NIL || old(slots)@[idx as int].key is None || old(
                        slots,
                    )@[idx as int].value is None
                    &&& final(slots)@ == old(slots)@
                },
            },
            idx == NIL ==> *final(slots) == *old(slots),
    {
        if idx == NIL {
            return None;
        }
        let s = vec_at_mut(slots, idx);
        match (&s.key, &mut s.value) {
            (Some(k), Some(v)) => Some((k, v)),
            _ => None,
        }
    }

    /// Iterates over the pairs from head to tail without consuming the queue.
    /// The iterator is double-ended: `.rev()` walks from tail to head.
    #[must_use]
    pub fn iter(&self) -> (pairs: Iter<'_, K, V>)
        requires
            self.wf(),
        ensures
            pairs.rest() == self@,
    {
        Iter::over(self)
    }

    /// Iterates over the keys from head to tail.
    pub fn keys(&self) -> (keys: Keys<'_, K, V>)
        requires
            self.wf(),
        ensures
            keys.rest() == self@,
    {
        Keys::of(self.iter())
    }

    /// Iterates over the values from head to tail.
    pub fn values(&self) -> (values: Values<'_, K, V>)
        requires
            self.wf(),
        ensures
            values.rest() == self@,
    {
        Values::of(self.iter())
    }

    /// Collects clones of the elements in head-to-tail order.
    #[must_use]
    pub fn to_vec(&self) -> (pairs: Vec<(K, V)>) where V: Clone
        requires
            self.wf(),
        ensures
            pairs@.len() == self@.len(),
            forall|i: int|
                #![trigger pairs@[i]]
                0 <= i < self@.len() ==> {
                    &&& vstd::pervasive::strictly_cloned(self@[i].0, pairs@[i].0)
                    &&& vstd::pervasive::strictly_cloned(self@[i].1, pairs@[i].1)
                },
            super::made_for(pairs, self@.len()),
    {
        let mut pairs: Vec<(K, V)> = vec_with_capacity(self.len);
        let ghost made = pairs;
        assert(self.len == self@.len() as usize);
        let mut iter = self.iter();
        while iter.len() > 0
            invariant
                super::room::settled(&pairs),
                super::room::same_room(&made, &pairs),
                forall|c: usize| #[trigger] super::room::reported(&made, c) ==> c >= self@.len(),
                pairs@.len() + iter.rest().len() == self@.len(),
                iter.rest() == self@.skip(pairs@.len() as int),
                forall|i: int|
                    #![trigger pairs@[i]]
                    0 <= i < pairs@.len() ==> {
                        &&& vstd::pervasive::strictly_cloned(self@[i].0, pairs@[i].0)
                        &&& vstd::pervasive::strictly_cloned(self@[i].1, pairs@[i].1)
                    },
            decreases iter.rest().len(),
        {
            if let Some((k, v)) = iter.next() {
                vec_push(&mut pairs, (k.clone(), v.clone()));
            }
        }
        assert(super::room::asked_for(&pairs, self@.len()));
        pairs
    }

    /// Maps each element to `R` in head-to-tail order. `f` is asked once of
    /// each element.
    pub fn map<R, F: FnMut(&K, &V) -> R>(&self, mut f: F) -> (images: Vec<R>)
        requires
            self.wf(),
            forall|i: int|
                0 <= i < self@.len() ==> #[trigger] f.requires((&self@[i].0, &self@[i].1)),
        ensures
            images@.len() == self@.len(),
            forall|i: int|
                0 <= i < self@.len() ==> f.ensures(
                    (&self@[i].0, &self@[i].1),
                    #[trigger] images@[i],
                ),
            super::made_for(images, self@.len()),
    {
        let ghost g = f;
        let mut images: Vec<R> = vec_with_capacity(self.len);
        let ghost made = images;
        assert(self.len == self@.len() as usize);
        let mut iter = self.iter();
        while iter.len() > 0
            invariant
                f == g,
                super::room::settled(&images),
                super::room::same_room(&made, &images),
                forall|c: usize| #[trigger] super::room::reported(&made, c) ==> c >= self@.len(),
                images@.len() + iter.rest().len() == self@.len(),
                iter.rest() == self@.skip(images@.len() as int),
                forall|i: int|
                    0 <= i < self@.len() ==> #[trigger] f.requires((&self@[i].0, &self@[i].1)),
                forall|i: int|
                    0 <= i < images@.len() ==> f.ensures(
                        (&self@[i].0, &self@[i].1),
                        #[trigger] images@[i],
                    ),
            decreases iter.rest().len(),
        {
            if let Some((k, v)) = iter.next() {
                assert(f.requires((&self@[images@.len() as int].0, &self@[images@.len() as int].1)));
                let image = f(k, v);
                vec_push(&mut images, image);
            }
        }
        assert(super::room::asked_for(&images, self@.len()));
        images
    }
}

} // verus!
