//! The operations that change a queue.
use std::hash::Hash;
use vstd::prelude::*;
use vstd::std_specs::iter::IteratorSpec;

use super::room::{map_clear, vec_at_mut, vec_clear, vec_push, vec_with_capacity};
use super::{Drain, LinkedQueue, Row, NIL};
use crate::error::InsertError;
use crate::model;

verus! {

/// Calls `Iterator::size_hint`, the bounds that an iterator gives on how many
/// items it has left. They serve to make room and may be wrong, so nothing is
/// claimed of them.
#[verifier::external_body]
fn hint_of<I: Iterator>(items: &I) -> (bounds: (usize, Option<usize>)) {
    items.size_hint()
}

impl<K: Eq + Hash + Clone, V> LinkedQueue<K, V> {
    /// Enqueues at the tail. A new key is appended and `None` is returned; a
    /// key that is present has its value replaced and its element moved to the
    /// tail, and the previous value is returned.
    pub fn push_back(&mut self, key: K, value: V) -> (previous: Option<V>)
        requires
            model::lawful_key::<K>(),
            old(self).wf(),
        ensures
            final(self).wf(),
            final(self)@ == model::pushed_back(old(self)@, key, value),
            previous == model::lookup(old(self)@, key),
            final(self).slot_count() == model::grown(old(self).slot_count(), final(self)@.len()),
            old(self).room_grown(*final(self)),
    {
        let ghost before = *self;
        let ghost o = self.order();
        proof {
            self.lemma_find(key);
        }
        if let Some(at) = self.index.get(&key) {
            let idx = *at;
            let ghost p = model::position(self@, key);
            let slot = vec_at_mut(&mut self.slots, idx);
            let previous = slot.value.take();
            slot.value = Some(value);
            proof {
                before.lemma_value_set(*self, p, value);
            }
            self.unlink(idx, Ghost(o), Ghost(p));
            self.link_back(idx, Ghost(o.remove(p)));
            proof {
                let m = o.remove(p);
                assert(m.push(idx) =~= m.insert(m.len() as int, idx));
                Self::lemma_moved(before, *self, o, p, m.len() as int, value);
                let rest = before@.remove(p);
                assert(rest.insert(rest.len() as int, (key, value)) =~= rest.push((key, value)));
            }
            return previous;
        }
        let idx = self.alloc_slot(key.clone(), value, Ghost(o));
        self.link_back(idx, Ghost(o));
        self.index.insert(key, idx);
        assert(self.slots.len() <= usize::MAX);
        self.len = self.len + 1;
        proof {
            assert(o.push(idx) =~= o.insert(o.len() as int, idx));
            Self::lemma_inserted(before, *self, o, o.len() as int, idx, key, value);
            assert(before@.insert(o.len() as int, (key, value)) =~= before@.push((key, value)));
        }
        None
    }

    /// Enqueues at the head. The mirror image of
    /// [`push_back`](Self::push_back): a new key is prepended, a key that is
    /// present has its value replaced and its element moved to the head.
    pub fn push_front(&mut self, key: K, value: V) -> (previous: Option<V>)
        requires
            model::lawful_key::<K>(),
            old(self).wf(),
        ensures
            final(self).wf(),
            final(self)@ == model::pushed_front(old(self)@, key, value),
            previous == model::lookup(old(self)@, key),
            final(self).slot_count() == model::grown(old(self).slot_count(), final(self)@.len()),
            old(self).room_grown(*final(self)),
    {
        let ghost before = *self;
        let ghost o = self.order();
        proof {
            self.lemma_find(key);
        }
        if let Some(at) = self.index.get(&key) {
            let idx = *at;
            let ghost p = model::position(self@, key);
            let slot = vec_at_mut(&mut self.slots, idx);
            let previous = slot.value.take();
            slot.value = Some(value);
            proof {
                before.lemma_value_set(*self, p, value);
            }
            self.unlink(idx, Ghost(o), Ghost(p));
            self.link_front(idx, Ghost(o.remove(p)));
            proof {
                Self::lemma_moved(before, *self, o, p, 0, value);
            }
            return previous;
        }
        let idx = self.alloc_slot(key.clone(), value, Ghost(o));
        self.link_front(idx, Ghost(o));
        self.index.insert(key, idx);
        assert(self.slots.len() <= usize::MAX);
        self.len = self.len + 1;
        proof {
            Self::lemma_inserted(before, *self, o, 0, idx, key, value);
        }
        None
    }

    /// Strict enqueue at the tail: like [`push_back`](Self::push_back) for a
    /// new key, but a key that is present is rejected and the queue is left
    /// unchanged.
    pub fn try_push_back(&mut self, key: K, value: V) -> (result: Result<(), InsertError<K, V>>)
        requires
            model::lawful_key::<K>(),
            old(self).wf(),
        ensures
            final(self).wf(),
            match result {
                Ok(_) => {
                    &&& !model::has_key(old(self)@, key)
                    &&& final(self)@ == model::pushed_back(old(self)@, key, value)
                },
                Err(error) => {
                    &&& model::has_key(old(self)@, key)
                    &&& error == (InsertError::DuplicateKey { key, value })
                    &&& *final(self) == *old(self)
                },
            },
            final(self).slot_count() == model::grown(old(self).slot_count(), final(self)@.len()),
            old(self).room_grown(*final(self)),
    {
        let ghost before = *self;
        let ghost o = self.order();
        proof {
            self.lemma_find(key);
        }
        if self.index.contains_key(&key) {
            return Err(InsertError::DuplicateKey { key, value });
        }
        let idx = self.alloc_slot(key.clone(), value, Ghost(o));
        self.link_back(idx, Ghost(o));
        self.index.insert(key, idx);
        assert(self.slots.len() <= usize::MAX);
        self.len = self.len + 1;
        proof {
            assert(o.push(idx) =~= o.insert(o.len() as int, idx));
            Self::lemma_inserted(before, *self, o, o.len() as int, idx, key, value);
            assert(before@.insert(o.len() as int, (key, value)) =~= before@.push((key, value)));
        }
        Ok(())
    }

    /// Strict enqueue at the head, the counterpart of
    /// [`try_push_back`](Self::try_push_back).
    pub fn try_push_front(&mut self, key: K, value: V) -> (result: Result<(), InsertError<K, V>>)
        requires
            model::lawful_key::<K>(),
            old(self).wf(),
        ensures
            final(self).wf(),
            match result {
                Ok(_) => {
                    &&& !model::has_key(old(self)@, key)
                    &&& final(self)@ == model::pushed_front(old(self)@, key, value)
                },
                Err(error) => {
                    &&& model::has_key(old(self)@, key)
                    &&& error == (InsertError::DuplicateKey { key, value })
                    &&& *final(self) == *old(self)
                },
            },
            final(self).slot_count() == model::grown(old(self).slot_count(), final(self)@.len()),
            old(self).room_grown(*final(self)),
    {
        let ghost before = *self;
        let ghost o = self.order();
        proof {
            self.lemma_find(key);
        }
        if self.index.contains_key(&key) {
            return Err(InsertError::DuplicateKey { key, value });
        }
        let idx = self.alloc_slot(key.clone(), value, Ghost(o));
        self.link_front(idx, Ghost(o));
        self.index.insert(key, idx);
        assert(self.slots.len() <= usize::MAX);
        self.len = self.len + 1;
        proof {
            Self::lemma_inserted(before, *self, o, 0, idx, key, value);
        }
        Ok(())
    }

    /// Moves the element keyed by `key` to the tail without touching its
    /// value. Returns whether there is such an element.
    pub fn move_to_back(&mut self, key: &K) -> (present: bool)
        requires
            vstd::std_specs::hash::obeys_key_model::<K>(),
            old(self).wf(),
        ensures
            final(self).wf(),
            present == model::has_key(old(self)@, *key),
            final(self)@ == model::moved_back(old(self)@, *key),
            final(self).slot_count() == old(self).slot_count(),
            old(self).room_kept(*final(self)),
    {
        let ghost before = *self;
        let ghost o = self.order();
        proof {
            self.lemma_find(*key);
            self.lemma_settled();
        }
        if let Some(at) = self.index.get(key) {
            let idx = *at;
            let ghost p = model::position(self@, *key);
            self.unlink(idx, Ghost(o), Ghost(p));
            self.link_back(idx, Ghost(o.remove(p)));
            proof {
                let m = o.remove(p);
                let value = before@[p].1;
                assert(m.push(idx) =~= m.insert(m.len() as int, idx));
                Self::lemma_moved(before, *self, o, p, m.len() as int, value);
                let rest = before@.remove(p);
                assert(rest.insert(rest.len() as int, (*key, value)) =~= rest.push((*key, value)));
            }
            true
        } else {
            false
        }
    }

    /// Moves the element keyed by `key` to the head without touching its
    /// value. Returns whether there is such an element.
    pub fn move_to_front(&mut self, key: &K) -> (present: bool)
        requires
            vstd::std_specs::hash::obeys_key_model::<K>(),
            old(self).wf(),
        ensures
            final(self).wf(),
            present == model::has_key(old(self)@, *key),
            final(self)@ == model::moved_front(old(self)@, *key),
            final(self).slot_count() == old(self).slot_count(),
            old(self).room_kept(*final(self)),
    {
        let ghost before = *self;
        let ghost o = self.order();
        proof {
            self.lemma_find(*key);
            self.lemma_settled();
        }
        if let Some(at) = self.index.get(key) {
            let idx = *at;
            let ghost p = model::position(self@, *key);
            self.unlink(idx, Ghost(o), Ghost(p));
            self.link_front(idx, Ghost(o.remove(p)));
            proof {
                Self::lemma_moved(before, *self, o, p, 0, before@[p].1);
            }
            true
        } else {
            false
        }
    }

    /// Inserts `(key, value)` directly behind the element keyed by `anchor`.
    /// A key that is present, or else an anchor that is not, is an error, and
    /// leaves the queue unchanged.
    pub fn insert_after(&mut self, anchor: &K, key: K, value: V) -> (result: Result<
        (),
        InsertError<K, V>,
    >)
        requires
            model::lawful_key::<K>(),
            old(self).wf(),
        ensures
            final(self).wf(),
            match result {
                Ok(_) => {
                    &&& !model::has_key(old(self)@, key)
                    &&& model::has_key(old(self)@, *anchor)
                    &&& final(self)@ == model::inserted_after(old(self)@, *anchor, key, value)
                },
                Err(InsertError::DuplicateKey { key: k, value: v }) => {
                    &&& model::has_key(old(self)@, key)
                    &&& (k, v) == (key, value)
                    &&& *final(self) == *old(self)
                },
                Err(InsertError::AnchorMissing { key: k, value: v }) => {
                    &&& !model::has_key(old(self)@, key)
                    &&& !model::has_key(old(self)@, *anchor)
                    &&& (k, v) == (key, value)
                    &&& *final(self) == *old(self)
                },
            },
            final(self).slot_count() == model::grown(old(self).slot_count(), final(self)@.len()),
            old(self).room_grown(*final(self)),
    {
        let ghost before = *self;
        let ghost o = self.order();
        proof {
            self.lemma_find(key);
            self.lemma_find(*anchor);
        }
        if self.index.contains_key(&key) {
            return Err(InsertError::DuplicateKey { key, value });
        }
        let a = match self.index.get(anchor) {
            Some(at) => *at,
            None => return Err(InsertError::AnchorMissing { key, value }),
        };
        let ghost p = model::position(self@, *anchor);
        let idx = self.alloc_slot(key.clone(), value, Ghost(o));
        let ghost mid = *self;
        assert(self.slots.len() <= usize::MAX);
        assert(super::node_linked(self.slots@, o, p));
        let after = self.slots[a].next;
        vec_at_mut(&mut self.slots, idx).prev = a;
        vec_at_mut(&mut self.slots, idx).next = after;
        vec_at_mut(&mut self.slots, a).next = idx;
        if after == NIL {
            self.tail = idx;
        } else {
            vec_at_mut(&mut self.slots, after).prev = idx;
        }
        self.index.insert(key, idx);
        self.len = self.len + 1;
        proof {
            assert(o[p] != idx);
            assert(p + 1 < o.len() ==> o[p + 1] != idx && o[p + 1] != o[p]);
            assert(super::spliced(mid.slots@, self.slots@, o, p + 1, idx));
            super::lemma_spliced(mid.slots@, mid.head, mid.tail, o, self.slots@, p + 1, idx);
            Self::lemma_inserted(before, *self, o, p + 1, idx, key, value);
        }
        Ok(())
    }

    /// Inserts `(key, value)` directly in front of the element keyed by
    /// `anchor`. A key that is present, or else an anchor that is not, is an
    /// error, and leaves the queue unchanged.
    pub fn insert_before(&mut self, anchor: &K, key: K, value: V) -> (result: Result<
        (),
        InsertError<K, V>,
    >)
        requires
            model::lawful_key::<K>(),
            old(self).wf(),
        ensures
            final(self).wf(),
            match result {
                Ok(_) => {
                    &&& !model::has_key(old(self)@, key)
                    &&& model::has_key(old(self)@, *anchor)
                    &&& final(self)@ == model::inserted_before(old(self)@, *anchor, key, value)
                },
                Err(InsertError::DuplicateKey { key: k, value: v }) => {
                    &&& model::has_key(old(self)@, key)
                    &&& (k, v) == (key, value)
                    &&& *final(self) == *old(self)
                },
                Err(InsertError::AnchorMissing { key: k, value: v }) => {
                    &&& !model::has_key(old(self)@, key)
                    &&& !model::has_key(old(self)@, *anchor)
                    &&& (k, v) == (key, value)
                    &&& *final(self) == *old(self)
                },
            },
            final(self).slot_count() == model::grown(old(self).slot_count(), final(self)@.len()),
            old(self).room_grown(*final(self)),
    {
        let ghost before = *self;
        let ghost o = self.order();
        proof {
            self.lemma_find(key);
            self.lemma_find(*anchor);
        }
        if self.index.contains_key(&key) {
            return Err(InsertError::DuplicateKey { key, value });
        }
        let a = match self.index.get(anchor) {
            Some(at) => *at,
            None => return Err(InsertError::AnchorMissing { key, value }),
        };
        let ghost p = model::position(self@, *anchor);
        let idx = self.alloc_slot(key.clone(), value, Ghost(o));
        let ghost mid = *self;
        assert(self.slots.len() <= usize::MAX);
        assert(super::node_linked(self.slots@, o, p));
        let in_front = self.slots[a].prev;
        vec_at_mut(&mut self.slots, idx).next = a;
        vec_at_mut(&mut self.slots, idx).prev = in_front;
        vec_at_mut(&mut self.slots, a).prev = idx;
        if in_front == NIL {
            self.head = idx;
        } else {
            vec_at_mut(&mut self.slots, in_front).next = idx;
        }
        self.index.insert(key, idx);
        self.len = self.len + 1;
        proof {
            assert(o[p] != idx);
            assert(p > 0 ==> o[p - 1] != idx && o[p - 1] != o[p]);
            assert(super::spliced(mid.slots@, self.slots@, o, p, idx));
            super::lemma_spliced(mid.slots@, mid.head, mid.tail, o, self.slots@, p, idx);
            Self::lemma_inserted(before, *self, o, p, idx, key, value);
        }
        Ok(())
    }

    /// Removes and returns the head element.
    pub fn pop_front(&mut self) -> (pair: Option<(K, V)>)
        requires
            vstd::std_specs::hash::obeys_key_model::<K>(),
            old(self).wf(),
        ensures
            final(self).wf(),
            if old(self)@.len() == 0 {
                pair is None && *final(self) == *old(self)
            } else {
                pair == Some(old(self)@.first()) && final(self)@ == old(self)@.drop_first()
            },
            final(self).slot_count() == old(self).slot_count(),
            old(self).room_kept(*final(self)),
    {
        assert(self.slots.len() <= usize::MAX);
        if self.head == NIL {
            return None;
        }
        let pair = self.remove_at(self.head, Ghost(0int));
        assert(self@ =~= old(self)@.drop_first());
        Some(pair)
    }

    /// Removes and returns the tail element.
    pub fn pop_back(&mut self) -> (pair: Option<(K, V)>)
        requires
            vstd::std_specs::hash::obeys_key_model::<K>(),
            old(self).wf(),
        ensures
            final(self).wf(),
            if old(self)@.len() == 0 {
                pair is None && *final(self) == *old(self)
            } else {
                pair == Some(old(self)@.last()) && final(self)@ == old(self)@.drop_last()
            },
            final(self).slot_count() == old(self).slot_count(),
            old(self).room_kept(*final(self)),
    {
        assert(self.slots.len() <= usize::MAX);
        if self.tail == NIL {
            return None;
        }
        let ghost p = self.order().len() - 1;
        let pair = self.remove_at(self.tail, Ghost(p));
        assert(self@ =~= old(self)@.drop_last());
        Some(pair)
    }

    /// Removes the element keyed by `key` from anywhere in the queue and
    /// returns its value, or `None` where there is no such element.
    pub fn remove(&mut self, key: &K) -> (value: Option<V>)
        requires
            vstd::std_specs::hash::obeys_key_model::<K>(),
            old(self).wf(),
        ensures
            final(self).wf(),
            value == model::lookup(old(self)@, *key),
            final(self)@ == model::without(old(self)@, *key),
            value is None ==> *final(self) == *old(self),
            final(self).slot_count() == old(self).slot_count(),
            old(self).room_kept(*final(self)),
    {
        proof {
            self.lemma_find(*key);
        }
        let idx = match self.index.get(key) {
            Some(at) => *at,
            None => return None,
        };
        let pair = self.remove_at(idx, Ghost(model::position(self@, *key)));
        Some(pair.1)
    }

    /// Removes every element, keeping the queue allocated for reuse.
    pub fn clear(&mut self)
        ensures
            final(self).wf(),
            final(self)@ == Seq::<(K, V)>::empty(),
            final(self).slot_count() == 0,
            old(self).room_kept(*final(self)),
            forall|b: usize, c: usize| #[trigger]
                old(self).index_reports(b) && #[trigger] final(self).index_reports(c) ==> c >= b,
    {
        vec_clear(&mut self.slots);
        self.free.clear();
        map_clear(&mut self.index);
        self.head = NIL;
        self.tail = NIL;
        self.len = 0;
        proof {
            self.lemma_settled();
            self.lemma_order(Seq::empty());
        }
    }

    /// Retains only the elements for which `f` returns `true`, in queue order.
    /// `f` is asked once of each element, head first.
    pub fn retain<F: FnMut(&K, &V) -> bool>(&mut self, mut f: F)
        requires
            vstd::std_specs::hash::obeys_key_model::<K>(),
            old(self).wf(),
            forall|i: int|
                0 <= i < old(self)@.len() ==> #[trigger] f.requires(
                    (&old(self)@[i].0, &old(self)@[i].1),
                ),
        ensures
            final(self).wf(),
            exists|keep: Seq<bool>|
                {
                    &&& keep.len() == old(self)@.len()
                    &&& forall|i: int|
                        0 <= i < keep.len() ==> f.ensures(
                            (&old(self)@[i].0, &old(self)@[i].1),
                            #[trigger] keep[i],
                        )
                    &&& final(self)@ == #[trigger] model::retained(old(self)@, keep)
                },
            final(self).slot_count() == old(self).slot_count(),
            old(self).room_kept(*final(self)),
    {
        let ghost all = self@;
        let ghost g = f;
        let ghost mut keep: Seq<bool> = Seq::empty();
        let mut cur = self.head;
        proof {
            assert(all.take(0) =~= Seq::empty());
            assert(self@ =~= all.take(0) + all.skip(0));
        }
        assert(self.slots.len() <= usize::MAX);
        while cur != NIL
            invariant
                vstd::std_specs::hash::obeys_key_model::<K>(),
                self.wf(),
                f == g,
                keep.len() <= all.len(),
                forall|i: int|
                    0 <= i < all.len() ==> #[trigger] f.requires((&all[i].0, &all[i].1)),
                forall|i: int|
                    0 <= i < keep.len() ==> f.ensures((&all[i].0, &all[i].1), #[trigger] keep[i]),
                self@ == model::retained(all.take(keep.len() as int), keep) + all.skip(
                    keep.len() as int,
                ),
                cur == super::node_at(
                    self.order(),
                    model::retained(all.take(keep.len() as int), keep).len() as int,
                ),
                self.slots@.len() == old(self).slots@.len(),
                self.slots@.len() <= usize::MAX,
                old(self).room_kept(*self),
            decreases all.len() - keep.len(),
        {
            let ghost n = keep.len() as int;
            let ghost kept = model::retained(all.take(n), keep);
            let ghost p = kept.len() as int;
            proof {
                assert(self@.len() == self.order().len());
                assert(p < self.order().len());
                assert(self@[p] == all[n]);
                assert(f.requires((&all[n].0, &all[n].1)));
                assert(super::node_linked(self.slots@, self.order(), p));
                assert(all.take(n + 1).drop_last() =~= all.take(n));
                assert(all.skip(n).drop_first() =~= all.skip(n + 1));
            }
            let next = self.slots[cur].next;
            let wanted = {
                let s = &self.slots[cur];
                f(
                    s.key.as_ref().expect("occupied slot"),
                    s.value.as_ref().expect("occupied slot"),
                )
            };
            proof {
                assert(keep.push(wanted).drop_last() =~= keep);
                if wanted {
                    assert(self@ =~= kept.push(all[n]) + all.skip(n + 1));
                }
            }
            if !wanted {
                self.remove_at(cur, Ghost(p));
                assert(self@ =~= kept + all.skip(n + 1));
            }
            proof {
                keep = keep.push(wanted);
            }
            cur = next;
        }
        proof {
            assert(keep.len() == all.len());
            assert(all.take(all.len() as int) =~= all);
            assert(self@ =~= model::retained(all, keep));
        }
    }

    /// Empties the queue and hands out its elements, owned, from the head.
    /// What is not consumed is dropped with the iterator. The queue stays
    /// allocated for reuse. The iterator asks for room for the elements there
    /// are, whatever was removed before.
    pub fn drain(&mut self) -> (pairs: Drain<'_, K, V>)
        requires
            vstd::std_specs::hash::obeys_key_model::<K>(),
            old(self).wf(),
        ensures
            pairs.rest() == old(self)@,
            final(self).wf(),
            final(self)@ == Seq::<(K, V)>::empty(),
            final(self).slot_count() == 0,
            old(self).room_kept(*final(self)),
            pairs.asked_for(old(self)@.len()),
    {
        let mut cells: Vec<Option<(K, V)>> = vec_with_capacity(self.len);
        let ghost made = cells;
        assert(self.len == self@.len() as usize);
        while self.len > 0
            invariant
                vstd::std_specs::hash::obeys_key_model::<K>(),
                self.wf(),
                self@ == old(self)@.skip(cells@.len() as int),
                cells@.len() + self@.len() == old(self)@.len(),
                forall|i: int|
                    0 <= i < cells@.len() ==> #[trigger] cells@[i] == Some(old(self)@[i]),
                old(self).room_kept(*self),
                super::room::settled(&cells),
                super::room::same_room(&made, &cells),
                forall|c: usize| #[trigger]
                    super::room::reported(&made, c) ==> c >= old(self)@.len(),
            decreases self@.len(),
        {
            if let Some(pair) = self.pop_front() {
                vec_push(&mut cells, Some(pair));
            }
        }
        assert(super::room::asked_for(&cells, old(self)@.len()));
        self.clear();
        Drain::of(Row::of(cells, Ghost(old(self)@)))
    }

    /// Gives up the cells of the arena that are not in use. The elements and
    /// their order stay as they are.
    pub fn shrink_to_fit(&mut self)
        requires
            model::lawful_key::<K>(),
            old(self).wf(),
        ensures
            final(self).wf(),
            final(self)@ == old(self)@,
            final(self).slot_count() == final(self)@.len(),
            final(self).fits(old(self)@.len()),
    {
        let mut fresh = Self::with_capacity(self.len);
        let ghost made = fresh;
        proof {
            self.lemma_keys_distinct();
        }
        while self.len > 0
            invariant
                model::lawful_key::<K>(),
                self.wf(),
                fresh.wf(),
                model::keys_distinct(old(self)@),
                fresh@ + self@ == old(self)@,
                fresh.slot_count() == fresh@.len(),
                call_ensures(Self::with_capacity, (old(self)@.len() as usize,), made),
                made.room_kept(fresh),
                forall|c: usize| #[trigger] made.reports(c) ==> c >= old(self)@.len(),
            decreases self@.len(),
        {
            let ghost moved = fresh@;
            let ghost left = self@;
            if let Some((key, value)) = self.pop_front() {
                proof {
                    assert(old(self)@[moved.len() as int] == (key, value));
                    assert forall|i: int| 0 <= i < moved.len() implies (#[trigger] moved[i]).0
                        != key by {
                        assert(old(self)@[i] == moved[i]);
                    }
                    assert(!model::has_key(moved, key));
                }
                fresh.push_back(key, value);
            }
        }
        assert(fresh@ =~= old(self)@);
        *self = fresh;
    }

    /// Asked how many pairs it has left, `items` may answer `bounds`.
    pub closed spec fn announced<I: Iterator<Item = (K, V)>>(
        items: I,
        bounds: (usize, Option<usize>),
    ) -> bool {
        call_ensures(hint_of::<I>, (&items,), bounds)
    }

    /// Pushes each pair that `items` yields at the tail, as
    /// [`push_back`](Self::push_back) does: a key that comes again has its
    /// value replaced and ends up at the back. Room is made first for as many
    /// pairs as `items` says that it has left at the least.
    pub fn extend<I: Iterator<Item = (K, V)>>(&mut self, items: I)
        requires
            model::lawful_key::<K>(),
            old(self).wf(),
            items.obeys_prophetic_iter_laws(),
            items.decrease() is Some,
        ensures
            final(self).wf(),
            final(self)@ == model::extended(old(self)@, items.remaining()),
            final(self).slot_count() == model::grown(old(self).slot_count(), final(self)@.len()),
            old(self).room_not_less(*final(self)),
            exists|bounds: (usize, Option<usize>), r: &mut Self|
                {
                    &&& #[trigger] Self::announced(items, bounds)
                    &&& *r == *old(self)
                    &&& #[trigger] call_ensures(Self::reserve, (r, bounds.0), ())
                    &&& (*final(r)).room_filled(*final(self))
                },
    {
        let mut iter = items;
        let bounds = hint_of(&iter);
        assert(Self::announced(items, bounds));
        self.reserve(bounds.0);
        let ghost mid = *self;
        let ghost target = model::extended(self@, iter.remaining());
        loop
            invariant
                model::lawful_key::<K>(),
                self.wf(),
                iter.obeys_prophetic_iter_laws(),
                iter.decrease() is Some,
                model::extended(self@, iter.remaining()) == target,
                self.slot_count() == model::grown(old(self).slot_count(), self@.len()),
                old(self).room_not_less(*self),
                mid.room_filled(*self),
                mid.slot_count() <= self.slot_count(),
            ensures
                self@ == target,
            decreases iter.decrease()->0,
        {
            match iter.next() {
                Some((key, value)) => {
                    self.push_back(key, value);
                },
                None => {
                    break;
                },
            }
        }
    }

    /// Builds a queue from the pairs that `items` yields, in this order, as
    /// [`extend`](Self::extend) does: of the pairs with one key the last wins.
    pub fn from_iter<I: Iterator<Item = (K, V)>>(items: I) -> (queue: Self)
        requires
            model::lawful_key::<K>(),
            items.obeys_prophetic_iter_laws(),
            items.decrease() is Some,
        ensures
            queue.wf(),
            queue@ == model::extended(Seq::empty(), items.remaining()),
            queue.slot_count() == queue@.len(),
            exists|bounds: (usize, Option<usize>), r: &mut Self|
                {
                    &&& #[trigger] Self::announced(items, bounds)
                    &&& (*r).asked_for_nothing()
                    &&& (*r).wf()
                    &&& (*r).slot_count() == 0
                    &&& #[trigger] call_ensures(Self::reserve, (r, bounds.0), ())
                    &&& (*final(r)).room_filled(queue)
                },
    {
        let mut queue: Self = LinkedQueue::new();
        queue.extend(items);
        queue
    }
}

} // verus!
