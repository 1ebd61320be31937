//! The steps that the operations are made of: taking a cell, linking it,
//! unlinking it, giving it back.
use std::hash::Hash;
use vstd::prelude::*;

use super::room::{vec_at_mut, vec_push};
use super::{LinkedQueue, Slot, NIL};

verus! {

impl<K, V> LinkedQueue<K, V> {
    /// Takes a cell for a new pair, a freed one where there is one. The nodes
    /// `o` of the list stay linked as they are; the new cell is not among them.
    pub(super) fn alloc_slot(&mut self, key: K, value: V, Ghost(o): Ghost<Seq<usize>>) -> (idx: usize)
        requires
            old(self).wf_at(o),
        ensures
            idx < final(self).slots@.len(),
            !o.contains(idx),
            super::linked(final(self).slots@, final(self).head, final(self).tail, o),
            final(self).slots@[idx as int].key == Some(key),
            final(self).slots@[idx as int].value == Some(value),
            forall|i: int|
                0 <= i < old(self).slots@.len() && i != idx ==> #[trigger] final(self).slots@[i]
                    == old(self).slots@[i],
            super::vacant(final(self).slots@, final(self).free@),
            o.len() + 1 + final(self).free@.len() == final(self).slots@.len(),
            final(self).slots@.len() == if old(self).slots@.len() > o.len() {
                old(self).slots@.len()
            } else {
                o.len() + 1
            },
            super::room::settled(&final(self).slots),
            forall|b: usize, c: usize| #[trigger]
                super::room::reported(&old(self).slots, b) && #[trigger] super::room::reported(
                    &final(self).slots,
                    c,
                ) ==> {
                    &&& c >= b
                    &&& o.len() < b || final(self).slots@.len() == old(self).slots@.len() ==> c
                        == b
                },
            final(self).head == old(self).head,
            final(self).tail == old(self).tail,
            final(self).index == old(self).index,
            final(self).len == old(self).len,
    {
        let ghost before = self.slots@;
        let ghost spare = self.free@;
        if let Some(idx) = self.free.pop() {
            assert(spare[spare.len() - 1] == idx);
            let slot = vec_at_mut(&mut self.slots, idx);
            slot.key = Some(key);
            slot.value = Some(value);
            slot.prev = NIL;
            slot.next = NIL;
            proof {
                assert forall|i: int| 0 <= i < o.len() implies #[trigger] o[i] != idx by {
                    assert(before[o[i] as int].key is Some);
                }
                assert forall|i: int| 0 <= i < o.len() implies #[trigger] super::node_linked(
                    self.slots@,
                    o,
                    i,
                ) by {
                    assert(super::node_linked(before, o, i));
                    assert(o[i] != idx);
                }
                assert forall|i: int| 0 <= i < self.free@.len() implies {
                    &&& #[trigger] self.free@[i] < self.slots@.len()
                    &&& self.slots@[self.free@[i] as int].key is None
                    &&& self.slots@[self.free@[i] as int].value is None
                } by {
                    assert(self.free@[i] == spare[i]);
                    assert(spare[i] != spare[spare.len() - 1]);
                }
            }
            idx
        } else {
            let idx = self.slots.len();
            vec_push(
                &mut self.slots,
                Slot { key: Some(key), value: Some(value), prev: NIL, next: NIL },
            );
            proof {
                assert forall|i: int| 0 <= i < o.len() implies #[trigger] super::node_linked(
                    self.slots@,
                    o,
                    i,
                ) by {
                    assert(super::node_linked(before, o, i));
                    assert(o[i] < before.len());
                }
            }
            idx
        }
    }

    /// Detaches the node at place `p` of the nodes `o` from the list. Its own
    /// links are left dangling, to be set when it is linked again or recycled.
    pub(super) fn unlink(&mut self, idx: usize, Ghost(o): Ghost<Seq<usize>>, Ghost(p): Ghost<int>)
        requires
            super::linked(old(self).slots@, old(self).head, old(self).tail, o),
            super::room::settled(&old(self).slots),
            0 <= p < o.len(),
            o[p] == idx,
        ensures
            super::linked(final(self).slots@, final(self).head, final(self).tail, o.remove(p)),
            !o.remove(p).contains(idx),
            super::same_pairs(old(self).slots@, final(self).slots@),
            super::room::settled(&final(self).slots),
            super::room::same_room(&old(self).slots, &final(self).slots),
            final(self).free == old(self).free,
            final(self).index == old(self).index,
            final(self).len == old(self).len,
    {
        let ghost before = self.slots@;
        assert(self.slots.len() <= usize::MAX);
        assert(super::node_linked(before, o, p));
        let prev = self.slots[idx].prev;
        let next = self.slots[idx].next;
        if prev == NIL {
            self.head = next;
        } else {
            vec_at_mut(&mut self.slots, prev).next = next;
        }
        if next == NIL {
            self.tail = prev;
        } else {
            vec_at_mut(&mut self.slots, next).prev = prev;
        }
        proof {
            assert(p > 0 ==> o[p - 1] != o[p]);
            assert(p + 1 < o.len() ==> o[p + 1] != o[p]);
            assert(0 < p && p + 1 < o.len() ==> o[p - 1] != o[p + 1]);
            assert(super::unspliced(before, self.slots@, o, p));
            super::lemma_unspliced(before, old(self).head, old(self).tail, o, self.slots@, p);
        }
    }

    /// Links a detached cell behind the nodes `o`.
    pub(super) fn link_back(&mut self, idx: usize, Ghost(o): Ghost<Seq<usize>>)
        requires
            super::linked(old(self).slots@, old(self).head, old(self).tail, o),
            idx < old(self).slots@.len(),
            !o.contains(idx),
        ensures
            super::linked(final(self).slots@, final(self).head, final(self).tail, o.push(idx)),
            super::same_pairs(old(self).slots@, final(self).slots@),
            super::room::settled(&final(self).slots),
            super::room::same_room(&old(self).slots, &final(self).slots),
            final(self).free == old(self).free,
            final(self).index == old(self).index,
            final(self).len == old(self).len,
    {
        let ghost before = self.slots@;
        assert(self.slots.len() <= usize::MAX);
        vec_at_mut(&mut self.slots, idx).next = NIL;
        if self.tail == NIL {
            vec_at_mut(&mut self.slots, idx).prev = NIL;
            self.head = idx;
        } else {
            let t = self.tail;
            vec_at_mut(&mut self.slots, t).next = idx;
            vec_at_mut(&mut self.slots, idx).prev = t;
        }
        self.tail = idx;
        proof {
            if o.len() > 0 {
                assert(o[o.len() - 1] != idx);
            }
            assert(super::spliced(before, self.slots@, o, o.len() as int, idx));
            super::lemma_spliced(
                before,
                old(self).head,
                old(self).tail,
                o,
                self.slots@,
                o.len() as int,
                idx,
            );
            assert(o.insert(o.len() as int, idx) =~= o.push(idx));
        }
    }

    /// Takes the node at place `p` out of the queue and recycles its cell.
    pub(super) fn remove_at(&mut self, idx: usize, Ghost(p): Ghost<int>) -> (pair: (K, V)) where
        K: Eq + Hash,

        requires
            vstd::std_specs::hash::obeys_key_model::<K>(),
            old(self).wf(),
            0 <= p < old(self).order().len(),
            old(self).order()[p] == idx,
        ensures
            final(self).wf(),
            pair == old(self)@[p],
            final(self).order() == old(self).order().remove(p),
            final(self)@ == old(self)@.remove(p),
            final(self).slots@.len() == old(self).slots@.len(),
            super::room::same_room(&old(self).slots, &final(self).slots),
    {
        let ghost o = self.order();
        let ghost before = *self;
        proof {
            self.lemma_settled();
        }
        self.unlink(idx, Ghost(o), Ghost(p));
        let ghost mid = self.slots@;
        let slot = vec_at_mut(&mut self.slots, idx);
        let key = slot.key.take().expect("occupied slot has a key");
        let value = slot.value.take().expect("occupied slot has a value");
        slot.prev = NIL;
        slot.next = NIL;
        self.index.remove(&key);
        self.free.push(idx);
        self.len = self.len - 1;
        proof {
            Self::lemma_removed(before, mid, *self, o, p);
        }
        (key, value)
    }

    /// Links a detached cell in front of the nodes `o`.
    pub(super) fn link_front(&mut self, idx: usize, Ghost(o): Ghost<Seq<usize>>)
        requires
            super::linked(old(self).slots@, old(self).head, old(self).tail, o),
            idx < old(self).slots@.len(),
            !o.contains(idx),
        ensures
            super::linked(final(self).slots@, final(self).head, final(self).tail, o.insert(0, idx)),
            super::same_pairs(old(self).slots@, final(self).slots@),
            super::room::settled(&final(self).slots),
            super::room::same_room(&old(self).slots, &final(self).slots),
            final(self).free == old(self).free,
            final(self).index == old(self).index,
            final(self).len == old(self).len,
    {
        let ghost before = self.slots@;
        assert(self.slots.len() <= usize::MAX);
        vec_at_mut(&mut self.slots, idx).prev = NIL;
        if self.head == NIL {
            vec_at_mut(&mut self.slots, idx).next = NIL;
            self.tail = idx;
        } else {
            let h = self.head;
            vec_at_mut(&mut self.slots, h).prev = idx;
            vec_at_mut(&mut self.slots, idx).next = h;
        }
        self.head = idx;
        proof {
            if o.len() > 0 {
                assert(o[0] != idx);
            }
            assert(super::spliced(before, self.slots@, o, 0, idx));
            super::lemma_spliced(before, old(self).head, old(self).tail, o, self.slots@, 0, idx);
        }
    }
}

} // verus!
