//! Iteration over a queue.
use std::hash::Hash;
use std::marker::PhantomData;
use vstd::prelude::*;
use vstd::std_specs::iter::{DoubleEndedIteratorSpecImpl, IteratorSpecImpl};

use super::room::vec_at_mut;
use super::LinkedQueue;
use crate::model;

verus! {

/// Borrowing iterator over `(&K, &V)`, head to tail. Created by
/// [`LinkedQueue::iter`].
pub struct Iter<'a, K, V> {
    queue: &'a LinkedQueue<K, V>,
    front: usize,
    back: usize,
    remaining: usize,
    start: Ghost<int>,
}

impl<'a, K, V> Iter<'a, K, V> {
    /// What is left to visit is a stretch of the queue's list, from the node
    /// `front` to the node `back`.
    #[verifier::type_invariant]
    spec fn inv(self) -> bool {
        let o = self.queue.order();
        &&& self.queue.wf()
        &&& 0 <= self.start@
        &&& self.start@ + self.remaining <= o.len()
        &&& self.remaining > 0 ==> {
            &&& self.front == o[self.start@]
            &&& self.back == o[self.start@ + self.remaining - 1]
        }
    }

    /// The pairs that are left to visit, front first.
    pub closed spec fn rest(self) -> Seq<(K, V)> {
        self.queue@.subrange(self.start@, self.start@ + self.remaining)
    }

    /// An iterator over the whole of `queue`.
    pub(super) fn over(queue: &'a LinkedQueue<K, V>) -> (pairs: Self)
        requires
            queue.wf(),
        ensures
            pairs.rest() == queue@,
    {
        let pairs = Iter {
            queue,
            front: queue.head,
            back: queue.tail,
            remaining: queue.len,
            start: Ghost(0),
        };
        assert(pairs.rest() =~= queue@);
        pairs
    }

    /// How many pairs are left to visit.
    pub fn len(&self) -> (n: usize)
        ensures
            n == self.rest().len(),
    {
        proof {
            use_type_invariant(self);
        }
        self.remaining
    }
}

impl<'a, K, V> Iterator for Iter<'a, K, V> {
    type Item = (&'a K, &'a V);

    /// Visits the front pair of what is left.
    fn next(&mut self) -> (pair: Option<Self::Item>)
        ensures
            if old(self).rest().len() == 0 {
                pair is None && final(self).rest() == old(self).rest()
            } else {
                &&& pair == Some((&old(self).rest().first().0, &old(self).rest().first().1))
                &&& final(self).rest() == old(self).rest().drop_first()
            },
    {
        proof {
            use_type_invariant(&*self);
        }
        if self.remaining == 0 {
            return None;
        }
        assert(super::node_linked(self.queue.slots@, self.queue.order(), self.start@));
        let slot = &self.queue.slots[self.front];
        *self =
        Iter {
            queue: self.queue,
            front: slot.next,
            back: self.back,
            remaining: self.remaining - 1,
            start: Ghost(self.start@ + 1),
        };
        assert(self.rest() =~= old(self).rest().drop_first());
        assert(model::by_ref(self.rest()) =~= model::by_ref(old(self).rest()).drop_first());
        Some(
            (
                slot.key.as_ref().expect("occupied slot"),
                slot.value.as_ref().expect("occupied slot"),
            ),
        )
    }

    /// The number of pairs left, exactly.
    fn size_hint(&self) -> (bounds: (usize, Option<usize>))
        ensures
            bounds.0 == self.rest().len(),
            bounds.1 == Some(bounds.0),
    {
        (self.len(), Some(self.len()))
    }
}

impl<'a, K, V> IteratorSpecImpl for Iter<'a, K, V> {
    open spec fn obeys_prophetic_iter_laws(&self) -> bool {
        true
    }

    open spec fn remaining(&self) -> Seq<Self::Item> {
        model::by_ref(self.rest())
    }

    open spec fn will_return_none(&self) -> bool {
        true
    }

    open spec fn decrease(&self) -> Option<nat> {
        Some(self.rest().len())
    }

    open spec fn initial_value_relation(&self, init: &Self) -> bool {
        self.rest() == init.rest()
    }

    open spec fn peek(&self, index: int) -> Option<Self::Item> {
        if 0 <= index < self.rest().len() {
            Some(model::by_ref(self.rest())[index])
        } else {
            None
        }
    }
}

impl<'a, K, V> DoubleEndedIterator for Iter<'a, K, V> {
    /// Visits the back pair of what is left.
    fn next_back(&mut self) -> (pair: Option<Self::Item>)
        ensures
            if old(self).rest().len() == 0 {
                pair is None && final(self).rest() == old(self).rest()
            } else {
                &&& pair == Some((&old(self).rest().last().0, &old(self).rest().last().1))
                &&& final(self).rest() == old(self).rest().drop_last()
            },
    {
        proof {
            use_type_invariant(&*self);
        }
        if self.remaining == 0 {
            return None;
        }
        let ghost p = self.start@ + self.remaining - 1;
        assert(super::node_linked(self.queue.slots@, self.queue.order(), p));
        let slot = &self.queue.slots[self.back];
        *self =
        Iter {
            queue: self.queue,
            front: self.front,
            back: slot.prev,
            remaining: self.remaining - 1,
            start: self.start,
        };
        assert(self.rest() =~= old(self).rest().drop_last());
        assert(model::by_ref(self.rest()) =~= model::by_ref(old(self).rest()).drop_last());
        Some(
            (
                slot.key.as_ref().expect("occupied slot"),
                slot.value.as_ref().expect("occupied slot"),
            ),
        )
    }
}

impl<'a, K, V> DoubleEndedIteratorSpecImpl for Iter<'a, K, V> {
    open spec fn peek_back(&self, index: int) -> Option<Self::Item> {
        let n = self.rest().len();
        if 0 <= index < n {
            Some(model::by_ref(self.rest())[n - index - 1])
        } else {
            None
        }
    }
}

impl<'a, K, V> ExactSizeIterator for Iter<'a, K, V> {

}

impl<'a, K, V> std::iter::FusedIterator for Iter<'a, K, V> {

}

/// Iterator over the keys of a queue, head to tail. Created by
/// [`LinkedQueue::keys`].
pub struct Keys<'a, K, V> {
    pairs: Iter<'a, K, V>,
}

impl<'a, K, V> Keys<'a, K, V> {
    /// The pairs whose keys are left to visit, front first.
    pub closed spec fn rest(self) -> Seq<(K, V)> {
        self.pairs.rest()
    }

    /// The keys of what `pairs` has left to visit.
    pub(super) fn of(pairs: Iter<'a, K, V>) -> (keys: Self)
        ensures
            keys.rest() == pairs.rest(),
    {
        Keys { pairs }
    }
}

impl<'a, K, V> Iterator for Keys<'a, K, V> {
    type Item = &'a K;

    /// Visits the front key of what is left.
    fn next(&mut self) -> (key: Option<Self::Item>)
        ensures
            if old(self).rest().len() == 0 {
                key is None && final(self).rest() == old(self).rest()
            } else {
                &&& key == Some(&old(self).rest().first().0)
                &&& final(self).rest() == old(self).rest().drop_first()
            },
    {
        match self.pairs.next() {
            Some(pair) => {
                assert(model::keys_by_ref(self.rest()) =~= model::keys_by_ref(
                    old(self).rest(),
                ).drop_first());
                Some(pair.0)
            },
            None => None,
        }
    }

    /// The number of keys left, exactly.
    fn size_hint(&self) -> (bounds: (usize, Option<usize>))
        ensures
            bounds.0 == self.rest().len(),
            bounds.1 == Some(bounds.0),
    {
        self.pairs.size_hint()
    }
}

impl<'a, K, V> IteratorSpecImpl for Keys<'a, K, V> {
    open spec fn obeys_prophetic_iter_laws(&self) -> bool {
        true
    }

    open spec fn remaining(&self) -> Seq<Self::Item> {
        model::keys_by_ref(self.rest())
    }

    open spec fn will_return_none(&self) -> bool {
        true
    }

    open spec fn decrease(&self) -> Option<nat> {
        Some(self.rest().len())
    }

    open spec fn initial_value_relation(&self, init: &Self) -> bool {
        self.rest() == init.rest()
    }

    open spec fn peek(&self, index: int) -> Option<Self::Item> {
        if 0 <= index < self.rest().len() {
            Some(model::keys_by_ref(self.rest())[index])
        } else {
            None
        }
    }
}

impl<'a, K, V> DoubleEndedIterator for Keys<'a, K, V> {
    /// Visits the back key of what is left.
    fn next_back(&mut self) -> (key: Option<Self::Item>)
        ensures
            if old(self).rest().len() == 0 {
                key is None && final(self).rest() == old(self).rest()
            } else {
                &&& key == Some(&old(self).rest().last().0)
                &&& final(self).rest() == old(self).rest().drop_last()
            },
    {
        match self.pairs.next_back() {
            Some(pair) => {
                assert(model::keys_by_ref(self.rest()) =~= model::keys_by_ref(
                    old(self).rest(),
                ).drop_last());
                Some(pair.0)
            },
            None => None,
        }
    }
}

impl<'a, K, V> DoubleEndedIteratorSpecImpl for Keys<'a, K, V> {
    open spec fn peek_back(&self, index: int) -> Option<Self::Item> {
        let n = self.rest().len();
        if 0 <= index < n {
            Some(model::keys_by_ref(self.rest())[n - index - 1])
        } else {
            None
        }
    }
}

/// Iterator over the values of a queue, head to tail. Created by
/// [`LinkedQueue::values`].
pub struct Values<'a, K, V> {
    pairs: Iter<'a, K, V>,
}

impl<'a, K, V> Values<'a, K, V> {
    /// The pairs whose values are left to visit, front first.
    pub closed spec fn rest(self) -> Seq<(K, V)> {
        self.pairs.rest()
    }

    /// The values of what `pairs` has left to visit.
    pub(super) fn of(pairs: Iter<'a, K, V>) -> (values: Self)
        ensures
            values.rest() == pairs.rest(),
    {
        Values { pairs }
    }
}

impl<'a, K, V> Iterator for Values<'a, K, V> {
    type Item = &'a V;

    /// Visits the front value of what is left.
    fn next(&mut self) -> (value: Option<Self::Item>)
        ensures
            if old(self).rest().len() == 0 {
                value is None && final(self).rest() == old(self).rest()
            } else {
                &&& value == Some(&old(self).rest().first().1)
                &&& final(self).rest() == old(self).rest().drop_first()
            },
    {
        match self.pairs.next() {
            Some(pair) => {
                assert(model::values_by_ref(self.rest()) =~= model::values_by_ref(
                    old(self).rest(),
                ).drop_first());
                Some(pair.1)
            },
            None => None,
        }
    }

    /// The number of values left, exactly.
    fn size_hint(&self) -> (bounds: (usize, Option<usize>))
        ensures
            bounds.0 == self.rest().len(),
            bounds.1 == Some(bounds.0),
    {
        self.pairs.size_hint()
    }
}

impl<'a, K, V> IteratorSpecImpl for Values<'a, K, V> {
    open spec fn obeys_prophetic_iter_laws(&self) -> bool {
        true
    }

    open spec fn remaining(&self) -> Seq<Self::Item> {
        model::values_by_ref(self.rest())
    }

    open spec fn will_return_none(&self) -> bool {
        true
    }

    open spec fn decrease(&self) -> Option<nat> {
        Some(self.rest().len())
    }

    open spec fn initial_value_relation(&self, init: &Self) -> bool {
        self.rest() == init.rest()
    }

    open spec fn peek(&self, index: int) -> Option<Self::Item> {
        if 0 <= index < self.rest().len() {
            Some(model::values_by_ref(self.rest())[index])
        } else {
            None
        }
    }
}

impl<'a, K, V> DoubleEndedIterator for Values<'a, K, V> {
    /// Visits the back value of what is left.
    fn next_back(&mut self) -> (value: Option<Self::Item>)
        ensures
            if old(self).rest().len() == 0 {
                value is None && final(self).rest() == old(self).rest()
            } else {
                &&& value == Some(&old(self).rest().last().1)
                &&& final(self).rest() == old(self).rest().drop_last()
            },
    {
        match self.pairs.next_back() {
            Some(pair) => {
                assert(model::values_by_ref(self.rest()) =~= model::values_by_ref(
                    old(self).rest(),
                ).drop_last());
                Some(pair.1)
            },
            None => None,
        }
    }
}

impl<'a, K, V> DoubleEndedIteratorSpecImpl for Values<'a, K, V> {
    open spec fn peek_back(&self, index: int) -> Option<Self::Item> {
        let n = self.rest().len();
        if 0 <= index < n {
            Some(model::values_by_ref(self.rest())[n - index - 1])
        } else {
            None
        }
    }
}

/// Pairs in a row, to be taken out at either end.
pub(super) struct Row<K, V> {
    cells: Vec<Option<(K, V)>>,
    front: usize,
    back: usize,
}

impl<K, V> Row<K, V> {
    /// The cells from `front` to `back` hold the pairs that are left.
    #[verifier::type_invariant]
    spec fn inv(self) -> bool {
        &&& self.front <= self.back <= self.cells@.len()
        &&& forall|i: int| self.front <= i < self.back ==> #[trigger] self.cells@[i] is Some
    }

    /// The pairs that are left, front first.
    pub(super) closed spec fn rest(self) -> Seq<(K, V)> {
        Seq::new((self.back - self.front) as nat, |i: int| self.cells@[self.front + i]->0)
    }

    /// The row has the capacity of one made for `n` pairs.
    pub(super) closed spec fn asked_for(self, n: nat) -> bool {
        super::room::asked_for(&self.cells, n)
    }

    /// A row of the pairs in `cells`.
    pub(super) fn of(cells: Vec<Option<(K, V)>>, Ghost(s): Ghost<Seq<(K, V)>>) -> (row: Self)
        requires
            cells@.len() == s.len(),
            forall|i: int| 0 <= i < s.len() ==> #[trigger] cells@[i] == Some(s[i]),
        ensures
            row.rest() == s,
            forall|n: nat| super::room::asked_for(&cells, n) ==> #[trigger] row.asked_for(n),
    {
        let back = cells.len();
        let row = Row { cells, front: 0, back };
        assert(row.rest() =~= s);
        row
    }

    /// How many pairs are left.
    fn len(&self) -> (n: usize)
        ensures
            n == self.rest().len(),
    {
        proof {
            use_type_invariant(self);
        }
        self.back - self.front
    }

    /// Takes out the front pair of what is left.
    fn take_front(&mut self) -> (pair: Option<(K, V)>)
        ensures
            if old(self).rest().len() == 0 {
                pair is None && final(self).rest() == old(self).rest()
            } else {
                &&& pair == Some(old(self).rest().first())
                &&& final(self).rest() == old(self).rest().drop_first()
            },
    {
        proof {
            use_type_invariant(&*self);
        }
        if self.front == self.back {
            return None;
        }
        let mut whole = Row { cells: Vec::new(), front: 0, back: 0 };
        std::mem::swap(self, &mut whole);
        let Row { mut cells, front, back } = whole;
        let pair = vec_at_mut(&mut cells, front).take();
        *self = Row { cells, front: front + 1, back };
        assert(self.rest() =~= old(self).rest().drop_first());
        pair
    }

    /// Takes out the back pair of what is left.
    fn take_back(&mut self) -> (pair: Option<(K, V)>)
        ensures
            if old(self).rest().len() == 0 {
                pair is None && final(self).rest() == old(self).rest()
            } else {
                &&& pair == Some(old(self).rest().last())
                &&& final(self).rest() == old(self).rest().drop_last()
            },
    {
        proof {
            use_type_invariant(&*self);
        }
        if self.front == self.back {
            return None;
        }
        let mut whole = Row { cells: Vec::new(), front: 0, back: 0 };
        std::mem::swap(self, &mut whole);
        let Row { mut cells, front, back } = whole;
        let pair = vec_at_mut(&mut cells, back - 1).take();
        *self = Row { cells, front, back: back - 1 };
        assert(self.rest() =~= old(self).rest().drop_last());
        pair
    }
}

/// Owning iterator over `(K, V)`, head to tail. Created by
/// [`IntoIterator::into_iter`] on a [`LinkedQueue`].
pub struct IntoIter<K, V> {
    pairs: Row<K, V>,
}

impl<K, V> IntoIter<K, V> {
    /// The pairs that are left, front first.
    pub closed spec fn rest(self) -> Seq<(K, V)> {
        self.pairs.rest()
    }

    /// The iterator has the room of a vector made for `n` pairs.
    pub closed spec fn asked_for(self, n: nat) -> bool {
        self.pairs.asked_for(n)
    }

    /// An iterator that yields `pairs`.
    pub(super) fn of(pairs: Row<K, V>) -> (iter: Self)
        ensures
            iter.rest() == pairs.rest(),
            forall|n: nat| #[trigger] iter.asked_for(n) == pairs.asked_for(n),
    {
        IntoIter { pairs }
    }

    /// How many pairs are left.
    pub fn len(&self) -> (n: usize)
        ensures
            n == self.rest().len(),
    {
        self.pairs.len()
    }
}

impl<K, V> Iterator for IntoIter<K, V> {
    type Item = (K, V);

    /// Hands out the front pair of what is left.
    fn next(&mut self) -> (pair: Option<Self::Item>)
        ensures
            if old(self).rest().len() == 0 {
                pair is None && final(self).rest() == old(self).rest()
            } else {
                &&& pair == Some(old(self).rest().first())
                &&& final(self).rest() == old(self).rest().drop_first()
            },
    {
        self.pairs.take_front()
    }

    /// The number of pairs left, exactly.
    fn size_hint(&self) -> (bounds: (usize, Option<usize>))
        ensures
            bounds.0 == self.rest().len(),
            bounds.1 == Some(bounds.0),
    {
        (self.pairs.len(), Some(self.pairs.len()))
    }
}

impl<K, V> IteratorSpecImpl for IntoIter<K, V> {
    open spec fn obeys_prophetic_iter_laws(&self) -> bool {
        true
    }

    open spec fn remaining(&self) -> Seq<Self::Item> {
        self.rest()
    }

    open spec fn will_return_none(&self) -> bool {
        true
    }

    open spec fn decrease(&self) -> Option<nat> {
        Some(self.rest().len())
    }

    open spec fn initial_value_relation(&self, init: &Self) -> bool {
        self.rest() == init.rest()
    }

    open spec fn peek(&self, index: int) -> Option<Self::Item> {
        if 0 <= index < self.rest().len() {
            Some(self.rest()[index])
        } else {
            None
        }
    }
}

impl<K, V> DoubleEndedIterator for IntoIter<K, V> {
    /// Hands out the back pair of what is left.
    fn next_back(&mut self) -> (pair: Option<Self::Item>)
        ensures
            if old(self).rest().len() == 0 {
                pair is None && final(self).rest() == old(self).rest()
            } else {
                &&& pair == Some(old(self).rest().last())
                &&& final(self).rest() == old(self).rest().drop_last()
            },
    {
        self.pairs.take_back()
    }
}

impl<K, V> DoubleEndedIteratorSpecImpl for IntoIter<K, V> {
    open spec fn peek_back(&self, index: int) -> Option<Self::Item> {
        let n = self.rest().len();
        if 0 <= index < n {
            Some(self.rest()[n - index - 1])
        } else {
            None
        }
    }
}

impl<K, V> ExactSizeIterator for IntoIter<K, V> {

}

impl<K, V> std::iter::FusedIterator for IntoIter<K, V> {

}

/// Draining iterator over `(K, V)`, head to tail. Created by
/// [`LinkedQueue::drain`], which has emptied the queue by then; what is not
/// taken from the iterator is dropped with it.
pub struct Drain<'a, K, V> where K: Eq + Hash + Clone {
    pairs: Row<K, V>,
    queue: PhantomData<&'a mut LinkedQueue<K, V>>,
}

impl<'a, K: Eq + Hash + Clone, V> Drain<'a, K, V> {
    /// The pairs that are left, front first.
    pub closed spec fn rest(self) -> Seq<(K, V)> {
        self.pairs.rest()
    }

    /// The iterator has the room of a vector made for `n` pairs.
    pub closed spec fn asked_for(self, n: nat) -> bool {
        self.pairs.asked_for(n)
    }

    /// An iterator that yields `pairs`.
    pub(super) fn of(pairs: Row<K, V>) -> (iter: Self)
        ensures
            iter.rest() == pairs.rest(),
            forall|n: nat| #[trigger] iter.asked_for(n) == pairs.asked_for(n),
    {
        Drain { pairs, queue: PhantomData }
    }

    /// How many pairs are left.
    pub fn len(&self) -> (n: usize)
        ensures
            n == self.rest().len(),
    {
        self.pairs.len()
    }
}

impl<'a, K: Eq + Hash + Clone, V> Iterator for Drain<'a, K, V> {
    type Item = (K, V);

    /// Hands out the front pair of what is left.
    fn next(&mut self) -> (pair: Option<Self::Item>)
        ensures
            if old(self).rest().len() == 0 {
                pair is None && final(self).rest() == old(self).rest()
            } else {
                &&& pair == Some(old(self).rest().first())
                &&& final(self).rest() == old(self).rest().drop_first()
            },
    {
        self.pairs.take_front()
    }

    /// The number of pairs left, exactly.
    fn size_hint(&self) -> (bounds: (usize, Option<usize>))
        ensures
            bounds.0 == self.rest().len(),
            bounds.1 == Some(bounds.0),
    {
        (self.pairs.len(), Some(self.pairs.len()))
    }
}

impl<'a, K: Eq + Hash + Clone, V> IteratorSpecImpl for Drain<'a, K, V> {
    open spec fn obeys_prophetic_iter_laws(&self) -> bool {
        true
    }

    open spec fn remaining(&self) -> Seq<Self::Item> {
        self.rest()
    }

    open spec fn will_return_none(&self) -> bool {
        true
    }

    open spec fn decrease(&self) -> Option<nat> {
        Some(self.rest().len())
    }

    open spec fn initial_value_relation(&self, init: &Self) -> bool {
        self.rest() == init.rest()
    }

    open spec fn peek(&self, index: int) -> Option<Self::Item> {
        if 0 <= index < self.rest().len() {
            Some(self.rest()[index])
        } else {
            None
        }
    }
}

impl<'a, K: Eq + Hash + Clone, V> DoubleEndedIterator for Drain<'a, K, V> {
    /// Hands out the back pair of what is left.
    fn next_back(&mut self) -> (pair: Option<Self::Item>)
        ensures
            if old(self).rest().len() == 0 {
                pair is None && final(self).rest() == old(self).rest()
            } else {
                &&& pair == Some(old(self).rest().last())
                &&& final(self).rest() == old(self).rest().drop_last()
            },
    {
        self.pairs.take_back()
    }
}

impl<'a, K: Eq + Hash + Clone, V> DoubleEndedIteratorSpecImpl for Drain<'a, K, V> {
    open spec fn peek_back(&self, index: int) -> Option<Self::Item> {
        let n = self.rest().len();
        if 0 <= index < n {
            Some(self.rest()[n - index - 1])
        } else {
            None
        }
    }
}

impl<'a, K: Eq + Hash + Clone, V> ExactSizeIterator for Drain<'a, K, V> {

}

impl<'a, K: Eq + Hash + Clone, V> std::iter::FusedIterator for Drain<'a, K, V> {

}

} // verus!
