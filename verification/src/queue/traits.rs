//! The standard traits of a queue.
use std::hash::Hash;
use vstd::prelude::*;
use vstd::std_specs::cmp::PartialEqSpec;

use super::room::{vec_at_mut, vec_push, vec_with_capacity};
use super::{IntoIter, LinkedQueue, Row, Slot, NIL};
use crate::model;

verus! {

impl<K: Eq + Hash + Clone, V> Default for LinkedQueue<K, V> {
    /// An empty queue.
    fn default() -> (queue: Self)
        ensures
            queue.wf(),
            queue@ == Seq::<(K, V)>::empty(),
            queue.slot_count() == 0,
            queue.asked_for_nothing(),
    {
        LinkedQueue::new()
    }
}

impl<K: Eq + Hash + Clone, V> IntoIterator for LinkedQueue<K, V> {
    type Item = (K, V);

    type IntoIter = IntoIter<K, V>;

    /// Hands out the elements, owned, from head to tail.
    fn into_iter(self) -> (pairs: IntoIter<K, V>)
        ensures
            self.wf() ==> pairs.rest() == self@,
            self.wf() ==> pairs.asked_for(self@.len()),
    {
        let ghost o = self.order();
        let mut slots = self.slots;
        let mut cells: Vec<Option<(K, V)>> = vec_with_capacity(self.len);
        let ghost made = cells;
        assert(self.wf() ==> self.len == self@.len() as usize);
        let ghost mut taken: Seq<(K, V)> = Seq::empty();
        let mut cur = self.head;
        let mut left = self.len;
        assert(slots.len() <= usize::MAX);
        while left > 0 && cur < slots.len()
            invariant
                o == self.order(),
                slots@.len() == self.slots@.len(),
                slots@.len() <= usize::MAX,
                super::room::settled(&cells),
                super::room::same_room(&made, &cells),
                forall|c: usize| #[trigger] super::room::reported(&made, c) ==> c >= self.len,
                cells@.len() + left <= self.len,
                cells@.len() == taken.len(),
                forall|j: int| 0 <= j < taken.len() ==> #[trigger] cells@[j] == Some(taken[j]),
                self.wf() ==> {
                    let i = o.len() - left;
                    &&& 0 <= i
                    &&& cur == super::node_at(o, i)
                    &&& taken == self@.take(i)
                    &&& forall|j: int|
                        i <= j < o.len() ==> slots@[#[trigger] o[j] as int]
                            == self.slots@[o[j] as int]
                },
            decreases left,
        {
            let ghost i = o.len() - left;
            proof {
                if self.wf() {
                    assert(super::node_linked(self.slots@, o, i));
                    assert(slots@[o[i] as int] == self.slots@[o[i] as int]);
                    assert(self@.take(i + 1) =~= self@.take(i).push(self@[i]));
                }
            }
            let next = slots[cur].next;
            let key = slots[cur].key.take();
            let value = slots[cur].value.take();
            if let (Some(k), Some(v)) = (key, value) {
                vec_push(&mut cells, Some((k, v)));
                proof {
                    taken = taken.push((k, v));
                }
            }
            cur = next;
            left = left - 1;
        }
        proof {
            if self.wf() {
                assert(self@.take(o.len() as int) =~= self@);
                assert(super::room::asked_for(&cells, self@.len()));
            }
        }
        IntoIter::of(Row::of(cells, Ghost(taken)))
    }
}

impl<K: Eq + Hash + Clone, V: Clone> Clone for LinkedQueue<K, V> {
    /// A queue of the same keys, each with a clone of its value, in the same
    /// order, in an arena without freed cells.
    fn clone(&self) -> (twin: Self)
        ensures
            self.wf() && model::lawful_key::<K>() ==> {
                &&& twin.wf()
                &&& twin@.len() == self@.len()
                &&& forall|i: int|
                    #![trigger twin@[i]]
                    0 <= i < self@.len() ==> {
                        &&& twin@[i].0 == self@[i].0
                        &&& vstd::pervasive::strictly_cloned(self@[i].1, twin@[i].1)
                    }
                &&& twin.slot_count() == twin@.len()
                &&& twin.fits(self@.len())
            },
    {
        let ghost sound = self.wf() && model::lawful_key::<K>();
        let ghost o = self.order();
        let made = Self::with_capacity(self.len);
        proof {
            made.lemma_settled();
            assert forall|c: usize| #[trigger] super::room::reported(&made.slots, c) implies c
                >= self.len by {
                assert(made.reports(c));
            }
        }
        let mut slots = made.slots;
        let mut index = made.index;
        let mut cur = self.head;
        let mut left = self.len;
        while left > 0
            invariant
                sound == (self.wf() && model::lawful_key::<K>()),
                o == self.order(),
                super::room::settled(&slots),
                call_ensures(Self::with_capacity, (self.len,), made),
                super::room::same_room(&made.slots, &slots),
                slots@.len() + left <= self.len,
                forall|c: usize| #[trigger]
                    super::room::reported(&made.slots, c) ==> c >= self.len,
                sound ==> {
                    &&& slots@.len() == o.len() - left
                    &&& cur == super::node_at(o, slots@.len() as int)
                    &&& copied(self@, slots@)
                    &&& chained(slots@)
                    &&& index_of(index@, slots@)
                },
            decreases left,
        {
            proof {
                if sound {
                    self.lemma_keys_distinct();
                    assert(super::node_linked(self.slots@, o, slots@.len() as int));
                }
            }
            match self.step(cur) {
                Some((key, value, next)) => {
                    let idx = slots.len();
                    let ghost before = slots@;
                    let prev = if idx == 0 {
                        NIL
                    } else {
                        vec_at_mut(&mut slots, idx - 1).next = idx;
                        idx - 1
                    };
                    vec_push(
                        &mut slots,
                        Slot {
                            key: Some(key.clone()),
                            value: Some(value.clone()),
                            prev,
                            next: NIL,
                        },
                    );
                    index.insert(key.clone(), idx);
                    cur = next;
                },
                None => {},
            }
            left = left - 1;
        }
        let (head, tail) = if slots.len() == 0 {
            (NIL, NIL)
        } else {
            (0, slots.len() - 1)
        };
        let len = slots.len();
        let twin = LinkedQueue { slots, free: Vec::new(), index, head, tail, len };
        proof {
            if sound {
                let q = Seq::new(len as nat, |i: int| i as usize);
                assert(len <= usize::MAX);
                assert forall|i: int| 0 <= i < q.len() implies #[trigger] super::node_linked(
                    twin.slots@,
                    q,
                    i,
                ) by {
                    assert(q[i] == i);
                    assert(i > 0 ==> q[i - 1] == i - 1);
                    assert(i + 1 < q.len() ==> q[i + 1] == i + 1);
                }
                assert forall|k: K| #[trigger] twin.index@.contains_key(k) implies q.contains(
                    twin.index@[k],
                ) by {
                    assert(q[twin.index@[k] as int] == twin.index@[k]);
                }
                assert(twin.wf_at(q));
                twin.lemma_settled();
                twin.lemma_order(q);
                assert(self@.len() as usize == self.len);
                assert(twin.fits(self@.len()));
            }
        }
        twin
    }
}

/// The cells hold the first pairs of `s`, the values cloned.
spec fn copied<K, V: Clone>(s: Seq<(K, V)>, slots: Seq<Slot<K, V>>) -> bool {
    &&& slots.len() <= s.len()
    &&& forall|i: int|
        0 <= i < slots.len() ==> {
            &&& (#[trigger] slots[i]).key == Some(s[i].0)
            &&& slots[i].value is Some
            &&& vstd::pervasive::strictly_cloned(s[i].1, slots[i].value->0)
        }
}

/// Each cell links to the cells next to it.
spec fn chained<K, V>(slots: Seq<Slot<K, V>>) -> bool {
    forall|i: int|
        0 <= i < slots.len() ==> {
            &&& (#[trigger] slots[i]).prev == if i == 0 { NIL } else { (i - 1) as usize }
            &&& slots[i].next == if i == slots.len() - 1 { NIL } else { (i + 1) as usize }
        }
}

/// The index leads from the key of each cell to this cell.
spec fn index_of<K, V>(index: Map<K, usize>, slots: Seq<Slot<K, V>>) -> bool {
    &&& forall|i: int|
        0 <= i < slots.len() ==> {
            &&& index.contains_key((#[trigger] slots[i]).key->0)
            &&& index[slots[i].key->0] == i
        }
    &&& forall|k: K| #[trigger]
        index.contains_key(k) ==> index[k] < slots.len() && slots[index[k] as int].key == Some(k)
}

/// The pairs met on the way from `cur` along the `next` links, `n` at most, up
/// to the first index that leads to no pair.
spec fn walk<K, V>(slots: Seq<Slot<K, V>>, cur: usize, n: nat) -> Seq<(K, V)>
    decreases n,
{
    if n == 0 || cur >= slots.len() || slots[cur as int].key is None
        || slots[cur as int].value is None {
        Seq::empty()
    } else {
        seq![super::entry(slots[cur as int])] + walk(
            slots,
            slots[cur as int].next,
            (n - 1) as nat,
        )
    }
}

impl<K, V> LinkedQueue<K, V> {
    /// In a well-formed queue the walk from place `i` meets the pairs from
    /// there on.
    proof fn lemma_walk(self, i: int)
        requires
            self.wf(),
            0 <= i <= self.order().len(),
        ensures
            walk(
                self.slots@,
                super::node_at(self.order(), i),
                (self.order().len() - i) as nat,
            ) == self@.skip(i),
        decreases self.order().len() - i,
    {
        let o = self.order();
        if i < o.len() {
            self.lemma_walk(i + 1);
            assert(super::node_linked(self.slots@, o, i));
            assert(o[i] < self.slots@.len());
            assert(self@.skip(i) =~= seq![self@[i]] + self@.skip(i + 1));
        } else {
            assert(self@.skip(i) =~= Seq::empty());
        }
    }

    /// The pair that the cell `idx` holds, if any, and the index it links to.
    fn step(&self, idx: usize) -> (found: Option<(&K, &V, usize)>)
        ensures
            match found {
                Some((k, v, next)) => {
                    &&& idx < self.slots@.len()
                    &&& self.slots@[idx as int].key == Some(*k)
                    &&& self.slots@[idx as int].value == Some(*v)
                    &&& self.slots@[idx as int].next == next
                },
                None => {
                    ||| idx >= self.slots@.len()
                    ||| self.slots@[idx as int].key is None
                    ||| self.slots@[idx as int].value is None
                },
            },
    {
        if idx >= self.slots.len() {
            return None;
        }
        let slot = &self.slots[idx];
        Some((slot.key.as_ref()?, slot.value.as_ref()?, slot.next))
    }
}

impl<K: Eq + Hash + Clone, V: PartialEq> PartialEq for LinkedQueue<K, V> {
    /// Two queues are equal when they hold equal pairs in the same order.
    fn eq(&self, other: &Self) -> (equal: bool) {
        if self.len != other.len {
            return false;
        }
        let mut a = self.head;
        let mut b = other.head;
        let mut left = self.len;
        let ghost s = walk(self.slots@, a, left as nat);
        let ghost t = walk(other.slots@, b, left as nat);
        while left > 0
            invariant
                self.len == other.len,
                s == walk(self.slots@, self.head, self.len as nat),
                t == walk(other.slots@, other.head, other.len as nat),
                K::obeys_eq_spec() && V::obeys_eq_spec() ==> model::equal_pairs(s, t)
                    == model::equal_pairs(
                    walk(self.slots@, a, left as nat),
                    walk(other.slots@, b, left as nat),
                ),
            decreases left,
        {
            let ghost u = walk(self.slots@, a, left as nat);
            let ghost w = walk(other.slots@, b, left as nat);
            match (self.step(a), other.step(b)) {
                (Some((k1, v1, n1)), Some((k2, v2, n2))) => {
                    proof {
                        let rest_u = walk(self.slots@, n1, (left - 1) as nat);
                        let rest_w = walk(other.slots@, n2, (left - 1) as nat);
                        assert(u == seq![(*k1, *v1)] + rest_u);
                        assert(w == seq![(*k2, *v2)] + rest_w);
                        lemma_equal_pairs_cons((*k1, *v1), rest_u, (*k2, *v2), rest_w);
                    }
                    if !(*k1 == *k2 && *v1 == *v2) {
                        return false;
                    }
                    a = n1;
                    b = n2;
                },
                (None, None) => {
                    return true;
                },
                _ => {
                    return false;
                },
            }
            left = left - 1;
        }
        true
    }
}

/// Equality of pairs, taken apart at the first pair.
proof fn lemma_equal_pairs_cons<K: PartialEq, V: PartialEq>(
    x: (K, V),
    s: Seq<(K, V)>,
    y: (K, V),
    t: Seq<(K, V)>,
)
    ensures
        model::equal_pairs(seq![x] + s, seq![y] + t) == (x.0.eq_spec(&y.0) && x.1.eq_spec(&y.1)
            && model::equal_pairs(s, t)),
{
    let u = seq![x] + s;
    let w = seq![y] + t;
    if model::equal_pairs(u, w) {
        assert(u[0] == x && w[0] == y);
        assert forall|i: int| #![trigger s[i], t[i]] 0 <= i < s.len() implies s[i].0.eq_spec(
            &t[i].0,
        ) && s[i].1.eq_spec(&t[i].1) by {
            assert(u[i + 1] == s[i] && w[i + 1] == t[i]);
        }
    }
    if x.0.eq_spec(&y.0) && x.1.eq_spec(&y.1) && model::equal_pairs(s, t) {
        assert forall|i: int| #![trigger u[i], w[i]] 0 <= i < u.len() implies u[i].0.eq_spec(
            &w[i].0,
        ) && u[i].1.eq_spec(&w[i].1) by {
            if i > 0 {
                assert(u[i] == s[i - 1] && w[i] == t[i - 1]);
            }
        }
    }
}

impl<K: Eq + Hash + Clone, V: PartialEq> vstd::std_specs::cmp::PartialEqSpecImpl for LinkedQueue<K, V> {
    open spec fn obeys_eq_spec() -> bool {
        K::obeys_eq_spec() && V::obeys_eq_spec()
    }

    closed spec fn eq_spec(&self, other: &Self) -> bool {
        &&& self.len == other.len
        &&& model::equal_pairs(
            walk(self.slots@, self.head, self.len as nat),
            walk(other.slots@, other.head, other.len as nat),
        )
    }
}

impl<K: Eq + Hash + Clone, V: Eq> Eq for LinkedQueue<K, V> {

}

impl<K: Eq + Hash + Clone, V: PartialEq> LinkedQueue<K, V> {
    /// What `==` means for queues: equal pairs in the same order.
    pub proof fn lemma_eq(self, other: Self)
        requires
            self.wf(),
            other.wf(),
        ensures
            PartialEqSpec::eq_spec(&self, &other) == model::equal_pairs(self@, other@),
    {
        self.lemma_walk(0);
        other.lemma_walk(0);
        assert(self@.skip(0) =~= self@);
        assert(other@.skip(0) =~= other@);
    }
}

} // verus!
