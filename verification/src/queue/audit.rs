//! A check of the representation at run time.
use std::hash::Hash;
use vstd::prelude::*;

use super::{LinkedQueue, NIL};

verus! {

impl<K: Eq + Hash + Clone, V> LinkedQueue<K, V> {
    /// Walks the free list and the list of elements and tells whether the
    /// representation is sound: head, tail and links in both directions, the
    /// index, and every cell either in use or free. It always is in a queue
    /// that the operations made. Room is no part of it.
    #[must_use]
    pub fn assert_invariants(&self) -> (sound: bool)
        requires
            vstd::std_specs::hash::obeys_key_model::<K>(),
        ensures
            sound == self.sound(),
    {
        let cells = self.slots.len();
        assert(cells <= usize::MAX);
        if self.free.len() > cells || self.len != cells - self.free.len() {
            return false;
        }
        let mut seen: Vec<bool> = vec![false; cells];
        let mut i: usize = 0;
        while i < self.free.len()
            invariant
                cells == self.slots@.len(),
                seen@.len() == cells,
                i <= self.free@.len(),
                super::vacant(self.slots@, self.free@.take(i as int)),
                forall|j: int|
                    0 <= j < cells ==> #[trigger] seen@[j] == self.free@.take(i as int).contains(
                        j as usize,
                    ),
            decreases self.free@.len() - i,
        {
            let idx = self.free[i];
            let ghost part = self.free@.take(i as int);
            assert(self.free@.take(i + 1) =~= part.push(idx));
            if idx >= cells || seen[idx] || self.slots[idx].key.is_some()
                || self.slots[idx].value.is_some() {
                proof {
                    if super::vacant(self.slots@, self.free@) {
                        assert(self.free@[i as int] < self.slots@.len());
                        if part.contains(idx) {
                            let j = choose|j: int| 0 <= j < part.len() && part[j] == idx;
                            assert(self.free@[j] == self.free@[i as int]);
                        }
                    }
                }
                return false;
            }
            seen.set(idx, true);
            proof {
                let next = part.push(idx);
                assert(next.no_duplicates());
                assert forall|j: int| 0 <= j < cells implies #[trigger] seen@[j] == next.contains(
                    j as usize,
                ) by {
                    assert(next[part.len() as int] == idx);
                    if j != idx && part.contains(j as usize) {
                        let a = choose|a: int| 0 <= a < part.len() && part[a] == j as usize;
                        assert(next[a] == j as usize);
                    }
                    if next.contains(j as usize) {
                        let a = choose|a: int| 0 <= a < next.len() && next[a] == j as usize;
                        assert(a < part.len() ==> part[a] == j as usize);
                    }
                }
            }
            i = i + 1;
        }
        assert(self.free@.take(i as int) =~= self.free@);
        let mut prev = NIL;
        let mut cur = self.head;
        let mut n: usize = 0;
        let ghost mut o: Seq<usize> = Seq::empty();
        assert(o + super::path(self.slots@, cur, self.len as nat) =~= self.order());
        while n < self.len
            invariant
                vstd::std_specs::hash::obeys_key_model::<K>(),
                cells == self.slots@.len(),
                cells <= usize::MAX,
                n <= self.len,
                super::vacant(self.slots@, self.free@),
                self.order() == o + super::path(self.slots@, cur, (self.len - n) as nat),
                o.len() == n,
                o.no_duplicates(),
                super::live(self.slots@, o),
                prev == super::node_at(o, n - 1),
                cur == if n == 0 { self.head } else { self.slots@[o[n - 1] as int].next },
                n > 0 ==> self.head == o[0],
                forall|j: int|
                    0 <= j < n ==> self.slots@[#[trigger] o[j] as int].prev == super::node_at(
                        o,
                        j - 1,
                    ),
                forall|j: int|
                    #![trigger o[j]]
                    0 <= j < n - 1 ==> self.slots@[o[j] as int].next == o[j + 1],
                forall|j: int|
                    0 <= j < n ==> {
                        &&& self.index@.contains_key(self.slots@[#[trigger] o[j] as int].key->0)
                        &&& self.index@[self.slots@[o[j] as int].key->0] == o[j]
                    },
            decreases self.len - n,
        {
            let ghost rest = super::path(self.slots@, cur, (self.len - n) as nat);
            proof {
                if self.sound() {
                    assert(self.order().len() == self.len);
                    assert(rest.len() > 0);
                    assert(rest[0] == cur);
                    assert(self.order()[n as int] == cur);
                    assert(super::node_linked(self.slots@, self.order(), n as int));
                    assert(n > 0 ==> self.order()[n - 1] == o[n - 1]);
                }
            }
            if cur >= cells || self.slots[cur].prev != prev {
                return false;
            }
            let slot = &self.slots[cur];
            match (&slot.key, &slot.value) {
                (Some(key), Some(_)) => {
                    match self.index.get(key) {
                        Some(at) => {
                            if *at != cur {
                                return false;
                            }
                        },
                        None => {
                            return false;
                        },
                    }
                },
                _ => {
                    return false;
                },
            }
            proof {
                let next = o.push(cur);
                assert(self.order() =~= next + super::path(
                    self.slots@,
                    slot.next,
                    (self.len - n - 1) as nat,
                ));
                if o.contains(cur) {
                    let j = choose|j: int| 0 <= j < o.len() && o[j] == cur;
                    assert(self.slots@[o[j] as int].prev == super::node_at(o, j - 1));
                    assert(j > 0 ==> o[j - 1] != o[n - 1]);
                }
                o = next;
            }
            prev = cur;
            cur = slot.next;
            n = n + 1;
        }
        proof {
            assert(self.order() =~= o);
            super::lemma_index_size(self.index@, self.slots@, o);
            if cur == NIL {
                assert forall|j: int| 0 <= j < o.len() implies #[trigger] super::node_linked(
                    self.slots@,
                    o,
                    j,
                ) by {
                    assert(self.slots@[o[j] as int].prev == super::node_at(o, j - 1));
                    assert(j < n - 1 ==> self.slots@[o[j] as int].next == o[j + 1]);
                }
            }
            if self.sound() && n > 0 {
                assert(super::node_linked(self.slots@, o, n - 1));
            }
        }
        cur == NIL && self.tail == prev && self.index.len() == self.len
    }
}

} // verus!
