//! The queue itself: its representation, the invariant that ties the
//! representation to a sequence of pairs, and the links of the list.
use std::collections::HashMap;
use std::hash::Hash;
use vstd::prelude::*;

use crate::model;

use iter::Row;
pub use iter::{Drain, IntoIter, Iter, Keys, Values};

mod access;
mod audit;
mod edit;
mod iter;
mod links;
mod room;
mod traits;

verus! {

/// The index that stands for "no node".
const NIL: usize = usize::MAX;

/// One cell of the arena: a node of the list, or a freed cell that waits for
/// its next use and holds neither key nor value.
struct Slot<K, V> {
    key: Option<K>,
    value: Option<V>,
    prev: usize,
    next: usize,
}

/// A FIFO queue keyed by `K`, backed by a doubly-linked list with a hash index.
///
/// Nodes live in an arena and link to each other by index; freed cells are
/// recycled. The queue stands for the sequence `self@` of its `(key, value)`
/// pairs, head first.
pub struct LinkedQueue<K, V> {
    slots: Vec<Slot<K, V>>,
    free: Vec<usize>,
    index: HashMap<K, usize>,
    head: usize,
    tail: usize,
    len: usize,
}

/// The nodes met on the way from `cur` along the `next` links, `n` at most.
spec fn path<K, V>(slots: Seq<Slot<K, V>>, cur: usize, n: nat) -> Seq<usize>
    decreases n,
{
    if n == 0 || cur >= slots.len() {
        Seq::empty()
    } else {
        seq![cur] + path(slots, slots[cur as int].next, (n - 1) as nat)
    }
}

/// The node at place `i` of `o`, or `NIL` where there is none.
spec fn node_at(o: Seq<usize>, i: int) -> usize {
    if 0 <= i < o.len() {
        o[i]
    } else {
        NIL
    }
}

/// The pair that a cell holds.
spec fn entry<K, V>(slot: Slot<K, V>) -> (K, V) {
    (slot.key->0, slot.value->0)
}

/// The pairs of the nodes `o`.
spec fn entries<K, V>(slots: Seq<Slot<K, V>>, o: Seq<usize>) -> Seq<(K, V)> {
    Seq::new(o.len(), |i: int| entry(slots[o[i] as int]))
}

/// The node at place `i` of `o` links to its neighbours in `o`.
spec fn node_linked<K, V>(slots: Seq<Slot<K, V>>, o: Seq<usize>, i: int) -> bool {
    &&& slots[o[i] as int].prev == node_at(o, i - 1)
    &&& slots[o[i] as int].next == node_at(o, i + 1)
}

/// `head`, `tail` and the cells of the nodes `o` link these nodes in this
/// order, in both directions.
spec fn linked<K, V>(slots: Seq<Slot<K, V>>, head: usize, tail: usize, o: Seq<usize>) -> bool {
    &&& o.no_duplicates()
    &&& head == node_at(o, 0)
    &&& tail == node_at(o, o.len() - 1)
    &&& forall|i: int| 0 <= i < o.len() ==> #[trigger] o[i] < slots.len()
    &&& forall|i: int| 0 <= i < o.len() ==> #[trigger] node_linked(slots, o, i)
}

/// Every node of `o` holds a pair.
spec fn live<K, V>(slots: Seq<Slot<K, V>>, o: Seq<usize>) -> bool {
    forall|i: int|
        0 <= i < o.len() ==> {
            &&& #[trigger] o[i] < slots.len()
            &&& slots[o[i] as int].key is Some
            &&& slots[o[i] as int].value is Some
        }
}

/// The cells on the free list are vacant, and none is there twice.
spec fn vacant<K, V>(slots: Seq<Slot<K, V>>, free: Seq<usize>) -> bool {
    &&& free.no_duplicates()
    &&& forall|i: int|
        0 <= i < free.len() ==> {
            &&& #[trigger] free[i] < slots.len()
            &&& slots[free[i] as int].key is None
            &&& slots[free[i] as int].value is None
        }
}

/// `index` leads from the key of each node of `o` to that node, and holds
/// nothing else.
spec fn indexed<K, V>(index: Map<K, usize>, slots: Seq<Slot<K, V>>, o: Seq<usize>) -> bool {
    &&& forall|i: int|
        0 <= i < o.len() ==> {
            &&& index.contains_key(slots[#[trigger] o[i] as int].key->0)
            &&& index[slots[o[i] as int].key->0] == o[i]
        }
    &&& forall|k: K| #[trigger]
        index.contains_key(k) ==> {
            &&& o.contains(index[k])
            &&& slots[index[k] as int].key == Some(k)
        }
}

/// Keys and values stand where they stood; only links may differ.
spec fn same_pairs<K, V>(a: Seq<Slot<K, V>>, b: Seq<Slot<K, V>>) -> bool {
    &&& a.len() == b.len()
    &&& forall|i: int|
        0 <= i < a.len() ==> (#[trigger] b[i]).key == a[i].key && b[i].value == a[i].value
}

/// The links of `b` are those of `a` with the node `idx` spliced in at place
/// `p` of `o`.
spec fn spliced<K, V>(
    a: Seq<Slot<K, V>>,
    b: Seq<Slot<K, V>>,
    o: Seq<usize>,
    p: int,
    idx: usize,
) -> bool {
    &&& a.len() == b.len()
    &&& forall|i: int|
        0 <= i < a.len() ==> {
            &&& (#[trigger] b[i]).prev == if i == idx {
                node_at(o, p - 1)
            } else if i == node_at(o, p) {
                idx
            } else {
                a[i].prev
            }
            &&& b[i].next == if i == idx {
                node_at(o, p)
            } else if i == node_at(o, p - 1) {
                idx
            } else {
                a[i].next
            }
        }
}

/// The links of `b` are those of `a` with the node at place `p` of `o` taken
/// out; what that node itself links to is left open.
spec fn unspliced<K, V>(a: Seq<Slot<K, V>>, b: Seq<Slot<K, V>>, o: Seq<usize>, p: int) -> bool {
    &&& a.len() == b.len()
    &&& forall|i: int|
        0 <= i < a.len() && i != o[p] ==> {
            &&& (#[trigger] b[i]).prev == if i == node_at(o, p + 1) {
                node_at(o, p - 1)
            } else {
                a[i].prev
            }
            &&& b[i].next == if i == node_at(o, p - 1) {
                node_at(o, p + 1)
            } else {
                a[i].next
            }
        }
}

/// Following the links of a linked list gives back its nodes.
proof fn lemma_path<K, V>(slots: Seq<Slot<K, V>>, cur: usize, o: Seq<usize>)
    requires
        cur == node_at(o, 0),
        forall|i: int| 0 <= i < o.len() ==> #[trigger] o[i] < slots.len(),
        forall|i: int|
            #![trigger o[i]]
            0 <= i < o.len() - 1 ==> slots[o[i] as int].next == node_at(o, i + 1),
    ensures
        path(slots, cur, o.len()) == o,
    decreases o.len(),
{
    if o.len() > 0 {
        let rest = o.drop_first();
        assert(o[0] < slots.len());
        if o.len() > 1 {
            assert forall|i: int| #![trigger rest[i]] 0 <= i < rest.len() - 1 implies slots[rest[
                i
            ] as int].next == node_at(rest, i + 1) by {
                assert(rest[i] == o[i + 1]);
            }
            lemma_path(slots, slots[cur as int].next, rest);
        } else {
            assert(path(slots, slots[cur as int].next, 0) =~= rest);
        }
        assert(seq![cur] + rest =~= o);
    }
}

/// Splicing a fresh node into a linked list links the longer list.
proof fn lemma_spliced<K, V>(
    a: Seq<Slot<K, V>>,
    head: usize,
    tail: usize,
    o: Seq<usize>,
    b: Seq<Slot<K, V>>,
    p: int,
    idx: usize,
)
    requires
        linked(a, head, tail, o),
        0 <= p <= o.len(),
        idx < a.len(),
        a.len() <= usize::MAX,
        !o.contains(idx),
        spliced(a, b, o, p, idx),
    ensures
        linked(
            b,
            if p == 0 { idx } else { head },
            if p == o.len() { idx } else { tail },
            o.insert(p, idx),
        ),
{
    let q = o.insert(p, idx);
    assert forall|i: int, j: int| 0 <= i < q.len() && 0 <= j < q.len() && i != j implies q[i]
        != q[j] by {
        let oi = if i < p { i } else { i - 1 };
        let oj = if j < p { j } else { j - 1 };
        assert(i != p ==> q[i] == o[oi]);
        assert(j != p ==> q[j] == o[oj]);
    }
    assert forall|i: int| 0 <= i < q.len() implies #[trigger] node_linked(b, q, i) by {
        if i < p {
            assert(q[i] == o[i]);
            assert(node_linked(a, o, i));
            if i + 1 < p {
                assert(o[i] != o[p - 1]);
            }
        } else if i > p {
            assert(q[i] == o[i - 1]);
            assert(node_linked(a, o, i - 1));
            if i - 1 > p {
                assert(o[i - 1] != o[p]);
            }
        }
    }
}

/// Taking a node out of a linked list links the shorter list.
proof fn lemma_unspliced<K, V>(
    a: Seq<Slot<K, V>>,
    head: usize,
    tail: usize,
    o: Seq<usize>,
    b: Seq<Slot<K, V>>,
    p: int,
)
    requires
        linked(a, head, tail, o),
        a.len() <= usize::MAX,
        0 <= p < o.len(),
        unspliced(a, b, o, p),
    ensures
        linked(
            b,
            if p == 0 { node_at(o, 1) } else { head },
            if p == o.len() - 1 { node_at(o, p - 1) } else { tail },
            o.remove(p),
        ),
        !o.remove(p).contains(o[p]),
{
    let q = o.remove(p);
    assert forall|i: int, j: int| 0 <= i < q.len() && 0 <= j < q.len() && i != j implies q[i]
        != q[j] by {
        let oi = if i < p { i } else { i + 1 };
        let oj = if j < p { j } else { j + 1 };
        assert(q[i] == o[oi] && q[j] == o[oj]);
    }
    assert forall|i: int| 0 <= i < q.len() implies #[trigger] node_linked(b, q, i) by {
        let j = if i < p { i } else { i + 1 };
        assert(q[i] == o[j]);
        assert(node_linked(a, o, j));
        assert(o[j] < a.len());
        assert(o[j] != o[p]);
    }
    assert forall|i: int| 0 <= i < q.len() implies #[trigger] q[i] < b.len() by {
        let j = if i < p { i } else { i + 1 };
        assert(q[i] == o[j]);
    }
    if q.contains(o[p]) {
        let i = choose|i: int| 0 <= i < q.len() && q[i] == o[p];
        let j = if i < p { i } else { i + 1 };
        assert(q[i] == o[j]);
    }
}

/// An index that leads from the key of each node to this node holds nothing
/// else if and only if it has as many entries as there are nodes.
proof fn lemma_index_size<K, V>(index: Map<K, usize>, slots: Seq<Slot<K, V>>, o: Seq<usize>)
    requires
        index.dom().finite(),
        o.no_duplicates(),
        live(slots, o),
        forall|i: int|
            0 <= i < o.len() ==> {
                &&& index.contains_key(slots[#[trigger] o[i] as int].key->0)
                &&& index[slots[o[i] as int].key->0] == o[i]
            },
    ensures
        (index.len() == o.len()) == indexed(index, slots, o),
{
    let keys = Seq::new(o.len(), |i: int| slots[o[i] as int].key->0);
    assert forall|i: int, j: int|
        0 <= i < keys.len() && 0 <= j < keys.len() && i != j implies keys[i] != keys[j] by {
        assert(o[i] != o[j]);
        assert(index[slots[o[i] as int].key->0] == o[i]);
        assert(index[slots[o[j] as int].key->0] == o[j]);
    }
    keys.unique_seq_to_set();
    assert(keys.to_set().subset_of(index.dom())) by {
        assert forall|k: K| keys.to_set().contains(k) implies index.dom().contains(k) by {
            let i = choose|i: int| 0 <= i < keys.len() && keys[i] == k;
            assert(index.contains_key(slots[o[i] as int].key->0));
        }
    }
    vstd::set_lib::lemma_len_subset(keys.to_set(), index.dom());
    if index.len() == o.len() {
        vstd::set_lib::lemma_subset_equality(keys.to_set(), index.dom());
        assert forall|k: K| #[trigger] index.contains_key(k) implies {
            &&& o.contains(index[k])
            &&& slots[index[k] as int].key == Some(k)
        } by {
            assert(keys.to_set().contains(k));
            let i = choose|i: int| 0 <= i < keys.len() && keys[i] == k;
            assert(slots[o[i] as int].key is Some);
            assert(index[slots[o[i] as int].key->0] == o[i]);
        }
    }
    if indexed(index, slots, o) {
        assert(index.dom() =~= keys.to_set()) by {
            assert forall|k: K| index.dom().contains(k) implies keys.to_set().contains(k) by {
                assert(index.contains_key(k));
                let i = choose|i: int| 0 <= i < o.len() && o[i] == index[k];
                assert(keys[i] == k);
            }
        }
    }
}

/// The vector has the capacity of one made for `n` elements.
pub closed spec fn made_for<T>(vec: Vec<T>, n: nat) -> bool {
    room::asked_for(&vec, n)
}

impl<K, V> LinkedQueue<K, V> {
    /// The nodes of the list, head first.
    spec fn order(self) -> Seq<usize> {
        path(self.slots@, self.head, self.len as nat)
    }

    /// The representation is sound with the nodes `o` in this order.
    spec fn wf_at(self, o: Seq<usize>) -> bool {
        &&& self.len == o.len()
        &&& linked(self.slots@, self.head, self.tail, o)
        &&& live(self.slots@, o)
        &&& vacant(self.slots@, self.free@)
        &&& o.len() + self.free@.len() == self.slots@.len()
        &&& indexed(self.index@, self.slots@, o)
    }

    /// The list is linked soundly in both directions, every cell of the arena is
    /// either a node or on the free list, and the index leads from each key to
    /// its node.
    pub closed spec fn sound(self) -> bool {
        self.wf_at(self.order())
    }

    /// The invariant of a queue: its representation is sound, and asked for its
    /// capacity it has one answer.
    pub open spec fn wf(self) -> bool {
        &&& self.sound()
        &&& self.settled()
    }

    /// How many cells the arena has, in use and freed together.
    pub closed spec fn slot_count(self) -> nat {
        self.slots@.len()
    }

    /// Asked for its capacity, the queue may answer `capacity`. How much room an
    /// arena has is up to the allocator, so there is no saying which answer it
    /// will be.
    pub closed spec fn reports(self, capacity: usize) -> bool {
        room::reported(&self.slots, capacity)
    }

    /// Asked for the capacity of its index, the queue may answer `capacity`.
    pub closed spec fn index_reports(self, capacity: usize) -> bool {
        room::map_reported(&self.index, capacity)
    }

    /// Asked for its capacity, the queue has one answer.
    pub open spec fn settled(self) -> bool {
        exists|c: usize|
            #[trigger] self.reports(c) && forall|d: usize| #[trigger]
                self.reports(d) ==> d == c
    }

    /// The queue `after` has the capacity that this one had.
    pub open spec fn room_kept(self, after: Self) -> bool {
        forall|b: usize, c: usize| #[trigger]
            self.reports(b) && #[trigger] after.reports(c) ==> c == b
    }

    /// The queue `after` has no less capacity than this one had.
    pub open spec fn room_not_less(self, after: Self) -> bool {
        forall|b: usize, c: usize| #[trigger]
            self.reports(b) && #[trigger] after.reports(c) ==> c >= b
    }

    /// The queue `after`, with one element more at the most, has no less
    /// capacity than this one had, and the same where that was more than the
    /// elements there were, or where no cell was added to the arena.
    pub open spec fn room_grown(self, after: Self) -> bool {
        forall|b: usize, c: usize| #[trigger]
            self.reports(b) && #[trigger] after.reports(c) ==> {
                &&& c >= b
                &&& self@.len() < b || after.slot_count() == self.slot_count() ==> c == b
            }
    }

    /// The queue `after` has the capacity that this one had, where that was
    /// enough for `additional` cells more.
    pub open spec fn room_reserved(self, additional: usize, after: Self) -> bool {
        forall|b: usize, c: usize| #[trigger]
            self.reports(b) && #[trigger] after.reports(c) && b >= self.slot_count() + additional
                ==> c == b
    }

    /// The queue `after` has no less capacity than this one had, and the same
    /// where that was enough for all cells that it has.
    pub open spec fn room_filled(self, after: Self) -> bool {
        forall|b: usize, c: usize| #[trigger]
            self.reports(b) && #[trigger] after.reports(c) ==> {
                &&& c >= b
                &&& after.slot_count() <= b ==> c == b
            }
    }

    /// Arena and index are what a request for room for `n` elements gives, and
    /// nothing was asked for besides.
    pub closed spec fn asked_for(self, n: usize) -> bool {
        &&& call_ensures(room::vec_with_capacity::<Slot<K, V>>, (n,), self.slots)
        &&& call_ensures(room::map_with_capacity::<K, usize>, (n,), self.index)
        &&& call_ensures(Vec::<usize>::new, (), self.free)
    }

    /// No room was asked for.
    pub closed spec fn asked_for_nothing(self) -> bool {
        &&& call_ensures(room::vec_with_capacity::<Slot<K, V>>, (0usize,), self.slots)
        &&& call_ensures(HashMap::<K, usize>::new, (), self.index)
        &&& call_ensures(Vec::<usize>::new, (), self.free)
    }

    /// The queue has the capacity of one made for `n` elements.
    pub open spec fn fits(self, n: nat) -> bool where K: Eq + Hash + Clone {
        exists|made: Self|
            #[trigger] call_ensures(Self::with_capacity, (n as usize,), made) && made.room_kept(
                self,
            )
    }

    /// The queue answers as its arena does.
    proof fn lemma_settled(self)
        ensures
            self.settled() == room::settled(&self.slots),
    {
        assert(forall|c: usize| #[trigger] self.reports(c) == room::reported(&self.slots, c));
        if room::settled(&self.slots) {
            let c = choose|c: usize|
                #[trigger] room::reported(&self.slots, c) && forall|d: usize| #[trigger]
                    room::reported(&self.slots, d) ==> d == c;
            assert(self.reports(c));
        }
        if self.settled() {
            let c = choose|c: usize|
                #[trigger] self.reports(c) && forall|d: usize| #[trigger]
                    self.reports(d) ==> d == c;
            assert forall|d: usize| #[trigger] room::reported(&self.slots, d) implies d == c by {
                assert(self.reports(d));
            }
        }
    }

    /// The index holds as many keys as there are elements.
    proof fn lemma_index_len(self)
        requires
            self.sound(),
        ensures
            self.index@.len() == self@.len(),
    {
        lemma_index_size(self.index@, self.slots@, self.order());
    }

    /// Where the representation is sound with the nodes `o`, these are the
    /// nodes of the list.
    proof fn lemma_order(self, o: Seq<usize>)
        requires
            self.wf_at(o),
        ensures
            self.sound(),
            self.order() == o,
            self@ == entries(self.slots@, o),
    {
        assert forall|i: int| #![trigger o[i]] 0 <= i < o.len() - 1 implies self.slots@[o[
            i
        ] as int].next == node_at(o, i + 1) by {
            assert(node_linked(self.slots@, o, i));
        }
        lemma_path(self.slots@, self.head, o);
    }
}

impl<K, V> LinkedQueue<K, V> {
    /// No key occurs twice in a queue.
    pub proof fn lemma_keys_distinct(self)
        requires
            self.sound(),
        ensures
            model::keys_distinct(self@),
    {
        let o = self.order();
        assert forall|i: int, j: int|
            0 <= i < self@.len() && 0 <= j < self@.len() && i != j implies #[trigger] self@[i].0
            != #[trigger] self@[j].0 by {
            assert(o[i] != o[j]);
            assert(self.index@[self.slots@[o[i] as int].key->0] == o[i]);
            assert(self.index@[self.slots@[o[j] as int].key->0] == o[j]);
        }
    }

    /// Each element has a cell of the arena.
    pub proof fn lemma_slot_count(self)
        requires
            self.sound(),
        ensures
            self@.len() <= self.slot_count(),
    {
    }

    /// The index holds the keys of the queue and leads to their nodes.
    proof fn lemma_find(self, k: K)
        requires
            self.sound(),
        ensures
            model::has_key(self@, k) <==> self.index@.contains_key(k),
            self.index@.contains_key(k) ==> {
                let p = model::position(self@, k);
                &&& 0 <= p < self.order().len()
                &&& self.order()[p] == self.index@[k]
                &&& self@[p].0 == k
            },
    {
        let o = self.order();
        self.lemma_keys_distinct();
        if self.index@.contains_key(k) {
            let p = choose|p: int| 0 <= p < o.len() && o[p] == self.index@[k];
            assert(o.contains(self.index@[k]));
            assert(self@[p].0 == k);
            model::lemma_position(self@, p);
        }
        if model::has_key(self@, k) {
            let p = model::position(self@, k);
            assert(0 <= p < self@.len() && self@[p].0 == k);
            assert(self.index@.contains_key(self.slots@[o[p] as int].key->0));
        }
    }

    /// Only the value of the node at place `p` was changed.
    proof fn lemma_value_set(self, after: Self, p: int, value: V)
        requires
            self.sound(),
            0 <= p < self.order().len(),
            after.slots@.len() == self.slots@.len(),
            forall|i: int|
                0 <= i < self.slots@.len() && i != self.order()[p] ==> #[trigger] after.slots@[i]
                    == self.slots@[i],
            after.slots@[self.order()[p] as int] == (Slot {
                value: Some(value),
                ..self.slots@[self.order()[p] as int]
            }),
            after.free@ == self.free@,
            after.index@ == self.index@,
            after.head == self.head,
            after.tail == self.tail,
            after.len == self.len,
            room::settled(&after.slots),
        ensures
            after.wf_at(self.order()),
            after.wf(),
            after.order() == self.order(),
            after@ == self@.update(p, (self@[p].0, value)),
    {
        let o = self.order();
        assert forall|i: int| 0 <= i < o.len() implies #[trigger] node_linked(
            after.slots@,
            o,
            i,
        ) by {
            assert(node_linked(self.slots@, o, i));
            assert(o[i] < self.slots@.len());
        }
        assert forall|i: int| 0 <= i < o.len() implies {
            &&& #[trigger] o[i] < after.slots@.len()
            &&& after.slots@[o[i] as int].key is Some
            &&& after.slots@[o[i] as int].value is Some
            &&& after.index@.contains_key(after.slots@[o[i] as int].key->0)
            &&& after.index@[after.slots@[o[i] as int].key->0] == o[i]
        } by {
            assert(self.slots@[o[i] as int].key is Some);
        }
        assert forall|k: K| #[trigger] after.index@.contains_key(k) implies {
            &&& o.contains(after.index@[k])
            &&& after.slots@[after.index@[k] as int].key == Some(k)
        } by {
            assert(self.index@.contains_key(k));
            assert(o.contains(self.index@[k]));
        }
        assert forall|i: int| 0 <= i < after.free@.len() implies {
            &&& #[trigger] after.free@[i] < after.slots@.len()
            &&& after.slots@[after.free@[i] as int].key is None
            &&& after.slots@[after.free@[i] as int].value is None
        } by {
            assert(self.free@[i] < self.slots@.len());
            assert(self.slots@[o[p] as int].key is Some);
        }
        assert(after.wf_at(o));
        after.lemma_settled();
        after.lemma_order(o);
        assert forall|i: int| 0 <= i < o.len() implies after@[i] == self@.update(
            p,
            (self@[p].0, value),
        )[i] by {
            assert(i != p ==> o[i] != o[p]);
            assert(o[i] < self.slots@.len());
        }
        assert(after@ =~= self@.update(p, (self@[p].0, value)));
    }

    /// A new pair linked in at place `p` and entered in the index.
    proof fn lemma_inserted(
        before: Self,
        after: Self,
        o: Seq<usize>,
        p: int,
        idx: usize,
        key: K,
        value: V,
    )
        requires
            before.wf_at(o),
            0 <= p <= o.len(),
            !o.contains(idx),
            idx < after.slots@.len(),
            linked(after.slots@, after.head, after.tail, o.insert(p, idx)),
            before.slots@.len() <= after.slots@.len(),
            forall|i: int|
                0 <= i < before.slots@.len() && i != idx ==> {
                    &&& (#[trigger] after.slots@[i]).key == before.slots@[i].key
                    &&& after.slots@[i].value == before.slots@[i].value
                },
            after.slots@[idx as int].key == Some(key),
            after.slots@[idx as int].value == Some(value),
            vacant(after.slots@, after.free@),
            o.len() + 1 + after.free@.len() == after.slots@.len(),
            !before.index@.contains_key(key),
            after.index@ == before.index@.insert(key, idx),
            after.len == before.len + 1,
            room::settled(&after.slots),
        ensures
            after.wf(),
            after@ == before@.insert(p, (key, value)),
    {
        let q = o.insert(p, idx);
        assert forall|i: int| 0 <= i < q.len() implies {
            &&& #[trigger] q[i] < after.slots@.len()
            &&& after.slots@[q[i] as int].key is Some
            &&& after.slots@[q[i] as int].value is Some
            &&& after.index@.contains_key(after.slots@[q[i] as int].key->0)
            &&& after.index@[after.slots@[q[i] as int].key->0] == q[i]
        } by {
            if i != p {
                let j = if i < p { i } else { i - 1 };
                assert(q[i] == o[j]);
                assert(o[j] != idx);
                assert(before.index@.contains_key(before.slots@[o[j] as int].key->0));
            }
        }
        assert forall|k: K| #[trigger] after.index@.contains_key(k) implies {
            &&& q.contains(after.index@[k])
            &&& after.slots@[after.index@[k] as int].key == Some(k)
        } by {
            if k == key {
                assert(q[p] == idx);
            } else {
                assert(before.index@.contains_key(k));
                let j = choose|j: int| 0 <= j < o.len() && o[j] == before.index@[k];
                assert(o[j] != idx);
                assert(q[if j < p { j } else { j + 1 }] == o[j]);
            }
        }
        assert(after.wf_at(q));
        before.lemma_order(o);
        after.lemma_settled();
        after.lemma_order(q);
        assert(after@ =~= before@.insert(p, (key, value))) by {
            assert forall|i: int| 0 <= i < q.len() && i != p implies after@[i]
                == before@.insert(p, (key, value))[i] by {
                let j = if i < p { i } else { i - 1 };
                assert(q[i] == o[j]);
                assert(o[j] != idx);
            }
        }
    }

    /// The node at place `p` unlinked, which left the cells `mid`, its cell
    /// vacated and put on the free list, its key struck from the index.
    proof fn lemma_removed(
        before: Self,
        mid: Seq<Slot<K, V>>,
        after: Self,
        o: Seq<usize>,
        p: int,
    )
        requires
            before.wf_at(o),
            0 <= p < o.len(),
            linked(mid, after.head, after.tail, o.remove(p)),
            !o.remove(p).contains(o[p]),
            same_pairs(before.slots@, mid),
            after.slots@.len() == mid.len(),
            forall|i: int|
                0 <= i < mid.len() && i != o[p] ==> #[trigger] after.slots@[i] == mid[i],
            after.slots@[o[p] as int].key is None,
            after.slots@[o[p] as int].value is None,
            after.free@ == before.free@.push(o[p]),
            after.index@ == before.index@.remove(before.slots@[o[p] as int].key->0),
            after.len == before.len - 1,
            room::settled(&after.slots),
        ensures
            after.wf(),
            after.order() == o.remove(p),
            after@ == before@.remove(p),
    {
        let q = o.remove(p);
        let key = before.slots@[o[p] as int].key->0;
        assert forall|i: int| 0 <= i < q.len() implies #[trigger] q[i] == o[if i < p {
            i
        } else {
            i + 1
        }] by {}
        assert forall|i: int| 0 <= i < q.len() implies {
            &&& #[trigger] q[i] < after.slots@.len()
            &&& after.slots@[q[i] as int].key is Some
            &&& after.slots@[q[i] as int].value is Some
            &&& after.index@.contains_key(after.slots@[q[i] as int].key->0)
            &&& after.index@[after.slots@[q[i] as int].key->0] == q[i]
        } by {
            let j = if i < p { i } else { i + 1 };
            assert(q[i] == o[j]);
            assert(o[j] != o[p]);
            assert(o[j] < before.slots@.len());
            assert(before.index@[before.slots@[o[j] as int].key->0] == o[j]);
            assert(before.index@[before.slots@[o[p] as int].key->0] == o[p]);
        }
        assert forall|i: int| 0 <= i < q.len() implies #[trigger] node_linked(
            after.slots@,
            q,
            i,
        ) by {
            assert(node_linked(mid, q, i));
            assert(q[i] < mid.len());
            assert(q[i] != o[p]);
        }
        assert forall|k: K| #[trigger] after.index@.contains_key(k) implies {
            &&& q.contains(after.index@[k])
            &&& after.slots@[after.index@[k] as int].key == Some(k)
        } by {
            assert(before.index@.contains_key(k));
            let j = choose|j: int| 0 <= j < o.len() && o[j] == before.index@[k];
            assert(o.contains(before.index@[k]));
            assert(o[j] < before.slots@.len());
            assert(j != p);
            assert(q[if j < p { j } else { j - 1 }] == o[j]);
        }
        assert forall|i: int| 0 <= i < after.free@.len() implies {
            &&& #[trigger] after.free@[i] < after.slots@.len()
            &&& after.slots@[after.free@[i] as int].key is None
            &&& after.slots@[after.free@[i] as int].value is None
        } by {
            if i < before.free@.len() {
                assert(after.free@[i] == before.free@[i]);
            }
        }
        assert(after.free@.no_duplicates()) by {
            assert forall|i: int| 0 <= i < before.free@.len() implies #[trigger] before.free@[i]
                != o[p] by {
                assert(before.slots@[o[p] as int].key is Some);
            }
        }
        assert(after.wf_at(q));
        before.lemma_order(o);
        after.lemma_settled();
        after.lemma_order(q);
        assert forall|i: int| 0 <= i < q.len() implies after@[i] == before@.remove(p)[i] by {
            let j = if i < p { i } else { i + 1 };
            assert(q[i] == o[j]);
            assert(o[j] != o[p]);
            assert(o[j] < before.slots@.len());
        }
        assert(after@ =~= before@.remove(p));
    }

    /// The node at place `p` linked in again at place `r` of the others, with
    /// the value `value`.
    proof fn lemma_moved(before: Self, after: Self, o: Seq<usize>, p: int, r: int, value: V)
        requires
            before.wf_at(o),
            0 <= p < o.len(),
            0 <= r < o.len(),
            linked(after.slots@, after.head, after.tail, o.remove(p).insert(r, o[p])),
            after.slots@.len() == before.slots@.len(),
            forall|i: int|
                0 <= i < before.slots@.len() ==> {
                    &&& (#[trigger] after.slots@[i]).key == before.slots@[i].key
                    &&& i != o[p] ==> after.slots@[i].value == before.slots@[i].value
                },
            after.slots@[o[p] as int].value == Some(value),
            after.free@ == before.free@,
            after.index@ == before.index@,
            after.len == before.len,
            room::settled(&after.slots),
        ensures
            after.wf(),
            after@ == before@.remove(p).insert(r, (before@[p].0, value)),
    {
        let m = o.remove(p);
        let q = m.insert(r, o[p]);
        assert forall|i: int| 0 <= i < q.len() && i != r implies #[trigger] q[i] == o[source(
            p,
            r,
            i,
        )] by {}
        assert(q[r] == o[p]);
        assert forall|i: int| 0 <= i < q.len() implies {
            &&& #[trigger] q[i] < after.slots@.len()
            &&& after.slots@[q[i] as int].key is Some
            &&& after.slots@[q[i] as int].value is Some
            &&& after.index@.contains_key(after.slots@[q[i] as int].key->0)
            &&& after.index@[after.slots@[q[i] as int].key->0] == q[i]
        } by {
            let j = if i == r { p } else { source(p, r, i) };
            assert(q[i] == o[j]);
            assert(before.slots@[o[j] as int].key is Some);
        }
        assert forall|k: K| #[trigger] after.index@.contains_key(k) implies {
            &&& q.contains(after.index@[k])
            &&& after.slots@[after.index@[k] as int].key == Some(k)
        } by {
            assert(before.index@.contains_key(k));
            let j = choose|j: int| 0 <= j < o.len() && o[j] == before.index@[k];
            assert(o.contains(before.index@[k]));
            assert(o[j] < before.slots@.len());
            if j == p {
                assert(q[r] == o[j]);
            } else {
                let a = if j < p { j } else { j - 1 };
                let b = if a < r { a } else { a + 1 };
                assert(m[a] == o[j]);
                assert(q[b] == o[j]);
            }
        }
        assert forall|i: int| 0 <= i < after.free@.len() implies {
            &&& #[trigger] after.free@[i] < after.slots@.len()
            &&& after.slots@[after.free@[i] as int].key is None
            &&& after.slots@[after.free@[i] as int].value is None
        } by {
            assert(before.free@[i] < before.slots@.len());
            assert(before.slots@[o[p] as int].key is Some);
        }
        assert(after.wf_at(q));
        before.lemma_order(o);
        after.lemma_settled();
        after.lemma_order(q);
        let target = before@.remove(p).insert(r, (before@[p].0, value));
        assert forall|i: int| 0 <= i < q.len() implies after@[i] == target[i] by {
            if i != r {
                let j = source(p, r, i);
                assert(q[i] == o[j]);
                assert(o[j] != o[p]);
                assert(target[i] == before@[j]);
            }
        }
        assert(after@ =~= target);
    }
}

/// Where the element at place `i` stood before the one at place `p` moved to
/// place `r`.
spec fn source(p: int, r: int, i: int) -> int {
    let a = if i < r { i } else { i - 1 };
    if a < p {
        a
    } else {
        a + 1
    }
}

impl<K, V> View for LinkedQueue<K, V> {
    type V = Seq<(K, V)>;

    /// The pairs of the queue, head first.
    closed spec fn view(&self) -> Seq<(K, V)> {
        entries(self.slots@, self.order())
    }
}

} // verus!
