//! A queue run side by side with a plain double-ended queue of pairs that
//! serves as its oracle.
use std::collections::VecDeque;
use vstd::prelude::*;

use crate::error::InsertError;
use crate::laws;
use crate::model;
use crate::queue::LinkedQueue;

verus! {

/// One operation of a run. Keys are masked into a small domain first, so that
/// they meet often.
#[derive(Debug, Clone, Copy, PartialEq, Eq)]
pub enum Op {
    PushBack(u8, u16),
    PushFront(u8, u16),
    TryPushBack(u8, u16),
    TryPushFront(u8, u16),
    PopFront,
    PopBack,
    Remove(u8),
    MoveToBack(u8),
    MoveToFront(u8),
    /// Splices behind the element at the front, if there is one.
    InsertAfterFront(u8, u16),
    /// Splices in front of the element at the back, if there is one.
    InsertBeforeBack(u8, u16),
    /// Overwrites a value in place.
    GetMutSet(u8, u16),
    /// Only looks.
    Probe(u8),
}

/// The key that stands for `k`.
pub open spec fn masked(k: u8) -> u8 {
    (k % 16) as u8
}

/// What an operation makes of the elements `s`.
pub open spec fn stepped(s: Seq<(u8, u16)>, op: Op) -> Seq<(u8, u16)> {
    match op {
        Op::PushBack(k, v) => model::pushed_back(s, masked(k), v),
        Op::PushFront(k, v) => model::pushed_front(s, masked(k), v),
        Op::TryPushBack(k, v) => if model::has_key(s, masked(k)) {
            s
        } else {
            s.push((masked(k), v))
        },
        Op::TryPushFront(k, v) => if model::has_key(s, masked(k)) {
            s
        } else {
            s.insert(0, (masked(k), v))
        },
        Op::PopFront => if s.len() == 0 {
            s
        } else {
            s.drop_first()
        },
        Op::PopBack => if s.len() == 0 {
            s
        } else {
            s.drop_last()
        },
        Op::Remove(k) => model::without(s, masked(k)),
        Op::MoveToBack(k) => model::moved_back(s, masked(k)),
        Op::MoveToFront(k) => model::moved_front(s, masked(k)),
        Op::InsertAfterFront(k, v) => if s.len() == 0 || model::has_key(s, masked(k)) {
            s
        } else {
            s.insert(1, (masked(k), v))
        },
        Op::InsertBeforeBack(k, v) => if s.len() == 0 || model::has_key(s, masked(k)) {
            s
        } else {
            s.insert(s.len() - 1, (masked(k), v))
        },
        Op::GetMutSet(k, v) => if model::has_key(s, masked(k)) {
            s.update(model::position(s, masked(k)), (masked(k), v))
        } else {
            s
        },
        Op::Probe(_) => s,
    }
}

/// What a run of operations makes of the elements `s`.
pub open spec fn replayed(s: Seq<(u8, u16)>, ops: Seq<Op>) -> Seq<(u8, u16)>
    decreases ops.len(),
{
    if ops.len() == 0 {
        s
    } else {
        stepped(replayed(s, ops.drop_last()), ops.last())
    }
}

/// The most elements that there ever are in a run on an empty queue.
pub open spec fn peak(ops: Seq<Op>) -> nat
    decreases ops.len(),
{
    if ops.len() == 0 {
        0
    } else {
        model::grown(peak(ops.drop_last()), replayed(Seq::empty(), ops).len())
    }
}

/// What an operation makes of a queue with the elements `s` beside an oracle
/// with the pairs `t`. A splice takes its anchor from the oracle.
pub open spec fn guided(s: Seq<(u8, u16)>, t: Seq<(u8, u16)>, op: Op) -> Seq<(u8, u16)> {
    match op {
        Op::InsertAfterFront(k, v) => if t.len() > 0 && !model::has_key(s, masked(k))
            && model::has_key(s, t.first().0) {
            model::inserted_after(s, t.first().0, masked(k), v)
        } else {
            s
        },
        Op::InsertBeforeBack(k, v) => if t.len() > 0 && !model::has_key(s, masked(k))
            && model::has_key(s, t.last().0) {
            model::inserted_before(s, t.last().0, masked(k), v)
        } else {
            s
        },
        _ => stepped(s, op),
    }
}

/// A queue with the elements `s` answers an operation as an oracle with the
/// pairs `t` does.
pub open spec fn same_answers(s: Seq<(u8, u16)>, t: Seq<(u8, u16)>, op: Op) -> bool {
    match op {
        Op::PushBack(k, _) | Op::PushFront(k, _) | Op::Remove(k) | Op::Probe(k) => {
            model::lookup(s, masked(k)) == model::lookup(t, masked(k))
        },
        Op::TryPushBack(k, _) | Op::TryPushFront(k, _) | Op::MoveToBack(k) | Op::MoveToFront(k)
        | Op::GetMutSet(k, _) => model::has_key(s, masked(k)) == model::has_key(t, masked(k)),
        Op::PopFront => {
            &&& (s.len() == 0) == (t.len() == 0)
            &&& s.len() > 0 ==> s.first() == t.first()
        },
        Op::PopBack => {
            &&& (s.len() == 0) == (t.len() == 0)
            &&& s.len() > 0 ==> s.last() == t.last()
        },
        Op::InsertAfterFront(k, _) => t.len() > 0 ==> {
            &&& model::has_key(s, masked(k)) == model::has_key(t, masked(k))
            &&& !model::has_key(s, masked(k)) ==> model::has_key(s, t.first().0)
        },
        Op::InsertBeforeBack(k, _) => t.len() > 0 ==> {
            &&& model::has_key(s, masked(k)) == model::has_key(t, masked(k))
            &&& !model::has_key(s, masked(k)) ==> model::has_key(s, t.last().0)
        },
    }
}

/// The keys are distinct and masked.
pub open spec fn in_domain(s: Seq<(u8, u16)>) -> bool {
    &&& model::keys_distinct(s)
    &&& forall|i: int| 0 <= i < s.len() ==> (#[trigger] s[i]).0 < 16
}

/// Place `p` is the first of `s` that holds the key `k`.
pub open spec fn is_first(s: Seq<(u8, u16)>, k: u8, p: int) -> bool {
    &&& 0 <= p < s.len()
    &&& s[p].0 == k
    &&& forall|i: int| 0 <= i < p ==> (#[trigger] s[i]).0 != k
}

/// Squeezes a key into a small domain.
pub fn mask(k: u8) -> (r: u8)
    ensures
        r == masked(k),
{
    k % 16
}

/// The first place of the oracle that holds the key `k`.
pub fn model_pos(m: &VecDeque<(u8, u16)>, k: u8) -> (pos: Option<usize>)
    ensures
        match pos {
            Some(p) => is_first(m@, k, p as int),
            None => !model::has_key(m@, k),
        },
{
    let mut p: usize = 0;
    while p < m.len()
        invariant
            p <= m@.len(),
            forall|i: int| 0 <= i < p ==> (#[trigger] m@[i]).0 != k,
        decreases m@.len() - p,
    {
        if m[p].0 == k {
            return Some(p);
        }
        p = p + 1;
    }
    None
}

/// Takes the first pair with the key `k` out of the oracle.
pub fn model_remove(m: &mut VecDeque<(u8, u16)>, k: u8) -> (removed: Option<u16>)
    ensures
        match removed {
            Some(v) => exists|p: int|
                {
                    &&& #[trigger] is_first(old(m)@, k, p)
                    &&& v == old(m)@[p].1
                    &&& final(m)@ == old(m)@.remove(p)
                },
            None => !model::has_key(old(m)@, k) && final(m)@ == old(m)@,
        },
        model::keys_distinct(old(m)@) ==> {
            &&& removed == model::lookup(old(m)@, k)
            &&& final(m)@ == model::without(old(m)@, k)
        },
{
    match model_pos(m, k) {
        Some(p) => {
            proof {
                if model::keys_distinct(m@) {
                    model::lemma_position(m@, p as int);
                }
                assert(m@[p as int].0 == k);
            }
            match m.remove(p) {
                Some(pair) => Some(pair.1),
                None => None,
            }
        },
        None => None,
    }
}

/// Whether an insertion was refused because of the key, with key and value
/// handed back.
fn is_duplicate(r: &Result<(), InsertError<u8, u16>>, k: u8, v: u16) -> (same: bool)
    ensures
        same == (*r == Err::<(), InsertError<u8, u16>>(
            InsertError::DuplicateKey { key: k, value: v },
        )),
{
    match r {
        Err(InsertError::DuplicateKey { key, value }) => *key == k && *value == v,
        _ => false,
    }
}

/// Performs `op` on the queue and on its oracle, and tells whether both gave
/// the same answers. Where they hold the same elements, they do, and go on to
/// hold the same elements. Where the answers differ, what becomes of the oracle
/// is left open.
pub fn apply(q: &mut LinkedQueue<u8, u16>, m: &mut VecDeque<(u8, u16)>, op: Op) -> (agreed: bool)
    requires
        old(q).wf(),
        model::keys_distinct(old(m)@),
    ensures
        agreed == same_answers(old(q)@, old(m)@, op),
        final(q).wf(),
        final(q)@ == guided(old(q)@, old(m)@, op),
        agreed ==> final(m)@ == stepped(old(m)@, op),
        final(q).slot_count() == model::grown(old(q).slot_count(), final(q)@.len()),
        old(q)@ == old(m)@ ==> {
            &&& agreed
            &&& final(q)@ == stepped(old(q)@, op)
            &&& final(m)@ == final(q)@
        },
{
    proof {
        q.lemma_keys_distinct();
        q.lemma_slot_count();
    }
    let ghost t = m@;
    match op {
        Op::PushBack(k, v) => {
            let k = mask(k);
            let previous = q.push_back(k, v);
            let removed = model_remove(m, k);
            m.push_back((k, v));
            previous == removed
        },
        Op::PushFront(k, v) => {
            let k = mask(k);
            let previous = q.push_front(k, v);
            let removed = model_remove(m, k);
            m.push_front((k, v));
            assert(m@ =~= stepped(t, op));
            previous == removed
        },
        Op::TryPushBack(k, v) => {
            let k = mask(k);
            let r = q.try_push_back(k, v);
            if model_pos(m, k).is_some() {
                is_duplicate(&r, k, v)
            } else {
                m.push_back((k, v));
                r.is_ok()
            }
        },
        Op::TryPushFront(k, v) => {
            let k = mask(k);
            let r = q.try_push_front(k, v);
            if model_pos(m, k).is_some() {
                is_duplicate(&r, k, v)
            } else {
                m.push_front((k, v));
                assert(m@ =~= stepped(t, op));
                r.is_ok()
            }
        },
        Op::PopFront => {
            let a = q.pop_front();
            let b = m.pop_front();
            assert(m@ =~= stepped(t, op));
            a == b
        },
        Op::PopBack => {
            let a = q.pop_back();
            let b = m.pop_back();
            assert(m@ =~= stepped(t, op));
            a == b
        },
        Op::Remove(k) => {
            let k = mask(k);
            q.remove(&k) == model_remove(m, k)
        },
        Op::MoveToBack(k) => {
            let k = mask(k);
            let moved = q.move_to_back(&k);
            match model_remove(m, k) {
                Some(value) => {
                    m.push_back((k, value));
                    moved
                },
                None => !moved,
            }
        },
        Op::MoveToFront(k) => {
            let k = mask(k);
            let moved = q.move_to_front(&k);
            match model_remove(m, k) {
                Some(value) => {
                    m.push_front((k, value));
                    assert(m@ =~= stepped(t, op));
                    moved
                },
                None => !moved,
            }
        },
        Op::InsertAfterFront(k, v) => {
            let k = mask(k);
            if m.len() == 0 {
                return true;
            }
            let anchor = m[0].0;
            proof {
                model::lemma_position(t, 0);
            }
            let r = q.insert_after(&anchor, k, v);
            if model_pos(m, k).is_some() {
                is_duplicate(&r, k, v)
            } else {
                m.insert(1, (k, v));
                r.is_ok()
            }
        },
        Op::InsertBeforeBack(k, v) => {
            let k = mask(k);
            if m.len() == 0 {
                return true;
            }
            let last = m.len() - 1;
            let anchor = m[last].0;
            proof {
                model::lemma_position(t, last as int);
            }
            let r = q.insert_before(&anchor, k, v);
            if model_pos(m, k).is_some() {
                is_duplicate(&r, k, v)
            } else {
                m.insert(last, (k, v));
                r.is_ok()
            }
        },
        Op::GetMutSet(k, v) => {
            let k = mask(k);
            match q.get_mut(&k) {
                Some(value) => {
                    *value = v;
                    match model_pos(m, k) {
                        Some(p) => {
                            proof {
                                model::lemma_position(t, p as int);
                            }
                            m.remove(p);
                            m.insert(p, (k, v));
                            assert(m@ =~= t.update(p as int, (k, v)));
                            true
                        },
                        None => false,
                    }
                },
                None => model_pos(m, k).is_none(),
            }
        },
        Op::Probe(k) => {
            let k = mask(k);
            let pos = model_pos(m, k);
            proof {
                if pos is Some {
                    model::lemma_position(t, pos->0 as int);
                }
            }
            let present = q.contains(&k);
            let value = match q.get(&k) {
                Some(v) => Some(*v),
                None => None,
            };
            let expected = match pos {
                Some(p) => Some(m[p].1),
                None => None,
            };
            present == pos.is_some() && value == expected
        },
    }
}

/// Whether the queue and its oracle hold the same elements, seen by their
/// number, from the head, from the tail, and at both ends.
pub fn check(q: &LinkedQueue<u8, u16>, m: &VecDeque<(u8, u16)>) -> (same: bool)
    requires
        q.wf(),
    ensures
        same == (q@ == m@),
{
    let n = m.len();
    if q.len() != n {
        return false;
    }
    let mut forward = q.iter();
    let mut backward = q.iter();
    let mut i: usize = 0;
    while i < n
        invariant
            q@.len() == n,
            m@.len() == n,
            i <= n,
            forward.rest() == q@.skip(i as int),
            backward.rest() == q@.take(n - i),
            forall|j: int| 0 <= j < i ==> #[trigger] q@[j] == m@[j],
        decreases n - i,
    {
        let a = forward.next();
        let b = backward.next_back();
        match (a, b) {
            (Some((k1, v1)), Some((k2, v2))) => {
                if *k1 != m[i].0 || *v1 != m[i].1 {
                    assert(q@[i as int] != m@[i as int]);
                    return false;
                }
                if *k2 != m[n - 1 - i].0 || *v2 != m[n - 1 - i].1 {
                    assert(q@[n - 1 - i] != m@[n - 1 - i]);
                    return false;
                }
            },
            _ => {
                return false;
            },
        }
        i = i + 1;
    }
    assert(q@ =~= m@);
    match (q.front(), q.back()) {
        (Some((k1, v1)), Some((k2, v2))) => n > 0 && *k1 == m[0].0 && *v1 == m[0].1 && *k2 == m[n
            - 1].0 && *v2 == m[n - 1].1,
        (None, None) => n == 0,
        _ => false,
    }
}

/// Performs the operations one after the other on an empty queue and its
/// oracle, and compares the two after each. Gives back the queue, or `None`
/// as soon as the two differ, which they never do.
pub fn run(ops: &Vec<Op>) -> (outcome: Option<LinkedQueue<u8, u16>>)
    ensures
        match outcome {
            Some(q) => {
                &&& q.wf()
                &&& q@ == replayed(Seq::empty(), ops@)
                &&& q.slot_count() == peak(ops@)
            },
            None => false,
        },
{
    let mut q: LinkedQueue<u8, u16> = LinkedQueue::new();
    let mut m: VecDeque<(u8, u16)> = VecDeque::new();
    let mut i: usize = 0;
    assert(ops@.take(0) =~= Seq::empty());
    while i < ops.len()
        invariant
            i <= ops@.len(),
            q.wf(),
            q@ == replayed(Seq::empty(), ops@.take(i as int)),
            q.slot_count() == peak(ops@.take(i as int)),
            m@ == q@,
        decreases ops@.len() - i,
    {
        assert(ops@.take(i + 1).drop_last() =~= ops@.take(i as int));
        proof {
            q.lemma_keys_distinct();
        }
        if !apply(&mut q, &mut m, ops[i]) {
            return None;
        }
        if !check(&q, &m) {
            return None;
        }
        i = i + 1;
    }
    assert(ops@.take(i as int) =~= ops@);
    Some(q)
}

/// However long a run is, a queue of masked keys holds at most as many
/// elements as there are such keys, and its arena never has more cells than
/// that.
pub proof fn law_run_is_bounded(ops: Seq<Op>)
    ensures
        in_domain(replayed(Seq::empty(), ops)),
        replayed(Seq::empty(), ops).len() <= 16,
        peak(ops) <= 16,
    decreases ops.len(),
{
    if ops.len() > 0 {
        law_run_is_bounded(ops.drop_last());
        lemma_stepped_in_domain(replayed(Seq::empty(), ops.drop_last()), ops.last());
    }
    lemma_domain_is_small(replayed(Seq::empty(), ops));
}

/// An operation keeps the keys distinct and masked.
proof fn lemma_stepped_in_domain(s: Seq<(u8, u16)>, op: Op)
    requires
        in_domain(s),
    ensures
        in_domain(stepped(s, op)),
{
    match op {
        Op::PushBack(k, v)
        | Op::PushFront(k, v)
        | Op::TryPushBack(k, v)
        | Op::TryPushFront(k, v)
        | Op::GetMutSet(k, v) => {
            lemma_write_in_domain(s, masked(k), v);
        },
        Op::Remove(k) => {
            lemma_write_in_domain(s, masked(k), 0);
        },
        Op::MoveToBack(k) | Op::MoveToFront(k) => {
            if let Some(v) = model::lookup(s, masked(k)) {
                lemma_write_in_domain(s, masked(k), v);
            }
        },
        Op::InsertAfterFront(k, v) => {
            if s.len() > 0 && !model::has_key(s, masked(k)) {
                model::lemma_position(s, 0);
                lemma_splice_in_domain(s, s.first().0, masked(k), v);
            }
        },
        Op::InsertBeforeBack(k, v) => {
            if s.len() > 0 && !model::has_key(s, masked(k)) {
                model::lemma_position(s, s.len() - 1);
                lemma_splice_in_domain(s, s.last().0, masked(k), v);
            }
        },
        Op::PopFront | Op::PopBack | Op::Probe(_) => {},
    }
}

/// Pushing, changing or removing a masked key keeps the keys distinct and
/// masked.
proof fn lemma_write_in_domain(s: Seq<(u8, u16)>, k: u8, v: u16)
    requires
        in_domain(s),
        k < 16,
    ensures
        in_domain(model::without(s, k)),
        in_domain(model::pushed_back(s, k, v)),
        in_domain(model::pushed_front(s, k, v)),
        model::has_key(s, k) ==> in_domain(s.update(model::position(s, k), (k, v))),
{
    laws::law_keys_stay_distinct(s, k, v);
    let m = model::without(s, k);
    if model::has_key(s, k) {
        let p = model::position(s, k);
        assert(0 <= p < s.len() && s[p].0 == k);
        assert forall|i: int| 0 <= i < m.len() implies (#[trigger] m[i]).0 < 16 by {
            assert(m[i] == s[if i < p { i } else { i + 1 }]);
        }
        let u = s.update(p, (k, v));
        assert forall|i: int| 0 <= i < u.len() implies (#[trigger] u[i]).0 == s[i].0 by {}
    }
}

/// Splicing a masked key in keeps the keys distinct and masked.
proof fn lemma_splice_in_domain(s: Seq<(u8, u16)>, anchor: u8, k: u8, v: u16)
    requires
        in_domain(s),
        k < 16,
        model::has_key(s, anchor),
        !model::has_key(s, k),
    ensures
        in_domain(model::inserted_after(s, anchor, k, v)),
        in_domain(model::inserted_before(s, anchor, k, v)),
{
    laws::law_splice_is_adjacent(s, anchor, k, v);
    let p = model::position(s, anchor);
    assert(0 <= p < s.len() && s[p].0 == anchor);
}

/// There are no more distinct masked keys than masked keys.
proof fn lemma_domain_is_small(s: Seq<(u8, u16)>)
    requires
        in_domain(s),
    ensures
        s.len() <= 16,
{
    let keys = Seq::new(s.len(), |i: int| s[i].0 as int);
    assert(keys.no_duplicates());
    keys.unique_seq_to_set();
    vstd::set_lib::lemma_int_range(0, 16);
    let all = vstd::set_lib::set_int_range(0, 16);
    assert(keys.to_set().subset_of(all)) by {
        assert forall|k: int| keys.to_set().contains(k) implies all.contains(k) by {
            let i = choose|i: int| 0 <= i < keys.len() && keys[i] == k;
            assert(s[i].0 < 16);
        }
    }
    vstd::set_lib::lemma_len_subset(keys.to_set(), all);
}

} // verus!
