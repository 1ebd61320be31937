//! Laws of a queue: what holds between its operations, whatever it holds.
//!
//! They are stated over the sequences that the operations' contracts speak of.
use std::hash::Hash;
use vstd::prelude::*;
use vstd::std_specs::cmp::PartialEqSpec;
use vstd::std_specs::iter::IteratorSpec;

use crate::model;
use crate::queue::{Drain, LinkedQueue};

verus! {

/// Each key occurs at most once in a queue, and each element has a cell of the
/// arena.
pub proof fn law_keys_are_unique<K, V>(q: LinkedQueue<K, V>)
    requires
        q.wf(),
    ensures
        model::keys_distinct(q@),
        q@.len() <= q.slot_count(),
{
    q.lemma_keys_distinct();
    q.lemma_slot_count();
}

/// Every edit of a sequence with distinct keys gives a sequence with distinct
/// keys.
pub proof fn law_keys_stay_distinct<K, V>(s: Seq<(K, V)>, k: K, v: V)
    requires
        model::keys_distinct(s),
    ensures
        model::keys_distinct(model::without(s, k)),
        model::keys_distinct(model::pushed_back(s, k, v)),
        model::keys_distinct(model::pushed_front(s, k, v)),
        model::keys_distinct(model::moved_back(s, k)),
        model::keys_distinct(model::moved_front(s, k)),
{
    lemma_without(s, k);
    assert forall|w: V| model::keys_distinct(#[trigger] model::pushed_back(s, k, w)) by {
        lemma_pushed_back(s, k, w);
    }
    assert forall|w: V| model::keys_distinct(#[trigger] model::pushed_front(s, k, w)) by {
        lemma_pushed_front(s, k, w);
    }
}

/// Splicing a new key next to an anchor keeps the keys distinct and puts the
/// new element right next to the anchor.
pub proof fn law_splice_is_adjacent<K, V>(s: Seq<(K, V)>, anchor: K, k: K, v: V)
    requires
        model::keys_distinct(s),
        model::has_key(s, anchor),
        !model::has_key(s, k),
    ensures
        ({
            let t = model::inserted_after(s, anchor, k, v);
            &&& model::keys_distinct(t)
            &&& model::has_key(t, k) && model::has_key(t, anchor)
            &&& model::position(t, k) == model::position(t, anchor) + 1
        }),
        ({
            let t = model::inserted_before(s, anchor, k, v);
            &&& model::keys_distinct(t)
            &&& model::has_key(t, k) && model::has_key(t, anchor)
            &&& model::position(t, k) + 1 == model::position(t, anchor)
        }),
{
    let p = model::position(s, anchor);
    assert(0 <= p < s.len() && s[p].0 == anchor);
    lemma_inserted(s, p + 1, k, v);
    let t = model::inserted_after(s, anchor, k, v);
    model::lemma_position(t, p);
    model::lemma_position(t, p + 1);
    lemma_inserted(s, p, k, v);
    let u = model::inserted_before(s, anchor, k, v);
    model::lemma_position(u, p);
    model::lemma_position(u, p + 1);
}

/// What was written last under a key is what is read under it.
pub proof fn law_read_back<K, V>(s: Seq<(K, V)>, k: K, v: V)
    requires
        model::keys_distinct(s),
    ensures
        model::lookup(model::pushed_back(s, k, v), k) == Some(v),
        model::lookup(model::pushed_front(s, k, v), k) == Some(v),
        model::lookup(model::without(s, k), k) == None::<V>,
        model::has_key(s, k) ==> model::lookup(
            s.update(model::position(s, k), (k, v)),
            k,
        ) == Some(v),
        !model::has_key(s, k) ==> forall|anchor: K| #[trigger]
            model::has_key(s, anchor) ==> {
                &&& model::lookup(model::inserted_after(s, anchor, k, v), k) == Some(v)
                &&& model::lookup(model::inserted_before(s, anchor, k, v), k) == Some(v)
            },
{
    lemma_without(s, k);
    lemma_pushed_back(s, k, v);
    lemma_pushed_front(s, k, v);
    let b = model::pushed_back(s, k, v);
    model::lemma_position(b, b.len() - 1);
    model::lemma_position(model::pushed_front(s, k, v), 0);
    if model::has_key(s, k) {
        let p = model::position(s, k);
        assert(0 <= p < s.len() && s[p].0 == k);
        let t = s.update(p, (k, v));
        assert(model::keys_distinct(t)) by {
            assert forall|i: int| 0 <= i < t.len() implies (#[trigger] t[i]).0 == s[i].0 by {}
        }
        model::lemma_position(t, p);
    } else {
        assert forall|anchor: K| #[trigger] model::has_key(s, anchor) implies {
            &&& model::lookup(model::inserted_after(s, anchor, k, v), k) == Some(v)
            &&& model::lookup(model::inserted_before(s, anchor, k, v), k) == Some(v)
        } by {
            let p = model::position(s, anchor);
            assert(0 <= p < s.len() && s[p].0 == anchor);
            lemma_inserted(s, p + 1, k, v);
            lemma_inserted(s, p, k, v);
            model::lemma_position(s.insert(p + 1, (k, v)), p + 1);
            model::lemma_position(s.insert(p, (k, v)), p);
        }
    }
}

/// An edit under one key changes nothing that is read under another.
pub proof fn law_other_keys_untouched<K, V>(s: Seq<(K, V)>, k: K, v: V, other: K)
    requires
        model::keys_distinct(s),
        other != k,
    ensures
        model::lookup(model::pushed_back(s, k, v), other) == model::lookup(s, other),
        model::lookup(model::pushed_front(s, k, v), other) == model::lookup(s, other),
        model::lookup(model::without(s, k), other) == model::lookup(s, other),
        model::has_key(s, k) ==> model::lookup(
            s.update(model::position(s, k), (k, v)),
            other,
        ) == model::lookup(s, other),
        !model::has_key(s, k) ==> forall|anchor: K| #[trigger]
            model::has_key(s, anchor) ==> {
                &&& model::lookup(model::inserted_after(s, anchor, k, v), other)
                    == model::lookup(s, other)
                &&& model::lookup(model::inserted_before(s, anchor, k, v), other)
                    == model::lookup(s, other)
            },
{
    lemma_without(s, k);
    let m = model::without(s, k);
    assert(!model::has_key(m, k));
    lemma_pushed_back(s, k, v);
    lemma_pushed_front(s, k, v);
    lemma_lookup_without(s, k, other);
    lemma_lookup_inserted(m, m.len() as int, k, v, other);
    assert(m.insert(m.len() as int, (k, v)) =~= m.push((k, v)));
    lemma_lookup_inserted(m, 0, k, v, other);
    if model::has_key(s, k) {
        let p = model::position(s, k);
        assert(0 <= p < s.len() && s[p].0 == k);
        let t = s.update(p, (k, v));
        assert forall|i: int| 0 <= i < t.len() implies (#[trigger] t[i]).0 == s[i].0 by {}
        if model::has_key(s, other) {
            let i = model::position(s, other);
            assert(0 <= i < s.len() && s[i].0 == other);
            model::lemma_position(t, i);
        }
        if model::has_key(t, other) {
            let i = model::position(t, other);
            assert(0 <= i < t.len() && t[i].0 == other);
            assert(s[i].0 == other);
        }
    } else {
        assert forall|anchor: K| #[trigger] model::has_key(s, anchor) implies {
            &&& model::lookup(model::inserted_after(s, anchor, k, v), other) == model::lookup(
                s,
                other,
            )
            &&& model::lookup(model::inserted_before(s, anchor, k, v), other) == model::lookup(
                s,
                other,
            )
        } by {
            let p = model::position(s, anchor);
            assert(0 <= p < s.len() && s[p].0 == anchor);
            lemma_lookup_inserted(s, p + 1, k, v, other);
            lemma_lookup_inserted(s, p, k, v, other);
        }
    }
}

/// How long the sequences are that the edits make.
pub proof fn law_lengths<K, V>(s: Seq<(K, V)>, k: K, v: V)
    ensures
        model::without(s, k).len() == s.len() - if model::has_key(s, k) { 1int } else { 0 },
        model::pushed_back(s, k, v).len() == model::without(s, k).len() + 1,
        model::pushed_front(s, k, v).len() == model::without(s, k).len() + 1,
        model::moved_back(s, k).len() == s.len(),
        model::moved_front(s, k).len() == s.len(),
{
    if model::has_key(s, k) {
        let p = model::position(s, k);
        assert(0 <= p < s.len() && s[p].0 == k);
    }
}

/// A new key is pushed as at the end of any queue, and removing it again
/// gives back what was there.
pub proof fn law_remove_undoes_insertion<K, V>(s: Seq<(K, V)>, k: K, v: V)
    requires
        model::keys_distinct(s),
        !model::has_key(s, k),
    ensures
        model::pushed_back(s, k, v) == s.push((k, v)),
        model::pushed_front(s, k, v) == s.insert(0, (k, v)),
        model::without(model::pushed_back(s, k, v), k) == s,
        model::without(model::pushed_front(s, k, v), k) == s,
        forall|anchor: K| #[trigger]
            model::has_key(s, anchor) ==> {
                &&& model::without(model::inserted_after(s, anchor, k, v), k) == s
                &&& model::without(model::inserted_before(s, anchor, k, v), k) == s
            },
{
    lemma_without_inserted(s, s.len() as int, k, v);
    assert(s.insert(s.len() as int, (k, v)) =~= s.push((k, v)));
    lemma_without_inserted(s, 0, k, v);
    assert forall|anchor: K| #[trigger] model::has_key(s, anchor) implies {
        &&& model::without(model::inserted_after(s, anchor, k, v), k) == s
        &&& model::without(model::inserted_before(s, anchor, k, v), k) == s
    } by {
        let p = model::position(s, anchor);
        assert(0 <= p < s.len() && s[p].0 == anchor);
        lemma_without_inserted(s, p + 1, k, v);
        lemma_without_inserted(s, p, k, v);
    }
}

/// What was pushed at an end is what is popped there next, and the rest is
/// what was there without the key.
pub proof fn law_pop_undoes_push<K, V>(s: Seq<(K, V)>, k: K, v: V)
    ensures
        model::pushed_back(s, k, v).last() == (k, v),
        model::pushed_back(s, k, v).drop_last() == model::without(s, k),
        model::pushed_front(s, k, v).first() == (k, v),
        model::pushed_front(s, k, v).drop_first() == model::without(s, k),
{
    let m = model::without(s, k);
    assert(model::pushed_back(s, k, v).drop_last() =~= m);
    assert(model::pushed_front(s, k, v).drop_first() =~= m);
}

/// First in, first out: pairs with new keys, pushed one after the other at the
/// tail, stand behind what was there in the order in which they came.
pub proof fn law_fifo<K, V>(s: Seq<(K, V)>, items: Seq<(K, V)>)
    requires
        model::keys_distinct(s + items),
    ensures
        model::extended(s, items) == s + items,
    decreases items.len(),
{
    let all = s + items;
    if items.len() > 0 {
        let (k, v) = items[0];
        assert(all[s.len() as int] == items[0]);
        assert forall|i: int| 0 <= i < s.len() implies (#[trigger] s[i]).0 != k by {
            assert(all[i] == s[i]);
        }
        assert(!model::has_key(s, k));
        let t = s.push((k, v));
        assert(t + items.drop_first() =~= all);
        law_fifo(t, items.drop_first());
    } else {
        assert(all =~= s);
    }
}

/// The elements of a queue, taken out in order and pushed into an empty queue,
/// make an equal queue.
pub proof fn law_refill<K, V>(q: LinkedQueue<K, V>)
    requires
        q.wf(),
    ensures
        model::extended(Seq::empty(), q@) == q@,
{
    q.lemma_keys_distinct();
    assert(Seq::<(K, V)>::empty() + q@ =~= q@);
    law_fifo(Seq::empty(), q@);
}

/// Of several pairs with one key, pushed one after the other, the last one
/// wins.
pub proof fn law_last_value_wins<K, V>(s: Seq<(K, V)>, items: Seq<(K, V)>, i: int)
    requires
        model::keys_distinct(s),
        0 <= i < items.len(),
        forall|j: int| i < j < items.len() ==> (#[trigger] items[j]).0 != items[i].0,
    ensures
        model::lookup(model::extended(s, items), items[i].0) == Some(items[i].1),
        model::extended(s, items).last() == items.last(),
    decreases items.len(),
{
    let t = model::pushed_back(s, items[0].0, items[0].1);
    let rest = items.drop_first();
    lemma_pushed_back(s, items[0].0, items[0].1);
    law_read_back(s, items[0].0, items[0].1);
    assert(t.last() == items[0]);
    if i == 0 {
        assert forall|j: int| 0 <= j < rest.len() implies (#[trigger] rest[j]).0 != items[0].0 by {
            assert(rest[j] == items[j + 1]);
        }
        law_extend_keeps_others(t, rest, items[0].0);
        if rest.len() > 0 {
            law_last_value_wins(t, rest, rest.len() - 1);
        }
    } else {
        assert(rest[i - 1] == items[i]);
        assert forall|j: int| i - 1 < j < rest.len() implies (#[trigger] rest[j]).0 != rest[i
            - 1].0 by {
            assert(rest[j] == items[j + 1]);
        }
        law_last_value_wins(t, rest, i - 1);
    }
}

/// Pushing pairs leaves the values of all other keys alone, and the keys
/// distinct.
pub proof fn law_extend_keeps_others<K, V>(s: Seq<(K, V)>, items: Seq<(K, V)>, k: K)
    requires
        model::keys_distinct(s),
        forall|i: int| 0 <= i < items.len() ==> (#[trigger] items[i]).0 != k,
    ensures
        model::keys_distinct(model::extended(s, items)),
        model::lookup(model::extended(s, items), k) == model::lookup(s, k),
    decreases items.len(),
{
    if items.len() > 0 {
        let rest = items.drop_first();
        lemma_pushed_back(s, items[0].0, items[0].1);
        law_other_keys_untouched(s, items[0].0, items[0].1, k);
        assert forall|j: int| 0 <= j < rest.len() implies (#[trigger] rest[j]).0 != k by {
            assert(rest[j] == items[j + 1]);
        }
        law_extend_keeps_others(model::pushed_back(s, items[0].0, items[0].1), rest, k);
    }
}

/// Pushing pairs one after the other at the tail puts them behind the elements
/// there were, and then leaves of each key its last pair only.
pub proof fn law_extend_keeps_the_last<K, V>(s: Seq<(K, V)>, items: Seq<(K, V)>)
    requires
        model::keys_distinct(s),
    ensures
        model::extended(s, items) == model::last_of_each_key(s + items),
    decreases items.len(),
{
    if items.len() == 0 {
        assert(s + items =~= s);
        lemma_last_of_distinct(s);
    } else {
        let (k, v) = items[0];
        let rest = items.drop_first();
        let t = model::pushed_back(s, k, v);
        lemma_pushed_back(s, k, v);
        law_extend_keeps_the_last(t, rest);
        let all = s + items;
        if model::has_key(s, k) {
            let p = model::position(s, k);
            assert(0 <= p < s.len() && s[p].0 == k);
            assert(all[s.len() as int] == items[0]);
            assert(all[p] == s[p]);
            lemma_last_without(all, p, s.len() as int);
            assert(all.remove(p) =~= t + rest);
        } else {
            assert(all =~= t + rest);
        }
    }
}

/// No edit under one key changes the order in which the others stand.
pub proof fn law_order_of_others_kept<K, V>(s: Seq<(K, V)>, k: K, v: V, a: K, b: K)
    requires
        model::keys_distinct(s),
        a != k,
        b != k,
        model::has_key(s, a),
        model::has_key(s, b),
        model::position(s, a) < model::position(s, b),
    ensures
        stands_before(model::without(s, k), a, b),
        stands_before(model::pushed_back(s, k, v), a, b),
        stands_before(model::pushed_front(s, k, v), a, b),
        stands_before(model::moved_back(s, k), a, b),
        stands_before(model::moved_front(s, k), a, b),
        !model::has_key(s, k) ==> forall|anchor: K| #[trigger]
            model::has_key(s, anchor) ==> {
                &&& stands_before(model::inserted_after(s, anchor, k, v), a, b)
                &&& stands_before(model::inserted_before(s, anchor, k, v), a, b)
            },
{
    let m = model::without(s, k);
    lemma_without(s, k);
    lemma_position_without(s, k, a);
    lemma_position_without(s, k, b);
    assert forall|w: V| stands_before(#[trigger] model::pushed_back(s, k, w), a, b) by {
        lemma_position_inserted(m, m.len() as int, k, w, a);
        lemma_position_inserted(m, m.len() as int, k, w, b);
        assert(m.insert(m.len() as int, (k, w)) =~= m.push((k, w)));
    }
    assert forall|w: V| stands_before(#[trigger] model::pushed_front(s, k, w), a, b) by {
        lemma_position_inserted(m, 0, k, w, a);
        lemma_position_inserted(m, 0, k, w, b);
    }
    if !model::has_key(s, k) {
        assert forall|anchor: K| #[trigger] model::has_key(s, anchor) implies {
            &&& stands_before(model::inserted_after(s, anchor, k, v), a, b)
            &&& stands_before(model::inserted_before(s, anchor, k, v), a, b)
        } by {
            let p = model::position(s, anchor);
            assert(0 <= p < s.len() && s[p].0 == anchor);
            lemma_position_inserted(s, p + 1, k, v, a);
            lemma_position_inserted(s, p + 1, k, v, b);
            lemma_position_inserted(s, p, k, v, a);
            lemma_position_inserted(s, p, k, v, b);
        }
    }
}

/// Least recently used: pushing at the tail leaves the element at the head,
/// the oldest, where it is, unless it is the one that is touched; then the
/// next oldest is at the head.
pub proof fn law_touch_spares_the_oldest<K, V>(s: Seq<(K, V)>, k: K, v: V)
    requires
        model::keys_distinct(s),
        s.len() > 0,
    ensures
        s[0].0 != k ==> model::pushed_back(s, k, v).first() == s.first(),
        s[0].0 == k && s.len() > 1 ==> model::pushed_back(s, k, v).first() == s[1],
        model::pushed_back(s, k, v).last() == (k, v),
        s[0].0 != k ==> model::moved_back(s, k).first() == s.first(),
        model::has_key(s, k) ==> model::moved_back(s, k).last() == s[model::position(s, k)],
{
    if model::has_key(s, k) {
        let p = model::position(s, k);
        assert(0 <= p < s.len() && s[p].0 == k);
        if s[0].0 == k {
            model::lemma_position(s, 0);
        }
    }
}

/// Moving an element changes no value, and does nothing more when done again.
pub proof fn law_move_keeps_values<K, V>(s: Seq<(K, V)>, k: K, any: K)
    requires
        model::keys_distinct(s),
    ensures
        model::lookup(model::moved_back(s, k), any) == model::lookup(s, any),
        model::lookup(model::moved_front(s, k), any) == model::lookup(s, any),
        model::moved_back(model::moved_back(s, k), k) == model::moved_back(s, k),
        model::moved_front(model::moved_front(s, k), k) == model::moved_front(s, k),
{
    if let Some(v) = model::lookup(s, k) {
        law_read_back(s, k, v);
        if any != k {
            law_other_keys_untouched(s, k, v, any);
        }
        lemma_without(s, k);
        let m = model::without(s, k);
        lemma_without_inserted(m, m.len() as int, k, v);
        assert(m.insert(m.len() as int, (k, v)) =~= m.push((k, v)));
        lemma_without_inserted(m, 0, k, v);
    }
}

/// The operations at the head are those at the tail seen from the other end.
pub proof fn law_mirror<K, V>(s: Seq<(K, V)>, k: K, v: V)
    requires
        model::keys_distinct(s),
    ensures
        model::pushed_front(s, k, v) == model::pushed_back(s.reverse(), k, v).reverse(),
        model::moved_front(s, k) == model::moved_back(s.reverse(), k).reverse(),
        forall|anchor: K| #[trigger]
            model::has_key(s, anchor) ==> model::inserted_before(s, anchor, k, v)
                == model::inserted_after(s.reverse(), anchor, k, v).reverse(),
{
    let r = s.reverse();
    lemma_reverse(s, k);
    assert(model::without(r, k) =~= model::without(s, k).reverse());
    assert forall|w: V| #[trigger] model::pushed_front(s, k, w) == model::pushed_back(
        r,
        k,
        w,
    ).reverse() by {
        assert(model::pushed_front(s, k, w) =~= model::pushed_back(r, k, w).reverse());
    }
    if !model::has_key(s, k) {
        assert(s =~= r.reverse());
    }
    assert forall|anchor: K| #[trigger] model::has_key(s, anchor) implies model::inserted_before(
        s,
        anchor,
        k,
        v,
    ) == model::inserted_after(r, anchor, k, v).reverse() by {
        lemma_reverse(s, anchor);
        let p = model::position(s, anchor);
        assert(0 <= p < s.len() && s[p].0 == anchor);
        assert(model::inserted_before(s, anchor, k, v) =~= model::inserted_after(
            r,
            anchor,
            k,
            v,
        ).reverse());
    }
}

/// Retaining by a predicate is filtering by it: the elements that meet it
/// stay, in their order.
pub proof fn law_retained_is_filtered<K, V>(
    s: Seq<(K, V)>,
    keep: Seq<bool>,
    wanted: spec_fn((K, V)) -> bool,
)
    requires
        keep.len() == s.len(),
        forall|i: int| 0 <= i < s.len() ==> #[trigger] keep[i] == wanted(s[i]),
    ensures
        model::retained(s, keep) == s.filter(wanted),
    decreases s.len(),
{
    reveal(Seq::filter);
    if s.len() > 0 {
        assert forall|i: int| 0 <= i < s.len() - 1 implies #[trigger] keep.drop_last()[i]
            == wanted(s.drop_last()[i]) by {
            assert(keep[i] == wanted(s[i]));
        }
        law_retained_is_filtered(s.drop_last(), keep.drop_last(), wanted);
    }
}

/// Retaining keeps the keys distinct, and a key is there afterwards if and
/// only if its element was to be kept, with its value.
pub proof fn law_retained_keys<K, V>(s: Seq<(K, V)>, keep: Seq<bool>, i: int)
    requires
        model::keys_distinct(s),
        keep.len() == s.len(),
        0 <= i < s.len(),
    ensures
        model::keys_distinct(model::retained(s, keep)),
        model::lookup(model::retained(s, keep), s[i].0) == if keep[i] {
            Some(s[i].1)
        } else {
            None
        },
{
    lemma_retained(s, keep);
    let r = model::retained(s, keep);
    let k = s[i].0;
    if keep[i] {
        assert(r.contains(s[i]));
        let j = choose|j: int| 0 <= j < r.len() && r[j] == s[i];
        model::lemma_position(r, j);
    } else if model::has_key(r, k) {
        let j = model::position(r, k);
        assert(0 <= j < r.len() && r[j].0 == k);
        assert(r.contains(r[j]));
        let p = choose|p: int| 0 <= p < s.len() && keep[p] && s[p] == r[j];
        assert(s[p].0 == s[i].0);
    }
}

/// Where `==` on keys and values means that they are the same, `==` on queues
/// means that they hold the same elements in the same order.
pub proof fn law_equality<K: Eq + Hash + Clone, V: PartialEq>(
    q: LinkedQueue<K, V>,
    r: LinkedQueue<K, V>,
)
    requires
        q.wf(),
        r.wf(),
        vstd::laws_eq::obeys_concrete_eq::<K>(),
        vstd::laws_eq::obeys_concrete_eq::<V>(),
    ensures
        PartialEqSpec::eq_spec(&q, &r) == (q@ == r@),
{
    reveal(vstd::laws_eq::obeys_concrete_eq);
    q.lemma_eq(r);
    if model::equal_pairs(q@, r@) {
        assert(q@ =~= r@);
    }
}

/// A clone holds the same elements, where cloning a value gives the same
/// value.
pub proof fn law_clone_is_equal<K: Eq + Hash + Clone, V: Clone>(
    q: LinkedQueue<K, V>,
    twin: LinkedQueue<K, V>,
)
    requires
        q.wf(),
        model::lawful_key::<K>(),
        model::faithful_clone::<V>(),
        call_ensures(LinkedQueue::<K, V>::clone, (&q,), twin),
    ensures
        twin.wf(),
        twin@ == q@,
{
    assert(twin@ =~= q@);
}

/// Freed cells are recycled: however long a queue is in use, through whatever
/// states, its arena has as many cells as it began with or as there were
/// elements at the most at one time, and so never outgrows a bound on both.
pub proof fn law_churn_recycles<K, V>(states: Seq<LinkedQueue<K, V>>, bound: nat)
    requires
        states.len() > 0,
        forall|i: int| 0 < i < states.len() ==> #[trigger] recycles(states, i),
        forall|i: int| 0 <= i < states.len() ==> (#[trigger] states[i])@.len() <= bound,
        states[0].slot_count() <= bound,
    ensures
        states.last().slot_count() <= bound,
        forall|i: int|
            0 < i < states.len() ==> (#[trigger] states[i])@.len() <= states.last().slot_count(),
        states.last().slot_count() == states[0].slot_count() || exists|i: int|
            0 < i < states.len() && states.last().slot_count() == (#[trigger] states[i])@.len(),
    decreases states.len(),
{
    if states.len() > 1 {
        let earlier = states.drop_last();
        assert forall|i: int| 0 < i < earlier.len() implies #[trigger] recycles(earlier, i) by {
            assert(recycles(states, i));
        }
        law_churn_recycles(earlier, bound);
        assert(recycles(states, states.len() - 1));
        states.last().lemma_slot_count();
        assert forall|i: int| 0 < i < states.len() implies (#[trigger] states[i])@.len()
            <= states.last().slot_count() by {
            if i < earlier.len() {
                assert(earlier[i] == states[i]);
            }
        }
        if states.last().slot_count() == earlier.last().slot_count() {
            if states.last().slot_count() != states[0].slot_count() {
                let i = choose|i: int|
                    0 < i < earlier.len() && earlier.last().slot_count() == (
                    #[trigger] earlier[i])@.len();
                assert(states[i] == earlier[i]);
            }
        } else {
            assert(states.last().slot_count() == states[states.len() - 1]@.len());
        }
    }
}

/// A queue that holds fewer elements than its capacity keeps that capacity when
/// an element is added, whatever was removed before.
pub proof fn law_room_suffices<K, V>(
    q: LinkedQueue<K, V>,
    after: LinkedQueue<K, V>,
    b: usize,
    c: usize,
)
    requires
        q.room_grown(after),
        q.reports(b),
        after.reports(c),
        q@.len() < b,
    ensures
        c == b,
{
}

/// A cell that was freed is recycled: a queue that loses an element and then
/// gets one has the capacity that it had.
pub proof fn law_refilled_cell_keeps_room<K, V>(
    q: LinkedQueue<K, V>,
    freed: LinkedQueue<K, V>,
    refilled: LinkedQueue<K, V>,
)
    requires
        q.wf(),
        freed.wf(),
        freed@.len() < q@.len(),
        freed.slot_count() == q.slot_count(),
        q.room_kept(freed),
        refilled@.len() <= freed@.len() + 1,
        refilled.slot_count() == model::grown(freed.slot_count(), refilled@.len()),
        freed.room_grown(refilled),
    ensures
        q.room_kept(refilled),
{
    q.lemma_slot_count();
}

/// However long a queue is in use, through whatever states, its capacity never
/// becomes less, and is the same as long as its arena gets no new cell.
pub proof fn law_churn_keeps_room<K, V>(states: Seq<LinkedQueue<K, V>>)
    requires
        states.len() > 0,
        states[0].wf(),
        forall|i: int| 0 < i < states.len() ==> #[trigger] recycles(states, i),
        forall|i: int|
            0 < i < states.len() ==> states[i - 1].room_grown(#[trigger] states[i]),
    ensures
        states[0].slot_count() <= states.last().slot_count(),
        states[0].room_not_less(states.last()),
        states[0].slot_count() == states.last().slot_count() ==> states[0].room_kept(
            states.last(),
        ),
    decreases states.len(),
{
    if states.len() > 1 {
        let earlier = states.drop_last();
        assert forall|i: int| 0 < i < earlier.len() implies #[trigger] recycles(earlier, i) by {
            assert(recycles(states, i));
        }
        assert forall|i: int| 0 < i < earlier.len() implies earlier[i - 1].room_grown(
            #[trigger] earlier[i],
        ) by {
            assert(states[i - 1].room_grown(states[i]));
        }
        law_churn_keeps_room(earlier);
        let n = states.len() - 1;
        assert(recycles(states, n));
        assert(states[n - 1].room_grown(states[n]));
        assert(earlier.last() == states[n - 1]);
        if n > 1 {
            assert(recycles(states, n - 1));
        }
        assert(states[n - 1].settled());
    }
}

/// Filling a queue from an iterator asks for the room that the iterator is
/// certain to need and for no more. Afterwards there is room at least for what
/// it announced at the least, whatever it announced at the most; and a queue
/// that had room for that, and for what it then holds, has the capacity that
/// it had.
pub proof fn law_extend_asks_for_the_least_announced<
    K: Eq + Hash + Clone,
    V,
    I: Iterator<Item = (K, V)>,
>(before: LinkedQueue<K, V>, items: I, after: LinkedQueue<K, V>, b: usize, c: usize)
    requires
        before.wf(),
        exists|r: &mut LinkedQueue<K, V>|
            *r == before && *final(r) == after && #[trigger] call_ensures(
                LinkedQueue::<K, V>::extend::<I>,
                (r, items),
                (),
            ),
        before.reports(b),
        after.reports(c),
    ensures
        after@ == model::extended(before@, items.remaining()),
        exists|bounds: (usize, Option<usize>)|
            {
                &&& #[trigger] LinkedQueue::<K, V>::announced(items, bounds)
                &&& c >= before.slot_count() + bounds.0
                &&& before.slot_count() + bounds.0 <= b && after.slot_count() <= b ==> c == b
            },
{
    let (bounds, s) = choose|bounds: (usize, Option<usize>), s: &mut LinkedQueue<K, V>|
        {
            &&& #[trigger] LinkedQueue::<K, V>::announced(items, bounds)
            &&& *s == before
            &&& #[trigger] call_ensures(LinkedQueue::<K, V>::reserve, (s, bounds.0), ())
            &&& (*final(s)).room_filled(after)
        };
    let mid = *final(s);
    assert(mid.settled());
    let x = choose|x: usize| mid.reports(x);
    assert(mid.reports(x));
    assert(LinkedQueue::<K, V>::announced(items, bounds));
}

/// Emptying a queue hands out its elements in order, whatever was removed from
/// it before: two queues with the same elements, whatever their arenas, hand
/// out the same and ask for the same room, that of the elements there are.
pub proof fn law_drain_depends_on_the_elements_alone<'a, 'b, K: Eq + Hash + Clone, V>(
    q: LinkedQueue<K, V>,
    r: LinkedQueue<K, V>,
    of_q: Drain<'a, K, V>,
    of_r: Drain<'b, K, V>,
)
    requires
        q@ == r@,
        exists|m: &mut LinkedQueue<K, V>|
            *m == q && #[trigger] call_ensures(LinkedQueue::<K, V>::drain, (m,), of_q),
        exists|m: &mut LinkedQueue<K, V>|
            *m == r && #[trigger] call_ensures(LinkedQueue::<K, V>::drain, (m,), of_r),
    ensures
        of_q.rest() == q@,
        of_r.rest() == of_q.rest(),
        of_q.asked_for(of_q.rest().len()),
        of_r.asked_for(of_q.rest().len()),
{
}

/// The queue came to its state `i` from the one before as by an operation that
/// moves, changes or removes elements, which leaves the arena as it is, or by
/// one that adds them, which makes new cells only where it has too few.
pub open spec fn recycles<K, V>(states: Seq<LinkedQueue<K, V>>, i: int) -> bool {
    &&& states[i].wf()
    &&& {
        ||| states[i].slot_count() == states[i - 1].slot_count()
        ||| states[i].slot_count() == model::grown(states[i - 1].slot_count(), states[i]@.len())
    }
}

/// Both keys are there, `a` in front of `b`.
pub open spec fn stands_before<K, V>(s: Seq<(K, V)>, a: K, b: K) -> bool {
    &&& model::has_key(s, a)
    &&& model::has_key(s, b)
    &&& model::position(s, a) < model::position(s, b)
}

/// Where another key stands once a new one is inserted.
proof fn lemma_position_inserted<K, V>(s: Seq<(K, V)>, p: int, k: K, v: V, other: K)
    requires
        model::keys_distinct(s),
        !model::has_key(s, k),
        0 <= p <= s.len(),
        model::has_key(s, other),
    ensures
        model::has_key(s.insert(p, (k, v)), other),
        model::position(s.insert(p, (k, v)), other) == model::position(s, other) + if model::position(
            s,
            other,
        ) < p {
            0int
        } else {
            1
        },
{
    lemma_inserted(s, p, k, v);
    let i = model::position(s, other);
    assert(0 <= i < s.len() && s[i].0 == other);
    model::lemma_position(s.insert(p, (k, v)), if i < p { i } else { i + 1 });
}

/// Where another key stands once one is taken out.
proof fn lemma_position_without<K, V>(s: Seq<(K, V)>, k: K, other: K)
    requires
        model::keys_distinct(s),
        other != k,
        model::has_key(s, other),
    ensures
        model::has_key(model::without(s, k), other),
        model::position(model::without(s, k), other) == model::position(s, other)
            - if model::has_key(s, k) && model::position(s, k) < model::position(s, other) {
            1int
        } else {
            0
        },
{
    lemma_without(s, k);
    let i = model::position(s, other);
    assert(0 <= i < s.len() && s[i].0 == other);
    if model::has_key(s, k) {
        let p = model::position(s, k);
        assert(0 <= p < s.len() && s[p].0 == k);
        model::lemma_position(model::without(s, k), if i < p { i } else { i - 1 });
    }
}

/// Seen from the other end, a key stands as far from the tail as it stood from
/// the head.
proof fn lemma_reverse<K, V>(s: Seq<(K, V)>, k: K)
    requires
        model::keys_distinct(s),
    ensures
        model::keys_distinct(s.reverse()),
        model::has_key(s.reverse(), k) == model::has_key(s, k),
        model::has_key(s, k) ==> model::position(s.reverse(), k) == s.len() - 1 - model::position(
            s,
            k,
        ),
{
    let r = s.reverse();
    assert forall|i: int, j: int| 0 <= i < r.len() && 0 <= j < r.len() && i != j implies #[trigger] r[i].0
        != #[trigger] r[j].0 by {
        assert(s[s.len() - 1 - i].0 != s[s.len() - 1 - j].0);
    }
    if model::has_key(s, k) {
        let p = model::position(s, k);
        assert(0 <= p < s.len() && s[p].0 == k);
        model::lemma_position(r, s.len() - 1 - p);
    }
    if model::has_key(r, k) {
        let p = model::position(r, k);
        assert(0 <= p < r.len() && r[p].0 == k);
        assert(s[s.len() - 1 - p].0 == k);
    }
}

/// What is retained is what was to be kept.
proof fn lemma_retained<K, V>(s: Seq<(K, V)>, keep: Seq<bool>)
    requires
        model::keys_distinct(s),
        keep.len() == s.len(),
    ensures
        model::keys_distinct(model::retained(s, keep)),
        forall|i: int|
            0 <= i < s.len() && #[trigger] keep[i] ==> model::retained(s, keep).contains(s[i]),
        forall|x: (K, V)| #[trigger]
            model::retained(s, keep).contains(x) ==> exists|p: int|
                0 <= p < s.len() && #[trigger] keep[p] && s[p] == x,
    decreases s.len(),
{
    if s.len() > 0 {
        let s1 = s.drop_last();
        let keep1 = keep.drop_last();
        let r1 = model::retained(s1, keep1);
        let r = model::retained(s, keep);
        lemma_retained(s1, keep1);
        assert forall|i: int| 0 <= i < s.len() && #[trigger] keep[i] implies r.contains(s[i]) by {
            if i < s.len() - 1 {
                assert(keep1[i]);
                assert(s1[i] == s[i]);
                let j = choose|j: int| 0 <= j < r1.len() && r1[j] == s[i];
                assert(r1.contains(s[i]));
                assert(r[j] == s[i]);
            } else {
                assert(r.last() == s[i]);
            }
        }
        assert forall|x: (K, V)| #[trigger] r.contains(x) implies exists|p: int|
            0 <= p < s.len() && #[trigger] keep[p] && s[p] == x by {
            let j = choose|j: int| 0 <= j < r.len() && r[j] == x;
            if j < r1.len() {
                assert(r1[j] == x);
                assert(r1.contains(x));
                let p = choose|p: int| 0 <= p < s1.len() && #[trigger] keep1[p] && s1[p] == x;
                assert(keep[p] && s[p] == x);
            } else {
                assert(keep[s.len() - 1] && s[s.len() - 1] == x);
            }
        }
        assert forall|i: int, j: int|
            0 <= i < r.len() && 0 <= j < r.len() && i != j implies #[trigger] r[i].0
            != #[trigger] r[j].0 by {
            if i < r1.len() && j < r1.len() {
                assert(r[i] == r1[i] && r[j] == r1[j]);
            } else {
                let a = if i < r1.len() { i } else { j };
                assert(r1.contains(r1[a]));
                let p = choose|p: int| 0 <= p < s1.len() && #[trigger] keep1[p] && s1[p] == r1[a];
                assert(s[p].0 != s[s.len() - 1].0);
            }
        }
    }
}

/// Where no key occurs twice, each element is the last of its key.
proof fn lemma_last_of_distinct<K, V>(s: Seq<(K, V)>)
    requires
        model::keys_distinct(s),
    ensures
        model::last_of_each_key(s) == s,
    decreases s.len(),
{
    if s.len() > 0 {
        let rest = s.drop_first();
        assert forall|i: int, j: int|
            0 <= i < rest.len() && 0 <= j < rest.len() && i != j implies #[trigger] rest[i].0
            != #[trigger] rest[j].0 by {
            assert(s[i + 1].0 != s[j + 1].0);
        }
        lemma_last_of_distinct(rest);
        assert(seq![s[0]] + rest =~= s);
    }
}

/// An element whose key comes again may be left out.
proof fn lemma_last_without<K, V>(s: Seq<(K, V)>, p: int, later: int)
    requires
        0 <= p < later < s.len(),
        s[p].0 == s[later].0,
    ensures
        model::last_of_each_key(s.remove(p)) == model::last_of_each_key(s),
    decreases s.len(),
{
    let rest = s.drop_first();
    if p == 0 {
        assert(model::has_key_from(s, 1, s[0].0));
        assert(s.remove(0) =~= rest);
    } else {
        let t = s.remove(p);
        let k = s[0].0;
        assert(rest[p - 1] == s[p] && rest[later - 1] == s[later]);
        lemma_last_without(rest, p - 1, later - 1);
        assert(t.drop_first() =~= rest.remove(p - 1));
        assert(t[later - 1] == s[later]);
        if model::has_key_from(s, 1, k) {
            let i = choose|i: int| 1 <= i < s.len() && (#[trigger] s[i]).0 == k;
            let j = if i == p { later - 1 } else if i < p { i } else { i - 1 };
            assert(t[j].0 == k);
        }
        if model::has_key_from(t, 1, k) {
            let i = choose|i: int| 1 <= i < t.len() && (#[trigger] t[i]).0 == k;
            assert(s[if i < p { i } else { i + 1 }].0 == k);
        }
    }
}

/// Taking out a key leaves the other elements in their order.
proof fn lemma_without<K, V>(s: Seq<(K, V)>, k: K)
    requires
        model::keys_distinct(s),
    ensures
        model::keys_distinct(model::without(s, k)),
        !model::has_key(model::without(s, k), k),
{
    let m = model::without(s, k);
    if model::has_key(s, k) {
        let p = model::position(s, k);
        assert(0 <= p < s.len() && s[p].0 == k);
        assert forall|i: int| 0 <= i < m.len() implies #[trigger] m[i] == s[if i < p {
            i
        } else {
            i + 1
        }] by {}
        assert forall|i: int, j: int| 0 <= i < m.len() && 0 <= j < m.len() && i != j implies #[trigger] m[i].0
            != #[trigger] m[j].0 by {
            let a = if i < p { i } else { i + 1 };
            let b = if j < p { j } else { j + 1 };
            assert(s[a].0 != s[b].0);
        }
        assert forall|i: int| 0 <= i < m.len() implies (#[trigger] m[i]).0 != k by {
            let a = if i < p { i } else { i + 1 };
            assert(s[a].0 != s[p].0);
        }
    }
}

/// A new key inserted anywhere keeps the keys distinct.
proof fn lemma_inserted<K, V>(s: Seq<(K, V)>, p: int, k: K, v: V)
    requires
        model::keys_distinct(s),
        !model::has_key(s, k),
        0 <= p <= s.len(),
    ensures
        model::keys_distinct(s.insert(p, (k, v))),
{
    let t = s.insert(p, (k, v));
    assert forall|i: int, j: int| 0 <= i < t.len() && 0 <= j < t.len() && i != j implies #[trigger] t[i].0
        != #[trigger] t[j].0 by {
        let a = if i < p { i } else { i - 1 };
        let b = if j < p { j } else { j - 1 };
        assert(i != p ==> t[i] == s[a]);
        assert(j != p ==> t[j] == s[b]);
    }
}

/// A push at the tail keeps the keys distinct.
proof fn lemma_pushed_back<K, V>(s: Seq<(K, V)>, k: K, v: V)
    requires
        model::keys_distinct(s),
    ensures
        model::keys_distinct(model::pushed_back(s, k, v)),
{
    let m = model::without(s, k);
    lemma_without(s, k);
    lemma_inserted(m, m.len() as int, k, v);
    assert(m.insert(m.len() as int, (k, v)) =~= m.push((k, v)));
}

/// A push at the head keeps the keys distinct.
proof fn lemma_pushed_front<K, V>(s: Seq<(K, V)>, k: K, v: V)
    requires
        model::keys_distinct(s),
    ensures
        model::keys_distinct(model::pushed_front(s, k, v)),
{
    lemma_without(s, k);
    lemma_inserted(model::without(s, k), 0, k, v);
}

/// Inserting a new key changes nothing that is read under another.
proof fn lemma_lookup_inserted<K, V>(s: Seq<(K, V)>, p: int, k: K, v: V, other: K)
    requires
        model::keys_distinct(s),
        !model::has_key(s, k),
        0 <= p <= s.len(),
        other != k,
    ensures
        model::lookup(s.insert(p, (k, v)), other) == model::lookup(s, other),
{
    let t = s.insert(p, (k, v));
    lemma_inserted(s, p, k, v);
    if model::has_key(s, other) {
        let i = model::position(s, other);
        assert(0 <= i < s.len() && s[i].0 == other);
        let j = if i < p { i } else { i + 1 };
        assert(t[j] == s[i]);
        model::lemma_position(t, j);
    }
    if model::has_key(t, other) {
        let j = model::position(t, other);
        assert(0 <= j < t.len() && t[j].0 == other);
        assert(j != p);
        let i = if j < p { j } else { j - 1 };
        assert(t[j] == s[i]);
    }
}

/// Taking out a key changes nothing that is read under another.
proof fn lemma_lookup_without<K, V>(s: Seq<(K, V)>, k: K, other: K)
    requires
        model::keys_distinct(s),
        other != k,
    ensures
        model::lookup(model::without(s, k), other) == model::lookup(s, other),
{
    let m = model::without(s, k);
    lemma_without(s, k);
    if model::has_key(s, k) {
        let p = model::position(s, k);
        assert(0 <= p < s.len() && s[p].0 == k);
        if model::has_key(s, other) {
            let i = model::position(s, other);
            assert(0 <= i < s.len() && s[i].0 == other);
            let j = if i < p { i } else { i - 1 };
            assert(m[j] == s[i]);
            model::lemma_position(m, j);
        }
        if model::has_key(m, other) {
            let j = model::position(m, other);
            assert(0 <= j < m.len() && m[j].0 == other);
            let i = if j < p { j } else { j + 1 };
            assert(m[j] == s[i]);
        }
    }
}

/// Removing a key that was inserted anywhere gives back what was there.
proof fn lemma_without_inserted<K, V>(s: Seq<(K, V)>, p: int, k: K, v: V)
    requires
        model::keys_distinct(s),
        !model::has_key(s, k),
        0 <= p <= s.len(),
    ensures
        model::without(s.insert(p, (k, v)), k) == s,
{
    let t = s.insert(p, (k, v));
    lemma_inserted(s, p, k, v);
    model::lemma_position(t, p);
    assert(t.remove(p) =~= s);
}

} // verus!
