//! The laws of a queue on concrete values, and the edges of its operations.
use linked_queue::{InsertError, LinkedQueue};
use std::collections::VecDeque;

fn abc() -> LinkedQueue<&'static str, u32> {
    let mut q = LinkedQueue::new();
    q.push_back("a", 1);
    q.push_back("b", 2);
    q.push_back("c", 3);
    q
}

#[test]
fn empty_queue() {
    let mut q: LinkedQueue<u32, u32> = LinkedQueue::default();
    assert!(q.is_empty());
    assert_eq!(q.len(), 0);
    assert_eq!(q.front(), None);
    assert_eq!(q.back(), None);
    assert!(q.front_mut().is_none());
    assert!(q.back_mut().is_none());
    assert_eq!(q.pop_front(), None);
    assert_eq!(q.pop_back(), None);
    assert_eq!(q.get(&1), None);
    assert!(q.get_mut(&1).is_none());
    assert_eq!(q.remove(&1), None);
    assert!(!q.contains(&1));
    assert!(!q.move_to_front(&1));
    assert_eq!(q.to_vec(), vec![]);
    assert_eq!(q.iter().next(), None);
    assert_eq!(q.iter().next_back(), None);
    assert!(q.assert_invariants());
}

#[test]
fn keys_are_unique() {
    let mut q = abc();
    q.push_back("b", 20);
    q.push_front("c", 30);
    let mut keys: Vec<&str> = q.keys().copied().collect();
    assert_eq!(keys, vec!["c", "a", "b"]);
    keys.sort();
    keys.dedup();
    assert_eq!(keys.len(), q.len());
    assert!(q.assert_invariants());
}

#[test]
fn read_back_what_was_written() {
    let mut q = abc();
    assert_eq!(q.push_back("b", 7), Some(2));
    assert_eq!(q.get(&"b"), Some(&7));
    assert_eq!(q.get(&"a"), Some(&1));
    assert_eq!(q.push_front("d", 8), None);
    assert_eq!(q.get(&"d"), Some(&8));
    q.insert_before(&"a", "e", 9).unwrap();
    assert_eq!(q.get(&"e"), Some(&9));
    assert_eq!(q.remove(&"e"), Some(9));
    assert_eq!(q.get(&"e"), None);
}

#[test]
fn remove_undoes_insertion() {
    let mut q = abc();
    let before = q.to_vec();
    q.insert_after(&"b", "x", 9).unwrap();
    assert_eq!(q.remove(&"x"), Some(9));
    assert_eq!(q.to_vec(), before);
    q.insert_before(&"a", "x", 9).unwrap();
    assert_eq!(q.remove(&"x"), Some(9));
    assert_eq!(q.to_vec(), before);
    q.push_front("x", 9);
    assert_eq!(q.remove(&"x"), Some(9));
    assert_eq!(q.to_vec(), before);
}

#[test]
fn pop_undoes_push() {
    let mut q = abc();
    q.push_back("a", 10);
    assert_eq!(q.pop_back(), Some(("a", 10)));
    assert_eq!(q.to_vec(), vec![("b", 2), ("c", 3)]);
    q.push_front("c", 30);
    assert_eq!(q.pop_front(), Some(("c", 30)));
    assert_eq!(q.to_vec(), vec![("b", 2)]);
}

#[test]
fn splice_next_to_an_anchor_in_the_middle() {
    let mut q = abc();
    q.insert_after(&"b", "after", 5).unwrap();
    q.insert_before(&"b", "before", 4).unwrap();
    let keys: Vec<&str> = q.keys().copied().collect();
    assert_eq!(keys, vec!["a", "before", "b", "after", "c"]);
    let back: Vec<&str> = q.keys().rev().copied().collect();
    assert_eq!(back, vec!["c", "after", "b", "before", "a"]);
    assert!(q.assert_invariants());
}

#[test]
fn duplicate_key_comes_before_missing_anchor() {
    let mut q = abc();
    assert_eq!(
        q.insert_after(&"missing", "a", 9).unwrap_err(),
        InsertError::DuplicateKey { key: "a", value: 9 }
    );
    assert_eq!(
        q.insert_before(&"missing", "a", 9).unwrap_err(),
        InsertError::DuplicateKey { key: "a", value: 9 }
    );
    assert_eq!(
        q.insert_before(&"missing", "z", 9).unwrap_err(),
        InsertError::AnchorMissing { key: "z", value: 9 }
    );
    assert_eq!(q.to_vec(), vec![("a", 1), ("b", 2), ("c", 3)]);
}

#[test]
fn error_parts() {
    let duplicate: InsertError<u8, u8> = InsertError::DuplicateKey { key: 1, value: 2 };
    let missing: InsertError<u8, u8> = InsertError::AnchorMissing { key: 1, value: 2 };
    assert_eq!(duplicate.message(), "key is already present in the queue");
    assert_eq!(missing.message(), "anchor key is not present in the queue");
    assert_ne!(duplicate, missing);
    assert_eq!(duplicate, duplicate.clone());
    assert_eq!(missing, missing.clone());
    assert_ne!(missing, InsertError::AnchorMissing { key: 1, value: 3 });
    assert_eq!(duplicate.into_inner(), (1, 2));
    assert_eq!(missing.into_inner(), (1, 2));
}

#[test]
fn touch_spares_the_oldest() {
    let mut q = abc();
    assert!(q.move_to_back(&"b"));
    assert_eq!(q.front(), Some((&"a", &1)));
    assert_eq!(q.back(), Some((&"b", &2)));
    assert!(q.move_to_back(&"a"));
    assert_eq!(q.front(), Some((&"c", &3)));
    assert!(q.move_to_back(&"a"));
    assert_eq!(q.to_vec(), vec![("c", 3), ("b", 2), ("a", 1)]);
}

#[test]
fn order_of_the_others_is_kept() {
    let mut q: LinkedQueue<u32, u32> = LinkedQueue::new();
    for i in 0..6 {
        q.push_back(i, i);
    }
    q.push_back(2, 20);
    q.push_front(4, 40);
    q.remove(&0);
    let others: Vec<u32> = q.keys().copied().filter(|k| *k != 2 && *k != 4).collect();
    assert_eq!(others, vec![1, 3, 5]);
}

#[test]
fn head_mirrors_tail() {
    let mut q = abc();
    let mut r: LinkedQueue<&str, u32> = LinkedQueue::new();
    for (k, v) in q.iter().rev() {
        r.push_back(*k, *v);
    }
    assert_eq!(q.push_front("b", 9), r.push_back("b", 9));
    assert_eq!(q.insert_before(&"a", "x", 4), r.insert_after(&"a", "x", 4));
    let mut mirrored = r.to_vec();
    mirrored.reverse();
    assert_eq!(q.to_vec(), mirrored);
}

#[test]
fn refill_makes_an_equal_queue() {
    let q = abc();
    let twin = q.clone();
    let again = LinkedQueue::from_iter(q.into_iter());
    assert!(again == twin);
}

#[test]
fn extend_replaces_and_moves_back() {
    let mut q = abc();
    q.extend([("d", 4), ("a", 10), ("d", 40)].into_iter());
    assert_eq!(q.to_vec(), vec![("b", 2), ("c", 3), ("a", 10), ("d", 40)]);
}

#[test]
fn equality_looks_at_order_keys_and_values() {
    let q = abc();
    let mut r = abc();
    assert!(q == r);
    r.move_to_back(&"a");
    assert!(q != r);
    r.move_to_front(&"a");
    assert!(q == r);
    *r.get_mut(&"c").unwrap() = 4;
    assert!(q != r);
    *r.get_mut(&"c").unwrap() = 3;
    r.push_back("d", 4);
    assert!(q != r);
    r.remove(&"d");
    assert!(q == r);
    let none: LinkedQueue<&str, u32> = LinkedQueue::new();
    assert!(none != q);
    assert!(none == LinkedQueue::new());
}

#[test]
fn clone_is_independent() {
    let mut q = abc();
    q.remove(&"a");
    let twin = q.clone();
    assert!(twin.assert_invariants());
    q.push_back("z", 26);
    assert_eq!(twin.to_vec(), vec![("b", 2), ("c", 3)]);
    assert_eq!(twin.get(&"c"), Some(&3));
}

#[test]
fn retain_asks_each_element_once_head_first() {
    let mut q: LinkedQueue<u32, u32> = LinkedQueue::new();
    for i in 0..6 {
        q.push_back(i, i * i);
    }
    let mut asked = Vec::new();
    q.retain(|k, v| {
        asked.push((*k, *v));
        asked.len() % 3 == 0
    });
    assert_eq!(asked, vec![(0, 0), (1, 1), (2, 4), (3, 9), (4, 16), (5, 25)]);
    assert_eq!(q.to_vec(), vec![(2, 4), (5, 25)]);
    q.retain(|_, _| true);
    assert_eq!(q.len(), 2);
    q.retain(|_, _| false);
    assert!(q.is_empty());
    assert!(q.assert_invariants());
}

#[test]
fn map_in_order() {
    let q = abc();
    assert_eq!(
        q.map(|k, v| format!("{k}{v}")),
        vec!["a1".to_string(), "b2".to_string(), "c3".to_string()]
    );
}

#[test]
fn keys_and_values() {
    let q = abc();
    let keys: Vec<&str> = q.keys().copied().collect();
    let values: Vec<u32> = q.values().copied().collect();
    let back: Vec<u32> = q.values().rev().copied().collect();
    assert_eq!(keys, vec!["a", "b", "c"]);
    assert_eq!(values, vec![1, 2, 3]);
    assert_eq!(back, vec![3, 2, 1]);
    let mut it = q.keys();
    it.next();
    assert_eq!(it.size_hint(), (2, Some(2)));
    assert_eq!(q.values().size_hint(), (3, Some(3)));
}

#[test]
fn iterators_know_how_much_is_left() {
    let mut q = abc();
    let mut it = q.iter();
    assert_eq!(it.size_hint(), (3, Some(3)));
    assert_eq!(it.next(), Some((&"a", &1)));
    assert_eq!(it.next_back(), Some((&"c", &3)));
    assert_eq!(it.len(), 1);
    assert_eq!(it.next(), Some((&"b", &2)));
    assert_eq!(it.next(), None);
    assert_eq!(it.next_back(), None);

    let mut owned = q.clone().into_iter();
    assert_eq!(owned.size_hint(), (3, Some(3)));
    assert_eq!(owned.next_back(), Some(("c", 3)));
    assert_eq!(owned.next(), Some(("a", 1)));
    assert_eq!(owned.len(), 1);

    let mut drained = q.drain();
    assert_eq!(drained.size_hint(), (3, Some(3)));
    assert_eq!(drained.next(), Some(("a", 1)));
    assert_eq!(drained.next_back(), Some(("c", 3)));
    assert_eq!(drained.len(), 1);
    drop(drained);
    assert!(q.is_empty());
    assert!(!q.contains(&"b"));
}

#[test]
fn owned_for_loop() {
    let mut seen = Vec::new();
    for (k, v) in abc() {
        seen.push((k, v));
    }
    assert_eq!(seen, vec![("a", 1), ("b", 2), ("c", 3)]);
}

#[test]
fn queue_is_usable_after_drain_and_clear() {
    let mut q = abc();
    let capacity = q.capacity();
    assert_eq!(q.drain().count(), 3);
    assert!(q.capacity() >= capacity);
    q.push_back("x", 24);
    q.clear();
    assert!(q.is_empty());
    assert_eq!(q.push_back("a", 5), None);
    assert_eq!(q.to_vec(), vec![("a", 5)]);
    assert!(q.assert_invariants());
}

#[test]
fn capacity_covers_the_cells() {
    let mut q: LinkedQueue<u32, u32> = LinkedQueue::with_capacity(10);
    assert!(q.capacity() >= 10);
    assert!(q.is_empty());
    q.reserve(100);
    assert!(q.capacity() >= 100);
    for i in 0..200 {
        q.push_back(i, i);
    }
    assert!(q.capacity() >= 200);
    for i in 0..190 {
        q.remove(&i);
    }
    let peak = q.capacity();
    assert!(peak >= 200);
    for i in 0..1000 {
        q.pop_front();
        q.push_back(1000 + i, i);
    }
    assert_eq!(q.capacity(), peak);
    let before = q.to_vec();
    q.shrink_to_fit();
    assert_eq!(q.to_vec(), before);
    assert!(q.capacity() < peak);
    assert!(q.capacity() >= q.len());
    assert!(q.assert_invariants());
}

#[test]
fn mutable_ends_of_one_element() {
    let mut q: LinkedQueue<u32, String> = LinkedQueue::new();
    q.push_back(1, "x".to_string());
    q.front_mut().unwrap().1.push('y');
    q.back_mut().unwrap().1.push('z');
    assert_eq!(q.front(), Some((&1, &"xyz".to_string())));
    assert_eq!(q.back(), q.front());
}

/// A long random run in which the anchors are taken from the middle too, with
/// the representation checked after every step.
#[test]
fn random_run_keeps_the_representation_sound() {
    let mut q: LinkedQueue<u8, u16> = LinkedQueue::new();
    let mut m: VecDeque<(u8, u16)> = VecDeque::new();
    let mut state: u64 = 0x0123_4567_89ab_cdef;
    let mut rng = || {
        state = state
            .wrapping_mul(6364136223846793005)
            .wrapping_add(1442695040888963407);
        state >> 33
    };
    for _ in 0..20_000 {
        let op = rng() % 8;
        let k = (rng() % 12) as u8;
        let v = rng() as u16;
        let at = m.iter().position(|(mk, _)| *mk == k);
        match op {
            0 => {
                let old = at.map(|p| m.remove(p).unwrap().1);
                m.push_back((k, v));
                assert_eq!(q.push_back(k, v), old);
            }
            1 => assert_eq!(q.pop_front(), m.pop_front()),
            2 => assert_eq!(q.remove(&k), at.map(|p| m.remove(p).unwrap().1)),
            3 | 4 if !m.is_empty() => {
                let pos = (rng() as usize) % m.len();
                let anchor = m[pos].0;
                let after = op == 3;
                let r = if after {
                    q.insert_after(&anchor, k, v)
                } else {
                    q.insert_before(&anchor, k, v)
                };
                if at.is_some() {
                    assert_eq!(r, Err(InsertError::DuplicateKey { key: k, value: v }));
                } else {
                    assert_eq!(r, Ok(()));
                    m.insert(if after { pos + 1 } else { pos }, (k, v));
                }
            }
            5 => match q.get_mut(&k) {
                Some(value) => {
                    *value = v;
                    m[at.unwrap()].1 = v;
                }
                None => assert!(at.is_none()),
            },
            6 => {
                q.retain(|k, _| *k % 5 != 1);
                m.retain(|(k, _)| *k % 5 != 1);
            }
            _ => {
                assert_eq!(q.contains(&k), at.is_some());
                assert_eq!(q.get(&k).copied(), at.map(|p| m[p].1));
            }
        }
        let expected: Vec<(u8, u16)> = m.iter().copied().collect();
        assert_eq!(q.to_vec(), expected);
        assert_eq!(q.iter().len(), m.len());
        assert!(q.assert_invariants());
    }
}

#[test]
fn clear_and_reserve_keep_the_room() {
    let mut q: LinkedQueue<u32, u32> = LinkedQueue::with_capacity(50);
    for i in 0..5 {
        q.push_back(i, i);
    }
    let before = q.capacity();
    q.reserve(0);
    assert!(q.capacity() >= before);
    q.reserve(200);
    let reserved = q.capacity();
    assert!(reserved >= 205);
    assert_eq!(q.to_vec(), vec![(0, 0), (1, 1), (2, 2), (3, 3), (4, 4)]);
    q.clear();
    assert_eq!(q.capacity(), reserved);
    assert!(q.is_empty());
    assert!(!q.contains(&3));
    assert_eq!(q.push_back(3, 30), None);
}

#[test]
fn extend_makes_room_for_the_announced_pairs() {
    let mut q: LinkedQueue<u32, u32> = LinkedQueue::new();
    q.extend((0..500).map(|i| (7, i)));
    assert_eq!(q.to_vec(), vec![(7, 499)]);
    assert!(q.capacity() >= 500);
}

#[test]
fn room_suffices_until_it_is_full() {
    let mut q: LinkedQueue<u32, u32> = LinkedQueue::with_capacity(20);
    let room = q.capacity();
    let mut i = 0;
    while q.len() < room {
        match i % 4 {
            0 => assert_eq!(q.push_back(i, i), None),
            1 => assert_eq!(q.push_front(i, i), None),
            2 => q.insert_after(&(i - 1), i, i).unwrap(),
            _ => q.insert_before(&(i - 1), i, i).unwrap(),
        }
        assert!(q.try_push_back(i, 0).is_err());
        assert_eq!(q.capacity(), room);
        i += 1;
    }
    q.push_back(i, i);
    assert!(q.capacity() > room);
    assert!(q.assert_invariants());
}

#[test]
fn refilled_cells_keep_the_room() {
    let mut q: LinkedQueue<u32, u32> = (0..37).fold(LinkedQueue::new(), |mut q, i| {
        q.push_back(i, i);
        q
    });
    let room = q.capacity();
    for i in 37..5000 {
        if i % 2 == 0 {
            assert!(q.pop_front().is_some());
        } else {
            let middle = *q.keys().nth(18).unwrap();
            assert!(q.remove(&middle).is_some());
        }
        assert_eq!(q.capacity(), room);
        q.push_back(i, i);
        assert_eq!(q.capacity(), room);
    }
    q.retain(|k, _| k % 3 == 0);
    q.move_to_front(&4998);
    assert_eq!(q.capacity(), room);
}

#[test]
fn drain_keeps_the_room() {
    for taken in 0..4 {
        let mut q = abc();
        let room = q.capacity();
        let got: Vec<(&str, u32)> = q.drain().take(taken).collect();
        assert_eq!(got, vec![("a", 1), ("b", 2), ("c", 3)][..taken]);
        assert!(q.is_empty());
        assert!(!q.contains(&"c"));
        assert_eq!(q.capacity(), room);
    }
}

#[test]
fn index_has_room_too() {
    let mut q: LinkedQueue<u32, u32> = LinkedQueue::with_capacity(30);
    assert!(q.index_capacity() >= 30);
    for i in 0..5 {
        q.push_back(i, i);
    }
    q.reserve(300);
    assert!(q.index_capacity() >= 305);
    let room = q.index_capacity();
    q.clear();
    assert!(q.index_capacity() >= room);
    let none: LinkedQueue<u32, u32> = LinkedQueue::new();
    assert_eq!(none.capacity(), 0);
}

#[test]
fn clone_and_shrink_fit_the_elements() {
    let mut q: LinkedQueue<u32, u32> = LinkedQueue::with_capacity(1000);
    for i in 0..10 {
        q.push_back(i, i);
    }
    let made: LinkedQueue<u32, u32> = LinkedQueue::with_capacity(10);
    assert_eq!(q.clone().capacity(), made.capacity());
    q.shrink_to_fit();
    assert_eq!(q.capacity(), made.capacity());
    assert_eq!(q.len(), 10);
}

#[test]
fn extend_keeps_the_last_pair_of_each_key() {
    let mut q = LinkedQueue::from_iter([(1, 'a'), (2, 'b'), (3, 'c')].into_iter());
    q.extend([(2, 'd'), (4, 'e'), (1, 'f'), (4, 'g')].into_iter());
    assert_eq!(q.to_vec(), vec![(3, 'c'), (2, 'd'), (1, 'f'), (4, 'g')]);
}
