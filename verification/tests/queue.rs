//! The operations of a queue, one by one and in long random runs.
use linked_queue::{InsertError, LinkedQueue};
use std::collections::VecDeque;

#[test]
fn fifo_order() {
    let mut q: LinkedQueue<&str, u32> = LinkedQueue::new();
    assert_eq!(q.push_back("a", 1), None);
    assert_eq!(q.push_back("b", 2), None);
    assert_eq!(q.push_back("c", 3), None);
    assert_eq!(q.len(), 3);
    assert_eq!(q.pop_front(), Some(("a", 1)));
    assert_eq!(q.pop_front(), Some(("b", 2)));
    assert_eq!(q.pop_front(), Some(("c", 3)));
    assert_eq!(q.pop_front(), None);
    assert!(q.is_empty());
}

#[test]
fn push_back_upserts_and_moves_to_tail() {
    let mut q: LinkedQueue<&str, u32> = LinkedQueue::new();
    q.push_back("a", 1);
    q.push_back("b", 2);
    q.push_back("c", 3);
    // Re-pushing an existing key updates the value, returns the old one,
    // and moves the element to the back.
    assert_eq!(q.push_back("a", 10), Some(1));
    assert_eq!(q.to_vec(), vec![("b", 2), ("c", 3), ("a", 10)]);
    assert_eq!(q.len(), 3);

    // push_front mirrors that toward the head.
    assert_eq!(q.push_front("c", 30), Some(3));
    assert_eq!(q.to_vec(), vec![("c", 30), ("b", 2), ("a", 10)]);
}

#[test]
fn try_push_rejects_duplicate_and_returns_value() {
    let mut q: LinkedQueue<&str, u32> = LinkedQueue::new();
    q.try_push_back("a", 1).unwrap();
    let err = q.try_push_back("a", 99).unwrap_err();
    assert_eq!(
        err,
        InsertError::DuplicateKey {
            key: "a",
            value: 99
        }
    );
    assert_eq!(err.into_inner(), ("a", 99));
    // try_push leaves the existing element and order untouched.
    assert_eq!(q.try_push_front("a", 7).unwrap_err().into_inner(), ("a", 7));
    assert_eq!(q.len(), 1);
    assert_eq!(q.get(&"a"), Some(&1));
}

#[test]
fn lru_eviction_pattern() {
    // push_back = insert/touch, pop_front = evict oldest.
    let mut cache: LinkedQueue<&str, u32> = LinkedQueue::new();
    cache.push_back("a", 1);
    cache.push_back("b", 2);
    cache.push_back("c", 3);
    cache.push_back("a", 11); // touch "a" -> now most-recently-used
                              // Oldest is "b" now.
    assert_eq!(cache.pop_front(), Some(("b", 2)));
    assert_eq!(cache.to_vec(), vec![("c", 3), ("a", 11)]);
}

#[test]
fn remove_from_middle_is_o1_correct() {
    let mut q: LinkedQueue<&str, u32> = LinkedQueue::new();
    q.push_back("a", 1);
    q.push_back("b", 2);
    q.push_back("c", 3);
    q.push_back("d", 4);
    assert_eq!(q.remove(&"b"), Some(2));
    assert_eq!(q.remove(&"d"), Some(4));
    assert_eq!(q.remove(&"z"), None);
    assert_eq!(q.len(), 2);
    assert_eq!(q.pop_front(), Some(("a", 1)));
    assert_eq!(q.pop_front(), Some(("c", 3)));
    assert_eq!(q.pop_front(), None);
}

#[test]
fn remove_head_and_tail() {
    let mut q: LinkedQueue<&str, u32> = LinkedQueue::new();
    q.push_back("a", 1);
    q.push_back("b", 2);
    q.push_back("c", 3);
    assert_eq!(q.remove(&"a"), Some(1));
    assert_eq!(q.remove(&"c"), Some(3));
    assert_eq!(q.len(), 1);
    assert_eq!(q.front(), Some((&"b", &2)));
    assert_eq!(q.back(), Some((&"b", &2)));
    assert_eq!(q.pop_back(), Some(("b", 2)));
}

#[test]
fn push_front_and_pop_back() {
    let mut q: LinkedQueue<&str, u32> = LinkedQueue::new();
    q.push_back("a", 1);
    q.push_back("b", 2);
    q.push_front("c", 3);
    assert_eq!(q.to_vec(), vec![("c", 3), ("a", 1), ("b", 2)]);
    assert_eq!(q.pop_back(), Some(("b", 2)));
    assert_eq!(q.pop_front(), Some(("c", 3)));
    assert_eq!(q.pop_front(), Some(("a", 1)));
}

#[test]
fn insert_after_and_before() {
    let mut q: LinkedQueue<&str, u32> = LinkedQueue::new();
    q.push_back("a", 1);
    q.push_back("d", 4);
    q.insert_after(&"a", "b", 2).unwrap();
    q.insert_before(&"d", "c", 3).unwrap();
    assert_eq!(q.to_vec(), vec![("a", 1), ("b", 2), ("c", 3), ("d", 4)]);

    // insert at the very front / back via anchors on the ends
    q.insert_before(&"a", "z", 0).unwrap();
    q.insert_after(&"d", "e", 5).unwrap();
    assert_eq!(q.front(), Some((&"z", &0)));
    assert_eq!(q.back(), Some((&"e", &5)));
}

#[test]
fn insert_errors() {
    let mut q: LinkedQueue<&str, u32> = LinkedQueue::new();
    q.push_back("a", 1);
    assert_eq!(
        q.insert_after(&"a", "a", 9).unwrap_err(),
        InsertError::DuplicateKey { key: "a", value: 9 }
    );
    assert_eq!(
        q.insert_after(&"missing", "b", 2).unwrap_err(),
        InsertError::AnchorMissing { key: "b", value: 2 }
    );
    assert_eq!(q.len(), 1);
}

#[test]
fn get_mut_updates_in_place() {
    let mut q: LinkedQueue<&str, u32> = LinkedQueue::new();
    q.push_back("a", 1);
    q.push_back("b", 2);
    *q.get_mut(&"a").unwrap() += 100;
    assert_eq!(q.get(&"a"), Some(&101));
    // order preserved (unlike push_back, get_mut never moves the element)
    assert_eq!(q.to_vec(), vec![("a", 101), ("b", 2)]);
}

#[test]
fn front_back_mut() {
    let mut q: LinkedQueue<&str, u32> = LinkedQueue::new();
    assert!(q.front_mut().is_none());
    q.push_back("a", 1);
    q.push_back("b", 2);
    if let Some((k, v)) = q.front_mut() {
        assert_eq!(*k, "a");
        *v += 100;
    }
    if let Some((k, v)) = q.back_mut() {
        assert_eq!(*k, "b");
        *v += 200;
    }
    assert_eq!(q.to_vec(), vec![("a", 101), ("b", 202)]);
}

#[test]
fn move_to_back_and_front() {
    let mut q: LinkedQueue<&str, u32> = LinkedQueue::new();
    q.push_back("a", 1);
    q.push_back("b", 2);
    q.push_back("c", 3);
    assert!(q.move_to_back(&"a"));
    assert_eq!(q.to_vec(), vec![("b", 2), ("c", 3), ("a", 1)]);
    assert!(q.move_to_front(&"c"));
    assert_eq!(q.to_vec(), vec![("c", 3), ("b", 2), ("a", 1)]);
    // unknown key is a no-op
    assert!(!q.move_to_back(&"z"));
    assert_eq!(q.len(), 3);
}

#[test]
fn double_ended_iteration() {
    let mut q: LinkedQueue<u32, u32> = LinkedQueue::new();
    for i in 0..5 {
        q.push_back(i, i * 10);
    }
    let fwd: Vec<_> = q.iter().map(|(k, v)| (*k, *v)).collect();
    let rev: Vec<_> = q.iter().rev().map(|(k, v)| (*k, *v)).collect();
    assert_eq!(fwd, vec![(0, 0), (1, 10), (2, 20), (3, 30), (4, 40)]);
    assert_eq!(rev, vec![(4, 40), (3, 30), (2, 20), (1, 10), (0, 0)]);

    // meet in the middle
    let mut it = q.iter();
    assert_eq!(it.next().map(|(k, _)| *k), Some(0));
    assert_eq!(it.next_back().map(|(k, _)| *k), Some(4));
    assert_eq!(it.len(), 3);
}

#[test]
fn retain_keeps_order() {
    let mut q: LinkedQueue<u32, u32> = LinkedQueue::new();
    for i in 0..10 {
        q.push_back(i, i);
    }
    q.retain(|_, v| v % 2 == 0);
    assert_eq!(q.to_vec(), vec![(0, 0), (2, 2), (4, 4), (6, 6), (8, 8)]);
    assert_eq!(q.len(), 5);
}

#[test]
fn drain_empties_queue() {
    let mut q: LinkedQueue<u32, u32> = LinkedQueue::new();
    for i in 0..5 {
        q.push_back(i, i);
    }
    let first_two: Vec<_> = q.drain().take(2).collect();
    assert_eq!(first_two, vec![(0, 0), (1, 1)]);
    // drain drops the rest on drop
    assert!(q.is_empty());
}

#[test]
fn into_iter_owned() {
    let mut q: LinkedQueue<u32, String> = LinkedQueue::new();
    q.push_back(1, "one".into());
    q.push_back(2, "two".into());
    let collected: Vec<_> = q.into_iter().collect();
    assert_eq!(
        collected,
        vec![(1, "one".to_string()), (2, "two".to_string())]
    );
}

#[test]
fn from_iter_last_value_wins() {
    // push_back upsert semantics: the last value for "a" wins and that
    // entry ends up at the back.
    let q: LinkedQueue<&str, u32> =
        LinkedQueue::from_iter([("a", 1), ("b", 2), ("a", 99)].into_iter());
    assert_eq!(q.len(), 2);
    assert_eq!(q.get(&"a"), Some(&99));
    assert_eq!(q.to_vec(), vec![("b", 2), ("a", 99)]);
}

#[test]
fn clone_and_eq() {
    let mut q: LinkedQueue<&str, u32> = LinkedQueue::new();
    q.push_back("a", 1);
    q.push_back("b", 2);
    let c = q.clone();
    assert!(q == c);
    let mut d = c.clone();
    d.push_back("c", 3);
    assert!(q != d);
}

#[test]
fn slots_get_reused() {
    let mut q: LinkedQueue<u32, u32> = LinkedQueue::new();
    for i in 0..1000 {
        q.push_back(i, i);
    }
    for i in 0..1000 {
        assert_eq!(q.remove(&i), Some(i));
    }
    for i in 0..1000 {
        q.push_back(i, i * 2);
    }
    // Free-list keeps total slots bounded near peak occupancy.
    assert!(
        q.capacity() <= 1024,
        "capacity grew unexpectedly: {}",
        q.capacity()
    );
    assert_eq!(q.len(), 1000);
}

/// Remove the entry for `k` from the model, returning its value if present.
fn model_remove(model: &mut VecDeque<(u32, u32)>, k: u32) -> Option<u32> {
    model
        .iter()
        .position(|(mk, _)| *mk == k)
        .map(|p| model.remove(p).unwrap().1)
}

/// Randomised op sequence checked against a `VecDeque` oracle. Verifies
/// that `head`/`tail`/`prev`/`next` never drift from the index: after every
/// step the model and the queue agree on `front`, `back`, `len`,
/// `contains`, the upsert return values, and the full iteration order (both
/// directions). Exercises the upsert/move semantics of `push_*` plus
/// `move_to_*`, `remove`, and the anchored inserts.
#[test]
fn fuzz_against_vecdeque_oracle() {
    let mut q: LinkedQueue<u32, u32> = LinkedQueue::new();
    let mut model: VecDeque<(u32, u32)> = VecDeque::new();

    // Deterministic LCG so the test is stable across toolchains.
    let mut state: u64 = 0xdead_beef_cafe_f00d;
    let mut rng = || {
        state = state
            .wrapping_mul(6364136223846793005)
            .wrapping_add(1442695040888963407);
        state
    };

    let has = |model: &VecDeque<(u32, u32)>, k: u32| model.iter().any(|(mk, _)| *mk == k);

    for step in 0..50_000u32 {
        let op = rng() % 9;
        let k = (rng() % 48) as u32;
        let v = (rng() % 1024) as u32;
        match op {
            0 => {
                // push_back: upsert + move to tail, returns old value.
                let old = q.push_back(k, v);
                let model_old = model_remove(&mut model, k);
                model.push_back((k, v));
                assert_eq!(old, model_old, "step {step}: push_back old value");
            }
            1 => {
                // push_front: upsert + move to head, returns old value.
                let old = q.push_front(k, v);
                let model_old = model_remove(&mut model, k);
                model.push_front((k, v));
                assert_eq!(old, model_old, "step {step}: push_front old value");
            }
            2 => {
                assert_eq!(q.pop_front(), model.pop_front(), "step {step}: pop_front");
            }
            3 => {
                assert_eq!(q.pop_back(), model.pop_back(), "step {step}: pop_back");
            }
            4 => {
                let removed = q.remove(&k);
                let model_removed = model_remove(&mut model, k);
                assert_eq!(removed, model_removed, "step {step}: remove({k})");
            }
            5 => {
                // insert_after: anchor = a random existing key (if any)
                if let Some((anchor, _)) = model.front().copied() {
                    let r = q.insert_after(&anchor, k, v);
                    if has(&model, k) {
                        assert!(r.is_err(), "step {step}: insert_after dup");
                    } else {
                        assert!(r.is_ok(), "step {step}: insert_after ok");
                        let pos = model.iter().position(|(mk, _)| *mk == anchor).unwrap();
                        model.insert(pos + 1, (k, v));
                    }
                }
            }
            6 => {
                if let Some((anchor, _)) = model.back().copied() {
                    let r = q.insert_before(&anchor, k, v);
                    if has(&model, k) {
                        assert!(r.is_err(), "step {step}: insert_before dup");
                    } else {
                        assert!(r.is_ok(), "step {step}: insert_before ok");
                        let pos = model.iter().position(|(mk, _)| *mk == anchor).unwrap();
                        model.insert(pos, (k, v));
                    }
                }
            }
            7 => {
                // move_to_back / move_to_front, value-preserving.
                if v % 2 == 0 {
                    let moved = q.move_to_back(&k);
                    match model_remove(&mut model, k) {
                        Some(val) => {
                            assert!(moved, "step {step}: move_to_back present");
                            model.push_back((k, val));
                        }
                        None => assert!(!moved, "step {step}: move_to_back absent"),
                    }
                } else {
                    let moved = q.move_to_front(&k);
                    match model_remove(&mut model, k) {
                        Some(val) => {
                            assert!(moved, "step {step}: move_to_front present");
                            model.push_front((k, val));
                        }
                        None => assert!(!moved, "step {step}: move_to_front absent"),
                    }
                }
            }
            _ => {
                assert_eq!(q.len(), model.len(), "step {step}: len");
                assert_eq!(q.contains(&k), has(&model, k), "step {step}: contains({k})");
                let fwd: Vec<(u32, u32)> = q.iter().map(|(k, v)| (*k, *v)).collect();
                let m_fwd: Vec<(u32, u32)> = model.iter().copied().collect();
                assert_eq!(fwd, m_fwd, "step {step}: iter order");

                let rev: Vec<(u32, u32)> = q.iter().rev().map(|(k, v)| (*k, *v)).collect();
                let mut m_rev = m_fwd.clone();
                m_rev.reverse();
                assert_eq!(rev, m_rev, "step {step}: rev iter order");

                assert_eq!(
                    q.front().map(|(k, v)| (*k, *v)),
                    model.front().copied(),
                    "step {step}: front"
                );
                assert_eq!(
                    q.back().map(|(k, v)| (*k, *v)),
                    model.back().copied(),
                    "step {step}: back"
                );
            }
        }
    }
}
