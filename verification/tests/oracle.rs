//! Runs of a queue beside its oracle.
use linked_queue::oracle::{apply, check, mask, model_pos, model_remove, run, Op};
use linked_queue::LinkedQueue;
use std::collections::VecDeque;

#[test]
fn keys_are_masked() {
    assert_eq!(mask(5), 5);
    assert_eq!(mask(16), 0);
    assert_eq!(mask(255), 15);
}

#[test]
fn oracle_finds_and_removes_the_first() {
    let mut m: VecDeque<(u8, u16)> = VecDeque::from(vec![(1, 10), (2, 20), (1, 30)]);
    assert_eq!(model_pos(&m, 2), Some(1));
    assert_eq!(model_pos(&m, 3), None);
    assert_eq!(model_remove(&mut m, 1), Some(10));
    assert_eq!(m, VecDeque::from(vec![(2, 20), (1, 30)]));
    assert_eq!(model_remove(&mut m, 9), None);
}

#[test]
fn check_sees_every_difference() {
    let mut q: LinkedQueue<u8, u16> = LinkedQueue::new();
    let mut m: VecDeque<(u8, u16)> = VecDeque::new();
    assert!(check(&q, &m));
    q.push_back(1, 10);
    assert!(!check(&q, &m));
    m.push_back((1, 11));
    assert!(!check(&q, &m));
    m[0].1 = 10;
    assert!(check(&q, &m));
    q.push_back(2, 20);
    m.push_front((2, 20));
    assert!(!check(&q, &m));
}

#[test]
fn every_operation_once() {
    let ops = vec![
        Op::InsertAfterFront(1, 1),
        Op::PushBack(1, 10),
        Op::PushFront(17, 11),
        Op::TryPushBack(1, 12),
        Op::TryPushBack(2, 20),
        Op::TryPushFront(3, 30),
        Op::TryPushFront(3, 31),
        Op::InsertAfterFront(4, 40),
        Op::InsertBeforeBack(5, 50),
        Op::InsertBeforeBack(5, 51),
        Op::GetMutSet(4, 44),
        Op::GetMutSet(9, 99),
        Op::Probe(4),
        Op::MoveToBack(3),
        Op::MoveToFront(2),
        Op::MoveToFront(8),
        Op::Remove(5),
        Op::Remove(5),
    ];
    let q = run(&ops).unwrap();
    assert_eq!(q.to_vec(), vec![(2, 20), (4, 44), (1, 11), (3, 30)]);
    let mut more = ops;
    more.push(Op::PopFront);
    more.push(Op::PopBack);
    assert_eq!(run(&more).unwrap().to_vec(), vec![(4, 44), (1, 11)]);
}

#[test]
fn long_run_stays_small() {
    let mut state: u64 = 42;
    let mut rng = || {
        state = state
            .wrapping_mul(6364136223846793005)
            .wrapping_add(1442695040888963407);
        state >> 33
    };
    let mut q: LinkedQueue<u8, u16> = LinkedQueue::new();
    let mut m: VecDeque<(u8, u16)> = VecDeque::new();
    for _ in 0..50_000 {
        let k = rng() as u8;
        let v = rng() as u16;
        let op = match rng() % 13 {
            0 => Op::PushBack(k, v),
            1 => Op::PushFront(k, v),
            2 => Op::TryPushBack(k, v),
            3 => Op::TryPushFront(k, v),
            4 => Op::PopFront,
            5 => Op::PopBack,
            6 => Op::Remove(k),
            7 => Op::MoveToBack(k),
            8 => Op::MoveToFront(k),
            9 => Op::InsertAfterFront(k, v),
            10 => Op::InsertBeforeBack(k, v),
            11 => Op::GetMutSet(k, v),
            _ => Op::Probe(k),
        };
        assert!(apply(&mut q, &mut m, op));
        assert!(check(&q, &m));
        assert!(q.len() <= 16);
    }
    assert!(q.capacity() <= 16);
}

fn side_by_side(
    pairs: &[(u8, u16)],
    expected: &[(u8, u16)],
) -> (LinkedQueue<u8, u16>, VecDeque<(u8, u16)>) {
    (
        LinkedQueue::from_iter(pairs.iter().copied()),
        expected.iter().copied().collect(),
    )
}

#[test]
fn different_answers_are_noticed() {
    let held: &[(u8, u16)] = &[(1, 10), (2, 20)];
    let cases: Vec<(&[(u8, u16)], Op)> = vec![
        (&[(1, 11), (2, 20)], Op::PushBack(1, 5)),
        (&[(2, 20)], Op::PushFront(1, 5)),
        (&[(2, 20)], Op::TryPushBack(1, 5)),
        (&[(1, 10), (3, 30)], Op::TryPushFront(3, 5)),
        (&[(2, 20), (1, 10)], Op::PopFront),
        (&[], Op::PopBack),
        (&[(1, 10), (2, 21)], Op::PopBack),
        (&[(1, 11)], Op::Remove(1)),
        (&[(1, 10)], Op::MoveToBack(2)),
        (&[(3, 30)], Op::MoveToFront(3)),
        (&[(3, 30)], Op::InsertAfterFront(4, 40)),
        (&[(1, 10), (4, 40)], Op::InsertAfterFront(4, 40)),
        (&[(1, 10), (3, 30)], Op::InsertBeforeBack(4, 40)),
        (&[(1, 10)], Op::GetMutSet(2, 5)),
        (&[(3, 30)], Op::GetMutSet(3, 5)),
        (&[(1, 11)], Op::Probe(1)),
    ];
    for (expected, op) in cases {
        let (mut q, mut m) = side_by_side(held, expected);
        assert!(!apply(&mut q, &mut m, op), "{op:?}");
    }
}

#[test]
fn equal_answers_of_different_contents_pass() {
    let (mut q, mut m) = side_by_side(&[(1, 10), (2, 20)], &[(2, 20), (3, 30)]);
    assert!(apply(&mut q, &mut m, Op::Probe(2)));
    assert!(apply(&mut q, &mut m, Op::InsertAfterFront(4, 40)));
    assert_eq!(q.to_vec(), vec![(1, 10), (2, 20), (4, 40)]);
    assert_eq!(m, VecDeque::from(vec![(2, 20), (4, 40), (3, 30)]));
    assert!(!check(&q, &m));
}
