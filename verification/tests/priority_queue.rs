use skippy_rs::priority_queue::PriorityQueue;
use std::cmp::Reverse;
use std::collections::BinaryHeap;

#[test]
fn test_push() {
    let mut queue = PriorityQueue::new();
    let mut rng: u16 = rand::random();

    for _ in 0..10_000 {
        rng ^= rng << 3;

        queue.push(rng)
    }
}

#[test]
fn test_pop() {
    let mut queue = PriorityQueue::new();
    let mut rng: u16 = rand::random();

    for _ in 0..10_000 {
        rng ^= rng << 6;
        rng ^= rng >> 9;
        rng ^= rng << 3;

        queue.push(rng)
    }

    for _ in 0..10_000 {
        queue.pop();
    }

    assert_eq!(queue.len(), 0);
}

#[test]
fn test_push_pop() {
    let n = 1_000;
    let mut seed: u32 = rand::random();
    let mut queue = PriorityQueue::new();

    for _ in 0..n {
        seed ^= seed << 13;
        seed ^= seed >> 17;
        seed ^= seed << 7;

        match seed % 5 {
            0 => {
                queue.pop();
            }
            _ => {
                queue.push(seed);
            }
        }
    }

    assert!(queue.len() > 0);
}

#[test]
fn test_with_std() {
    let n = 100_000;
    let mut seed: u8 = rand::random();
    let mut queue = PriorityQueue::new();
    let mut sq = BinaryHeap::new();

    for _ in 0..n {
        seed ^= seed << 4;
        seed ^= seed >> 3;
        seed ^= seed << 5;

        match seed % 5 {
            0 => {
                assert_eq!(sq.pop().map(|r: Reverse<u8>| r.0), queue.pop());
            }
            _ => {
                sq.push(Reverse(seed));
                queue.push(seed);
            }
        }
    }
}

#[test]
fn test_sync_push() {
    let n = 1_000;
    let mut seed: u32 = rand::random();
    let mut queue = PriorityQueue::new_sync();

    for _ in 0..n {
        seed ^= seed << 13;
        seed ^= seed >> 17;
        seed ^= seed << 7;

        queue.push(seed);
    }

    assert!(queue.len() > 0);
}

#[test]
fn queue_pops_pushed_values_in_ascending_order() {
    let mut queue = PriorityQueue::new();
    for v in [7u32, 3, 9, 1, 5, 3] {
        queue.push(v);
    }
    assert_eq!(queue.len(), 5);
    assert_eq!(queue.peek(), Some(&1));
    let mut out = Vec::new();
    while let Some(v) = queue.pop() {
        out.push(v);
    }
    assert_eq!(out, vec![1, 3, 5, 7, 9]);
    assert!(queue.is_empty());
    assert_eq!(queue.pop(), None);
    assert_eq!(queue.peek(), None);
}

#[test]
fn queue_with_two_phase_removal_pops_in_ascending_order() {
    let mut queue = PriorityQueue::new_sync();
    for v in 1..=20u32 {
        queue.push(21 - v);
    }
    let mut out = Vec::new();
    for _ in 0..8 {
        out.push(queue.pop().unwrap().0);
    }
    assert_eq!(out, vec![1, 2, 3, 4, 5, 6, 7, 8]);
    assert_eq!(*queue.peek().unwrap().key(), 9);
    let mut rest = Vec::new();
    let mut it = queue.iter();
    while let Some(e) = it.next() {
        rest.push(*e.key());
    }
    assert_eq!(rest, (9..=20).collect::<Vec<u32>>());
}

#[test]
fn every_pop_takes_one_off_the_count() {
    let mut queue = PriorityQueue::new_sync();
    queue.push(1u8);
    queue.push(2u8);
    queue.push(3u8);
    assert_eq!(queue.len(), 3);
    assert_eq!(queue.pop(), Some((1, ())));
    assert_eq!(queue.len(), 2);
    assert_eq!(*queue.peek().unwrap().key(), 2);
    assert_eq!(queue.pop(), Some((2, ())));
    assert_eq!(queue.len(), 1);
    queue.push(0u8);
    assert_eq!(queue.len(), 2);
    assert_eq!(queue.pop(), Some((0, ())));
    assert_eq!(queue.pop(), Some((3, ())));
    assert_eq!(queue.len(), 0);
    assert!(queue.is_empty());
    assert_eq!(queue.pop(), None);
    assert!(queue.peek().is_none());
    assert_eq!(queue.len(), 0);
}

#[test]
fn queue_into_iter_drains_in_ascending_order() {
    let mut queue = PriorityQueue::new();
    for v in [4u16, 2, 8, 6] {
        queue.push(v);
    }
    let mut it = queue.into_iter();
    let mut out = Vec::new();
    while let Some((v, ())) = it.next() {
        out.push(v);
    }
    assert_eq!(out, vec![2, 4, 6, 8]);
}

#[test]
fn queue_cursor_for_exchange_walks_in_ascending_order() {
    let mut queue = PriorityQueue::new();
    for v in [30u16, 10, 20] {
        queue.push(v);
    }
    let mut seen = Vec::new();
    let mut it = queue.iter_mut();
    while let Some(handle) = it.next() {
        seen.push(*handle.key());
    }
    assert_eq!(seen, vec![10, 20, 30]);
    assert_eq!(queue.len(), 3);
}
