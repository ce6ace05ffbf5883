use std::collections::HashSet;
use rs_wgpu_engine::work::{worker_count, workers_for, WorkQueue};

#[test]
fn workers_are_twice_the_cpus_but_at_most_the_items() {
    assert_eq!(workers_for(4, 100), 8);
    assert_eq!(workers_for(4, 8), 8);
    assert_eq!(workers_for(4, 7), 7);
    assert_eq!(workers_for(1, 0), 0);
    assert_eq!(workers_for(usize::MAX, 3), 3);
}

#[test]
fn worker_count_is_bounded() {
    let n = worker_count(0, 100000);
    assert!(n >= 1 && n <= 100000);
    assert_eq!(worker_count(5, 5), 0);
    assert_eq!(worker_count(5, 6), 1);
}

#[test]
fn queue_hands_out_every_index_once() {
    let mut remaining: HashSet<usize> = (0..100000).collect();
    let mut q = WorkQueue::new(0, 100000);
    assert_eq!(q.len(), 100000);
    while let Some(i) = q.pop() {
        assert!(remaining.remove(&i));
    }
    assert_eq!(remaining.len(), 0);
    assert_eq!(q.len(), 0);
}

#[test]
fn queue_hands_out_last_first() {
    let mut q = WorkQueue::new(3, 6);
    assert_eq!(q.pop(), Some(5));
    assert_eq!(q.pop(), Some(4));
    assert_eq!(q.pop(), Some(3));
    assert_eq!(q.pop(), None);
    let mut empty = WorkQueue::new(2, 2);
    assert_eq!(empty.pop(), None);
}

#[test]
fn test_parallel() {
    let mut hash_set: HashSet<usize> = HashSet::new();
    for i in 0..100000 {
        hash_set.insert(i);
    }
    let mut queue = WorkQueue::new(0, 100000);
    let workers = worker_count(0, 100000);
    assert!(workers >= 1);
    // The workers take turns at the shared queue until it runs dry.
    let mut done = false;
    while !done {
        for _ in 0..workers {
            match queue.pop() {
                Some(i) => {
                    hash_set.remove(&i);
                }
                None => done = true,
            }
        }
    }
    println!("Final set: {:?}", hash_set);
    assert_eq!(hash_set.len(), 0);
}
