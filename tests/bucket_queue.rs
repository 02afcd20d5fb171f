use std::collections::VecDeque;
use steiner_graph::{BucketQueue, CustomBucketQueue};

#[test]
fn pops_in_priority_order() {
    let mut q: BucketQueue<u32> = BucketQueue::new();
    q.push(2, 20);
    q.push(0, 0);
    q.push(1, 10);
    q.push(1, 11);
    let mut popped = Vec::new();
    while let Some(px) = q.pop() {
        popped.push(px);
    }
    let priorities: Vec<usize> = popped.iter().map(|p| p.0).collect();
    assert_eq!(priorities, vec![0, 1, 1, 2]);
    let mut items: Vec<u32> = popped.iter().map(|p| p.1).collect();
    items.sort();
    assert_eq!(items, vec![0, 10, 11, 20]);
}

#[test]
fn empty_queue_pops_none() {
    let mut q: BucketQueue<u8> = BucketQueue::new();
    assert_eq!(q.pop(), None);
    q.push(3, 7);
    assert_eq!(q.pop(), Some((3, 7)));
    assert_eq!(q.pop(), None);
    assert_eq!(q.pop(), None);
}

#[test]
fn pushes_after_pops_keep_order() {
    let mut q: BucketQueue<&str> = BucketQueue::new();
    q.push(0, "a");
    assert_eq!(q.pop(), Some((0, "a")));
    q.push(2, "c");
    q.push(1, "b");
    q.push(1, "b2");
    let (first, _) = q.pop().unwrap();
    q.push(1, "late");
    let (second, _) = q.pop().unwrap();
    let (third, _) = q.pop().unwrap();
    let last = q.pop().unwrap();
    assert_eq!((first, second, third), (1, 1, 1));
    assert_eq!(last, (2, "c"));
    assert_eq!(q.pop(), None);
}

#[test]
fn stack_buckets_return_last_pushed_first() {
    let mut q: BucketQueue<u8> = BucketQueue::new();
    q.push(5, 1);
    q.push(5, 2);
    assert_eq!(q.pop(), Some((5, 2)));
    assert_eq!(q.pop(), Some((5, 1)));
}

#[test]
fn queue_buckets_return_first_pushed_first() {
    let mut q: CustomBucketQueue<VecDeque<u8>> = CustomBucketQueue::new();
    q.push(5, 1);
    q.push(5, 2);
    q.push(4, 3);
    assert_eq!(q.pop(), Some((4, 3)));
    assert_eq!(q.pop(), Some((5, 1)));
    assert_eq!(q.pop(), Some((5, 2)));
    assert_eq!(q.pop(), None);
}

#[test]
fn clear_empties_and_resets_floor() {
    let mut q: BucketQueue<u8> = BucketQueue::new();
    q.push(3, 1);
    q.push(4, 2);
    assert_eq!(q.pop(), Some((3, 1)));
    q.clear();
    assert_eq!(q.pop(), None);
    q.push(0, 9);
    assert_eq!(q.pop(), Some((0, 9)));
}

#[test]
fn extend_pushes_every_item() {
    let mut q: BucketQueue<u8> = Default::default();
    q.extend(vec![(2, 1), (0, 2), (1, 3)]);
    assert_eq!(q.pop(), Some((0, 2)));
    assert_eq!(q.pop(), Some((1, 3)));
    assert_eq!(q.pop(), Some((2, 1)));
    assert_eq!(q.pop(), None);
}

#[test]
fn large_priority_gap() {
    let mut q: BucketQueue<u8> = BucketQueue::new();
    q.push(1000, 1);
    q.push(10, 2);
    assert_eq!(q.pop(), Some((10, 2)));
    assert_eq!(q.pop(), Some((1000, 1)));
}
