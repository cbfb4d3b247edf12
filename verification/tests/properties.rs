use binary_heap::BinaryHeap;
use binary_heap::sort;

#[test]
fn new_heap_is_empty() {
    let mut heap = BinaryHeap::new();
    assert_eq!(0, heap.size());
    assert_eq!(None, heap.get_max());
    assert!(!heap.search(&0));
    assert_eq!(None, heap.pop());
    assert_eq!(0, heap.size());
    let drained = heap.to_vec();
    assert!(drained.is_empty());
}

#[test]
fn default_heap_is_empty() {
    let heap = BinaryHeap::default();
    assert_eq!(0, heap.size());
}

#[test]
fn size_tracks_inserts_and_pops() {
    let mut heap = BinaryHeap::new();
    for k in 0..10 {
        heap.insert(k % 3);
        assert_eq!((k + 1) as usize, heap.size());
    }
    for j in 0..4 {
        heap.pop();
        assert_eq!((10 - j - 1) as usize, heap.size());
    }
}

#[test]
fn peek_is_idempotent() {
    let mut heap = BinaryHeap::new();
    heap.insert(7);
    heap.insert(-4);
    heap.insert(9);
    let first = heap.get_max();
    let second = heap.get_max();
    assert_eq!(first, second);
    assert_eq!(Some(9), first);
    assert_eq!(3, heap.size());
}

#[test]
fn peek_agrees_with_pop() {
    let mut heap = BinaryHeap::new();
    for v in [3, 1, 4, 1, 5, 9, 2, 6] {
        heap.insert(v);
    }
    while heap.size() > 0 {
        let peeked = heap.get_max();
        let popped = heap.pop();
        assert_eq!(peeked, popped);
    }
    assert_eq!(None, heap.get_max());
    assert_eq!(None, heap.pop());
}

#[test]
fn to_vec_drains_in_descending_order() {
    let mut heap = BinaryHeap::new();
    heap.insert(0);
    heap.insert(3);
    heap.insert(1);
    heap.insert(2);
    heap.insert(-1);
    let drained = heap.to_vec();
    assert_eq!(vec![3, 2, 1, 0, -1], drained);
}

#[test]
fn sort_orders_by_descending_key() {
    let sorted = sort(vec![4, 2, 8, 6]);
    assert_eq!(vec![8, 6, 4, 2], sorted);
}

#[test]
fn sort_handles_empty_and_single() {
    assert_eq!(Vec::<i64>::new(), sort(Vec::new()));
    assert_eq!(vec![5], sort(vec![5]));
}

#[test]
fn duplicates_all_come_out() {
    let mut heap = BinaryHeap::new();
    heap.insert(1);
    heap.insert(1);
    heap.insert(1);
    assert!(heap.search(&1));
    assert_eq!(Some(1), heap.pop());
    assert_eq!(Some(1), heap.pop());
    assert_eq!(Some(1), heap.pop());
    assert_eq!(None, heap.pop());
    assert!(!heap.search(&1));
}

#[test]
fn extremes_are_handled() {
    let mut heap = BinaryHeap::new();
    heap.insert(i64::MAX);
    heap.insert(i64::MIN);
    heap.insert(0);
    assert_eq!(Some(i64::MAX), heap.pop());
    assert_eq!(Some(0), heap.pop());
    assert_eq!(Some(i64::MIN), heap.pop());
    assert_eq!(None, heap.pop());
}
