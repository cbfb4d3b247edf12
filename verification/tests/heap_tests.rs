use binary_heap::BinaryHeap;

#[test]
fn several_inserts_1() {
    let mut heap = BinaryHeap::new();
    assert!(heap.as_slice().is_empty());
    heap.insert(0);
    assert_eq!(vec![0], heap.as_slice().to_vec());
    heap.insert(1);
    assert_eq!(vec![1, 0], heap.as_slice().to_vec());
    heap.insert(2);
    assert_eq!(vec![2, 0, 1], heap.as_slice().to_vec());
    heap.insert(-2);
    assert_eq!(vec![2, 0, 1, -2], heap.as_slice().to_vec());
    heap.insert(-1);
    assert_eq!(vec![2, 0, 1, -2, -1], heap.as_slice().to_vec());
    heap.insert(2);
    assert_eq!(vec![2, 0, 2, -2, -1, 1], heap.as_slice().to_vec());
    heap.insert(0);
    assert_eq!(vec![2, 0, 2, -2, -1, 1, 0], heap.as_slice().to_vec());
}

#[test]
fn get_max_1() {
    let mut heap = BinaryHeap::new();
    assert_eq!(None, heap.get_max());
    heap.insert(0);
    assert_eq!(Some(0), heap.get_max());
    heap.insert(1);
    assert_eq!(Some(1), heap.get_max());
    heap.insert(2);
    assert_eq!(Some(2), heap.get_max());
    heap.insert(-2);
    assert_eq!(Some(2), heap.get_max());
    heap.insert(-1);
    assert_eq!(Some(2), heap.get_max());
    heap.insert(2);
    assert_eq!(Some(2), heap.get_max());
    heap.insert(0);
    assert_eq!(Some(2), heap.get_max());
}

#[test]
fn pop_1() {
    let mut heap = BinaryHeap::new();
    heap.insert(0);
    heap.insert(1);
    heap.insert(2);
    heap.insert(-2);
    heap.insert(-1);
    heap.insert(2);
    heap.insert(0);
    assert_eq!(Some(2), heap.pop());
    assert_eq!(Some(2), heap.pop());
    assert_eq!(Some(1), heap.pop());
    assert_eq!(Some(0), heap.pop());
    assert_eq!(Some(0), heap.pop());
    assert_eq!(Some(-1), heap.pop());
    assert_eq!(Some(-2), heap.pop());
    assert_eq!(None, heap.pop());
}

#[test]
fn pop_2() {
    let mut heap = BinaryHeap::new();
    heap.insert(0);
    heap.insert(10);
    heap.insert(20);
    heap.insert(-20);
    heap.insert(-10);
    heap.insert(20);
    heap.insert(0);
    heap.insert(5);
    heap.insert(15);
    heap.insert(2);
    heap.insert(3);
    heap.insert(-3);
    heap.insert(-15);
    assert_eq!(Some(20), heap.pop());
    assert_eq!(Some(20), heap.pop());
    assert_eq!(Some(15), heap.pop());
    assert_eq!(Some(10), heap.pop());
    assert_eq!(Some(5), heap.pop());
    assert_eq!(Some(3), heap.pop());
    assert_eq!(Some(2), heap.pop());
    assert_eq!(Some(0), heap.pop());
    assert_eq!(Some(0), heap.pop());
    assert_eq!(Some(-3), heap.pop());
    assert_eq!(Some(-10), heap.pop());
    assert_eq!(Some(-15), heap.pop());
    assert_eq!(Some(-20), heap.pop());
    assert_eq!(None, heap.pop());
}

#[test]
fn search_1() {
    let mut heap = BinaryHeap::new();
    heap.insert(0);
    heap.insert(1);
    heap.insert(2);
    heap.insert(-2);
    heap.insert(-1);
    heap.insert(2);
    heap.insert(0);
    assert!(heap.search(&0));
    assert!(heap.search(&1));
    assert!(heap.search(&2));
    assert!(heap.search(&-1));
    assert!(heap.search(&-2));
    assert!(!heap.search(&-3));
    assert!(!heap.search(&3));
}

#[test]
fn search_2() {
    let mut heap = BinaryHeap::new();
    heap.insert(0);
    heap.insert(10);
    heap.insert(20);
    heap.insert(-20);
    heap.insert(-10);
    heap.insert(20);
    heap.insert(0);
    heap.insert(5);
    heap.insert(15);
    heap.insert(2);
    heap.insert(3);
    heap.insert(-3);
    heap.insert(-15);
    assert!(heap.search(&0));
    assert!(heap.search(&10));
    assert!(heap.search(&20));
    assert!(heap.search(&-20));
    assert!(heap.search(&-10));
    assert!(heap.search(&5));
    assert!(heap.search(&15));
    assert!(heap.search(&2));
    assert!(heap.search(&3));
    assert!(heap.search(&-3));
    assert!(heap.search(&-15));
    assert!(!heap.search(&1));
    assert!(!heap.search(&-1));
    assert!(!heap.search(&100));
    assert!(!heap.search(&-100));
    assert!(!heap.search(&14));
}
