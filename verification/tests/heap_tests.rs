use hash_table::heap::{BinaryHeap, InverseOrd};

use rand::seq::SliceRandom;
use rand::thread_rng;

#[test]
fn check_in_order() {
    let mut bheap: BinaryHeap<u32> = BinaryHeap::new();
    let max = 100;
    for i in (1..=max).rev() {
        bheap.insert(i);
    }
    for i in 1..=max {
        let ex = bheap.extract().expect("failed to extract");
        assert_eq!(ex, i);
    }
}

#[test]
fn insert_rand_order() {
    let mut bheap: BinaryHeap<u32> = BinaryHeap::new();
    let max = 100;

    let mut elems: Vec<_> = (1..=max).collect();
    elems.shuffle(&mut thread_rng());

    for i in elems.into_iter() {
        bheap.insert(i);
    }
    for i in 1..=max {
        let ex = bheap.extract().expect("failed to extract");
        assert_eq!(ex, i);
    }
}

#[test]
fn heap_peek_is_min() {
    let mut bheap: BinaryHeap<u64> = BinaryHeap::new();
    assert!(bheap.peek().is_none());
    bheap.insert(5);
    bheap.insert(3);
    bheap.insert(9);
    assert_eq!(bheap.peek(), Some(&3));
    assert_eq!(bheap.len(), 3);
    assert!(!bheap.is_empty());
}

#[test]
fn inverse_ord_makes_max_heap() {
    let mut bheap: BinaryHeap<InverseOrd<u32>> = BinaryHeap::new();
    for i in [4u32, 9, 1, 7] {
        bheap.insert(InverseOrd(i));
    }
    assert_eq!(bheap.extract(), Some(InverseOrd(9)));
    assert_eq!(bheap.extract(), Some(InverseOrd(7)));
    assert_eq!(bheap.extract(), Some(InverseOrd(4)));
    assert_eq!(bheap.extract(), Some(InverseOrd(1)));
    assert_eq!(bheap.extract(), None);
}
