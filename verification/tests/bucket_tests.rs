use hash_table::allocator::Allocator;
use hash_table::bucket::SLLBucket;

#[test]
fn singly_linked_list_insert_drop() {
    let mut alloc = Allocator::unlimited();
    let mut a: SLLBucket<i32, i32> = SLLBucket::new_in();
    a.insert(1, 1, &mut alloc).expect("alloc failed");
    a.insert(2, 1, &mut alloc).expect("alloc failed");
}

#[test]
fn singly_linked_list_remove_nothing() {
    let mut alloc = Allocator::unlimited();
    let mut a: SLLBucket<i32, i32> = SLLBucket::new_in();
    assert!(a.remove(&1, &mut alloc).is_none());
}

#[test]
fn singly_linked_list_insert_remove() {
    let mut alloc = Allocator::unlimited();
    let mut a: SLLBucket<i32, i32> = SLLBucket::new_in();
    a.insert(1, 1, &mut alloc).expect("alloc failed");
    let i = a.remove(&1, &mut alloc).unwrap();
    assert_eq!(i.1, 1);
}

#[test]
fn bucket_insert_evicts_same_key() {
    let mut alloc = Allocator::unlimited();
    let mut a: SLLBucket<i32, i32> = SLLBucket::new_in();
    assert_eq!(a.insert(7, 1, &mut alloc).expect("alloc failed"), None);
    assert_eq!(a.insert(7, 2, &mut alloc).expect("alloc failed"), Some((7, 1)));
    assert_eq!(a.get(&7), Some(&2));
}

#[test]
fn bucket_drain_yields_chain_order() {
    let mut alloc = Allocator::unlimited();
    let mut a: SLLBucket<i32, i32> = SLLBucket::new_in();
    a.insert(1, 10, &mut alloc).expect("alloc failed");
    a.insert(2, 20, &mut alloc).expect("alloc failed");
    a.insert(3, 30, &mut alloc).expect("alloc failed");
    let drained = a.drain(&mut alloc);
    assert_eq!(drained, vec![(3, 30), (2, 20), (1, 10)]);
    assert!(a.is_empty());
    assert_eq!(alloc.total_allocated(), alloc.total_freed());
}
