use hash_table::allocator::Allocator;
use hash_table::bucket::ArrayBucket;
use hash_table::inner::HashTableInner;
use hash_table::separate_chaining::SCHashTableImpl;
use hash_table::separate_chaining::SCHashTable;
use hash_table::traits::HashTable as _;
use hash_table::HashBuilder;

fn hashtable_with_capacity<V>(capacity: usize) -> SCHashTable<i32, V> {
    SCHashTable::with_capacity_and_hasher(capacity, HashBuilder::new())
}

#[test]
fn seperate_chaining_create_and_drop_inner() {
    let _a = hashtable_with_capacity::<i32>(0);
}

#[test]
fn seperate_chaining_create_with_capacity_inner() {
    let _a = hashtable_with_capacity::<i32>(100);
}

#[test]
fn seperate_chaining_insert_growth_drop_inner() {
    let mut a = hashtable_with_capacity::<i32>(5);
    for i in 0..5 {
        a.insert(i, i).expect("alloc failed");
    }
    assert_eq!(a.len(), 5);
}

#[test]
fn seperate_chaining_insert_drop_inner() {
    let mut a: SCHashTable<i32, i32> = SCHashTable::new();
    a.insert(1, 1).expect("alloc failed");
    assert_eq!(a.len(), 1);
}

#[test]
fn seperate_chaining_remove_nothing_inner() {
    let mut a = hashtable_with_capacity::<i32>(0);
    assert!(a.remove(&1).is_none());
}

#[test]
fn seperate_chaining_insert_remove_inner() {
    let mut a = hashtable_with_capacity::<i32>(0);
    a.insert(1, 1).expect("alloc failed");
    let i = a.remove(&1).unwrap();
    assert_eq!(i, 1);
}

#[test]
fn seperate_chaining_empty_iter() {
    let a = hashtable_with_capacity::<i32>(0);
    let u = a.iter().collect();
    assert!(u.is_empty());
}

#[test]
fn seperate_chaining_insert_and_remove() {
    const CAPACITY: usize = 1000;
    let v: Vec<u64> = (0..CAPACITY as u64).map(|i| i.wrapping_mul(2654435761)).collect();
    let mut a: SCHashTable<u64, u64> =
        SCHashTable::with_capacity_and_hasher(CAPACITY, HashBuilder::new());
    for i in v.iter() {
        a.insert(*i, *i).expect("alloc failed");
    }
    let mut r: Vec<u64> = Vec::with_capacity(CAPACITY);
    for i in v.iter() {
        r.push(*a.get(i).unwrap());
    }
    assert_eq!(r, v);
}

#[test]
fn inner_create_and_drop_inner() {
    let _a: HashTableInner<i32, i32> = HashTableInner::with_capacity_and_hasher(0, HashBuilder::new());
}

#[test]
fn inner_create_with_capacity_inner() {
    let _a: HashTableInner<i32, i32> =
        HashTableInner::with_capacity_and_hasher(100, HashBuilder::new());
}

#[test]
fn inner_remove_nothing_inner() {
    let mut a: HashTableInner<i32, i32> =
        HashTableInner::with_capacity_and_hasher(0, HashBuilder::new());
    assert!(a.remove(&1).is_none());
}

#[test]
fn inner_empty_iter() {
    let a: HashTableInner<i32, i32> = HashTableInner::with_capacity_and_hasher(0, HashBuilder::new());
    let u = a.iter().collect();
    assert!(u.is_empty());
}

#[test]
fn inner_iter_test() {
    const CAP: i32 = 25;
    let mut a: HashTableInner<i32, i32> =
        HashTableInner::with_capacity_and_hasher(0, HashBuilder::new());
    let v: Vec<i32> = (0..CAP).collect::<Vec<_>>();
    for i in v.iter().copied() {
        a.insert(i, i).expect("alloc failed");
    }
    let mut u: Vec<i32> = a.iter().collect().into_iter().map(|x| x.1).collect();
    u.sort();
    assert_eq!(v, u);
}

#[test]
fn facade_round_trip() {
    let mut t: hash_table::SCHashTable<u8, u8> =
        hash_table::SCHashTable::with_capacity_and_hasher_in(0, HashBuilder::new(), Allocator::unlimited())
            .expect("alloc failed");
    assert!(t.is_empty());
    assert_eq!(t.insert(1, 2).expect("alloc failed"), None);
    assert_eq!(t.get(&1), Some(&2));
    assert_eq!(t.capacity(), 50);
    t.clear();
    assert_eq!(t.len(), 0);
    assert_eq!(t.get(&1), None);
}

#[test]
fn create_and_drop_inner() {
    let _a = hashtable_with_capacity::<i32>(0);
}

#[test]
fn create_with_capacity_inner() {
    let _a = hashtable_with_capacity::<i32>(100);
}

#[test]
fn remove_nothing_inner() {
    let mut a = hashtable_with_capacity::<i32>(0);
    assert!(a.remove(&1).is_none());
}

#[test]
fn flat_bucket_table_round_trip() {
    let mut t: SCHashTableImpl<u32, u32, ArrayBucket<u32, u32>> =
        SCHashTableImpl::with_capacity_and_hasher_in(0, HashBuilder::new(), Allocator::unlimited())
            .expect("alloc failed");
    for i in 0..60u32 {
        assert_eq!(t.insert(i, i + 1).expect("alloc failed"), None);
    }
    assert_eq!(t.capacity(), 100);
    assert_eq!(t.len(), 60);
    for i in 0..60u32 {
        assert_eq!(t.get(&i), Some(&(i + 1)));
        assert_eq!(t.remove(&i), Some(i + 1));
    }
    let arena = t.destroy();
    assert_eq!(arena.outstanding(), 0);
}
