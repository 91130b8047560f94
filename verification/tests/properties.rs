use std::collections::HashMap;

use hash_table::allocator::Allocator;
use hash_table::doubly_linked_list::DoublyLinkedList;
use hash_table::separate_chaining::{SCHashTable, SCHashTableImpl};
use hash_table::{AllocError, HashBuilder};

use rand::rngs::StdRng;
use rand::{Rng, SeedableRng};

/// Key uniqueness: inserting an existing key returns the previous value
/// and leaves the count unchanged.
#[test]
fn key_uniqueness_on_reinsert() {
    let mut t: SCHashTable<i32, i32> = SCHashTable::with_capacity(10);
    assert_eq!(t.insert(1, 10).expect("alloc failed"), None);
    assert_eq!(t.len(), 1);
    assert_eq!(t.insert(1, 20).expect("alloc failed"), Some(10));
    assert_eq!(t.len(), 1);
    assert_eq!(t.get(&1), Some(&20));
}

/// Round trip: a fresh key inserted then looked up yields its value, and
/// the count grows by exactly one.
#[test]
fn round_trip_fresh_key() {
    let mut t: SCHashTable<i32, i32> = SCHashTable::with_capacity(10);
    let before = t.len();
    assert_eq!(t.insert(42, 7).expect("alloc failed"), None);
    assert_eq!(t.len(), before + 1);
    assert_eq!(t.get(&42), Some(&7));
}

/// Remove/absence: removing an absent key answers `None` and changes
/// nothing; removing a present key yields its value and the next lookup
/// misses.
#[test]
fn remove_present_and_absent() {
    let mut t: SCHashTable<i32, i32> = SCHashTable::with_capacity(10);
    t.insert(3, 30).expect("alloc failed");
    assert_eq!(t.remove(&4), None);
    assert_eq!(t.len(), 1);
    assert_eq!(t.remove(&3), Some(30));
    assert_eq!(t.get(&3), None);
    assert_eq!(t.len(), 0);
}

/// Growth preserves content: inserts that trigger several growths leave
/// exactly the reference map observable.
#[test]
fn growth_preserves_content() {
    let mut t: SCHashTable<u64, u64> = SCHashTable::with_capacity(0);
    let mut reference: HashMap<u64, u64> = HashMap::new();
    for i in 0..500u64 {
        let k = i.wrapping_mul(2654435761);
        t.insert(k, i).expect("alloc failed");
        reference.insert(k, i);
    }
    assert_eq!(t.len(), reference.len());
    for (k, v) in reference.iter() {
        assert_eq!(t.get(k), Some(v));
    }
}

/// No leaks, no double free: over the table's whole lifetime, everything
/// allocated from the instrumented arena is freed exactly once.
#[test]
fn no_leaks_over_lifetime() {
    let arena = Allocator::unlimited();
    let mut t: SCHashTableImpl<u32, u32> =
        SCHashTableImpl::with_capacity_and_hasher_in(0, HashBuilder::new(), arena)
            .expect("alloc failed");
    for i in 0..200u32 {
        t.insert(i, i).expect("alloc failed");
    }
    for i in 0..100u32 {
        assert_eq!(t.remove(&i), Some(i));
    }
    let arena = t.destroy();
    assert_eq!(arena.outstanding(), 0);
    assert_eq!(arena.total_allocated(), arena.total_freed());
}

/// From the unallocated state, fifty-one distinct keys grow the table to
/// the default capacity and then double it.
#[test]
fn fifty_one_inserts_grow_twice() {
    let mut t: SCHashTable<u64, u64> = SCHashTable::with_capacity(0);
    assert_eq!(t.capacity(), 0);
    for i in 0..51u64 {
        t.insert(i, i).expect("alloc failed");
    }
    assert_eq!(t.capacity(), 100);
    assert_eq!(t.len(), 51);
    for i in 0..51u64 {
        assert_eq!(t.get(&i), Some(&i));
    }
}

/// Reinserting a key replaces its value without growing the count.
#[test]
fn duplicate_key_replaces_value() {
    let mut t: SCHashTable<i32, String> = SCHashTable::with_capacity(10);
    assert_eq!(t.insert(1, String::from("a")).expect("alloc failed"), None);
    let prev = t.insert(1, String::from("b")).expect("alloc failed");
    assert_eq!(prev, Some(String::from("a")));
    assert_eq!(t.len(), 1);
    assert_eq!(t.get(&1), Some(&String::from("b")));
}

/// Removing from an unallocated table answers `None` without allocating.
#[test]
fn remove_from_empty_table() {
    let arena = Allocator::unlimited();
    let mut t: SCHashTableImpl<i32, i32> =
        SCHashTableImpl::with_capacity_and_hasher_in(0, HashBuilder::new(), arena)
            .expect("alloc failed");
    assert_eq!(t.remove(&1), None);
    assert_eq!(t.allocator().total_allocated(), 0);
    assert_eq!(t.allocator().total_freed(), 0);
}

/// The allocation error surfaces exactly when the arena's budget runs out,
/// and the table keeps every pre-existing entry.
#[test]
fn budget_exhaustion_loses_nothing() {
    // room for the five-slot array plus two nodes, nothing more
    let arena = Allocator::with_budget(7);
    let mut t: SCHashTableImpl<u32, u32> =
        SCHashTableImpl::with_capacity_and_hasher_in(5, HashBuilder::new(), arena)
            .expect("alloc failed");
    t.insert(1, 10).expect("alloc failed");
    t.insert(2, 20).expect("alloc failed");
    assert_eq!(t.insert(3, 30), Err(AllocError));
    assert_eq!(t.len(), 2);
    assert_eq!(t.get(&1), Some(&10));
    assert_eq!(t.get(&2), Some(&20));

    let arena = Allocator::with_budget(2);
    let refused: Result<SCHashTableImpl<u32, u32>, AllocError> =
        SCHashTableImpl::with_capacity_and_hasher_in(5, HashBuilder::new(), arena);
    assert_eq!(refused.err(), Some(AllocError));
}

/// Replays a fixed pseudo-random sequence of inserts, gets and removes
/// against a reference map; every answer must match at every step.
#[test]
fn run_test() {
    for seed in 0..10u64 {
        let mut rng = StdRng::seed_from_u64(seed);
        let mut table: SCHashTable<u8, i64> = SCHashTable::with_capacity(50);
        let mut reference: HashMap<u8, i64> = HashMap::new();
        for _ in 0..1000 {
            let choice = if reference.len() > 1 { rng.gen_range(0..3) } else { 0 };
            match choice {
                0 => {
                    let key: u8 = rng.gen();
                    let val: i64 = rng.gen();
                    let expected = reference.insert(key, val);
                    let got = table.insert(key, val).expect("alloc failed");
                    assert_eq!(expected, got);
                }
                1 => {
                    let existing = rng.gen_bool(0.75);
                    let key: u8 = if existing {
                        let ind = rng.gen_range(0..reference.len());
                        *reference.keys().nth(ind).unwrap()
                    } else {
                        rng.gen()
                    };
                    assert_eq!(reference.get(&key), table.get(&key));
                }
                _ => {
                    let key: u8 = {
                        let ind = rng.gen_range(0..reference.len());
                        *reference.keys().nth(ind).unwrap()
                    };
                    assert_eq!(reference.remove(&key), table.remove(&key));
                }
            }
        }
        assert_eq!(table.len(), reference.len());
    }
}

#[test]
fn dll_push_front() {
    let mut list = DoublyLinkedList::new();
    for i in 0..5 {
        list.push_front(i).unwrap();
    }
    assert_eq!(list.pop_front(), Some(4));
    assert_eq!(list.len(), 4);
}

#[test]
fn dll_push_back() {
    let mut list = DoublyLinkedList::new();
    for i in 0..5 {
        list.push_back(i).unwrap();
    }
    assert_eq!(list.pop_back(), Some(4));
    assert_eq!(list.front(), Some(&0));
    assert_eq!(list.back(), Some(&3));
}

#[test]
fn dll_cursor_walk_and_edit() {
    let mut list = DoublyLinkedList::new();
    for i in 0..5 {
        list.push_back(i).unwrap();
    }
    {
        let mut cur = list.cursor();
        assert_eq!(cur.peek(), Some(&0));
        cur.next();
        assert_eq!(cur.index(), 1);
        assert_eq!(cur.peek(), Some(&1));
        cur.jump_to_tail();
        assert_eq!(cur.peek(), None);
        cur.prev();
        assert_eq!(cur.peek(), Some(&4));
        cur.jump_to_head();
        assert_eq!(cur.peek(), Some(&0));
    }
    let mut edit = list.cursor_mut();
    edit.next(&list);
    edit.next(&list);
    assert_eq!(edit.remove_current(&mut list), Some(2));
    assert_eq!(edit.remove_next(&mut list), Some(4));
    assert_eq!(edit.remove_prev(&mut list), Some(1));
    // list is now [0, 3]
    let other = {
        let mut other = DoublyLinkedList::new();
        other.push_back(7).unwrap();
        other.push_back(8).unwrap();
        other
    };
    edit.jump_to_head();
    edit.append_next(&mut list, other).ok().unwrap();
    // [0, 7, 8, 3]
    assert_eq!(list.get(1), Some(&7));
    assert_eq!(list.get(2), Some(&8));
    assert_eq!(list.len(), 4);
    edit.next(&list);
    let tail = edit.split(&mut list);
    // split at position 1: list keeps [0], tail takes [7, 8, 3]
    assert_eq!(list.len(), 1);
    assert_eq!(tail.len(), 3);
    assert_eq!(tail.front(), Some(&7));
    assert_eq!(tail.back(), Some(&3));
}
