use hash_table::allocator::Allocator;
use hash_table::singly_linked_list::SinglyLinkedList;

fn list_of_range(range: std::ops::Range<i32>) -> SinglyLinkedList<i32> {
    let mut lst = SinglyLinkedList::new();
    for i in range {
        lst.push(i);
    }
    lst
}

#[test]
fn new_and_insert() {
    let mut a = SinglyLinkedList::new();
    for i in 0..10 {
        a.push(i)
    }
    let mut b = vec![];
    let mut iter = a.iter();
    while let Some(i) = iter.next() {
        b.push(*i);
    }
    for i in 0..10 {
        assert!(b.contains(&i));
    }
}

#[test]
fn insert_remove() {
    let mut lst = list_of_range(0..10);
    assert!(lst.remove_by(|c| *c == 5).is_some());
    let b = (0..10).rev().filter(|c| c != &5).collect::<Vec<_>>();
    let mut got: Vec<i32> = Vec::new();
    let mut iter = lst.iter();
    while let Some(i) = iter.next() {
        got.push(*i);
    }
    assert_eq!(b, got);
}

#[test]
fn drain_test() {
    let mut lst = list_of_range(0..100);
    assert_eq!(lst.len(), 100);
    let mut drain = lst.drain();
    let mut b: Vec<i32> = Vec::new();
    for _ in 0..50 {
        b.push(drain.next().unwrap());
    }
    drain.restore(&mut lst).expect("alloc failed");
    assert_eq!(b.len(), 50);
    assert_eq!(lst.len(), 50);
    let mut rest: Vec<i32> = Vec::new();
    let mut into = lst.into_iter();
    while let Some(i) = into.next() {
        rest.push(i);
    }
    assert_eq!((0..50).rev().collect::<Vec<_>>(), rest);
    assert_eq!((50..100).rev().collect::<Vec<_>>(), b);
}

#[test]
fn list_pop_and_last() {
    let mut lst = list_of_range(0..3);
    assert_eq!(lst.last(), Some(&0));
    assert_eq!(lst.pop(), Some(2));
    assert_eq!(lst.pop(), Some(1));
    assert_eq!(lst.pop(), Some(0));
    assert_eq!(lst.pop(), None);
    assert!(lst.is_empty());
}

#[test]
fn list_get_by_first_match() {
    let lst = list_of_range(0..10);
    assert_eq!(lst.get_by(|c| *c % 3 == 0), Some(&9));
    assert_eq!(lst.get_by(|c| *c > 100), None);
}

#[test]
fn list_try_push_budget() {
    let mut lst: SinglyLinkedList<i32> = SinglyLinkedList::new_in(Allocator::with_budget(2));
    lst.try_push(1).expect("alloc failed");
    lst.try_push(2).expect("alloc failed");
    assert!(lst.try_push(3).is_err());
    assert_eq!(lst.len(), 2);
}

#[test]
fn list_get_mut_by_updates_in_place() {
    let mut lst = list_of_range(0..5);
    // list reads [4, 3, 2, 1, 0] front to back
    let (slot, _) = lst.get_mut_by(|c| *c % 2 == 1);
    *slot.unwrap() = 30;
    let mut got: Vec<i32> = Vec::new();
    let mut iter = lst.iter();
    while let Some(i) = iter.next() {
        got.push(*i);
    }
    assert_eq!(got, vec![4, 30, 2, 1, 0]);
    let (missing, _) = lst.get_mut_by(|c| *c > 100);
    assert!(missing.is_none());
}
