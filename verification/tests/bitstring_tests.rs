use hash_table::bitstring::{BitContainer, BitString, FixedBitString};
use hash_table::fp::{Monoid, Semigroup};

#[test]
fn fixed_bit_string_1() {
    let mut a = FixedBitString::<8>::new();
    a.set(7, true);
    a.set(6, true);
    a.set(5, true);
    a.set(7, false);
    a.set(6, false);
    a.set(5, false);
    assert!(a.is_empty());
}

#[test]
fn fixed_bit_string_2() {
    let mut a = FixedBitString::<8>::new();
    a.set(2, true);
    a.set(2, false);
    assert!(!a.get(2).unwrap());
}

#[test]
fn fixed_bit_string_iter() {
    let mut a = FixedBitString::<8>::new();
    a.set(2, true);
    a.set(2, false);
    assert!(!a.get(2).unwrap());
}

#[test]
fn fixed_bit_string_toggle_and_slice() {
    let mut a = FixedBitString::<4>::new();
    a.toggle(3);
    assert_eq!(a.get(3), Some(true));
    a.toggle(3);
    assert_eq!(a.get(3), Some(false));
    a.copy_from_bool_slice(8, &[true, false, true]);
    assert_eq!(a.get(8), Some(true));
    assert_eq!(a.get(9), Some(false));
    assert_eq!(a.get(10), Some(true));
    assert_eq!(a.get(32), None);
    let mut it = a.iter();
    let mut count = 0;
    let mut ones = 0;
    while let Some(b) = it.next() {
        count += 1;
        if b {
            ones += 1;
        }
    }
    assert_eq!(count, 32);
    assert_eq!(ones, 2);
}

#[test]
fn bit_string_bytes() {
    let mut s = BitString::new();
    s.push_byte(0b0000_0101);
    let mut it = s.iter();
    assert_eq!(it.next(), Some(true));
    assert_eq!(it.next(), Some(false));
    assert_eq!(it.next(), Some(true));
    for _ in 3..8 {
        assert_eq!(it.next(), Some(false));
    }
    assert_eq!(it.next(), None);
    let mut im = s.iter_mut();
    let mut first = im.next().expect("one bit");
    assert!(first.get());
    first.toggle();
    assert!(!first.get());
    first.set(true);
    assert!(first.get());
}

#[test]
fn bit_container_union_monoid() {
    let a = BitContainer(0b0011);
    let b = BitContainer(0b0101);
    assert_eq!(a.append(b), BitContainer(0b0111));
    assert_eq!(BitContainer::mempty().append(a), a);
    assert_eq!(a.append(BitContainer::mempty()), a);
}
