//! Algebraic interfaces: combination with and without a unit.
//!
//! [`Semigroup`] is an associative combination, [`Monoid`] adds a unit,
//! and every implementor proves the laws, not just states them. The bit
//! container combines by bitwise union, with the empty container as unit.

use vstd::prelude::*;

use crate::bitstring::{nth_bit, BitContainer};

verus! {

/// A type whose values combine associatively.
pub trait Semigroup: Sized {
    /// The combination at the specification level.
    spec fn combined(self, rhs: Self) -> Self;

    /// The combination is associative.
    proof fn lemma_append_associative(a: Self, b: Self, c: Self)
        ensures
            a.combined(b).combined(c) == a.combined(b.combined(c)),
    ;

    /// Combines two values.
    fn append(self, rhs: Self) -> (r: Self)
        ensures
            r == self.combined(rhs),
    ;
}

/// A semigroup with an element that combines as a unit.
pub trait Monoid: Semigroup {
    /// The unit at the specification level.
    spec fn unit() -> Self;

    /// The unit combines as the identity, on both sides.
    proof fn lemma_unit_identity(a: Self)
        ensures
            Self::unit().combined(a) == a,
            a.combined(Self::unit()) == a,
    ;

    /// The empty element.
    fn mempty() -> (r: Self)
        ensures
            r == Self::unit(),
    ;
}

impl Semigroup for BitContainer {
    /// Bitwise union: a bit is set when either side has it.
    open spec fn combined(self, rhs: Self) -> Self {
        BitContainer(self.0 | rhs.0)
    }

    proof fn lemma_append_associative(a: Self, b: Self, c: Self) {
        let x = a.0;
        let y = b.0;
        let z = c.0;
        assert((x | y) | z == x | (y | z)) by (bit_vector);
    }

    fn append(self, rhs: Self) -> (r: Self) {
        BitContainer(self.0 | rhs.0)
    }
}

impl Monoid for BitContainer {
    open spec fn unit() -> Self {
        BitContainer(0)
    }

    proof fn lemma_unit_identity(a: Self) {
        let x = a.0;
        assert(0u8 | x == x) by (bit_vector);
        assert(x | 0u8 == x) by (bit_vector);
    }

    fn mempty() -> (r: Self) {
        BitContainer(0)
    }
}

/// The union holds exactly the bits of both sides.
pub proof fn lemma_bit_union(a: BitContainer, b: BitContainer, j: u8)
    requires
        j < 8,
    ensures
        nth_bit(a.combined(b).0, j) == (nth_bit(a.0, j) || nth_bit(b.0, j)),
{
    let x = a.0;
    let y = b.0;
    assert(j < 8 ==> ((((x | y) >> j) & 1u8 == 1u8) == (((x >> j) & 1u8 == 1u8) || ((y >> j)
        & 1u8 == 1u8)))) by (bit_vector);
}

} // verus!
