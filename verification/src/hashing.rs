//! Keys and hashing for the hash table.
//!
//! The table asks nothing of a hash beyond determinism per key, so the hash
//! of a key is a specified pure function of the key and of the builder's
//! seed. [`HashBuilder`] plays the role of the hasher factory: it carries the
//! seed that every digest mixes in. [`HashKey`] is the contract a key type
//! gives the table: an equality test that decides structural equality, and a
//! 64-bit digest that equals its specification on every call.

use vstd::prelude::*;

verus! {

/// A key usable by the hash tables of this crate.
///
/// `hash_spec` pins the digest down as a mathematical function of key and
/// seed, so two hashes of one key always agree; `key_eq` decides structural
/// equality.
pub trait HashKey: Sized + Copy {
    /// The digest of `self` under `seed`, as a specification-level function.
    spec fn hash_spec(self, seed: u64) -> u64;

    /// Computes the digest; always the one `hash_spec` names.
    fn hash_with(&self, seed: u64) -> (r: u64)
        ensures
            r == self.hash_spec(seed),
    ;

    /// Decides whether two keys are the same value.
    fn key_eq(&self, other: &Self) -> (r: bool)
        ensures
            r == (self == other),
    ;
}

/// Builds the hash of each key from a fixed seed.
///
/// Stands where a hasher factory would: one builder, handed to a table at
/// construction, fixes the digest of every key for that table's lifetime.
#[derive(Clone, Copy, PartialEq, Eq, Debug)]
pub struct HashBuilder {
    /// The seed mixed into every digest.
    pub seed: u64,
}

impl HashBuilder {
    /// A builder with the default seed.
    pub fn new() -> (r: Self)
        ensures
            r.seed == 0x9E3779B97F4A7C15u64,
    {
        HashBuilder { seed: 0x9E3779B97F4A7C15u64 }
    }

    /// A builder with a chosen seed, for reproducible runs.
    pub fn from_seed(seed: u64) -> (r: Self)
        ensures
            r.seed == seed,
    {
        HashBuilder { seed }
    }

    /// The digest of `key` under this builder.
    pub fn hash_key<K: HashKey>(&self, key: &K) -> (r: u64)
        ensures
            r == key.hash_spec(self.seed),
    {
        key.hash_with(self.seed)
    }
}

impl HashKey for u8 {
    open spec fn hash_spec(self, seed: u64) -> u64 {
        (self as u64) ^ seed
    }

    fn hash_with(&self, seed: u64) -> (r: u64) {
        (*self as u64) ^ seed
    }

    fn key_eq(&self, other: &Self) -> (r: bool) {
        *self == *other
    }
}

impl HashKey for u16 {
    open spec fn hash_spec(self, seed: u64) -> u64 {
        (self as u64) ^ seed
    }

    fn hash_with(&self, seed: u64) -> (r: u64) {
        (*self as u64) ^ seed
    }

    fn key_eq(&self, other: &Self) -> (r: bool) {
        *self == *other
    }
}

impl HashKey for u32 {
    open spec fn hash_spec(self, seed: u64) -> u64 {
        (self as u64) ^ seed
    }

    fn hash_with(&self, seed: u64) -> (r: u64) {
        (*self as u64) ^ seed
    }

    fn key_eq(&self, other: &Self) -> (r: bool) {
        *self == *other
    }
}

impl HashKey for u64 {
    open spec fn hash_spec(self, seed: u64) -> u64 {
        self ^ seed
    }

    fn hash_with(&self, seed: u64) -> (r: u64) {
        *self ^ seed
    }

    fn key_eq(&self, other: &Self) -> (r: bool) {
        *self == *other
    }
}

impl HashKey for usize {
    open spec fn hash_spec(self, seed: u64) -> u64 {
        (self as u64) ^ seed
    }

    fn hash_with(&self, seed: u64) -> (r: u64) {
        (*self as u64) ^ seed
    }

    fn key_eq(&self, other: &Self) -> (r: bool) {
        *self == *other
    }
}

impl HashKey for i8 {
    open spec fn hash_spec(self, seed: u64) -> u64 {
        (self as u64) ^ seed
    }

    fn hash_with(&self, seed: u64) -> (r: u64) {
        (*self as u64) ^ seed
    }

    fn key_eq(&self, other: &Self) -> (r: bool) {
        *self == *other
    }
}

impl HashKey for i16 {
    open spec fn hash_spec(self, seed: u64) -> u64 {
        (self as u64) ^ seed
    }

    fn hash_with(&self, seed: u64) -> (r: u64) {
        (*self as u64) ^ seed
    }

    fn key_eq(&self, other: &Self) -> (r: bool) {
        *self == *other
    }
}

impl HashKey for i32 {
    open spec fn hash_spec(self, seed: u64) -> u64 {
        (self as u64) ^ seed
    }

    fn hash_with(&self, seed: u64) -> (r: u64) {
        (*self as u64) ^ seed
    }

    fn key_eq(&self, other: &Self) -> (r: bool) {
        *self == *other
    }
}

impl HashKey for i64 {
    open spec fn hash_spec(self, seed: u64) -> u64 {
        (self as u64) ^ seed
    }

    fn hash_with(&self, seed: u64) -> (r: u64) {
        (*self as u64) ^ seed
    }

    fn key_eq(&self, other: &Self) -> (r: bool) {
        *self == *other
    }
}

impl HashKey for isize {
    open spec fn hash_spec(self, seed: u64) -> u64 {
        (self as u64) ^ seed
    }

    fn hash_with(&self, seed: u64) -> (r: u64) {
        (*self as u64) ^ seed
    }

    fn key_eq(&self, other: &Self) -> (r: bool) {
        *self == *other
    }
}

} // verus!
