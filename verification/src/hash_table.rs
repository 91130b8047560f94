//! The hash table facade.
//!
//! [`HashTable`] wraps any implementation of
//! [`crate::traits::HashTableImpl`] behind the stable high-level interface
//! of [`crate::traits::HashTable`]: construction, insert, remove, get,
//! and the counters. It adds no logic of its own; every guarantee is the
//! implementation's, restated at the facade.

use vstd::prelude::*;

use core::marker::PhantomData;

use crate::allocator::{AllocError, Allocator};
use crate::hashing::{HashBuilder, HashKey};
use crate::separate_chaining::SCHashTableImpl;
use crate::traits::HashTableImpl;

verus! {

/// A hash table behind a pluggable implementation `T`.
pub struct HashTable<K: HashKey, V, T: HashTableImpl<K, V>> {
    inner: T,
    marker: PhantomData<(K, V)>,
}

/// The facade over the separate-chaining implementation.
pub type SCHashTable<K, V> = HashTable<K, V, SCHashTableImpl<K, V>>;

impl<K: HashKey, V, T: HashTableImpl<K, V>> crate::traits::HashTable<K, V> for HashTable<
    K,
    V,
    T,
> {
    closed spec fn contents(&self) -> Map<K, V> {
        self.inner.contents()
    }

    closed spec fn wf(&self) -> bool {
        self.inner.wf()
    }

    closed spec fn spec_len(&self) -> int {
        self.inner.spec_len()
    }

    closed spec fn spec_capacity(&self) -> int {
        self.inner.spec_capacity()
    }

    fn with_capacity_and_hasher_in(
        capacity: usize,
        hash_builder: HashBuilder,
        allocator: Allocator,
    ) -> (r: Result<Self, AllocError>) {
        match T::with_capacity_and_hasher_in(capacity, hash_builder, allocator) {
            Ok(inner) => Ok(HashTable { inner, marker: PhantomData }),
            Err(e) => Err(e),
        }
    }

    fn insert(&mut self, key: K, value: V) -> (r: Result<Option<V>, AllocError>) {
        self.inner.insert(key, value)
    }

    fn remove(&mut self, key: &K) -> (r: Option<V>) {
        self.inner.remove(key)
    }

    fn get<'a>(&'a self, key: &K) -> (r: Option<&'a V>) {
        self.inner.get(key)
    }

    fn len(&self) -> (r: usize) {
        self.inner.len()
    }

    fn is_empty(&self) -> (r: bool) {
        self.inner.is_empty()
    }

    fn capacity(&self) -> (r: usize) {
        self.inner.capacity()
    }

    fn clear(&mut self) {
        self.inner.clear()
    }
}

} // verus!
