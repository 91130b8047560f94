//! A self-contained table over its own unlimited arena.
//!
//! [`HashTableInner`] is the bare working face of the separate-chaining
//! core: it owns an unlimited arena, so construction cannot fail, and it
//! forwards every operation to [`SCHashTableImpl`] under the same
//! contracts.

use vstd::prelude::*;

use crate::allocator::{AllocError, Allocator};
use crate::hashing::{HashBuilder, HashKey};
use crate::separate_chaining::{HashTableInnerIter, SCHashTableImpl};

verus! {

/// The bare separate-chaining table, arena included.
pub struct HashTableInner<K: HashKey, V> {
    inner: SCHashTableImpl<K, V>,
}

impl<K: HashKey, V> HashTableInner<K, V> {
    /// The key/value pairs the table holds.
    pub closed spec fn contents(&self) -> Map<K, V> {
        self.inner.contents()
    }

    /// The table's internal well-formedness.
    pub closed spec fn wf(&self) -> bool {
        self.inner.wf()
    }

    /// Number of live entries.
    pub closed spec fn spec_len(&self) -> int {
        self.inner.spec_len()
    }

    /// Number of bucket slots.
    pub closed spec fn spec_capacity(&self) -> int {
        self.inner.spec_capacity()
    }

    /// Every entry of the table, bucket by bucket.
    pub closed spec fn entries(&self) -> Seq<(K, V)> {
        self.inner.entries()
    }

    /// The arena the table draws from.
    pub closed spec fn table_arena(&self) -> Allocator {
        self.inner.arena()
    }

    /// Storage units one `insert` may need from the arena now.
    pub closed spec fn table_insert_need(&self) -> int {
        self.inner.insert_need()
    }

    /// A table of `capacity` buckets over a fresh unlimited arena; with
    /// nothing allocated yet, the arena cannot refuse the array.
    pub fn with_capacity_and_hasher(capacity: usize, hash_builder: HashBuilder) -> (r: Self)
        ensures
            r.wf(),
            r.contents() =~= Map::<K, V>::empty(),
            r.spec_len() == 0,
            r.spec_capacity() == capacity,
    {
        let arena = Allocator::unlimited();
        match SCHashTableImpl::with_capacity_and_hasher_in(capacity, hash_builder, arena) {
            Ok(inner) => HashTableInner { inner },
            Err(_) => vstd::pervasive::unreached(),
        }
    }

    /// Inserts, growing as needed; returns the value previously under the
    /// key, and loses nothing on allocation failure.
    pub fn insert(&mut self, key: K, value: V) -> (r: Result<Option<V>, AllocError>)
        requires
            old(self).wf(),
            2 * old(self).spec_capacity() <= usize::MAX,
        ensures
            final(self).wf(),
            r is Err <==> !old(self).table_arena().can_allocate(old(self).table_insert_need()),
            match r {
                Ok(prev) => {
                    &&& final(self).contents() == old(self).contents().insert(key, value)
                    &&& prev == if old(self).contents().dom().contains(key) {
                        Some(old(self).contents()[key])
                    } else {
                        None::<V>
                    }
                    &&& final(self).spec_len() == old(self).spec_len() + if prev is Some {
                        0int
                    } else {
                        1int
                    }
                },
                Err(_) => {
                    &&& final(self).contents() == old(self).contents()
                    &&& final(self).spec_len() == old(self).spec_len()
                },
            },
    {
        self.inner.insert(key, value)
    }

    /// Removes the entry under `key`; absence is a normal outcome.
    pub fn remove(&mut self, key: &K) -> (r: Option<V>)
        requires
            old(self).wf(),
        ensures
            final(self).wf(),
            final(self).contents() == old(self).contents().remove(*key),
            r == if old(self).contents().dom().contains(*key) {
                Some(old(self).contents()[*key])
            } else {
                None::<V>
            },
            final(self).spec_len() == old(self).spec_len() - if r is Some {
                1int
            } else {
                0int
            },
    {
        self.inner.remove(key)
    }

    /// A reference to the value under `key`, if the table holds one.
    pub fn get<'a>(&'a self, key: &K) -> (r: Option<&'a V>)
        requires
            self.wf(),
        ensures
            match r {
                Some(v) => self.contents().dom().contains(*key) && *v == self.contents()[*key],
                None => !self.contents().dom().contains(*key),
            },
    {
        self.inner.get(key)
    }

    /// Number of live entries.
    pub fn len(&self) -> (r: usize)
        ensures
            r as int == self.spec_len(),
    {
        self.inner.len()
    }

    /// Whether the table holds no entry.
    pub fn is_empty(&self) -> (r: bool)
        ensures
            r == (self.spec_len() == 0),
    {
        self.inner.is_empty()
    }

    /// Number of bucket slots.
    pub fn capacity(&self) -> (r: usize)
        ensures
            r as int == self.spec_capacity(),
    {
        self.inner.capacity()
    }
}

impl<K: HashKey, V: Copy> HashTableInner<K, V> {
    /// A cursor over a copy of every entry, bucket by bucket.
    pub fn iter(&self) -> (r: HashTableInnerIter<K, V>)
        requires
            self.wf(),
        ensures
            r.remaining() == self.entries(),
    {
        self.inner.iter()
    }
}

} // verus!
