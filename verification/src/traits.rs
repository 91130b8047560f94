//! The interfaces of the hash table core.
//!
//! A table is polymorphic in its collision strategy: any type satisfying
//! [`Bucket`] can stand where the linked-list bucket stands, and any type
//! satisfying [`HashTableImpl`] can stand behind the [`crate::hash_table::HashTable`]
//! facade. The contracts here are what the facade's own guarantees rest on;
//! the linked-list bucket and the separate-chaining table implement them in
//! full.

use vstd::prelude::*;

use crate::allocator::{AllocError, Allocator};
use crate::bucket::{find_entry, remove_entry, ArrayBucket, SLLBucket, SLLBucketDrain, SLLBucketIter};
use crate::hashing::{HashBuilder, HashKey};
use crate::separate_chaining::{grown_capacity, SCHashTableImpl};

verus! {

/// An owned collection of key/value entries under hash collision.
///
/// A bucket is viewed as the sequence of its entries; `insert` keeps each
/// key at most once in that sequence, attempting the node allocation before
/// it touches any existing entry.
pub trait Bucket<K: HashKey, V>: Sized {
    /// The entries the bucket holds, in the bucket's own order.
    spec fn chain(&self) -> Seq<(K, V)>;

    /// An empty bucket; the owning table's allocator is handed to each
    /// operation that creates or consumes nodes.
    fn new_in() -> (r: Self)
        ensures
            r.chain() =~= Seq::<(K, V)>::empty(),
    ;

    /// Whether the bucket holds no entry.
    fn is_empty(&self) -> (r: bool)
        ensures
            r == (self.chain().len() == 0),
    ;

    /// A reference to the value under `key`, if any.
    fn get<'a>(&'a self, key: &K) -> (r: Option<&'a V>)
        ensures
            match r {
                Some(v) => find_entry(self.chain(), *key) == Some((*key, *v)),
                None => find_entry(self.chain(), *key) is None,
            },
    ;

    /// Inserts the entry at the head; the evicted entry under the same key,
    /// if one existed, is handed back. Allocation failure leaves the bucket
    /// structurally unchanged.
    fn insert(&mut self, key: K, value: V, alloc: &mut Allocator) -> (r: Result<
        Option<(K, V)>,
        AllocError,
    >)
        requires
            old(alloc).wf(),
            old(self).chain().len() <= old(alloc).spec_outstanding(),
        ensures
            final(alloc).wf(),
            final(alloc).spec_budget() == old(alloc).spec_budget(),
            match r {
                Ok(evicted) => {
                    &&& final(self).chain() == seq![(key, value)] + remove_entry(
                        old(self).chain(),
                        key,
                    )
                    &&& evicted == find_entry(old(self).chain(), key)
                    &&& final(alloc).spec_allocated() == old(alloc).spec_allocated() + 1
                    &&& final(alloc).spec_freed() == old(alloc).spec_freed() + if evicted
                        is Some {
                        1int
                    } else {
                        0int
                    }
                },
                Err(_) => {
                    &&& *final(self) == *old(self)
                    &&& *final(alloc) == *old(alloc)
                    &&& !old(alloc).can_allocate(1)
                },
            },
    ;

    /// Unlinks and consumes the entry under `key`, releasing its storage.
    fn remove(&mut self, key: &K, alloc: &mut Allocator) -> (r: Option<(K, V)>)
        requires
            old(alloc).wf(),
            old(self).chain().len() <= old(alloc).spec_outstanding(),
        ensures
            final(self).chain() == remove_entry(old(self).chain(), *key),
            r == find_entry(old(self).chain(), *key),
            final(alloc).wf(),
            final(alloc).spec_budget() == old(alloc).spec_budget(),
            final(alloc).spec_allocated() == old(alloc).spec_allocated(),
            final(alloc).spec_freed() == old(alloc).spec_freed() + if r is Some {
                1int
            } else {
                0int
            },
    ;

    /// Consumes every entry, releasing its storage; the bucket ends empty.
    fn clear(&mut self, alloc: &mut Allocator)
        requires
            old(alloc).wf(),
            old(self).chain().len() <= old(alloc).spec_outstanding(),
        ensures
            final(self).chain() =~= Seq::<(K, V)>::empty(),
            final(alloc).wf(),
            final(alloc).spec_budget() == old(alloc).spec_budget(),
            final(alloc).spec_allocated() == old(alloc).spec_allocated(),
            final(alloc).spec_freed() == old(alloc).spec_freed() + old(self).chain().len(),
    ;

    /// Unlinks the head entry without releasing its storage unit: the unit
    /// travels with the entry until it is attached to another bucket, which
    /// is how a rehash moves nodes without ever owning one twice.
    fn detach_first(&mut self) -> (r: Option<(K, V)>)
        ensures
            match r {
                None => *final(self) == *old(self) && old(self).chain().len() == 0,
                Some(e) => {
                    &&& old(self).chain().len() > 0
                    &&& e == old(self).chain()[0]
                    &&& final(self).chain() == old(self).chain().drop_first()
                },
            },
    ;

    /// Links one migrated entry at the head, reusing the storage unit that
    /// came detached with it.
    fn attach_front(&mut self, key: K, val: V)
        ensures
            final(self).chain() == seq![(key, val)] + old(self).chain(),
    ;
}

/// A bucket whose entries can be walked without consuming them.
pub trait BucketIter<K: HashKey, V>: Bucket<K, V> {
    /// The cursor type the walk hands out.
    type Iter;

    /// A cursor over the bucket's entries, head first.
    fn iter(&self) -> Self::Iter;
}

/// A bucket whose values can be reached for in-place change.
pub trait BucketIterMut<K: HashKey, V>: Bucket<K, V> {
    /// A mutable reference to the value under `key`, if any.
    fn value_mut<'a>(&'a mut self, key: &K) -> Option<&'a mut V>;
}

/// A bucket that can be emptied one entry at a time, consuming its nodes.
pub trait BucketDrain<K: HashKey, V>: Bucket<K, V> {
    /// Detaches the whole chain and consumes it, handing the entries back
    /// in chain order; the bucket is empty from the first step on.
    fn drain(&mut self, alloc: &mut Allocator) -> (r: Vec<(K, V)>)
        requires
            old(alloc).wf(),
            old(self).chain().len() <= old(alloc).spec_outstanding(),
        ensures
            r@ == old(self).chain(),
            final(self).chain() =~= Seq::<(K, V)>::empty(),
            final(alloc).wf(),
            final(alloc).spec_budget() == old(alloc).spec_budget(),
            final(alloc).spec_allocated() == old(alloc).spec_allocated(),
            final(alloc).spec_freed() == old(alloc).spec_freed() + old(self).chain().len(),
    ;
}

/// A bucket offering the full set of walks: by reference, in place, and
/// draining.
pub trait BucketIters<K: HashKey, V>: BucketIter<K, V> + BucketDrain<K, V> {

}

impl<K: HashKey, V> Bucket<K, V> for SLLBucket<K, V> {
    open spec fn chain(&self) -> Seq<(K, V)> {
        self.view()
    }

    fn new_in() -> (r: Self) {
        SLLBucket::new_in()
    }

    fn is_empty(&self) -> (r: bool) {
        self.is_empty()
    }

    fn get<'a>(&'a self, key: &K) -> (r: Option<&'a V>) {
        self.get(key)
    }

    fn insert(&mut self, key: K, value: V, alloc: &mut Allocator) -> (r: Result<
        Option<(K, V)>,
        AllocError,
    >) {
        self.insert(key, value, alloc)
    }

    fn remove(&mut self, key: &K, alloc: &mut Allocator) -> (r: Option<(K, V)>) {
        self.remove(key, alloc)
    }

    fn clear(&mut self, alloc: &mut Allocator) {
        self.clear(alloc)
    }

    fn detach_first(&mut self) -> (r: Option<(K, V)>) {
        self.detach_first()
    }

    fn attach_front(&mut self, key: K, val: V) {
        self.attach_front(key, val)
    }
}

impl<K: HashKey, V> Bucket<K, V> for ArrayBucket<K, V> {
    open spec fn chain(&self) -> Seq<(K, V)> {
        self.entries_view()
    }

    fn new_in() -> (r: Self) {
        ArrayBucket::new_in()
    }

    fn is_empty(&self) -> (r: bool) {
        self.is_empty()
    }

    fn get<'a>(&'a self, key: &K) -> (r: Option<&'a V>) {
        self.get(key)
    }

    fn insert(&mut self, key: K, value: V, alloc: &mut Allocator) -> (r: Result<
        Option<(K, V)>,
        AllocError,
    >) {
        self.insert(key, value, alloc)
    }

    fn remove(&mut self, key: &K, alloc: &mut Allocator) -> (r: Option<(K, V)>) {
        self.remove(key, alloc)
    }

    fn clear(&mut self, alloc: &mut Allocator) {
        self.clear(alloc)
    }

    fn detach_first(&mut self) -> (r: Option<(K, V)>) {
        self.detach_first()
    }

    fn attach_front(&mut self, key: K, val: V) {
        self.attach_front(key, val)
    }
}

impl<K: HashKey, V: Copy> BucketIter<K, V> for SLLBucket<K, V> {
    type Iter = SLLBucketIter<K, V>;

    fn iter(&self) -> Self::Iter {
        self.iter()
    }
}

impl<K: HashKey, V> BucketDrain<K, V> for SLLBucket<K, V> {
    fn drain(&mut self, alloc: &mut Allocator) -> (r: Vec<(K, V)>) {
        self.drain(alloc)
    }
}

/// A hash table implementation: the contract the facade builds on.
///
/// The table is viewed as a map from keys to values; `wf` is its internal
/// well-formedness, which constructors establish and every operation
/// preserves.
pub trait HashTableImpl<K: HashKey, V>: Sized {
    /// The key/value pairs the table holds.
    spec fn contents(&self) -> Map<K, V>;

    /// The table's internal well-formedness.
    spec fn wf(&self) -> bool;

    /// Number of live entries.
    spec fn spec_len(&self) -> int;

    /// Number of bucket slots.
    spec fn spec_capacity(&self) -> int;

    /// Storage units one `insert` may need from the arena now.
    spec fn insert_need(&self) -> int;

    /// The arena the table draws from.
    spec fn arena(&self) -> Allocator;

    /// Builds a table of exactly `capacity` buckets; capacity zero is the
    /// valid unallocated state and costs nothing.
    fn with_capacity_and_hasher_in(
        capacity: usize,
        hash_builder: HashBuilder,
        allocator: Allocator,
    ) -> (r: Result<Self, AllocError>)
        requires
            allocator.wf(),
        ensures
            match r {
                Ok(t) => {
                    &&& t.wf()
                    &&& t.contents() =~= Map::<K, V>::empty()
                    &&& t.spec_len() == 0
                    &&& t.spec_capacity() == capacity
                },
                Err(_) => capacity > 0 && !allocator.can_allocate(capacity as int),
            },
    ;

    /// Grows to the next capacity without changing content or count; a
    /// refused allocation leaves the table untouched.
    fn grow(&mut self) -> (r: Result<(), AllocError>)
        requires
            old(self).wf(),
            2 * old(self).spec_capacity() <= usize::MAX,
        ensures
            final(self).wf(),
            match r {
                Ok(()) => {
                    &&& final(self).contents() == old(self).contents()
                    &&& final(self).spec_len() == old(self).spec_len()
                    &&& final(self).spec_capacity() == grown_capacity(old(self).spec_capacity())
                },
                Err(_) => *final(self) == *old(self),
            },
    ;

    /// Inserts, growing first when the count would pass the capacity;
    /// returns the value previously under the key. Failure comes exactly
    /// when the arena cannot cover the work, and loses no existing entry.
    fn insert(&mut self, key: K, value: V) -> (r: Result<Option<V>, AllocError>)
        requires
            old(self).wf(),
            2 * old(self).spec_capacity() <= usize::MAX,
        ensures
            final(self).wf(),
            r is Err <==> !old(self).arena().can_allocate(old(self).insert_need()),
            match r {
                Ok(prev) => {
                    &&& final(self).contents() == old(self).contents().insert(key, value)
                    &&& prev == if old(self).contents().dom().contains(key) {
                        Some(old(self).contents()[key])
                    } else {
                        None::<V>
                    }
                    &&& final(self).spec_len() == old(self).spec_len() + if prev is Some {
                        0int
                    } else {
                        1int
                    }
                },
                Err(_) => {
                    &&& final(self).contents() == old(self).contents()
                    &&& final(self).spec_len() == old(self).spec_len()
                },
            },
    ;

    /// Removes the entry under `key`; absence is a normal outcome.
    fn remove(&mut self, key: &K) -> (r: Option<V>)
        requires
            old(self).wf(),
        ensures
            final(self).wf(),
            final(self).contents() == old(self).contents().remove(*key),
            r == if old(self).contents().dom().contains(*key) {
                Some(old(self).contents()[*key])
            } else {
                None::<V>
            },
            final(self).spec_len() == old(self).spec_len() - if r is Some {
                1int
            } else {
                0int
            },
            final(self).spec_capacity() == old(self).spec_capacity(),
    ;

    /// A reference to the value under `key`, if the table holds one.
    fn get<'a>(&'a self, key: &K) -> (r: Option<&'a V>)
        requires
            self.wf(),
        ensures
            match r {
                Some(v) => self.contents().dom().contains(*key) && *v == self.contents()[*key],
                None => !self.contents().dom().contains(*key),
            },
    ;

    /// Number of bucket slots.
    fn capacity(&self) -> (r: usize)
        ensures
            r as int == self.spec_capacity(),
    ;

    /// Number of live entries.
    fn len(&self) -> (r: usize)
        ensures
            r as int == self.spec_len(),
    ;

    /// Whether the table holds no entry.
    fn is_empty(&self) -> (r: bool)
        ensures
            r == (self.spec_len() == 0),
    ;

    /// Consumes every entry, keeping the bucket array.
    fn clear(&mut self)
        requires
            old(self).wf(),
        ensures
            final(self).wf(),
            final(self).contents() =~= Map::<K, V>::empty(),
            final(self).spec_len() == 0,
            final(self).spec_capacity() == old(self).spec_capacity(),
    ;
}

/// A hash table implementation whose entries can be walked.
pub trait HashTableImplIter<K: HashKey, V>: HashTableImpl<K, V> {
    /// The cursor type the walk hands out.
    type Iter;

    /// A cursor over the table's entries, in no promised order.
    fn iter(&self) -> Self::Iter
        requires
            self.wf(),
    ;
}

impl<K: HashKey, V: Copy> HashTableImplIter<K, V> for SCHashTableImpl<K, V> {
    type Iter = crate::separate_chaining::HashTableInnerIter<K, V>;

    fn iter(&self) -> Self::Iter {
        self.iter()
    }
}

/// The high-level hash table interface the facade exposes.
pub trait HashTable<K: HashKey, V>: Sized {
    /// The key/value pairs the table holds.
    spec fn contents(&self) -> Map<K, V>;

    /// The table's internal well-formedness.
    spec fn wf(&self) -> bool;

    /// Number of live entries.
    spec fn spec_len(&self) -> int;

    /// Number of bucket slots.
    spec fn spec_capacity(&self) -> int;

    /// Builds a table of exactly `capacity` buckets over the given arena.
    fn with_capacity_and_hasher_in(
        capacity: usize,
        hash_builder: HashBuilder,
        allocator: Allocator,
    ) -> (r: Result<Self, AllocError>)
        requires
            allocator.wf(),
        ensures
            match r {
                Ok(t) => {
                    &&& t.wf()
                    &&& t.contents() =~= Map::<K, V>::empty()
                    &&& t.spec_len() == 0
                    &&& t.spec_capacity() == capacity
                },
                Err(_) => capacity > 0 && !allocator.can_allocate(capacity as int),
            },
    ;

    /// Inserts, growing as needed; returns the value previously under the
    /// key, and loses nothing on allocation failure.
    fn insert(&mut self, key: K, value: V) -> (r: Result<Option<V>, AllocError>)
        requires
            old(self).wf(),
            2 * old(self).spec_capacity() <= usize::MAX,
        ensures
            final(self).wf(),
            match r {
                Ok(prev) => {
                    &&& final(self).contents() == old(self).contents().insert(key, value)
                    &&& prev == if old(self).contents().dom().contains(key) {
                        Some(old(self).contents()[key])
                    } else {
                        None::<V>
                    }
                    &&& final(self).spec_len() == old(self).spec_len() + if prev is Some {
                        0int
                    } else {
                        1int
                    }
                },
                Err(_) => {
                    &&& final(self).contents() == old(self).contents()
                    &&& final(self).spec_len() == old(self).spec_len()
                },
            },
    ;

    /// Removes the entry under `key`; absence is a normal outcome.
    fn remove(&mut self, key: &K) -> (r: Option<V>)
        requires
            old(self).wf(),
        ensures
            final(self).wf(),
            final(self).contents() == old(self).contents().remove(*key),
            r == if old(self).contents().dom().contains(*key) {
                Some(old(self).contents()[*key])
            } else {
                None::<V>
            },
            final(self).spec_len() == old(self).spec_len() - if r is Some {
                1int
            } else {
                0int
            },
    ;

    /// A reference to the value under `key`, if the table holds one.
    fn get<'a>(&'a self, key: &K) -> (r: Option<&'a V>)
        requires
            self.wf(),
        ensures
            match r {
                Some(v) => self.contents().dom().contains(*key) && *v == self.contents()[*key],
                None => !self.contents().dom().contains(*key),
            },
    ;

    /// Number of live entries.
    fn len(&self) -> (r: usize)
        ensures
            r as int == self.spec_len(),
    ;

    /// Whether the table holds no entry.
    fn is_empty(&self) -> (r: bool)
        ensures
            r == (self.spec_len() == 0),
    ;

    /// Number of bucket slots.
    fn capacity(&self) -> (r: usize)
        ensures
            r as int == self.spec_capacity(),
    ;

    /// Consumes every entry, keeping the bucket array.
    fn clear(&mut self)
        requires
            old(self).wf(),
        ensures
            final(self).wf(),
            final(self).contents() =~= Map::<K, V>::empty(),
            final(self).spec_len() == 0,
    ;
}

impl<K: HashKey, V> HashTableImpl<K, V> for SCHashTableImpl<K, V> {
    open spec fn contents(&self) -> Map<K, V> {
        SCHashTableImpl::contents(self)
    }

    open spec fn wf(&self) -> bool {
        SCHashTableImpl::wf(self)
    }

    open spec fn spec_len(&self) -> int {
        SCHashTableImpl::spec_len(self)
    }

    open spec fn spec_capacity(&self) -> int {
        SCHashTableImpl::spec_capacity(self)
    }

    open spec fn insert_need(&self) -> int {
        SCHashTableImpl::insert_need(self)
    }

    open spec fn arena(&self) -> Allocator {
        SCHashTableImpl::arena(self)
    }

    fn with_capacity_and_hasher_in(
        capacity: usize,
        hash_builder: HashBuilder,
        allocator: Allocator,
    ) -> (r: Result<Self, AllocError>) {
        SCHashTableImpl::with_capacity_and_hasher_in(capacity, hash_builder, allocator)
    }

    fn grow(&mut self) -> (r: Result<(), AllocError>) {
        self.grow()
    }

    fn insert(&mut self, key: K, value: V) -> (r: Result<Option<V>, AllocError>) {
        self.insert(key, value)
    }

    fn remove(&mut self, key: &K) -> (r: Option<V>) {
        self.remove(key)
    }

    fn get<'a>(&'a self, key: &K) -> (r: Option<&'a V>) {
        self.get(key)
    }

    fn capacity(&self) -> (r: usize) {
        self.capacity()
    }

    fn len(&self) -> (r: usize) {
        self.len()
    }

    fn is_empty(&self) -> (r: bool) {
        self.is_empty()
    }

    fn clear(&mut self) {
        self.clear()
    }
}

} // verus!
