//! The separate-chaining hash table core.
//!
//! [`SCHashTableImpl`] owns an array of exactly `capacity` collision buckets
//! together with the hash builder that routes keys and the allocator that
//! every byte of node and array storage is charged to. Its abstract view is
//! the map from keys to values, and its well-formedness ties the array, the
//! entry count and the allocator's outstanding storage together: the table
//! holds one storage unit per live node plus one per bucket slot, and
//! nothing else.

use vstd::prelude::*;

use crate::allocator::{AllocError, Allocator};
use crate::bucket::{
    distinct_keys, find_entry, lemma_find_entry_distinct_at, lemma_find_entry_props,
    lemma_find_entry_some_iff, lemma_remove_entry_distinct, lemma_remove_entry_in_source,
    lemma_remove_entry_len, lemma_remove_entry_other, lemma_remove_entry_same, remove_entry,
    SLLBucket,
};
use crate::hashing::{HashBuilder, HashKey};
use crate::traits::Bucket;

verus! {

/// Capacity a table grows to when it first leaves the unallocated state.
pub const DEFAULT_SIZE: usize = 50;

/// The bucket a key with digest under `seed` belongs to, among `cap` buckets.
pub open spec fn slot_of<K: HashKey>(k: K, seed: u64, cap: int) -> int {
    k.hash_spec(seed) as int % cap
}

/// The capacity a growth step moves to: the default for an unallocated
/// table, twice the current capacity otherwise.
pub open spec fn grown_capacity(cap: int) -> int {
    if cap == 0 {
        DEFAULT_SIZE as int
    } else {
        2 * cap
    }
}

/// Number of entries across a sequence of buckets.
pub open spec fn total_entries<K: HashKey, V, B: Bucket<K, V>>(bs: Seq<B>) -> int
    decreases bs.len(),
{
    if bs.len() == 0 {
        0
    } else {
        bs[0].chain().len() + total_entries(bs.drop_first())
    }
}

proof fn lemma_total_entries_nonneg<K: HashKey, V, B: Bucket<K, V>>(bs: Seq<B>)
    ensures
        total_entries(bs) >= 0,
    decreases bs.len(),
{
    if bs.len() != 0 {
        lemma_total_entries_nonneg(bs.drop_first());
    }
}

/// Replacing one bucket changes the total by that bucket's change.
proof fn lemma_total_entries_update<K: HashKey, V, B: Bucket<K, V>>(bs: Seq<B>, b: int, nb: B)
    requires
        0 <= b < bs.len(),
    ensures
        total_entries(bs.update(b, nb)) == total_entries(bs) - bs[b].chain().len() + nb.chain().len(),
    decreases bs.len(),
{
    if bs.len() != 0 {
        if b == 0 {
            assert(bs.update(0, nb).drop_first() =~= bs.drop_first());
        } else {
            assert(bs.update(b, nb).drop_first() =~= bs.drop_first().update(b - 1, nb));
            lemma_total_entries_update(bs.drop_first(), b - 1, nb);
        }
    }
}

/// No bucket holds more than the total.
proof fn lemma_bucket_le_total<K: HashKey, V, B: Bucket<K, V>>(bs: Seq<B>, b: int)
    requires
        0 <= b < bs.len(),
    ensures
        bs[b].chain().len() <= total_entries(bs),
    decreases bs.len(),
{
    lemma_total_entries_nonneg(bs.drop_first());
    if b != 0 {
        lemma_bucket_le_total(bs.drop_first(), b - 1);
    }
}

/// A table whose every bucket is empty holds nothing.
proof fn lemma_total_entries_zero<K: HashKey, V, B: Bucket<K, V>>(bs: Seq<B>)
    requires
        forall|b: int| 0 <= b < bs.len() ==> #[trigger] bs[b].chain().len() == 0,
    ensures
        total_entries(bs) == 0,
    decreases bs.len(),
{
    if bs.len() != 0 {
        assert forall|b: int| 0 <= b < bs.drop_first().len() implies #[trigger] bs.drop_first()[
            b
        ].chain().len() == 0 by {
            assert(bs.drop_first()[b] == bs[b + 1]);
        }
        lemma_total_entries_zero(bs.drop_first());
    }
}

/// The separate-chaining hash table: a fixed-stride array of collision
/// buckets, a live-entry counter, the hash builder, and the allocator that
/// owns every unit of the table's storage.
pub struct SCHashTableImpl<K: HashKey, V, B: Bucket<K, V> = SLLBucket<K, V>> {
    buckets: Vec<B>,
    capacity: usize,
    len: usize,
    hash_builder: HashBuilder,
    allocator: Allocator,
    baseline: Ghost<int>,
    marker: core::marker::PhantomData<(K, V)>,
}

impl<K: HashKey, V, B: Bucket<K, V>> SCHashTableImpl<K, V, B> {
    /// Number of bucket slots; zero means the unallocated state.
    pub closed spec fn spec_capacity(&self) -> int {
        self.capacity as int
    }

    /// Number of live entries.
    pub closed spec fn spec_len(&self) -> int {
        self.len as int
    }

    /// The seed all of this table's digests mix in.
    pub closed spec fn seed(&self) -> u64 {
        self.hash_builder.seed
    }

    /// The arena the table's storage is charged to.
    pub closed spec fn arena(&self) -> Allocator {
        self.allocator
    }

    /// Storage units the arena already had out when the table was built.
    pub closed spec fn spec_baseline(&self) -> int {
        self.baseline@
    }

    /// The bucket the key `k` is routed to.
    pub closed spec fn bucket_index(&self, k: K) -> int {
        slot_of(k, self.seed(), self.spec_capacity())
    }

    /// The chain of entries in bucket `b`.
    pub closed spec fn bucket_view(&self, b: int) -> Seq<(K, V)> {
        self.buckets@[b].chain()
    }

    /// The abstract content: each key maps to the value stored in the
    /// bucket that key is routed to.
    pub closed spec fn contents(&self) -> Map<K, V> {
        Map::new(
            |k: K|
                self.spec_capacity() > 0 && find_entry(
                    self.bucket_view(self.bucket_index(k)),
                    k,
                ) is Some,
            |k: K| find_entry(self.bucket_view(self.bucket_index(k)), k).unwrap().1,
        )
    }

    /// Well-formedness: exactly `capacity` buckets; every entry sits in the
    /// bucket its key routes to; no bucket holds a key twice; `len` counts
    /// the entries; and the arena holds exactly the baseline plus one unit
    /// per entry plus one per bucket slot.
    pub closed spec fn wf(&self) -> bool {
        &&& self.capacity == self.buckets@.len()
        &&& self.allocator.wf()
        &&& self.baseline@ >= 0
        &&& (self.capacity == 0 ==> self.len == 0)
        &&& self.len <= self.capacity || self.capacity == 0
        &&& forall|b: int| 0 <= b < self.spec_capacity() ==> distinct_keys(#[trigger] self.bucket_view(b))
        &&& forall|b: int, i: int|
            0 <= b < self.spec_capacity() && 0 <= i < self.bucket_view(b).len()
                ==> self.bucket_index(#[trigger] self.bucket_view(b)[i].0) == b
        &&& self.spec_len() == total_entries(self.buckets@)
        &&& self.allocator.spec_outstanding() == self.spec_baseline() + self.spec_len() + (
        if self.spec_capacity() > 0 {
            self.spec_capacity()
        } else {
            0
        })
    }

    /// Builds a table of exactly `capacity` fresh buckets, charging one unit
    /// per slot to `allocator`; `capacity == 0` builds the unallocated state
    /// free of charge. On allocation failure nothing has been built and the
    /// arena is consumed unchanged.
    pub fn with_capacity_and_hasher_in(
        capacity: usize,
        hash_builder: HashBuilder,
        allocator: Allocator,
    ) -> (r: Result<Self, AllocError>)
        requires
            allocator.wf(),
        ensures
            match r {
                Ok(t) => {
                    &&& t.wf()
                    &&& t.contents() =~= Map::<K, V>::empty()
                    &&& t.spec_len() == 0
                    &&& t.spec_capacity() == capacity
                    &&& t.seed() == hash_builder.seed
                    &&& t.spec_baseline() == allocator.spec_outstanding()
                    &&& t.arena().spec_budget() == allocator.spec_budget()
                    &&& t.arena().spec_freed() == allocator.spec_freed()
                    &&& t.arena().spec_allocated() == allocator.spec_allocated() + (
                    if capacity > 0 {
                        capacity as int
                    } else {
                        0
                    })
                },
                Err(_) => capacity > 0 && !allocator.can_allocate(capacity as int),
            },
    {
        let mut allocator = allocator;
        let ghost base = allocator.spec_outstanding();
        if capacity != 0 {
            match allocator.allocate(capacity) {
                Err(e) => {
                    return Err(e);
                }
                Ok(()) => {}
            }
        }
        let mut buckets: Vec<B> = Vec::new();
        while buckets.len() < capacity
            invariant
                buckets@.len() <= capacity,
                forall|b: int| 0 <= b < buckets@.len() ==> #[trigger] buckets@[b].chain().len() == 0,
            decreases capacity - buckets@.len(),
        {
            buckets.push(B::new_in());
        }
        let t = SCHashTableImpl {
            buckets,
            capacity,
            len: 0,
            hash_builder,
            allocator,
            baseline: Ghost(base),
            marker: core::marker::PhantomData,
        };
        proof {
            lemma_total_entries_zero(t.buckets@);
            assert forall|k: K| !t.contents().dom().contains(k) by {
                if t.spec_capacity() > 0 {
                    lemma_find_entry_some_iff(t.bucket_view(t.bucket_index(k)), k);
                }
            }
        }
        Ok(t)
    }

    /// The slot `key` is routed to: its digest reduced modulo the capacity.
    /// Only meaningful for an allocated table.
    pub fn key_index(&self, key: &K) -> (r: usize)
        requires
            self.spec_capacity() > 0,
        ensures
            r as int == self.bucket_index(*key),
            r < self.spec_capacity(),
    {
        let h = self.hash_builder.hash_key(key);
        (h % (self.capacity as u64)) as usize
    }

    /// Number of live entries.
    pub fn len(&self) -> (r: usize)
        ensures
            r as int == self.spec_len(),
    {
        self.len
    }

    /// Number of bucket slots.
    pub fn capacity(&self) -> (r: usize)
        ensures
            r as int == self.spec_capacity(),
    {
        self.capacity
    }

    /// Whether the table holds no entry.
    pub fn is_empty(&self) -> (r: bool)
        ensures
            r == (self.spec_len() == 0),
    {
        self.len == 0
    }

    /// The arena's counters, for auditing the table's storage.
    pub fn allocator(&self) -> (r: &Allocator)
        ensures
            *r == self.arena(),
    {
        &self.allocator
    }

    /// A reference to the value under `key`, if the table holds one; an
    /// unallocated table holds nothing.
    pub fn get<'a>(&'a self, key: &K) -> (r: Option<&'a V>)
        requires
            self.wf(),
        ensures
            match r {
                Some(v) => self.contents().dom().contains(*key) && *v == self.contents()[*key],
                None => !self.contents().dom().contains(*key),
            },
    {
        if self.capacity == 0 {
            return None;
        }
        let idx = self.key_index(key);
        self.buckets[idx].get(key)
    }

    /// Removes the entry under `key` and hands its value back, releasing the
    /// node's storage unit; absence is a normal outcome, not an error, and
    /// an unallocated table answers `None` without touching the arena.
    pub fn remove(&mut self, key: &K) -> (r: Option<V>)
        requires
            old(self).wf(),
        ensures
            final(self).wf(),
            final(self).contents() == old(self).contents().remove(*key),
            r == if old(self).contents().dom().contains(*key) {
                Some(old(self).contents()[*key])
            } else {
                None::<V>
            },
            final(self).spec_len() == old(self).spec_len() - if r is Some {
                1int
            } else {
                0int
            },
            final(self).spec_capacity() == old(self).spec_capacity(),
            final(self).seed() == old(self).seed(),
            final(self).spec_baseline() == old(self).spec_baseline(),
            final(self).arena().spec_budget() == old(self).arena().spec_budget(),
            final(self).arena().spec_allocated() == old(self).arena().spec_allocated(),
    {
        if self.capacity == 0 {
            proof {
                assert(old(self).contents() =~= old(self).contents().remove(*key));
            }
            return None;
        }
        let idx = self.key_index(key);
        let ghost old_bucket = self.bucket_view(idx as int);
        proof {
            lemma_bucket_le_total(self.buckets@, idx as int);
        }
        let b = &mut self.buckets[idx];
        let r = b.remove(key, &mut self.allocator);
        proof {
            lemma_find_entry_props(old_bucket, *key);
            lemma_remove_entry_len(old_bucket, *key);
            lemma_remove_entry_distinct(old_bucket, *key);
            lemma_total_entries_update(old(self).buckets@, idx as int, self.buckets@[idx as int]);
        }
        if r.is_some() {
            self.len = self.len - 1;
        }
        proof {
            let new_bucket = self.bucket_view(idx as int);
            assert(self.buckets@ =~= old(self).buckets@.update(idx as int, self.buckets@[idx as int]));
            assert forall|b2: int| 0 <= b2 < self.spec_capacity() implies distinct_keys(
                #[trigger] self.bucket_view(b2),
            ) by {
                if b2 != idx as int {
                    assert(self.bucket_view(b2) == old(self).bucket_view(b2));
                    assert(distinct_keys(old(self).bucket_view(b2)));
                }
            }
            assert forall|b2: int, i: int|
                0 <= b2 < self.spec_capacity() && 0 <= i < self.bucket_view(b2).len() implies self
                .bucket_index(#[trigger] self.bucket_view(b2)[i].0) == b2 by {
                if b2 == idx as int {
                    lemma_remove_entry_in_source(old_bucket, *key, i);
                    let j = choose|j: int|
                        0 <= j < old_bucket.len() && old_bucket[j] == remove_entry(
                            old_bucket,
                            *key,
                        )[i];
                    assert(old(self).bucket_index(old(self).bucket_view(idx as int)[j].0) == idx
                        as int);
                } else {
                    assert(self.bucket_view(b2) == old(self).bucket_view(b2));
                    assert(old(self).bucket_index(old(self).bucket_view(b2)[i].0) == b2);
                }
            }
            lemma_remove_entry_same(old_bucket, *key);
            assert forall|k2: K| true implies #[trigger] self.contents().contains_key(k2) == old(
                self,
            ).contents().remove(*key).contains_key(k2) && (self.contents().contains_key(k2)
                ==> self.contents()[k2] == old(self).contents().remove(*key)[k2]) by {
                if self.bucket_index(k2) == idx as int {
                    if k2 != *key {
                        lemma_remove_entry_other(old_bucket, *key, k2);
                    }
                }
            }
            assert(self.contents() =~= old(self).contents().remove(*key));
        }
        match r {
            Some((_, v)) => Some(v),
            None => None,
        }
    }

    /// Grows to the next capacity: the default size from the unallocated
    /// state, double the current capacity otherwise.
    ///
    /// The new bucket array is allocated before anything is touched, so a
    /// refused allocation leaves the table exactly as it was. Migration then
    /// moves every node, one at a time, from its old bucket to the bucket
    /// its key routes to under the new capacity; a node never has two owners
    /// and no node is created or destroyed, after which the old array's
    /// storage is released. Content and entry count are unchanged.
    pub fn grow(&mut self) -> (r: Result<(), AllocError>)
        requires
            old(self).wf(),
            2 * old(self).spec_capacity() <= usize::MAX,
        ensures
            final(self).wf(),
            final(self).seed() == old(self).seed(),
            final(self).spec_baseline() == old(self).spec_baseline(),
            final(self).arena().spec_budget() == old(self).arena().spec_budget(),
            match r {
                Ok(()) => {
                    &&& final(self).contents() == old(self).contents()
                    &&& final(self).spec_len() == old(self).spec_len()
                    &&& final(self).spec_capacity() == grown_capacity(old(self).spec_capacity())
                    &&& final(self).arena().spec_allocated() == old(self).arena().spec_allocated()
                        + grown_capacity(old(self).spec_capacity())
                },
                Err(_) => {
                    &&& *final(self) == *old(self)
                    &&& !old(self).arena().can_allocate(
                        grown_capacity(old(self).spec_capacity()),
                    )
                },
            },
    {
        let new_capacity: usize = if self.capacity == 0 {
            DEFAULT_SIZE
        } else {
            self.capacity * 2
        };
        match self.allocator.allocate(new_capacity) {
            Err(e) => {
                return Err(e);
            }
            Ok(()) => {}
        }
        let mut fresh: Vec<B> = Vec::new();
        while fresh.len() < new_capacity
            invariant
                fresh@.len() <= new_capacity,
                forall|b: int| 0 <= b < fresh@.len() ==> #[trigger] fresh@[b].chain().len() == 0,
            decreases new_capacity - fresh@.len(),
        {
            fresh.push(B::new_in());
        }
        let old_capacity: usize = self.capacity;
        let mut old_buckets: Vec<B> = fresh;
        core::mem::swap(&mut self.buckets, &mut old_buckets);
        self.capacity = new_capacity;

        let ghost oc = old(self).spec_capacity();
        let ghost nc = new_capacity as int;
        let ghost sd = old(self).seed();
        let ghost m = old(self).contents();
        proof {
            lemma_total_entries_zero(self.buckets@);
            assert forall|b2: int| 0 <= b2 < nc implies #[trigger] self.buckets@[b2].chain().len()
                == 0 by {}
            assert forall|k: K| m.contains_key(k) implies {
                &&& find_entry(old_buckets@[slot_of(k, sd, oc)].chain(), k) == Some((k, m[k]))
                &&& find_entry(self.buckets@[slot_of(k, sd, nc)].chain(), k) is None
            } by {
                lemma_find_entry_props(old_buckets@[slot_of(k, sd, oc)].chain(), k);
            }
            assert forall|j: int, i: int|
                0 <= j < oc && 0 <= i < old_buckets@[j].chain().len() implies {
                    let e = #[trigger] old_buckets@[j].chain()[i];
                    &&& m.contains_key(e.0)
                    &&& m[e.0] == e.1
                    &&& slot_of(e.0, sd, oc) == j
                } by {
                let e = old_buckets@[j].chain()[i];
                assert(old(self).bucket_index(old(self).bucket_view(j)[i].0) == j);
                lemma_find_entry_distinct_at(old_buckets@[j].chain(), i);
            }
        }

        let mut b: usize = 0;
        while b < old_capacity
            invariant
                b <= old_capacity,
                old_capacity as int == oc,
                new_capacity as int == nc,
                oc >= 0,
                nc > 0,
                2 * oc <= usize::MAX,
                old_buckets@.len() == oc,
                self.buckets@.len() == nc,
                self.capacity == new_capacity,
                self.len == old(self).len,
                self.hash_builder == old(self).hash_builder,
                self.baseline == old(self).baseline,
                self.allocator.wf(),
                self.allocator.spec_budget() == old(self).arena().spec_budget(),
                self.allocator.spec_allocated() == old(self).arena().spec_allocated() + nc,
                self.allocator.spec_freed() == old(self).arena().spec_freed(),
                m == old(self).contents(),
                sd == old(self).seed(),
                // already processed buckets are empty
                forall|j: int| 0 <= j < b ==> #[trigger] old_buckets@[j].chain().len() == 0,
                // what remains on the old side is of the content, sits where
                // the old capacity routed it, and has not reached the new side
                forall|j: int, i: int|
                    b <= j < oc && 0 <= i < old_buckets@[j].chain().len() ==> {
                        let e = #[trigger] old_buckets@[j].chain()[i];
                        &&& m.contains_key(e.0)
                        &&& m[e.0] == e.1
                        &&& slot_of(e.0, sd, oc) == j
                        &&& find_entry(self.buckets@[slot_of(e.0, sd, nc)].chain(), e.0) is None
                    },
                forall|j: int| b <= j < oc ==> distinct_keys(#[trigger] old_buckets@[j].chain()),
                // the new side holds only entries of the content, each in the
                // bucket its key routes to, each key at most once
                forall|b2: int, i: int|
                    0 <= b2 < nc && 0 <= i < self.buckets@[b2].chain().len() ==> {
                        let e = #[trigger] self.buckets@[b2].chain()[i];
                        &&& m.contains_key(e.0)
                        &&& m[e.0] == e.1
                        &&& slot_of(e.0, sd, nc) == b2
                    },
                forall|b2: int| 0 <= b2 < nc ==> distinct_keys(#[trigger] self.buckets@[b2].chain()),
                // every key of the content is on exactly one side
                forall|k: K| #[trigger] m.contains_key(k) ==> {
                    if find_entry(old_buckets@[slot_of(k, sd, oc)].chain(), k) is Some {
                        &&& find_entry(old_buckets@[slot_of(k, sd, oc)].chain(), k) == Some((k, m[k]))
                        &&& find_entry(self.buckets@[slot_of(k, sd, nc)].chain(), k) is None
                    } else {
                        find_entry(self.buckets@[slot_of(k, sd, nc)].chain(), k) == Some((k, m[k]))
                    }
                },
                total_entries(old_buckets@) + total_entries(self.buckets@) == old(self).spec_len(),
            decreases oc - b, old_buckets@[b as int].chain().len(),
        {
            let ghost old_chain = old_buckets@[b as int].chain();
            let ghost prev_old_buckets = old_buckets@;
            let ghost prev_new_buckets = self.buckets@;
            let taken = old_buckets[b].detach_first();
            match taken {
                None => {
                    proof {
                        assert(old_buckets@ =~= prev_old_buckets);
                    }
                    b = b + 1;
                }
                Some((k, v)) => {
                    let idx = self.key_index(&k);
                    let ghost prev_target = self.buckets@[idx as int].chain();
                    proof {
                        assert(old_chain[0] == (k, v));
                        assert(slot_of(k, sd, nc) == idx as int);
                        lemma_find_entry_some_iff(prev_target, k);
                    }
                    self.buckets[idx].attach_front(k, v);
                    proof {
                        let new_target = self.buckets@[idx as int].chain();
                        assert(old_buckets@ =~= prev_old_buckets.update(
                            b as int,
                            old_buckets@[b as int],
                        ));
                        assert(self.buckets@ =~= prev_new_buckets.update(
                            idx as int,
                            self.buckets@[idx as int],
                        ));
                        lemma_total_entries_update(
                            prev_old_buckets,
                            b as int,
                            old_buckets@[b as int],
                        );
                        lemma_total_entries_update(
                            prev_new_buckets,
                            idx as int,
                            self.buckets@[idx as int],
                        );
                        assert(total_entries(old_buckets@) == total_entries(prev_old_buckets)
                            - 1);
                        assert(total_entries(self.buckets@) == total_entries(prev_new_buckets)
                            + 1);
                        // the moved entry's key is gone from old bucket b
                        assert forall|i: int|
                            0 <= i < old_buckets@[b as int].chain().len() implies #[trigger] old_buckets@[
                            b as int
                        ].chain()[i].0 != k by {
                            assert(old_chain[i + 1] == old_buckets@[b as int].chain()[i]);
                        }
                        lemma_find_entry_some_iff(old_buckets@[b as int].chain(), k);
                        // distinctness of the target bucket after the attach
                        assert forall|i: int, j: int|
                            0 <= i < j < new_target.len() implies new_target[i].0
                            != new_target[j].0 by {
                            if i == 0 {
                                assert(new_target[j] == prev_target[j - 1]);
                                lemma_find_entry_some_iff(prev_target, k);
                            } else {
                                assert(new_target[i] == prev_target[i - 1]);
                                assert(new_target[j] == prev_target[j - 1]);
                            }
                        }
                        // searches in the target bucket for other keys are unchanged
                        assert forall|k2: K| k2 != k implies find_entry(new_target, k2)
                            == find_entry(prev_target, k2) by {
                            assert(new_target.drop_first() =~= prev_target);
                        }
                        // searches in old bucket b for other keys are unchanged
                        assert forall|k2: K| k2 != k implies find_entry(old_chain, k2)
                            == find_entry(old_buckets@[b as int].chain(), k2) by {
                            assert(old_chain.drop_first() =~= old_buckets@[b as int].chain());
                        }
                        assert(find_entry(new_target, k) == Some((k, v)));
                    }
                }
            }
        }
        proof {
            lemma_total_entries_zero(old_buckets@);
        }
        self.allocator.deallocate(old_capacity);
        proof {
            assert forall|k2: K| true implies #[trigger] self.contents().contains_key(k2)
                == m.contains_key(k2) && (m.contains_key(k2) ==> self.contents()[k2] == m[k2]) by {
                if m.contains_key(k2) {
                    assert(old_buckets@[slot_of(k2, sd, oc)].chain().len() == 0);
                } else {
                    lemma_find_entry_props(self.buckets@[slot_of(k2, sd, nc)].chain(), k2);
                }
            }
            assert(self.contents() =~= m);
        }
        Ok(())
    }

    /// Inserts `key` with `value`, growing first when the insertion would
    /// push the entry count past the capacity.
    ///
    /// Returns the value previously under the key, if any; the node for the
    /// new entry is allocated before any existing entry is touched, so a
    /// refused allocation loses nothing: the failure leaves every
    /// pre-existing entry in place, and failure comes exactly when the arena
    /// cannot cover the growth and the one new node.
    pub fn insert(&mut self, key: K, value: V) -> (r: Result<Option<V>, AllocError>)
        requires
            old(self).wf(),
            2 * old(self).spec_capacity() <= usize::MAX,
        ensures
            final(self).wf(),
            final(self).seed() == old(self).seed(),
            final(self).spec_baseline() == old(self).spec_baseline(),
            final(self).arena().spec_budget() == old(self).arena().spec_budget(),
            old(self).arena().spec_allocated() <= final(self).arena().spec_allocated() <= old(
                self,
            ).arena().spec_allocated() + old(self).insert_need(),
            r is Err <==> !old(self).arena().can_allocate(old(self).insert_need()),
            match r {
                Ok(prev) => {
                    &&& final(self).contents() == old(self).contents().insert(key, value)
                    &&& prev == if old(self).contents().dom().contains(key) {
                        Some(old(self).contents()[key])
                    } else {
                        None::<V>
                    }
                    &&& final(self).spec_len() == old(self).spec_len() + if prev is Some {
                        0int
                    } else {
                        1int
                    }
                    &&& final(self).spec_capacity() == if old(self).spec_len() + 1 > old(
                        self,
                    ).spec_capacity() {
                        grown_capacity(old(self).spec_capacity())
                    } else {
                        old(self).spec_capacity()
                    }
                },
                Err(_) => {
                    &&& final(self).contents() == old(self).contents()
                    &&& final(self).spec_len() == old(self).spec_len()
                },
            },
    {
        if self.len + 1 > self.capacity {
            match self.grow() {
                Err(e) => {
                    return Err(e);
                }
                Ok(()) => {}
            }
        }
        let idx = self.key_index(&key);
        let ghost before = *self;
        let ghost old_bucket = self.bucket_view(idx as int);
        proof {
            lemma_bucket_le_total(self.buckets@, idx as int);
        }
        let bref = &mut self.buckets[idx];
        let r = bref.insert(key, value, &mut self.allocator);
        match r {
            Err(e) => {
                proof {
                    assert(self.buckets@ =~= before.buckets@);
                    assert forall|b2: int| 0 <= b2 < self.spec_capacity() implies distinct_keys(
                        #[trigger] self.bucket_view(b2),
                    ) by {
                        assert(self.bucket_view(b2) == before.bucket_view(b2));
                        assert(distinct_keys(before.bucket_view(b2)));
                    }
                    assert forall|b2: int, i: int|
                        0 <= b2 < self.spec_capacity() && 0 <= i < self.bucket_view(b2).len()
                        implies self.bucket_index(#[trigger] self.bucket_view(b2)[i].0)
                        == b2 by {
                        assert(self.bucket_view(b2) == before.bucket_view(b2));
                        assert(before.bucket_index(before.bucket_view(b2)[i].0) == b2);
                    }
                    assert(self.contents() =~= before.contents());
                    assert(before.contents() == old(self).contents());
                }
                Err(e)
            }
            Ok(evicted) => {
                proof {
                    lemma_find_entry_props(old_bucket, key);
                    lemma_remove_entry_len(old_bucket, key);
                    lemma_remove_entry_distinct(old_bucket, key);
                    lemma_remove_entry_same(old_bucket, key);
                    lemma_total_entries_update(
                        before.buckets@,
                        idx as int,
                        self.buckets@[idx as int],
                    );
                }
                if evicted.is_none() {
                    self.len = self.len + 1;
                }
                proof {
                    let new_bucket = self.bucket_view(idx as int);
                    assert(self.buckets@ =~= before.buckets@.update(
                        idx as int,
                        self.buckets@[idx as int],
                    ));
                    assert forall|b2: int| 0 <= b2 < self.spec_capacity() implies distinct_keys(
                        #[trigger] self.bucket_view(b2),
                    ) by {
                        if b2 == idx as int {
                            let rem = remove_entry(old_bucket, key);
                            assert(new_bucket == seq![(key, value)] + rem);
                            lemma_find_entry_some_iff(rem, key);
                            assert forall|i: int, j: int|
                                0 <= i < j < new_bucket.len() implies new_bucket[i].0
                                != new_bucket[j].0 by {
                                if i == 0 {
                                    assert(new_bucket[j] == rem[j - 1]);
                                } else {
                                    assert(new_bucket[i] == rem[i - 1]);
                                    assert(new_bucket[j] == rem[j - 1]);
                                }
                            }
                        } else {
                            assert(self.bucket_view(b2) == before.bucket_view(b2));
                            assert(distinct_keys(before.bucket_view(b2)));
                        }
                    }
                    assert forall|b2: int, i: int|
                        0 <= b2 < self.spec_capacity() && 0 <= i < self.bucket_view(b2).len()
                        implies self.bucket_index(#[trigger] self.bucket_view(b2)[i].0)
                        == b2 by {
                        if b2 == idx as int {
                            if i == 0 {
                            } else {
                                let rem = remove_entry(old_bucket, key);
                                assert(self.bucket_view(b2)[i] == rem[i - 1]);
                                lemma_remove_entry_in_source(old_bucket, key, i - 1);
                                let j = choose|j: int|
                                    0 <= j < old_bucket.len() && old_bucket[j] == rem[i - 1];
                                assert(before.bucket_index(before.bucket_view(idx as int)[j].0)
                                    == idx as int);
                            }
                        } else {
                            assert(self.bucket_view(b2) == before.bucket_view(b2));
                            assert(before.bucket_index(before.bucket_view(b2)[i].0) == b2);
                        }
                    }
                    assert forall|k2: K| k2 != key implies find_entry(new_bucket, k2)
                        == find_entry(old_bucket, k2) by {
                        assert(new_bucket.drop_first() =~= remove_entry(old_bucket, key));
                        lemma_remove_entry_other(old_bucket, key, k2);
                    }
                    assert(find_entry(new_bucket, key) == Some((key, value)));
                    assert(self.contents() =~= before.contents().insert(key, value));
                    assert(before.contents() == old(self).contents());
                }
                match evicted {
                    Some((_, v)) => Ok(Some(v)),
                    None => Ok(None),
                }
            }
        }
    }

    /// Storage units one call of `insert` may need from the arena now: the
    /// grown bucket array when the insertion triggers growth, plus one node.
    pub open spec fn insert_need(&self) -> int {
        if self.spec_len() + 1 > self.spec_capacity() {
            grown_capacity(self.spec_capacity()) + 1
        } else {
            1
        }
    }

    /// Consumes every node, releasing one storage unit per entry; the bucket
    /// array itself stays allocated and the table ends empty.
    pub fn clear(&mut self)
        requires
            old(self).wf(),
        ensures
            final(self).wf(),
            final(self).contents() =~= Map::<K, V>::empty(),
            final(self).spec_len() == 0,
            final(self).spec_capacity() == old(self).spec_capacity(),
            final(self).seed() == old(self).seed(),
            final(self).spec_baseline() == old(self).spec_baseline(),
            final(self).arena().spec_budget() == old(self).arena().spec_budget(),
            final(self).arena().spec_allocated() == old(self).arena().spec_allocated(),
            final(self).arena().spec_freed() == old(self).arena().spec_freed() + old(
                self,
            ).spec_len(),
    {
        let capacity: usize = self.capacity;
        let mut b: usize = 0;
        while b < capacity
            invariant
                old(self).wf(),
                b <= capacity,
                self.capacity == capacity,
                self.buckets@.len() == capacity,
                self.len == old(self).len,
                self.hash_builder == old(self).hash_builder,
                self.baseline == old(self).baseline,
                self.allocator.wf(),
                self.allocator.spec_budget() == old(self).arena().spec_budget(),
                self.allocator.spec_allocated() == old(self).arena().spec_allocated(),
                self.allocator.spec_freed() == old(self).arena().spec_freed() + (old(
                    self,
                ).spec_len() - total_entries(self.buckets@)),
                old(self).spec_len() >= total_entries(self.buckets@) >= 0,
                self.allocator.spec_outstanding() == old(self).spec_baseline() + total_entries(
                    self.buckets@,
                ) + if capacity > 0 {
                    capacity as int
                } else {
                    0
                },
                forall|j: int| 0 <= j < b ==> #[trigger] self.buckets@[j].chain().len() == 0,
            decreases capacity - b,
        {
            let ghost prev_buckets = self.buckets@;
            proof {
                lemma_bucket_le_total(self.buckets@, b as int);
                lemma_total_entries_nonneg(self.buckets@);
            }
            let bref = &mut self.buckets[b];
            let ghost chain_len = bref.chain().len();
            bref.clear(&mut self.allocator);
            proof {
                assert(self.buckets@ =~= prev_buckets.update(b as int, self.buckets@[b as int]));
                lemma_total_entries_update(prev_buckets, b as int, self.buckets@[b as int]);
                lemma_total_entries_nonneg(self.buckets@);
            }
            b = b + 1;
        }
        self.len = 0;
        proof {
            lemma_total_entries_zero(self.buckets@);
            assert forall|k: K| !self.contents().dom().contains(k) by {
                if self.spec_capacity() > 0 {
                    lemma_find_entry_some_iff(self.bucket_view(self.bucket_index(k)), k);
                }
            }
            assert(self.contents() =~= Map::<K, V>::empty());
        }
    }

    /// Tears the table down: consumes every node, releases the bucket
    /// array, and hands the arena back.
    ///
    /// The arena comes back holding exactly what it held when the table was
    /// built: over the table's whole lifetime, everything allocated has been
    /// freed, nothing twice.
    pub fn destroy(self) -> (r: Allocator)
        requires
            self.wf(),
        ensures
            r.wf(),
            r.spec_budget() == self.arena().spec_budget(),
            r.spec_outstanding() == self.spec_baseline(),
            r.spec_allocated() >= r.spec_freed(),
    {
        let mut t = self;
        t.clear();
        let capacity: usize = t.capacity;
        let SCHashTableImpl {
            buckets: _,
            capacity: _,
            len: _,
            hash_builder: _,
            mut allocator,
            baseline: _,
            marker: _,
        } = t;
        if capacity != 0 {
            allocator.deallocate(capacity);
        }
        allocator
    }

    /// Every entry of the table, bucket by bucket.
    pub closed spec fn entries(&self) -> Seq<(K, V)> {
        entries_of(self.buckets@)
    }

    /// Key uniqueness: however the table was built, no key stands in its
    /// entries twice, and the entries are exactly `len` many.
    pub proof fn lemma_key_uniqueness(&self)
        requires
            self.wf(),
        ensures
            distinct_keys(self.entries()),
            self.entries().len() == self.spec_len(),
    {
        lemma_entries_of_len(self.buckets@);
        let es = self.entries();
        assert forall|i: int, j: int| 0 <= i < j < es.len() implies es[i].0 != es[j].0 by {
            lemma_entries_of_index(self.buckets@, i);
            lemma_entries_of_index(self.buckets@, j);
            let (b1, o1) = choose|b1: int, o1: int|
                0 <= b1 < self.buckets@.len() && 0 <= o1 < self.buckets@[b1].chain().len()
                    && entries_of(self.buckets@)[i] == self.buckets@[b1].chain()[o1] && position_of(
                    self.buckets@,
                    b1,
                    o1,
                ) == i;
            let (b2, o2) = choose|b2: int, o2: int|
                0 <= b2 < self.buckets@.len() && 0 <= o2 < self.buckets@[b2].chain().len()
                    && entries_of(self.buckets@)[j] == self.buckets@[b2].chain()[o2] && position_of(
                    self.buckets@,
                    b2,
                    o2,
                ) == j;
            assert(self.bucket_index(self.bucket_view(b1)[o1].0) == b1);
            assert(self.bucket_index(self.bucket_view(b2)[o2].0) == b2);
            if b1 == b2 {
                if o1 < o2 {
                    assert(es[i].0 != es[j].0);
                } else if o2 < o1 {
                    assert(es[j].0 != es[i].0);
                } else {
                    lemma_position_of_injective(self.buckets@, b1, o1, b2, o2);
                }
            }
        }
    }
}

/// The entries of a sequence of buckets, bucket by bucket.
pub open spec fn entries_of<K: HashKey, V, B: Bucket<K, V>>(bs: Seq<B>) -> Seq<(K, V)>
    decreases bs.len(),
{
    if bs.len() == 0 {
        Seq::empty()
    } else {
        bs[0].chain() + entries_of(bs.drop_first())
    }
}

/// Flat position of entry `o` of bucket `b` in `entries_of`.
pub open spec fn position_of<K: HashKey, V, B: Bucket<K, V>>(bs: Seq<B>, b: int, o: int) -> int
    decreases b,
{
    if b <= 0 {
        o
    } else {
        bs[0].chain().len() + position_of(bs.drop_first(), b - 1, o)
    }
}

proof fn lemma_entries_of_len<K: HashKey, V, B: Bucket<K, V>>(bs: Seq<B>)
    ensures
        entries_of(bs).len() == total_entries(bs),
    decreases bs.len(),
{
    if bs.len() != 0 {
        lemma_entries_of_len(bs.drop_first());
    }
}

/// Every flat index of `entries_of` comes from one bucket position.
proof fn lemma_entries_of_index<K: HashKey, V, B: Bucket<K, V>>(bs: Seq<B>, i: int)
    requires
        0 <= i < entries_of(bs).len(),
    ensures
        exists|b: int, o: int|
            0 <= b < bs.len() && 0 <= o < bs[b].chain().len() && entries_of(bs)[i] == bs[b].chain()[o]
                && position_of(bs, b, o) == i,
    decreases bs.len(),
{
    if bs.len() != 0 {
        if i < bs[0].chain().len() {
            assert(position_of(bs, 0, i) == i);
            assert(entries_of(bs)[i] == bs[0].chain()[i]);
        } else {
            lemma_entries_of_index(bs.drop_first(), i - bs[0].chain().len());
            let (b, o) = choose|b: int, o: int|
                0 <= b < bs.drop_first().len() && 0 <= o < bs.drop_first()[b].chain().len()
                    && entries_of(bs.drop_first())[i - bs[0].chain().len()] == bs.drop_first()[b].chain()[o]
                    && position_of(bs.drop_first(), b, o) == i - bs[0].chain().len();
            assert(bs.drop_first()[b] == bs[b + 1]);
            assert(position_of(bs, b + 1, o) == i);
            assert(entries_of(bs)[i] == bs[b + 1].chain()[o]);
        }
    }
}

/// Two distinct positions in one bucket stand at distinct flat indices.
proof fn lemma_position_of_injective<K: HashKey, V, B: Bucket<K, V>>(
    bs: Seq<B>,
    b1: int,
    o1: int,
    b2: int,
    o2: int,
)
    requires
        0 <= b1 < bs.len(),
        0 <= o1 < bs[b1].chain().len(),
        0 <= b2 < bs.len(),
        0 <= o2 < bs[b2].chain().len(),
        b1 == b2,
        o1 == o2,
    ensures
        position_of(bs, b1, o1) == position_of(bs, b2, o2),
{
}

impl<K: HashKey, V: Copy> SCHashTableImpl<K, V> {
    /// A cursor over a copy of every entry, bucket by bucket.
    pub fn iter(&self) -> (r: HashTableInnerIter<K, V>)
        requires
            self.wf(),
        ensures
            r.remaining() == self.entries(),
    {
        let mut items: Vec<(K, V)> = Vec::new();
        let mut b: usize = 0;
        let n = self.buckets.len();
        proof {
            assert(self.buckets@.skip(0) =~= self.buckets@);
        }
        while b < n
            invariant
                b <= n,
                n == self.buckets@.len(),
                items@ + entries_of(self.buckets@.skip(b as int)) == entries_of(self.buckets@),
            decreases n - b,
        {
            proof {
                let rest = self.buckets@.skip(b as int);
                assert(rest[0] == self.buckets@[b as int]);
                assert(rest.drop_first() =~= self.buckets@.skip(b as int + 1));
            }
            let mut chunk = self.buckets[b].entries();
            items.append(&mut chunk);
            b = b + 1;
            proof {
                assert(items@ + entries_of(self.buckets@.skip(b as int)) =~= entries_of(
                    self.buckets@,
                ));
            }
        }
        proof {
            assert(self.buckets@.skip(n as int) =~= Seq::<SLLBucket<K, V>>::empty());
            assert(items@ =~= entries_of(self.buckets@));
        }
        HashTableInnerIter { items }
    }
}

/// A cursor over a copy of a table's entries, bucket by bucket.
pub struct HashTableInnerIter<K, V> {
    items: Vec<(K, V)>,
}

impl<K, V> HashTableInnerIter<K, V> {
    /// The entries not yet handed out.
    pub closed spec fn remaining(&self) -> Seq<(K, V)> {
        self.items@
    }

    /// Hands out the next entry.
    pub fn next(&mut self) -> (r: Option<(K, V)>)
        ensures
            old(self).remaining().len() == 0 ==> r is None && final(self).remaining()
                == old(self).remaining(),
            old(self).remaining().len() > 0 ==> {
                &&& r == Some(old(self).remaining()[0])
                &&& final(self).remaining() == old(self).remaining().drop_first()
            },
    {
        if self.items.len() > 0 {
            let e = self.items.remove(0);
            proof {
                assert(final(self).remaining() =~= old(self).remaining().drop_first());
            }
            Some(e)
        } else {
            None
        }
    }

    /// Copies the entries not yet handed out into a vector.
    pub fn collect(&self) -> (r: Vec<(K, V)>)
        where K: Copy, V: Copy,
        ensures
            r@ == self.remaining(),
    {
        let mut out: Vec<(K, V)> = Vec::new();
        let mut i: usize = 0;
        while i < self.items.len()
            invariant
                i <= self.items@.len(),
                out@ == self.items@.take(i as int),
            decreases self.items@.len() - i,
        {
            out.push(self.items[i]);
            i = i + 1;
            proof {
                assert(out@ =~= self.items@.take(i as int));
            }
        }
        proof {
            assert(self.items@.take(self.items@.len() as int) =~= self.items@);
        }
        out
    }
}

/// The earlier, self-contained face of the table: it owns an unlimited
/// arena of its own, so construction always succeeds, and forwards every
/// operation to [`SCHashTableImpl`] under the same contracts.
pub struct SCHashTable<K: HashKey, V> {
    inner: SCHashTableImpl<K, V>,
}

impl<K: HashKey, V> SCHashTable<K, V> {
    /// The key/value pairs the table holds.
    pub closed spec fn contents(&self) -> Map<K, V> {
        self.inner.contents()
    }

    /// The table's internal well-formedness.
    pub closed spec fn wf(&self) -> bool {
        self.inner.wf()
    }

    /// Number of live entries.
    pub closed spec fn spec_len(&self) -> int {
        self.inner.spec_len()
    }

    /// Number of bucket slots.
    pub closed spec fn spec_capacity(&self) -> int {
        self.inner.spec_capacity()
    }

    /// Every entry of the table, bucket by bucket.
    pub closed spec fn entries(&self) -> Seq<(K, V)> {
        self.inner.entries()
    }

    /// The arena the table draws from.
    pub closed spec fn table_arena(&self) -> Allocator {
        self.inner.arena()
    }

    /// Storage units one `insert` may need from the arena now.
    pub closed spec fn table_insert_need(&self) -> int {
        self.inner.insert_need()
    }

    /// A table of `capacity` buckets over a fresh unlimited arena; with
    /// nothing allocated yet, the arena cannot refuse the array.
    pub fn with_capacity_and_hasher(capacity: usize, hash_builder: HashBuilder) -> (r: Self)
        ensures
            r.wf(),
            r.contents() =~= Map::<K, V>::empty(),
            r.spec_len() == 0,
            r.spec_capacity() == capacity,
    {
        let arena = Allocator::unlimited();
        match SCHashTableImpl::with_capacity_and_hasher_in(capacity, hash_builder, arena) {
            Ok(inner) => SCHashTable { inner },
            Err(_) => vstd::pervasive::unreached(),
        }
    }

    /// An empty table at the default capacity.
    pub fn new() -> (r: Self)
        ensures
            r.wf(),
            r.contents() =~= Map::<K, V>::empty(),
            r.spec_len() == 0,
            r.spec_capacity() == DEFAULT_SIZE,
    {
        Self::with_capacity_and_hasher(DEFAULT_SIZE, HashBuilder::new())
    }

    /// An empty table at the given capacity; zero for the unallocated state.
    pub fn with_capacity(capacity: usize) -> (r: Self)
        ensures
            r.wf(),
            r.contents() =~= Map::<K, V>::empty(),
            r.spec_len() == 0,
            r.spec_capacity() == capacity,
    {
        Self::with_capacity_and_hasher(capacity, HashBuilder::new())
    }

    /// Inserts, growing as needed; returns the value previously under the
    /// key, and loses nothing on allocation failure.
    pub fn insert(&mut self, key: K, value: V) -> (r: Result<Option<V>, AllocError>)
        requires
            old(self).wf(),
            2 * old(self).spec_capacity() <= usize::MAX,
        ensures
            final(self).wf(),
            r is Err <==> !old(self).table_arena().can_allocate(old(self).table_insert_need()),
            match r {
                Ok(prev) => {
                    &&& final(self).contents() == old(self).contents().insert(key, value)
                    &&& prev == if old(self).contents().dom().contains(key) {
                        Some(old(self).contents()[key])
                    } else {
                        None::<V>
                    }
                    &&& final(self).spec_len() == old(self).spec_len() + if prev is Some {
                        0int
                    } else {
                        1int
                    }
                },
                Err(_) => {
                    &&& final(self).contents() == old(self).contents()
                    &&& final(self).spec_len() == old(self).spec_len()
                },
            },
    {
        self.inner.insert(key, value)
    }

    /// Removes the entry under `key`; absence is a normal outcome.
    pub fn remove(&mut self, key: &K) -> (r: Option<V>)
        requires
            old(self).wf(),
        ensures
            final(self).wf(),
            final(self).contents() == old(self).contents().remove(*key),
            r == if old(self).contents().dom().contains(*key) {
                Some(old(self).contents()[*key])
            } else {
                None::<V>
            },
            final(self).spec_len() == old(self).spec_len() - if r is Some {
                1int
            } else {
                0int
            },
    {
        self.inner.remove(key)
    }

    /// A reference to the value under `key`, if the table holds one.
    pub fn get<'a>(&'a self, key: &K) -> (r: Option<&'a V>)
        requires
            self.wf(),
        ensures
            match r {
                Some(v) => self.contents().dom().contains(*key) && *v == self.contents()[*key],
                None => !self.contents().dom().contains(*key),
            },
    {
        self.inner.get(key)
    }

    /// Number of live entries.
    pub fn len(&self) -> (r: usize)
        ensures
            r as int == self.spec_len(),
    {
        self.inner.len()
    }

    /// Whether the table holds no entry.
    pub fn is_empty(&self) -> (r: bool)
        ensures
            r == (self.spec_len() == 0),
    {
        self.inner.is_empty()
    }

    /// Number of bucket slots.
    pub fn capacity(&self) -> (r: usize)
        ensures
            r as int == self.spec_capacity(),
    {
        self.inner.capacity()
    }
}

impl<K: HashKey, V: Copy> SCHashTable<K, V> {
    /// A cursor over a copy of every entry, bucket by bucket.
    pub fn iter(&self) -> (r: HashTableInnerIter<K, V>)
        requires
            self.wf(),
        ensures
            r.remaining() == self.entries(),
    {
        self.inner.iter()
    }
}

/// Round trip at the level of the abstract content: after inserting a key
/// the content holds it, under exactly the inserted value. Together with
/// the contracts of `insert` and `get`, this is why inserting a fresh pair
/// and looking it up returns that value, with the entry count one higher.
pub proof fn lemma_round_trip<K, V>(m: Map<K, V>, k: K, v: V)
    ensures
        m.insert(k, v).contains_key(k),
        m.insert(k, v)[k] == v,
{
}

/// Removing an absent key leaves the content untouched; removing a present
/// key erases exactly that key. Together with the contracts of `remove` and
/// `get`, this is why removing an absent key answers `None` and changes
/// nothing, and a removed key is gone from the next lookup.
pub proof fn lemma_remove_semantics<K, V>(m: Map<K, V>, k: K)
    ensures
        !m.contains_key(k) ==> m.remove(k) =~= m,
        !m.remove(k).contains_key(k),
        forall|k2: K| k2 != k && m.contains_key(k2) ==> m.remove(k).contains_key(k2)
            && m.remove(k)[k2] == m[k2],
{
}

} // verus!
