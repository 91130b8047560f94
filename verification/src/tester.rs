//! The operation model of the differential tester.
//!
//! A replayed test run is a sequence of operations applied to a table and
//! to a reference at once, comparing every answer. [`Operation`] is the
//! interface of one such deterministic step; [`TableOperation`] is the
//! step set of the hash table — insert, remove, get — with its answer
//! pinned to the table's abstract content, so a mismatch against any
//! faithful reference is a genuine defect.

use vstd::prelude::*;

use crate::hashing::HashKey;
use crate::separate_chaining::SCHashTable;

verus! {

/// What a map answers for a key before a mutating step: the value held
/// under it, if any.
pub open spec fn previous_value<K, V>(m: Map<K, V>, k: K) -> Option<V> {
    if m.dom().contains(k) {
        Some(m[k])
    } else {
        None
    }
}

/// One deterministic operation against a target, with an observed result.
pub trait Operation: Sized {
    /// What the operation is applied to.
    type Target;

    /// What the operation answers.
    type Outcome;

    /// When the target can take the operation.
    spec fn pre(&self, target: &Self::Target) -> bool;

    /// Applies the operation once.
    fn apply(&self, target: &mut Self::Target) -> Self::Outcome
        requires
            self.pre(&*old(target)),
    ;
}

/// An operation of the hash-table test harness.
pub enum TableOperation<K, V> {
    /// Store a value under a key.
    Insert(K, V),
    /// Drop the entry under a key.
    Remove(K),
    /// Look the key up.
    Get(K),
}

impl<K: HashKey, V: Copy> Operation for TableOperation<K, V> {
    type Target = SCHashTable<K, V>;

    type Outcome = Option<V>;

    open spec fn pre(&self, target: &SCHashTable<K, V>) -> bool {
        target.wf() && 2 * target.spec_capacity() <= usize::MAX
    }

    /// Applies the step; the answer is what the table's content held under
    /// the key before the step, exactly as a faithful reference would
    /// answer. An insert that the arena refuses answers `None` with the
    /// content unchanged; the table's own arena is unlimited, so that does
    /// not happen in a replay.
    fn apply(&self, target: &mut SCHashTable<K, V>) -> (r: Option<V>)
        ensures
            final(target).wf(),
            match *self {
                TableOperation::Insert(k, v) => {
                    ||| {
                        &&& final(target).contents() == old(target).contents().insert(k, v)
                        &&& r == previous_value(old(target).contents(), k)
                    }
                    ||| {
                        &&& final(target).contents() == old(target).contents()
                        &&& r is None
                    }
                },
                TableOperation::Remove(k) => {
                    &&& final(target).contents() == old(target).contents().remove(k)
                    &&& r == previous_value(old(target).contents(), k)
                },
                TableOperation::Get(k) => {
                    &&& final(target).contents() == old(target).contents()
                    &&& r == previous_value(old(target).contents(), k)
                },
            },
    {
        match self {
            TableOperation::Insert(k, v) => {
                match target.insert(*k, *v) {
                    Ok(prev) => prev,
                    Err(_) => None,
                }
            }
            TableOperation::Remove(k) => target.remove(k),
            TableOperation::Get(k) => {
                match target.get(k) {
                    Some(v) => Some(*v),
                    None => None,
                }
            }
        }
    }
}

} // verus!
