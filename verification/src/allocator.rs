//! The allocator model that every owning container of this crate draws from.
//!
//! An [`Allocator`] stands for one memory arena. It hands out abstract
//! storage units (one unit per node, one unit per array slot), keeps running
//! totals of everything allocated and freed, and can be created with a hard
//! budget so that exhaustion paths are reachable deterministically. The only
//! error it reports is [`AllocError`]; every container operation that may
//! allocate surfaces that error to its caller unchanged, leaving the
//! container in its last good state.

use vstd::prelude::*;

verus! {

/// The single recoverable error of this crate: the allocator could not
/// satisfy a request for storage.
#[derive(Clone, Copy, PartialEq, Eq, Debug)]
pub struct AllocError;

/// A bookkeeping handle on a memory arena.
///
/// `allocated` and `freed` are lifetime totals in storage units; an arena
/// created with a budget refuses any request that would push `allocated`
/// past that budget. The arena never forgets: totals only grow, and
/// `outstanding` storage is exactly `allocated - freed`.
#[derive(Debug)]
pub struct Allocator {
    /// Hard lifetime budget in units; `None` allows every request.
    pub budget: Option<u64>,
    /// Lifetime total of units handed out.
    pub allocated: u64,
    /// Lifetime total of units returned.
    pub freed: u64,
}

impl Allocator {
    /// Nothing freed that was never allocated, and nothing allocated past
    /// the budget.
    pub open spec fn wf(&self) -> bool {
        &&& self.freed <= self.allocated
        &&& match self.budget {
            Option::None => true,
            Option::Some(b) => self.allocated <= b,
        }
    }

    pub open spec fn spec_budget(&self) -> Option<u64> {
        self.budget
    }

    pub open spec fn spec_allocated(&self) -> int {
        self.allocated as int
    }

    pub open spec fn spec_freed(&self) -> int {
        self.freed as int
    }

    /// Units currently held by callers: allocated but not yet freed.
    pub open spec fn spec_outstanding(&self) -> int {
        self.allocated - self.freed
    }

    /// Whether a request for `units` more storage units succeeds now.
    pub open spec fn can_allocate(&self, units: int) -> bool {
        self.allocated + units <= u64::MAX
            && match self.budget {
                Option::None => true,
                Option::Some(b) => self.allocated + units <= b,
            }
    }

    /// An arena that satisfies every request.
    pub fn unlimited() -> (r: Self)
        ensures
            r.wf(),
            r.spec_budget() == Option::<u64>::None,
            r.spec_allocated() == 0,
            r.spec_freed() == 0,
    {
        Allocator { budget: None, allocated: 0, freed: 0 }
    }

    /// An arena that refuses any request past `budget` lifetime units.
    pub fn with_budget(budget: u64) -> (r: Self)
        ensures
            r.wf(),
            r.spec_budget() == Option::Some(budget),
            r.spec_allocated() == 0,
            r.spec_freed() == 0,
    {
        Allocator { budget: Some(budget), allocated: 0, freed: 0 }
    }

    /// Requests `units` storage units.
    ///
    /// Succeeds exactly when the arena can still cover the request; on
    /// failure the arena is left unchanged.
    pub fn allocate(&mut self, units: usize) -> (r: Result<(), AllocError>)
        requires
            old(self).wf(),
        ensures
            final(self).wf(),
            final(self).spec_budget() == old(self).spec_budget(),
            final(self).spec_freed() == old(self).spec_freed(),
            old(self).can_allocate(units as int) ==> r == Ok::<(), AllocError>(())
                && final(self).spec_allocated() == old(self).spec_allocated() + units,
            !old(self).can_allocate(units as int) ==> r == Err::<(), AllocError>(AllocError)
                && *final(self) == *old(self),
    {
        let units64 = units as u64;
        if units64 > u64::MAX - self.allocated {
            return Err(AllocError);
        }
        let next = self.allocated + units64;
        match self.budget {
            Some(b) => {
                if next > b {
                    return Err(AllocError);
                }
            }
            None => {}
        }
        self.allocated = next;
        Ok(())
    }

    /// Returns `units` storage units to the arena.
    ///
    /// The caller must hold at least that much outstanding storage; every
    /// container of this crate frees only what it still owns.
    pub fn deallocate(&mut self, units: usize)
        requires
            old(self).wf(),
            units as int <= old(self).spec_outstanding(),
        ensures
            final(self).wf(),
            final(self).spec_budget() == old(self).spec_budget(),
            final(self).spec_allocated() == old(self).spec_allocated(),
            final(self).spec_freed() == old(self).spec_freed() + units,
    {
        self.freed = self.freed + units as u64;
    }

    /// Lifetime total of units handed out.
    pub fn total_allocated(&self) -> (r: u64)
        ensures
            r as int == self.spec_allocated(),
    {
        self.allocated
    }

    /// Lifetime total of units returned.
    pub fn total_freed(&self) -> (r: u64)
        ensures
            r as int == self.spec_freed(),
    {
        self.freed
    }

    /// Units currently held by callers.
    pub fn outstanding(&self) -> (r: u64)
        requires
            self.wf(),
        ensures
            r as int == self.spec_outstanding(),
    {
        self.allocated - self.freed
    }
}

} // verus!
