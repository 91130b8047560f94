//! A double-ended queue over a growable ring buffer.
//!
//! [`ArrayQueue`] owns one storage block of exactly `capacity` slots,
//! charged to its allocator, and keeps its `len` elements in a ring that
//! starts at `start` and wraps at the block's end. Its view is the sequence
//! of elements from front to back; pushing at either end is constant-time,
//! and growth moves every element into a fresh block before the old one is
//! released.

use vstd::prelude::*;

use crate::allocator::{AllocError, Allocator};
use vstd::std_specs::cmp::PartialEqSpec;

verus! {

/// Capacity an empty queue grows to on its first push.
pub const DEFAULT_QUEUE_SIZE: usize = 16;

/// The capacity a growth step moves to: the default for an unallocated
/// queue, twice the current capacity otherwise.
pub open spec fn grown_queue_capacity(cap: int) -> int {
    if cap == 0 {
        DEFAULT_QUEUE_SIZE as int
    } else {
        2 * cap
    }
}

/// A double-ended queue over a growable ring buffer.
///
/// `push_back` adds to the queue, `pop_front` removes.
pub struct ArrayQueue<T> {
    data: Vec<Option<T>>,
    len: usize,
    capacity: usize,
    start: usize,
    alloc: Allocator,
    baseline: Ghost<int>,
}

impl<T> View for ArrayQueue<T> {
    type V = Seq<T>;

    /// The elements from front to back.
    closed spec fn view(&self) -> Seq<T> {
        Seq::new(self.len as nat, |i: int| self.data@[self.phys(i)].unwrap())
    }
}

impl<T> ArrayQueue<T> {
    /// Number of slots in the ring.
    pub closed spec fn spec_capacity(&self) -> int {
        self.capacity as int
    }

    /// Number of elements held.
    pub closed spec fn spec_len(&self) -> int {
        self.len as int
    }

    /// Index of the front element within the ring.
    pub closed spec fn spec_start(&self) -> int {
        self.start as int
    }

    /// The arena the ring's storage is charged to.
    pub closed spec fn arena(&self) -> Allocator {
        self.alloc
    }

    /// Storage units the arena already had out when the queue was built.
    pub closed spec fn spec_baseline(&self) -> int {
        self.baseline@
    }

    /// The slot the queue's element `i` lives in.
    closed spec fn phys(&self, i: int) -> int {
        if self.start + i < self.capacity {
            self.start + i
        } else {
            self.start + i - self.capacity
        }
    }

    /// Whether ring slot `q` lies inside the occupied window.
    closed spec fn occupied(&self, q: int) -> bool {
        if self.start + self.len <= self.capacity {
            self.start <= q < self.start + self.len
        } else {
            self.start <= q < self.capacity || 0 <= q < self.start + self.len - self.capacity
        }
    }

    /// Well-formedness: the ring is exactly `capacity` slots, the occupied
    /// ones are filled, the ring fits the address arithmetic, and the arena
    /// holds the baseline plus one unit per slot.
    pub closed spec fn wf(&self) -> bool {
        &&& self.data@.len() == self.capacity
        &&& self.len <= self.capacity
        &&& (if self.capacity == 0 {
            self.start == 0
        } else {
            self.start < self.capacity
        })
        &&& 2 * self.capacity <= usize::MAX
        &&& forall|q: int| 0 <= q < self.capacity && self.occupied(q) ==> (#[trigger] self.data@[q]) is Some
        &&& self.alloc.wf()
        &&& self.baseline@ >= 0
        &&& self.alloc.spec_outstanding() == self.baseline@ + self.capacity
    }

    /// An empty, unallocated queue over a fresh unlimited arena.
    pub fn new() -> (r: Self)
        ensures
            r.wf(),
            r@ =~= Seq::<T>::empty(),
            r.spec_capacity() == 0,
    {
        Self::new_in(Allocator::unlimited())
    }

    /// An empty, unallocated queue over the given arena.
    pub fn new_in(alloc: Allocator) -> (r: Self)
        requires
            alloc.wf(),
        ensures
            r.wf(),
            r@ =~= Seq::<T>::empty(),
            r.spec_capacity() == 0,
            r.arena() == alloc,
            r.spec_baseline() == alloc.spec_outstanding(),
    {
        let ghost base = alloc.spec_outstanding();
        ArrayQueue { data: Vec::new(), len: 0, capacity: 0, start: 0, alloc, baseline: Ghost(base) }
    }

    /// A queue with `capacity` slots over a fresh unlimited arena; with
    /// nothing allocated yet, the arena cannot refuse the block.
    pub fn with_capacity(capacity: usize) -> (r: Self)
        requires
            2 * capacity <= usize::MAX,
        ensures
            r.wf(),
            r@ =~= Seq::<T>::empty(),
            r.spec_capacity() == capacity,
    {
        match Self::with_capacity_in(capacity, Allocator::unlimited()) {
            Ok(q) => q,
            Err(_) => vstd::pervasive::unreached(),
        }
    }

    /// A queue with `capacity` slots over the given arena. On allocation
    /// failure nothing has been built and the arena is consumed unchanged.
    pub fn with_capacity_in(capacity: usize, alloc: Allocator) -> (r: Result<Self, AllocError>)
        requires
            alloc.wf(),
            2 * capacity <= usize::MAX,
        ensures
            match r {
                Ok(q) => {
                    &&& q.wf()
                    &&& q@ =~= Seq::<T>::empty()
                    &&& q.spec_capacity() == capacity
                    &&& q.arena().spec_budget() == alloc.spec_budget()
                    &&& q.spec_baseline() == alloc.spec_outstanding()
                },
                Err(_) => capacity > 0 && !alloc.can_allocate(capacity as int),
            },
    {
        let mut queue = Self::new_in(alloc);
        if capacity != 0 {
            match queue.grow_to(capacity) {
                Ok(()) => {}
                Err(e) => {
                    return Err(e);
                }
            }
        }
        Ok(queue)
    }

    /// Moves the ring into a fresh block of `new_capacity` slots, front at
    /// slot zero, then releases the old block. A refused allocation leaves
    /// the queue untouched.
    fn grow_to(&mut self, new_capacity: usize) -> (r: Result<(), AllocError>)
        requires
            old(self).wf(),
            new_capacity >= old(self)@.len(),
            new_capacity >= 1,
            2 * new_capacity <= usize::MAX,
        ensures
            final(self).wf(),
            final(self).spec_baseline() == old(self).spec_baseline(),
            final(self).arena().spec_budget() == old(self).arena().spec_budget(),
            match r {
                Ok(()) => {
                    &&& final(self)@ == old(self)@
                    &&& final(self).spec_capacity() == new_capacity
                    &&& final(self).spec_start() == 0
                },
                Err(_) => {
                    &&& *final(self) == *old(self)
                    &&& !old(self).arena().can_allocate(new_capacity as int)
                },
            },
    {
        match self.alloc.allocate(new_capacity) {
            Err(e) => {
                return Err(e);
            }
            Ok(()) => {}
        }
        let mut fresh: Vec<Option<T>> = Vec::new();
        while fresh.len() < new_capacity
            invariant
                fresh@.len() <= new_capacity,
                forall|i: int| 0 <= i < fresh@.len() ==> (#[trigger] fresh@[i]) is None,
            decreases new_capacity - fresh@.len(),
        {
            fresh.push(None);
        }
        let mut old_data: Vec<Option<T>> = fresh;
        core::mem::swap(&mut self.data, &mut old_data);
        let old_capacity = self.capacity;
        let old_start = self.start;
        self.capacity = new_capacity;
        self.start = 0;
        let ghost old_view = old(self)@;
        let mut i: usize = 0;
        while i < self.len
            invariant
                old(self).wf(),
                i <= self.len,
                self.len == old(self).len,
                self.capacity == new_capacity,
                self.start == 0,
                self.len <= new_capacity,
                new_capacity >= 1,
                2 * new_capacity <= usize::MAX,
                self.data@.len() == new_capacity,
                old_data@.len() == old(self).spec_capacity(),
                old_capacity == old(self).capacity,
                old_start == old(self).start,
                old_view.len() == self.len,
                self.baseline == old(self).baseline,
                self.alloc.wf(),
                self.alloc.spec_budget() == old(self).arena().spec_budget(),
                self.alloc.spec_allocated() == old(self).arena().spec_allocated() + new_capacity,
                self.alloc.spec_freed() == old(self).arena().spec_freed(),
                forall|j: int| 0 <= j < i ==> (#[trigger] self.data@[j]) == Some(old_view[j]),
                forall|j: int|
                    i <= j < self.len ==> (#[trigger] old_data@[old(self).phys(j)]) == old(
                        self,
                    ).data@[old(self).phys(j)],
                forall|j: int| 0 <= j < old_view.len() ==> old_view[j] == old(self).data@[old(
                    self,
                ).phys(j)].unwrap(),
                forall|j: int| 0 <= j < self.len ==> (#[trigger] old(self).data@[old(
                    self,
                ).phys(j)]) is Some,
            decreases self.len - i,
        {
            proof {
                assert forall|j: int, j2: int|
                    i <= j < j2 < self.len implies old(self).phys(j) != old(self).phys(j2) by {}
            }
            let p = if old_start + i < old_capacity {
                old_start + i
            } else {
                old_start + i - old_capacity
            };
            let moved = old_data[p].take();
            self.data.set(i, moved);
            i = i + 1;
        }
        self.alloc.deallocate(old_capacity);
        proof {
            assert(self@ =~= old_view);
        }
        Ok(())
    }

    /// Grows to the next capacity: the default from an unallocated ring,
    /// twice the current capacity otherwise.
    fn grow(&mut self) -> (r: Result<(), AllocError>)
        requires
            old(self).wf(),
            2 * grown_queue_capacity(old(self).spec_capacity()) <= usize::MAX,
        ensures
            final(self).wf(),
            final(self).spec_baseline() == old(self).spec_baseline(),
            final(self).arena().spec_budget() == old(self).arena().spec_budget(),
            match r {
                Ok(()) => {
                    &&& final(self)@ == old(self)@
                    &&& final(self).spec_capacity() == grown_queue_capacity(
                        old(self).spec_capacity(),
                    )
                    &&& final(self).spec_start() == 0
                },
                Err(_) => {
                    &&& *final(self) == *old(self)
                    &&& !old(self).arena().can_allocate(
                        grown_queue_capacity(old(self).spec_capacity()),
                    )
                },
            },
    {
        let new_capacity: usize = if self.capacity == 0 {
            DEFAULT_QUEUE_SIZE
        } else {
            self.capacity * 2
        };
        self.grow_to(new_capacity)
    }

    /// Adds an element at the back of the queue, growing the ring when it
    /// is full; a refused allocation changes nothing.
    pub fn push_back(&mut self, item: T) -> (r: Result<(), AllocError>)
        requires
            old(self).wf(),
            old(self).spec_len() + 1 > old(self).spec_capacity() ==> 2 * grown_queue_capacity(
                old(self).spec_capacity(),
            ) <= usize::MAX,
        ensures
            final(self).wf(),
            final(self).spec_baseline() == old(self).spec_baseline(),
            match r {
                Ok(()) => {
                    &&& final(self)@ == old(self)@.push(item)
                    &&& final(self).spec_capacity() == if old(self)@.len() + 1 > old(
                        self,
                    ).spec_capacity() {
                        grown_queue_capacity(old(self).spec_capacity())
                    } else {
                        old(self).spec_capacity()
                    }
                },
                Err(_) => final(self)@ == old(self)@ && final(self).spec_capacity() == old(
                    self,
                ).spec_capacity(),
            },
    {
        if self.len + 1 > self.capacity {
            match self.grow() {
                Ok(()) => {}
                Err(e) => {
                    return Err(e);
                }
            }
        }
        let ghost before = *self;
        let p = if self.start + self.len < self.capacity {
            self.start + self.len
        } else {
            self.start + self.len - self.capacity
        };
        proof {
            assert(self.len < self.capacity);
            assert(p as int == self.phys(self.len as int));
            assert forall|j: int| 0 <= j < self.len implies #[trigger] self.phys(j) != p as int
                by {}
        }
        self.data.set(p, Some(item));
        self.len = self.len + 1;
        proof {
            assert forall|j: int| 0 <= j < self.len implies (#[trigger] self.data@[self.phys(
                j,
            )]) is Some by {
                if j < self.len - 1 {
                    assert(self.phys(j) == before.phys(j));
                    assert(before.data@[before.phys(j)] is Some);
                }
            }
            assert(self@ =~= before@.push(item));
        }
        Ok(())
    }

    /// Adds an element at the front of the queue, growing the ring when it
    /// is full; a refused allocation changes nothing.
    pub fn push_front(&mut self, item: T) -> (r: Result<(), AllocError>)
        requires
            old(self).wf(),
            old(self).spec_len() + 1 > old(self).spec_capacity() ==> 2 * grown_queue_capacity(
                old(self).spec_capacity(),
            ) <= usize::MAX,
        ensures
            final(self).wf(),
            final(self).spec_baseline() == old(self).spec_baseline(),
            match r {
                Ok(()) => {
                    &&& final(self)@ == seq![item] + old(self)@
                    &&& final(self).spec_capacity() == if old(self)@.len() + 1 > old(
                        self,
                    ).spec_capacity() {
                        grown_queue_capacity(old(self).spec_capacity())
                    } else {
                        old(self).spec_capacity()
                    }
                },
                Err(_) => final(self)@ == old(self)@ && final(self).spec_capacity() == old(
                    self,
                ).spec_capacity(),
            },
    {
        if self.len + 1 > self.capacity {
            match self.grow() {
                Ok(()) => {}
                Err(e) => {
                    return Err(e);
                }
            }
        }
        let ghost before = *self;
        self.start = if self.start == 0 {
            self.capacity - 1
        } else {
            self.start - 1
        };
        proof {
            assert forall|j: int| 1 <= j < self.len + 1 implies #[trigger] self.phys(j)
                == before.phys(j - 1) by {}
            assert forall|j: int| 1 <= j < self.len + 1 implies #[trigger] self.phys(j)
                != self.phys(0) by {}
        }
        let p = self.start;
        self.data.set(p, Some(item));
        self.len = self.len + 1;
        proof {
            assert forall|j: int| 0 <= j < self.len implies (#[trigger] self.data@[self.phys(
                j,
            )]) is Some by {
                if j >= 1 {
                    assert(self.phys(j) == before.phys(j - 1));
                    assert(before.data@[before.phys(j - 1)] is Some);
                }
            }
            assert(self@ =~= seq![item] + before@);
        }
        Ok(())
    }

    /// Removes and returns the element at the back, if any.
    pub fn pop_back(&mut self) -> (r: Option<T>)
        requires
            old(self).wf(),
        ensures
            final(self).wf(),
            final(self).spec_capacity() == old(self).spec_capacity(),
            final(self).spec_baseline() == old(self).spec_baseline(),
            final(self).arena() == old(self).arena(),
            old(self)@.len() == 0 ==> r is None && final(self)@ == old(self)@,
            old(self)@.len() > 0 ==> {
                &&& r == Some(old(self)@.last())
                &&& final(self)@ == old(self)@.drop_last()
            },
    {
        if self.len == 0 {
            return None;
        }
        let ghost before = *self;
        let p = if self.start + (self.len - 1) < self.capacity {
            self.start + (self.len - 1)
        } else {
            self.start + (self.len - 1) - self.capacity
        };
        proof {
            assert(p as int == self.phys(self.len - 1));
            assert(self.data@[p as int] is Some);
        }
        let taken = self.data[p].take();
        self.len = self.len - 1;
        proof {
            assert forall|j: int| 0 <= j < self.len implies #[trigger] self.phys(j) != p as int
                by {}
            assert forall|j: int| 0 <= j < self.len implies (#[trigger] self.data@[self.phys(
                j,
            )]) is Some by {
                assert(self.phys(j) == before.phys(j));
                assert(before.data@[before.phys(j)] is Some);
            }
            assert(self@ =~= before@.drop_last());
        }
        match taken {
            Some(v) => Some(v),
            None => vstd::pervasive::unreached(),
        }
    }

    /// Removes and returns the element at the front, if any.
    pub fn pop_front(&mut self) -> (r: Option<T>)
        requires
            old(self).wf(),
        ensures
            final(self).wf(),
            final(self).spec_capacity() == old(self).spec_capacity(),
            final(self).spec_baseline() == old(self).spec_baseline(),
            final(self).arena() == old(self).arena(),
            old(self)@.len() == 0 ==> r is None && final(self)@ == old(self)@,
            old(self)@.len() > 0 ==> {
                &&& r == Some(old(self)@[0])
                &&& final(self)@ == old(self)@.drop_first()
            },
    {
        if self.len == 0 {
            return None;
        }
        let ghost before = *self;
        let p = self.start;
        proof {
            assert(p as int == self.phys(0));
            assert(self.data@[p as int] is Some);
        }
        let taken = self.data[p].take();
        self.start = if self.start + 1 < self.capacity {
            self.start + 1
        } else {
            0
        };
        self.len = self.len - 1;
        proof {
            assert forall|j: int| 0 <= j < self.len implies #[trigger] self.phys(j) == before.phys(
                j + 1,
            ) by {}
            assert forall|j: int| 0 <= j < self.len implies #[trigger] before.phys(j + 1)
                != before.phys(0) by {}
            assert forall|j: int| 0 <= j < self.len implies (#[trigger] self.data@[self.phys(
                j,
            )]) is Some by {
                assert(self.phys(j) == before.phys(j + 1));
                assert(before.data@[before.phys(j + 1)] is Some);
            }
            assert(self@ =~= before@.drop_first());
        }
        match taken {
            Some(v) => Some(v),
            None => vstd::pervasive::unreached(),
        }
    }

    /// A reference to the element at `index`, front being zero.
    pub fn get<'a>(&'a self, index: usize) -> (r: Option<&'a T>)
        requires
            self.wf(),
        ensures
            index < self@.len() ==> r == Some(&self@[index as int]),
            index >= self@.len() ==> r is None,
    {
        if index < self.len {
            let p = if self.start + index < self.capacity {
                self.start + index
            } else {
                self.start + index - self.capacity
            };
            proof {
                assert(p as int == self.phys(index as int));
                assert(self.data@[p as int] is Some);
            }
            match &self.data[p] {
                Some(v) => Some(v),
                None => vstd::pervasive::unreached(),
            }
        } else {
            None
        }
    }

    /// A reference to the front element, if any.
    pub fn front<'a>(&'a self) -> (r: Option<&'a T>)
        requires
            self.wf(),
        ensures
            self@.len() > 0 ==> r == Some(&self@[0]),
            self@.len() == 0 ==> r is None,
    {
        self.get(0)
    }

    /// A reference to the back element, if any.
    pub fn back<'a>(&'a self) -> (r: Option<&'a T>)
        requires
            self.wf(),
        ensures
            self@.len() > 0 ==> r == Some(&self@.last()),
            self@.len() == 0 ==> r is None,
    {
        if self.len == 0 {
            None
        } else {
            self.get(self.len - 1)
        }
    }

    /// Number of elements held.
    pub fn len(&self) -> (r: usize)
        ensures
            r as int == self@.len(),
    {
        self.len
    }

    /// Number of slots in the ring.
    pub fn capacity(&self) -> (r: usize)
        ensures
            r as int == self.spec_capacity(),
    {
        self.capacity
    }

    /// Whether the queue holds no element.
    pub fn is_empty(&self) -> (r: bool)
        ensures
            r == (self@.len() == 0),
    {
        self.len == 0
    }

    /// The arena's counters, for auditing the queue's storage.
    pub fn allocator(&self) -> (r: &Allocator)
        ensures
            *r == self.arena(),
    {
        &self.alloc
    }

    /// A mutable reference to the element at `index`, front being zero.
    pub fn get_mut<'a>(&'a mut self, index: usize) -> (r: Option<&'a mut T>)
        requires
            old(self).wf(),
        ensures
            index >= old(self)@.len() ==> r is None && *final(self) == *old(self),
            index < old(self)@.len() ==> match r {
                Some(v) => {
                    &&& *v == old(self)@[index as int]
                    &&& final(self)@.len() == old(self)@.len()
                    &&& final(self)@[index as int] == *final(v)
                    &&& (forall|j: int|
                        0 <= j < old(self)@.len() && j != index ==> final(self)@[j] == old(
                            self,
                        )@[j])
                    &&& final(self).wf()
                    &&& final(self).spec_capacity() == old(self).spec_capacity()
                    &&& final(self).spec_baseline() == old(self).spec_baseline()
                    &&& final(self).arena() == old(self).arena()
                },
                None => false,
            },
    {
        if index < self.len {
            let p = if self.start + index < self.capacity {
                self.start + index
            } else {
                self.start + index - self.capacity
            };
            proof {
                assert(p as int == self.phys(index as int));
                assert(self.occupied(p as int));
                assert(self.data@[p as int] is Some);
                assert forall|j: int|
                    0 <= j < old(self).len && j != index implies #[trigger] old(self).phys(j)
                    != p as int by {}
            }
            let slot = &mut self.data[p];
            slot.as_mut()
        } else {
            None
        }
    }

    /// A mutable reference to the front element, if any.
    pub fn front_mut<'a>(&'a mut self) -> (r: Option<&'a mut T>)
        requires
            old(self).wf(),
        ensures
            old(self)@.len() == 0 ==> r is None && *final(self) == *old(self),
            old(self)@.len() > 0 ==> match r {
                Some(v) => {
                    &&& *v == old(self)@[0]
                    &&& final(self)@.len() == old(self)@.len()
                    &&& final(self)@[0] == *final(v)
                    &&& (forall|j: int|
                        0 < j < old(self)@.len() ==> final(self)@[j] == old(self)@[j])
                    &&& final(self).wf()
                    &&& final(self).spec_capacity() == old(self).spec_capacity()
                },
                None => false,
            },
    {
        self.get_mut(0)
    }

    /// A mutable reference to the back element, if any.
    pub fn back_mut<'a>(&'a mut self) -> (r: Option<&'a mut T>)
        requires
            old(self).wf(),
        ensures
            old(self)@.len() == 0 ==> r is None && *final(self) == *old(self),
            old(self)@.len() > 0 ==> match r {
                Some(v) => {
                    &&& *v == old(self)@.last()
                    &&& final(self)@.len() == old(self)@.len()
                    &&& final(self)@[old(self)@.len() - 1] == *final(v)
                    &&& (forall|j: int|
                        0 <= j < old(self)@.len() - 1 ==> final(self)@[j] == old(self)@[j])
                    &&& final(self).wf()
                    &&& final(self).spec_capacity() == old(self).spec_capacity()
                },
                None => false,
            },
    {
        if self.len == 0 {
            None
        } else {
            let i = self.len - 1;
            self.get_mut(i)
        }
    }

    /// Overwrites the element at `index`.
    pub fn set(&mut self, index: usize, value: T)
        requires
            old(self).wf(),
            index < old(self)@.len(),
        ensures
            final(self).wf(),
            final(self)@ == old(self)@.update(index as int, value),
            final(self).spec_capacity() == old(self).spec_capacity(),
            final(self).spec_baseline() == old(self).spec_baseline(),
            final(self).arena() == old(self).arena(),
    {
        let ghost before = *self;
        let p = if self.start + index < self.capacity {
            self.start + index
        } else {
            self.start + index - self.capacity
        };
        proof {
            assert(p as int == self.phys(index as int));
            assert forall|j: int|
                0 <= j < self.len && j != index implies #[trigger] self.phys(j) != p as int by {}
        }
        self.data.set(p, Some(value));
        proof {
            assert forall|j: int| 0 <= j < self.len implies (#[trigger] self.data@[self.phys(
                j,
            )]) is Some by {
                if j != index {
                    assert(self.phys(j) != p as int);
                    assert(self.data@[self.phys(j)] == before.data@[before.phys(j)]);
                    assert(before.data@[before.phys(j)] is Some);
                }
            }
            assert(self@ =~= before@.update(index as int, value));
        }
    }

    /// Drops every element, leaving the ring allocated and empty.
    pub fn clear(&mut self)
        requires
            old(self).wf(),
        ensures
            final(self).wf(),
            final(self)@ =~= Seq::<T>::empty(),
            final(self).spec_capacity() == old(self).spec_capacity(),
            final(self).spec_baseline() == old(self).spec_baseline(),
            final(self).arena() == old(self).arena(),
    {
        while self.len > 0
            invariant
                self.wf(),
                self.spec_capacity() == old(self).spec_capacity(),
                self.spec_baseline() == old(self).spec_baseline(),
                self.arena() == old(self).arena(),
            decreases self@.len(),
        {
            let _ = self.pop_front();
        }
    }

    /// Swaps the elements at two positions of the queue.
    fn swap_ring(&mut self, i: usize, j: usize)
        requires
            old(self).wf(),
            i < old(self)@.len(),
            j < old(self)@.len(),
            i != j,
        ensures
            final(self).wf(),
            final(self)@ == old(self)@.update(i as int, old(self)@[j as int]).update(
                j as int,
                old(self)@[i as int],
            ),
            final(self).spec_capacity() == old(self).spec_capacity(),
            final(self).spec_baseline() == old(self).spec_baseline(),
            final(self).arena() == old(self).arena(),
    {
        let ghost before = *self;
        let p1 = if self.start + i < self.capacity {
            self.start + i
        } else {
            self.start + i - self.capacity
        };
        let p2 = if self.start + j < self.capacity {
            self.start + j
        } else {
            self.start + j - self.capacity
        };
        proof {
            assert(p1 as int == self.phys(i as int));
            assert(p2 as int == self.phys(j as int));
            assert(self.data@[p1 as int] is Some);
            assert(self.data@[p2 as int] is Some);
            assert forall|a: int, b: int|
                0 <= a < self.len && 0 <= b < self.len && a != b implies #[trigger] self.phys(a)
                != #[trigger] self.phys(b) by {}
        }
        let x = self.data[p1].take();
        let y = self.data[p2].take();
        self.data.set(p1, y);
        self.data.set(p2, x);
        proof {
            assert forall|a: int| 0 <= a < self.len implies (#[trigger] self.data@[self.phys(
                a,
            )]) is Some by {
                if a != i as int && a != j as int {
                    assert(self.phys(a) != p1 as int);
                    assert(self.phys(a) != p2 as int);
                    assert(self.data@[self.phys(a)] == before.data@[before.phys(a)]);
                }
            }
            assert(self@ =~= before@.update(i as int, before@[j as int]).update(
                j as int,
                before@[i as int],
            ));
        }
    }

    /// Inserts `value` at position `index`, shifting what follows one step
    /// toward the back; grows the ring when it is full, and a refused
    /// allocation changes nothing.
    pub fn insert(&mut self, index: usize, value: T) -> (r: Result<(), AllocError>)
        requires
            old(self).wf(),
            index <= old(self)@.len(),
            old(self)@.len() + 1 > old(self).spec_capacity() ==> 2 * grown_queue_capacity(
                old(self).spec_capacity(),
            ) <= usize::MAX,
        ensures
            final(self).wf(),
            final(self).spec_baseline() == old(self).spec_baseline(),
            match r {
                Ok(()) => final(self)@ == old(self)@.insert(index as int, value),
                Err(_) => final(self)@ == old(self)@,
            },
    {
        let ghost orig = self@;
        match self.push_back(value) {
            Ok(()) => {}
            Err(e) => {
                return Err(e);
            }
        }
        proof {
            assert(self@.len() == orig.len() + 1);
        }
        let mut j: usize = self.len - 1;
        proof {
            assert(self@ =~= orig.subrange(0, j as int) + seq![value] + orig.subrange(
                j as int,
                orig.len() as int,
            ));
        }
        while j > index
            invariant
                self.wf(),
                index <= j < self@.len(),
                self@.len() == orig.len() + 1,
                index <= orig.len(),
                self.spec_baseline() == old(self).spec_baseline(),
                self@ == orig.subrange(0, j as int) + seq![value] + orig.subrange(
                    j as int,
                    orig.len() as int,
                ),
            decreases j,
        {
            let ghost prev = self@;
            self.swap_ring(j - 1, j);
            j = j - 1;
            proof {
                assert(self@ =~= orig.subrange(0, j as int) + seq![value] + orig.subrange(
                    j as int,
                    orig.len() as int,
                ));
            }
        }
        proof {
            assert(self@ =~= orig.insert(index as int, value));
        }
        Ok(())
    }

    /// Removes and returns the element at `index`, shifting what follows
    /// one step toward the front; out of range answers `None`.
    pub fn remove(&mut self, index: usize) -> (r: Option<T>)
        requires
            old(self).wf(),
        ensures
            final(self).wf(),
            final(self).spec_capacity() == old(self).spec_capacity(),
            final(self).spec_baseline() == old(self).spec_baseline(),
            index >= old(self)@.len() ==> r is None && final(self)@ == old(self)@,
            index < old(self)@.len() ==> {
                &&& r == Some(old(self)@[index as int])
                &&& final(self)@ == old(self)@.remove(index as int)
            },
    {
        if index >= self.len {
            return None;
        }
        let ghost orig = self@;
        let mut j: usize = index;
        while j + 1 < self.len
            invariant
                self.wf(),
                index <= j < self@.len(),
                self@.len() == orig.len(),
                index < orig.len(),
                self.spec_capacity() == old(self).spec_capacity(),
                self.spec_baseline() == old(self).spec_baseline(),
                self@ == orig.subrange(0, index as int) + orig.subrange(
                    index as int + 1,
                    j as int + 1,
                ) + seq![orig[index as int]] + orig.subrange(j as int + 1, orig.len() as int),
            decreases self@.len() - j,
        {
            self.swap_ring(j, j + 1);
            j = j + 1;
            proof {
                assert(self@ =~= orig.subrange(0, index as int) + orig.subrange(
                    index as int + 1,
                    j as int + 1,
                ) + seq![orig[index as int]] + orig.subrange(j as int + 1, orig.len() as int));
            }
        }
        let r = self.pop_back();
        proof {
            assert(self@ =~= orig.remove(index as int));
        }
        r
    }

    /// Pre-sizes the ring so that `count` more elements fit without
    /// another growth; a refused allocation changes nothing.
    pub fn reserve(&mut self, count: usize) -> (r: Result<(), AllocError>)
        requires
            old(self).wf(),
            2 * (old(self)@.len() + count) <= usize::MAX,
        ensures
            final(self).wf(),
            final(self).spec_baseline() == old(self).spec_baseline(),
            match r {
                Ok(()) => {
                    &&& final(self)@ == old(self)@
                    &&& (count > 0 ==> final(self).spec_capacity() >= old(self)@.len() + count)
                },
                Err(_) => final(self)@ == old(self)@,
            },
    {
        if count != 0 && self.len + count > self.capacity {
            let target = self.len + count;
            self.grow_to(target)
        } else {
            Ok(())
        }
    }

    /// Drops elements at the back until at most `size` remain.
    pub fn truncate(&mut self, size: usize)
        requires
            old(self).wf(),
        ensures
            final(self).wf(),
            final(self).spec_capacity() == old(self).spec_capacity(),
            final(self).spec_baseline() == old(self).spec_baseline(),
            (size as int) >= old(self)@.len() ==> final(self)@ == old(self)@,
            (size as int) < old(self)@.len() ==> final(self)@ == old(self)@.take(size as int),
    {
        proof {
            assert(old(self)@.take(old(self)@.len() as int) =~= old(self)@);
        }
        while self.len > size
            invariant
                self.wf(),
                self.spec_capacity() == old(self).spec_capacity(),
                self.spec_baseline() == old(self).spec_baseline(),
                self@.len() <= old(self)@.len(),
                self@.len() >= size || self@.len() == old(self)@.len(),
                self@ == old(self)@.take(self@.len() as int),
            decreases self@.len(),
        {
            let ghost prev = self@;
            let _ = self.pop_back();
            proof {
                assert(self@ =~= prev.drop_last());
                assert(self@ =~= old(self)@.take(self@.len() as int));
            }
        }
        proof {
            if size as int >= old(self)@.len() {
                assert(self@ =~= old(self)@);
            }
        }
    }

    /// Shrinks the ring to `size` slots, or to `len` if more are occupied;
    /// a refused allocation for the smaller block changes nothing.
    pub fn shrink_to(&mut self, size: usize) -> (r: Result<(), AllocError>)
        requires
            old(self).wf(),
        ensures
            final(self).wf(),
            final(self).spec_baseline() == old(self).spec_baseline(),
            match r {
                Ok(()) => {
                    &&& final(self)@ == old(self)@
                    &&& final(self).spec_capacity() == if (size as int) >= old(
                        self,
                    ).spec_capacity() || old(self)@.len() >= old(self).spec_capacity() {
                        old(self).spec_capacity()
                    } else if (size as int) >= old(self)@.len() {
                        size as int
                    } else {
                        old(self)@.len() as int
                    }
                },
                Err(_) => final(self)@ == old(self)@,
            },
    {
        let target = if size > self.len {
            size
        } else {
            self.len
        };
        if target >= self.capacity {
            return Ok(());
        }
        if target == 0 {
            self.data = Vec::new();
            let freed = self.capacity;
            self.capacity = 0;
            self.start = 0;
            self.alloc.deallocate(freed);
            proof {
                assert(self@ =~= old(self)@);
            }
            return Ok(());
        }
        self.grow_to(target)
    }

    /// Shrinks the ring to exactly the occupied slots.
    pub fn shrink_to_fit(&mut self) -> (r: Result<(), AllocError>)
        requires
            old(self).wf(),
        ensures
            final(self).wf(),
            final(self).spec_baseline() == old(self).spec_baseline(),
            match r {
                Ok(()) => {
                    &&& final(self)@ == old(self)@
                    &&& final(self).spec_capacity() == if old(self)@.len() >= old(
                        self,
                    ).spec_capacity() {
                        old(self).spec_capacity()
                    } else {
                        old(self)@.len() as int
                    }
                },
                Err(_) => final(self)@ == old(self)@,
            },
    {
        let size = self.len;
        self.shrink_to(size)
    }

    /// Whether some element of the queue equals `item`.
    pub fn contains(&self, item: &T) -> (r: bool)
        where T: PartialEq
        requires
            self.wf(),
        ensures
            T::obeys_eq_spec() ==> (r <==> exists|i: int|
                0 <= i < self@.len() && item.eq_spec(&self@[i])),
    {
        let mut i: usize = 0;
        while i < self.len
            invariant
                self.wf(),
                i <= self@.len(),
                T::obeys_eq_spec() ==> forall|j: int| 0 <= j < i ==> !item.eq_spec(&self@[j]),
            decreases self@.len() - i,
        {
            let here = match self.get(i) {
                Some(v) => v,
                None => vstd::pervasive::unreached(),
            };
            if item == here {
                return true;
            }
            i = i + 1;
        }
        false
    }

    /// Takes every element out of the queue, front first, into a cursor;
    /// the queue keeps its ring but ends empty. What the cursor has not
    /// handed out can be put back with [`Drain::restore`].
    pub fn drain(&mut self) -> (r: Drain<T>)
        requires
            old(self).wf(),
        ensures
            final(self).wf(),
            final(self)@ =~= Seq::<T>::empty(),
            final(self).spec_capacity() == old(self).spec_capacity(),
            final(self).spec_baseline() == old(self).spec_baseline(),
            final(self).arena() == old(self).arena(),
            r.remaining() == old(self)@,
    {
        let mut items: Vec<T> = Vec::new();
        loop
            invariant
                self.wf(),
                self.spec_capacity() == old(self).spec_capacity(),
                self.spec_baseline() == old(self).spec_baseline(),
                self.arena() == old(self).arena(),
                items@ + self@ == old(self)@,
            ensures
                self@.len() == 0,
            decreases self@.len(),
        {
            let ghost prev = self@;
            match self.pop_front() {
                None => {
                    break;
                }
                Some(v) => {
                    items.push(v);
                    proof {
                        assert(items@ + self@ =~= old(self)@);
                    }
                }
            }
        }
        proof {
            assert(items@ =~= old(self)@);
        }
        Drain { items }
    }

    /// Moves the elements so the ring starts at slot zero, without touching
    /// the arena; content and capacity are unchanged.
    pub fn make_contiguous(&mut self)
        requires
            old(self).wf(),
        ensures
            final(self).wf(),
            final(self)@ == old(self)@,
            final(self).spec_capacity() == old(self).spec_capacity(),
            final(self).spec_start() == 0,
            final(self).spec_baseline() == old(self).spec_baseline(),
            final(self).arena() == old(self).arena(),
    {
        if self.capacity == 0 || self.start == 0 {
            return;
        }
        let mut fresh: Vec<Option<T>> = Vec::new();
        let cap = self.capacity;
        while fresh.len() < cap
            invariant
                fresh@.len() <= cap,
                forall|i: int| 0 <= i < fresh@.len() ==> (#[trigger] fresh@[i]) is None,
            decreases cap - fresh@.len(),
        {
            fresh.push(None);
        }
        let mut old_data: Vec<Option<T>> = fresh;
        core::mem::swap(&mut self.data, &mut old_data);
        let old_start = self.start;
        self.start = 0;
        let ghost old_view = old(self)@;
        let mut i: usize = 0;
        while i < self.len
            invariant
                old(self).wf(),
                i <= self.len,
                self.len == old(self).len,
                self.capacity == old(self).capacity,
                self.start == 0,
                self.data@.len() == self.capacity,
                old_data@.len() == old(self).spec_capacity(),
                old_start == old(self).start,
                old_view.len() == self.len,
                self.alloc == old(self).alloc,
                self.baseline == old(self).baseline,
                forall|j: int| 0 <= j < i ==> (#[trigger] self.data@[j]) == Some(old_view[j]),
                forall|j: int|
                    i <= j < self.len ==> (#[trigger] old_data@[old(self).phys(j)]) == old(
                        self,
                    ).data@[old(self).phys(j)],
                forall|j: int| 0 <= j < old_view.len() ==> old_view[j] == old(self).data@[old(
                    self,
                ).phys(j)].unwrap(),
                forall|j: int| 0 <= j < self.len ==> (#[trigger] old(self).data@[old(
                    self,
                ).phys(j)]) is Some,
            decreases self.len - i,
        {
            proof {
                assert forall|j: int, j2: int|
                    i <= j < j2 < self.len implies old(self).phys(j) != old(self).phys(j2) by {}
            }
            let p = if old_start + i < self.capacity {
                old_start + i
            } else {
                old_start + i - self.capacity
            };
            let moved = old_data[p].take();
            self.data.set(i, moved);
            i = i + 1;
        }
        proof {
            assert(self@ =~= old_view);
        }
    }
}

impl<T> Default for ArrayQueue<T> {
    /// The empty, unallocated queue.
    fn default() -> (r: Self)
        ensures
            r.wf(),
            r@ =~= Seq::<T>::empty(),
            r.spec_capacity() == 0,
    {
        Self::new()
    }
}

impl<T: Copy> ArrayQueue<T> {
    /// A cursor over a copy of the elements, front first.
    pub fn iter(&self) -> (r: Iter<T>)
        requires
            self.wf(),
        ensures
            r.remaining() == self@,
    {
        Iter { items: self.to_vec() }
    }

    /// A cursor over a copy of the elements, front first; pair it with
    /// [`ArrayQueue::set`] to write changed values back.
    pub fn iter_mut(&mut self) -> (r: IterMut<T>)
        requires
            old(self).wf(),
        ensures
            *final(self) == *old(self),
            r.remaining() == old(self)@,
    {
        IterMut { items: self.to_vec() }
    }

    /// Copies the elements into a vector, front first.
    pub fn to_vec(&self) -> (r: Vec<T>)
        requires
            self.wf(),
        ensures
            r@ == self@,
    {
        let mut out: Vec<T> = Vec::new();
        let mut i: usize = 0;
        while i < self.len
            invariant
                self.wf(),
                i <= self@.len(),
                out@ == self@.take(i as int),
            decreases self@.len() - i,
        {
            let here = match self.get(i) {
                Some(v) => v,
                None => vstd::pervasive::unreached(),
            };
            out.push(*here);
            i = i + 1;
            proof {
                assert(out@ =~= self@.take(i as int));
            }
        }
        proof {
            assert(self@.take(self@.len() as int) =~= self@);
        }
        out
    }
}

impl<T> ArrayQueue<T> {
    /// Consumes the queue into a cursor that owns its elements.
    pub fn into_iter(self) -> (r: IntoIter<T>)
        requires
            self.wf(),
        ensures
            r.remaining() == self@,
    {
        IntoIter { inner: self }
    }
}

/// A double-ended cursor over a copy of a queue's elements.
pub struct Iter<T> {
    items: Vec<T>,
}

impl<T> Iter<T> {
    /// The elements not yet handed out.
    pub closed spec fn remaining(&self) -> Seq<T> {
        self.items@
    }

    /// Hands out the next element from the front.
    pub fn next(&mut self) -> (r: Option<T>)
        ensures
            old(self).remaining().len() == 0 ==> r is None && final(self).remaining()
                == old(self).remaining(),
            old(self).remaining().len() > 0 ==> {
                &&& r == Some(old(self).remaining()[0])
                &&& final(self).remaining() == old(self).remaining().drop_first()
            },
    {
        if self.items.len() > 0 {
            let e = self.items.remove(0);
            proof {
                assert(final(self).remaining() =~= old(self).remaining().drop_first());
            }
            Some(e)
        } else {
            None
        }
    }

    /// Hands out the next element from the back.
    pub fn next_back(&mut self) -> (r: Option<T>)
        ensures
            old(self).remaining().len() == 0 ==> r is None && final(self).remaining()
                == old(self).remaining(),
            old(self).remaining().len() > 0 ==> {
                &&& r == Some(old(self).remaining().last())
                &&& final(self).remaining() == old(self).remaining().drop_last()
            },
    {
        self.items.pop()
    }
}

/// A double-ended cursor over a copy of a queue's elements, for walks that
/// write their changes back with [`ArrayQueue::set`].
pub struct IterMut<T> {
    items: Vec<T>,
}

impl<T> IterMut<T> {
    /// The elements not yet handed out.
    pub closed spec fn remaining(&self) -> Seq<T> {
        self.items@
    }

    /// Hands out the next element from the front.
    pub fn next(&mut self) -> (r: Option<T>)
        ensures
            old(self).remaining().len() == 0 ==> r is None && final(self).remaining()
                == old(self).remaining(),
            old(self).remaining().len() > 0 ==> {
                &&& r == Some(old(self).remaining()[0])
                &&& final(self).remaining() == old(self).remaining().drop_first()
            },
    {
        if self.items.len() > 0 {
            let e = self.items.remove(0);
            proof {
                assert(final(self).remaining() =~= old(self).remaining().drop_first());
            }
            Some(e)
        } else {
            None
        }
    }

    /// Hands out the next element from the back.
    pub fn next_back(&mut self) -> (r: Option<T>)
        ensures
            old(self).remaining().len() == 0 ==> r is None && final(self).remaining()
                == old(self).remaining(),
            old(self).remaining().len() > 0 ==> {
                &&& r == Some(old(self).remaining().last())
                &&& final(self).remaining() == old(self).remaining().drop_last()
            },
    {
        self.items.pop()
    }
}

/// A double-ended cursor over the elements taken out of a queue.
pub struct Drain<T> {
    items: Vec<T>,
}

impl<T> Drain<T> {
    /// The elements not yet handed out.
    pub closed spec fn remaining(&self) -> Seq<T> {
        self.items@
    }

    /// Hands out the next drained element from the front.
    pub fn next(&mut self) -> (r: Option<T>)
        ensures
            old(self).remaining().len() == 0 ==> r is None && final(self).remaining()
                == old(self).remaining(),
            old(self).remaining().len() > 0 ==> {
                &&& r == Some(old(self).remaining()[0])
                &&& final(self).remaining() == old(self).remaining().drop_first()
            },
    {
        if self.items.len() > 0 {
            let e = self.items.remove(0);
            proof {
                assert(final(self).remaining() =~= old(self).remaining().drop_first());
            }
            Some(e)
        } else {
            None
        }
    }

    /// Hands out the next drained element from the back.
    pub fn next_back(&mut self) -> (r: Option<T>)
        ensures
            old(self).remaining().len() == 0 ==> r is None && final(self).remaining()
                == old(self).remaining(),
            old(self).remaining().len() > 0 ==> {
                &&& r == Some(old(self).remaining().last())
                &&& final(self).remaining() == old(self).remaining().drop_last()
            },
    {
        self.items.pop()
    }

    /// Puts the elements not yet handed out back at the back of `queue`,
    /// in order, as a drain abandoned mid-way leaves them. Needs no growth as long as the queue has room.
    pub fn restore(self, queue: &mut ArrayQueue<T>) -> (r: Result<(), AllocError>)
        requires
            old(queue).wf(),
            4 * (old(queue)@.len() + self.remaining().len()) <= usize::MAX,
        ensures
            final(queue).wf(),
            match r {
                Ok(()) => final(queue)@ == old(queue)@ + self.remaining(),
                Err(_) => exists|k: int|
                    0 <= k <= self.remaining().len() && final(queue)@ == old(queue)@
                        + self.remaining().take(k),
            },
    {
        let mut items = self.items;
        let ghost all = items@;
        let ghost mut moved: int = 0;
        proof {
            assert(all.take(0) =~= Seq::<T>::empty());
            assert(queue@ =~= old(queue)@ + all.take(0));
        }
        loop
            invariant
                queue.wf(),
                all == self.remaining(),
                0 <= moved <= all.len(),
                moved + items@.len() == all.len(),
                forall|j: int| 0 <= j < items@.len() ==> items@[j] == all[moved + j],
                queue@ == old(queue)@ + all.take(moved),
                4 * (old(queue)@.len() + all.len()) <= usize::MAX,
            ensures
                items@.len() == 0,
            decreases items@.len(),
        {
            if items.len() == 0 {
                break;
            }
            let e = items.remove(0);
            proof {
                assert(e == all[moved]);
                assert(queue@.len() == old(queue)@.len() + moved);
            }
            match queue.push_back(e) {
                Ok(()) => {}
                Err(_) => {
                    proof {
                        assert(all == self.remaining());
                        assert(exists|k: int|
                            0 <= k <= self.remaining().len() && queue@ == old(queue)@
                                + self.remaining().take(k)) by {
                            assert(0 <= moved <= self.remaining().len() && queue@ == old(
                                queue,
                            )@ + self.remaining().take(moved));
                        }
                    }
                    return Err(AllocError);
                }
            }
            proof {
                moved = moved + 1;
                assert(queue@ =~= old(queue)@ + all.take(moved));
                assert forall|j: int| 0 <= j < items@.len() implies items@[j] == all[moved
                    + j] by {}
            }
        }
        proof {
            assert(moved == all.len());
            assert(all.take(all.len() as int) =~= all);
        }
        Ok(())
    }
}

/// A double-ended cursor that owns a queue and consumes it.
pub struct IntoIter<T> {
    inner: ArrayQueue<T>,
}

impl<T> IntoIter<T> {
    /// The elements not yet handed out.
    pub closed spec fn remaining(&self) -> Seq<T> {
        self.inner@
    }

    /// Whether the cursor can keep its contracts.
    pub closed spec fn wf(&self) -> bool {
        self.inner.wf()
    }

    /// Hands out the next element from the front.
    pub fn next(&mut self) -> (r: Option<T>)
        requires
            old(self).wf(),
        ensures
            final(self).wf(),
            old(self).remaining().len() == 0 ==> r is None && final(self).remaining()
                == old(self).remaining(),
            old(self).remaining().len() > 0 ==> {
                &&& r == Some(old(self).remaining()[0])
                &&& final(self).remaining() == old(self).remaining().drop_first()
            },
    {
        self.inner.pop_front()
    }

    /// Hands out the next element from the back.
    pub fn next_back(&mut self) -> (r: Option<T>)
        requires
            old(self).wf(),
        ensures
            final(self).wf(),
            old(self).remaining().len() == 0 ==> r is None && final(self).remaining()
                == old(self).remaining(),
            old(self).remaining().len() > 0 ==> {
                &&& r == Some(old(self).remaining().last())
                &&& final(self).remaining() == old(self).remaining().drop_last()
            },
    {
        self.inner.pop_back()
    }
}

} // verus!
