//! A double-ended list of owned records, with cursors.
//!
//! [`DoublyLinkedList`] owns one [`DoublyLinkedListNode`] per element, each
//! charged to the list's allocator, and reaches both ends in constant
//! bookkeeping: push and pop work at either end. A [`Cursor`] walks the
//! list read-only; a [`CursorMut`] carries a position and edits the list it
//! is handed: it removes records around its position, splices another list
//! in, and splits the tail off.

use vstd::prelude::*;

use crate::allocator::{AllocError, Allocator};

verus! {

/// One record of a doubly linked list.
pub struct DoublyLinkedListNode<T> {
    value: T,
}

impl<T> DoublyLinkedListNode<T> {
    /// Wraps a value into a record.
    pub fn new(value: T) -> (r: Self)
        ensures
            r.value_spec() == value,
    {
        DoublyLinkedListNode { value }
    }

    /// The value the record holds.
    pub closed spec fn value_spec(&self) -> T {
        self.value
    }
}

/// A double-ended list of owned records.
pub struct DoublyLinkedList<T> {
    nodes: Vec<DoublyLinkedListNode<T>>,
    alloc: Allocator,
    baseline: Ghost<int>,
}

impl<T> View for DoublyLinkedList<T> {
    type V = Seq<T>;

    /// The elements from front to back.
    closed spec fn view(&self) -> Seq<T> {
        Seq::new(self.nodes@.len(), |i: int| self.nodes@[i].value)
    }
}

impl<T> DoublyLinkedList<T> {
    /// The arena the list's records are charged to.
    pub closed spec fn arena(&self) -> Allocator {
        self.alloc
    }

    /// Storage units the arena already had out when the list was built.
    pub closed spec fn spec_baseline(&self) -> int {
        self.baseline@
    }

    /// Well-formedness: the arena holds the baseline plus one unit per
    /// record.
    pub closed spec fn wf(&self) -> bool {
        &&& self.alloc.wf()
        &&& self.baseline@ >= 0
        &&& self.alloc.spec_outstanding() == self.baseline@ + self@.len()
    }

    /// An empty list over a fresh unlimited arena.
    pub fn new() -> (r: Self)
        ensures
            r.wf(),
            r@ =~= Seq::<T>::empty(),
    {
        Self::new_in(Allocator::unlimited())
    }

    /// An empty list over the given arena.
    pub fn new_in(alloc: Allocator) -> (r: Self)
        requires
            alloc.wf(),
        ensures
            r.wf(),
            r@ =~= Seq::<T>::empty(),
            r.arena() == alloc,
            r.spec_baseline() == alloc.spec_outstanding(),
    {
        let ghost base = alloc.spec_outstanding();
        DoublyLinkedList { nodes: Vec::new(), alloc, baseline: Ghost(base) }
    }

    /// Number of elements in the list.
    pub fn len(&self) -> (r: usize)
        ensures
            r as int == self@.len(),
    {
        self.nodes.len()
    }

    /// Whether the list holds no element.
    pub fn is_empty(&self) -> (r: bool)
        ensures
            r == (self@.len() == 0),
    {
        self.nodes.len() == 0
    }

    /// Allocates a record for `item` and links it at the front; a refused
    /// allocation leaves the list unchanged.
    pub fn push_front(&mut self, item: T) -> (r: Result<(), AllocError>)
        requires
            old(self).wf(),
            old(self)@.len() < usize::MAX,
        ensures
            final(self).wf(),
            final(self).spec_baseline() == old(self).spec_baseline(),
            final(self).arena().spec_budget() == old(self).arena().spec_budget(),
            match r {
                Ok(()) => {
                    &&& final(self)@ == seq![item] + old(self)@
                    &&& final(self).arena().spec_allocated() == old(self).arena().spec_allocated()
                        + 1
                },
                Err(_) => *final(self) == *old(self) && !old(self).arena().can_allocate(1),
            },
    {
        match self.alloc.allocate(1) {
            Err(e) => {
                return Err(e);
            }
            Ok(()) => {}
        }
        self.nodes.insert(0, DoublyLinkedListNode { value: item });
        proof {
            assert(self@ =~= seq![item] + old(self)@);
        }
        Ok(())
    }

    /// Allocates a record for `item` and links it at the back; a refused
    /// allocation leaves the list unchanged.
    pub fn push_back(&mut self, item: T) -> (r: Result<(), AllocError>)
        requires
            old(self).wf(),
            old(self)@.len() < usize::MAX,
        ensures
            final(self).wf(),
            final(self).spec_baseline() == old(self).spec_baseline(),
            final(self).arena().spec_budget() == old(self).arena().spec_budget(),
            match r {
                Ok(()) => {
                    &&& final(self)@ == old(self)@.push(item)
                    &&& final(self).arena().spec_allocated() == old(self).arena().spec_allocated()
                        + 1
                },
                Err(_) => *final(self) == *old(self) && !old(self).arena().can_allocate(1),
            },
    {
        match self.alloc.allocate(1) {
            Err(e) => {
                return Err(e);
            }
            Ok(()) => {}
        }
        self.nodes.push(DoublyLinkedListNode { value: item });
        proof {
            assert(self@ =~= old(self)@.push(item));
        }
        Ok(())
    }

    /// Unlinks and consumes the front record, releasing its storage.
    pub fn pop_front(&mut self) -> (r: Option<T>)
        requires
            old(self).wf(),
        ensures
            final(self).wf(),
            final(self).spec_baseline() == old(self).spec_baseline(),
            final(self).arena().spec_budget() == old(self).arena().spec_budget(),
            final(self).arena().spec_allocated() == old(self).arena().spec_allocated(),
            old(self)@.len() == 0 ==> r is None && final(self)@ == old(self)@,
            old(self)@.len() > 0 ==> {
                &&& r == Some(old(self)@[0])
                &&& final(self)@ == old(self)@.drop_first()
            },
    {
        if self.nodes.len() == 0 {
            return None;
        }
        let node = self.nodes.remove(0);
        self.alloc.deallocate(1);
        proof {
            assert(self@ =~= old(self)@.drop_first());
        }
        Some(node.value)
    }

    /// Unlinks and consumes the back record, releasing its storage.
    pub fn pop_back(&mut self) -> (r: Option<T>)
        requires
            old(self).wf(),
        ensures
            final(self).wf(),
            final(self).spec_baseline() == old(self).spec_baseline(),
            final(self).arena().spec_budget() == old(self).arena().spec_budget(),
            final(self).arena().spec_allocated() == old(self).arena().spec_allocated(),
            old(self)@.len() == 0 ==> r is None && final(self)@ == old(self)@,
            old(self)@.len() > 0 ==> {
                &&& r == Some(old(self)@.last())
                &&& final(self)@ == old(self)@.drop_last()
            },
    {
        match self.nodes.pop() {
            None => None,
            Some(node) => {
                self.alloc.deallocate(1);
                proof {
                    assert(self@ =~= old(self)@.drop_last());
                }
                Some(node.value)
            }
        }
    }

    /// A reference to the front element, if any.
    pub fn front<'a>(&'a self) -> (r: Option<&'a T>)
        ensures
            self@.len() == 0 ==> r is None,
            self@.len() > 0 ==> r == Some(&self@[0]),
    {
        if self.nodes.len() == 0 {
            None
        } else {
            Some(&self.nodes[0].value)
        }
    }

    /// A reference to the back element, if any.
    pub fn back<'a>(&'a self) -> (r: Option<&'a T>)
        ensures
            self@.len() == 0 ==> r is None,
            self@.len() > 0 ==> r == Some(&self@.last()),
    {
        if self.nodes.len() == 0 {
            None
        } else {
            Some(&self.nodes[self.nodes.len() - 1].value)
        }
    }

    /// A reference to the element at `idx`, if the list reaches that far.
    pub fn get<'a>(&'a self, idx: usize) -> (r: Option<&'a T>)
        ensures
            idx < self@.len() ==> r == Some(&self@[idx as int]),
            idx >= self@.len() ==> r is None,
    {
        if idx < self.nodes.len() {
            Some(&self.nodes[idx].value)
        } else {
            None
        }
    }

    /// A mutable reference to the element at `idx`, if the list reaches
    /// that far.
    pub fn get_mut<'a>(&'a mut self, idx: usize) -> (r: Option<&'a mut T>)
        requires
            old(self).wf(),
        ensures
            idx >= old(self)@.len() ==> r is None && *final(self) == *old(self),
            idx < old(self)@.len() ==> match r {
                Some(v) => {
                    &&& *v == old(self)@[idx as int]
                    &&& final(self)@ =~= old(self)@.update(idx as int, *final(v))
                    &&& final(self).wf()
                    &&& final(self).arena() == old(self).arena()
                    &&& final(self).spec_baseline() == old(self).spec_baseline()
                },
                None => false,
            },
    {
        if idx < self.nodes.len() {
            let node = &mut self.nodes[idx];
            Some(&mut node.value)
        } else {
            None
        }
    }

    /// A read-only cursor standing on the front of the list.
    pub fn cursor<'a>(&'a self) -> (r: Cursor<'a, T>)
        ensures
            r.list() == self,
            r.position() == 0,
    {
        Cursor { list: self, index: 0 }
    }

    /// An editing cursor standing on the front of the list.
    pub fn cursor_mut(&self) -> (r: CursorMut)
        ensures
            r.position() == 0,
    {
        CursorMut { index: 0 }
    }
}

impl<T> Default for DoublyLinkedList<T> {
    /// The empty list over a fresh unlimited arena.
    fn default() -> (r: Self)
        ensures
            r.wf(),
            r@ =~= Seq::<T>::empty(),
    {
        Self::new()
    }
}

/// A read-only cursor over a list.
pub struct Cursor<'a, T> {
    list: &'a DoublyLinkedList<T>,
    index: usize,
}

impl<'a, T> Cursor<'a, T> {
    /// The list the cursor walks.
    pub closed spec fn list(&self) -> &'a DoublyLinkedList<T> {
        self.list
    }

    /// The position the cursor stands on; the list's length means past the
    /// back.
    pub closed spec fn position(&self) -> int {
        self.index as int
    }

    /// Steps toward the back, stopping past the last element.
    pub fn next(&mut self)
        ensures
            final(self).list() == old(self).list(),
            final(self).position() == if old(self).position() < old(self).list()@.len() {
                old(self).position() + 1
            } else {
                old(self).position()
            },
    {
        if self.index < self.list.len() {
            self.index = self.index + 1;
        }
    }

    /// Steps toward the front, stopping at the first element.
    pub fn prev(&mut self)
        ensures
            final(self).list() == old(self).list(),
            final(self).position() == if old(self).position() > 0 {
                old(self).position() - 1
            } else {
                0
            },
    {
        if self.index > 0 {
            self.index = self.index - 1;
        }
    }

    /// The position the cursor stands on.
    pub fn index(&self) -> (r: usize)
        ensures
            r as int == self.position(),
    {
        self.index
    }

    /// A reference to the element under the cursor, if it stands on one.
    pub fn peek(&self) -> (r: Option<&'a T>)
        ensures
            self.position() < self.list()@.len() ==> r == Some(&self.list()@[self.position()]),
            self.position() >= self.list()@.len() ==> r is None,
    {
        self.list.get(self.index)
    }

    /// Moves the cursor to the front of the list.
    pub fn jump_to_head(&mut self)
        ensures
            final(self).list() == old(self).list(),
            final(self).position() == 0,
    {
        self.index = 0;
    }

    /// Moves the cursor past the back of the list.
    pub fn jump_to_tail(&mut self)
        ensures
            final(self).list() == old(self).list(),
            final(self).position() == old(self).list()@.len(),
    {
        self.index = self.list.len();
    }
}

/// An editing cursor: a position handed to each edit together with the
/// list it applies to, since the edits take the list exclusively.
pub struct CursorMut {
    index: usize,
}

impl CursorMut {
    /// The position the cursor stands on.
    pub closed spec fn position(&self) -> int {
        self.index as int
    }

    /// The position the cursor stands on.
    pub fn index(&self) -> (r: usize)
        ensures
            r as int == self.position(),
    {
        self.index
    }

    /// Steps toward the back of `list`, stopping past the last element.
    pub fn next<T>(&mut self, list: &DoublyLinkedList<T>)
        ensures
            final(self).position() == if old(self).position() < list@.len() {
                old(self).position() + 1
            } else {
                old(self).position()
            },
    {
        if self.index < list.len() {
            self.index = self.index + 1;
        }
    }

    /// Steps toward the front, stopping at the first element.
    pub fn prev(&mut self)
        ensures
            final(self).position() == if old(self).position() > 0 {
                old(self).position() - 1
            } else {
                0
            },
    {
        if self.index > 0 {
            self.index = self.index - 1;
        }
    }

    /// A reference to the element under the cursor, if it stands on one.
    pub fn get<'a, T>(&self, list: &'a DoublyLinkedList<T>) -> (r: Option<&'a T>)
        ensures
            self.position() < list@.len() ==> r == Some(&list@[self.position()]),
            self.position() >= list@.len() ==> r is None,
    {
        if self.index < list.len() {
            list.get(self.index)
        } else {
            None
        }
    }

    /// Moves the cursor to the front.
    pub fn jump_to_head(&mut self)
        ensures
            final(self).position() == 0,
    {
        self.index = 0;
    }

    /// Moves the cursor past the back of `list`.
    pub fn jump_to_tail<T>(&mut self, list: &DoublyLinkedList<T>)
        ensures
            final(self).position() == list@.len(),
    {
        self.index = list.len();
    }

    /// Unlinks and consumes the record under the cursor, if it stands on
    /// one; what followed moves one step toward the front.
    pub fn remove_current<T>(&mut self, list: &mut DoublyLinkedList<T>) -> (r: Option<T>)
        requires
            old(list).wf(),
        ensures
            final(list).wf(),
            final(self).position() == old(self).position(),
            old(self).position() >= old(list)@.len() ==> r is None && final(list)@ == old(
                list,
            )@,
            old(self).position() < old(list)@.len() ==> {
                &&& r == Some(old(list)@[old(self).position()])
                &&& final(list)@ == old(list)@.remove(old(self).position())
            },
    {
        if self.index >= list.nodes.len() {
            return None;
        }
        let node = list.nodes.remove(self.index);
        list.alloc.deallocate(1);
        proof {
            assert(list@ =~= old(list)@.remove(old(self).position()));
        }
        Some(node.value)
    }

    /// Unlinks and consumes the record right after the cursor, if any.
    pub fn remove_next<T>(&mut self, list: &mut DoublyLinkedList<T>) -> (r: Option<T>)
        requires
            old(list).wf(),
        ensures
            final(list).wf(),
            final(self).position() == old(self).position(),
            old(self).position() + 1 >= old(list)@.len() ==> r is None && final(list)@ == old(
                list,
            )@,
            old(self).position() + 1 < old(list)@.len() ==> {
                &&& r == Some(old(list)@[old(self).position() + 1])
                &&& final(list)@ == old(list)@.remove(old(self).position() + 1)
            },
    {
        let n = list.nodes.len();
        if self.index >= n {
            return None;
        }
        if self.index + 1 >= n {
            return None;
        }
        let node = list.nodes.remove(self.index + 1);
        list.alloc.deallocate(1);
        proof {
            assert(list@ =~= old(list)@.remove(old(self).position() + 1));
        }
        Some(node.value)
    }

    /// Unlinks and consumes the record right before the cursor, if any;
    /// the cursor keeps standing on the same element.
    pub fn remove_prev<T>(&mut self, list: &mut DoublyLinkedList<T>) -> (r: Option<T>)
        requires
            old(list).wf(),
        ensures
            final(list).wf(),
            old(self).position() == 0 || old(self).position() > old(list)@.len() ==> r is None
                && final(list)@ == old(list)@ && final(self).position() == old(self).position(),
            0 < old(self).position() <= old(list)@.len() ==> {
                &&& r == Some(old(list)@[old(self).position() - 1])
                &&& final(list)@ == old(list)@.remove(old(self).position() - 1)
                &&& final(self).position() == old(self).position() - 1
            },
    {
        if self.index == 0 || self.index > list.nodes.len() {
            return None;
        }
        let node = list.nodes.remove(self.index - 1);
        list.alloc.deallocate(1);
        self.index = self.index - 1;
        proof {
            assert(list@ =~= old(list)@.remove(old(self).position() - 1));
        }
        Some(node.value)
    }

    /// Splices every element of `other` in right after the cursor's
    /// position, keeping both orders; `other`'s records move over, and
    /// `list`'s arena is charged for each. A refused allocation keeps every
    /// element: the ones not yet spliced in stay in the returned remainder.
    pub fn append_next<T>(&mut self, list: &mut DoublyLinkedList<T>, other: DoublyLinkedList<
        T,
    >) -> (r: Result<(), (AllocError, DoublyLinkedList<T>)>)
        requires
            old(list).wf(),
            other.wf(),
            old(list)@.len() + other@.len() < usize::MAX,
        ensures
            final(list).wf(),
            final(self).position() == old(self).position(),
            match r {
                Ok(()) => final(list)@ == old(list)@.take(splice_at(
                    old(self).position(),
                    old(list)@.len() as int,
                )) + other@ + old(list)@.skip(splice_at(
                    old(self).position(),
                    old(list)@.len() as int,
                )),
                Err((_, rest)) => exists|k: int|
                    {
                        &&& 0 <= k <= other@.len()
                        &&& final(list)@ == old(list)@.take(splice_at(
                            old(self).position(),
                            old(list)@.len() as int,
                        )) + other@.take(k) + old(list)@.skip(splice_at(
                            old(self).position(),
                            old(list)@.len() as int,
                        ))
                        &&& rest@ == other@.skip(k)
                    },
            },
    {
        let at = if self.index >= list.nodes.len() {
            list.nodes.len()
        } else {
            self.index + 1
        };
        self.splice(list, other, at)
    }

    /// Splices every element of `other` in right before the cursor's
    /// position, keeping both orders, under the same failure terms as
    /// [`CursorMut::append_next`].
    pub fn append_prev<T>(&mut self, list: &mut DoublyLinkedList<T>, other: DoublyLinkedList<
        T,
    >) -> (r: Result<(), (AllocError, DoublyLinkedList<T>)>)
        requires
            old(list).wf(),
            other.wf(),
            old(list)@.len() + other@.len() < usize::MAX,
        ensures
            final(list).wf(),
            final(self).position() == old(self).position(),
            match r {
                Ok(()) => final(list)@ == old(list)@.take(clip(
                    old(self).position(),
                    old(list)@.len() as int,
                )) + other@ + old(list)@.skip(clip(
                    old(self).position(),
                    old(list)@.len() as int,
                )),
                Err((_, rest)) => exists|k: int|
                    {
                        &&& 0 <= k <= other@.len()
                        &&& final(list)@ == old(list)@.take(clip(
                            old(self).position(),
                            old(list)@.len() as int,
                        )) + other@.take(k) + old(list)@.skip(clip(
                            old(self).position(),
                            old(list)@.len() as int,
                        ))
                        &&& rest@ == other@.skip(k)
                    },
            },
    {
        let at = if self.index >= list.nodes.len() {
            list.nodes.len()
        } else {
            self.index
        };
        self.splice(list, other, at)
    }

    fn splice<T>(&mut self, list: &mut DoublyLinkedList<T>, other: DoublyLinkedList<T>, at: usize) -> (r:
        Result<(), (AllocError, DoublyLinkedList<T>)>)
        requires
            old(list).wf(),
            other.wf(),
            at <= old(list)@.len(),
            old(list)@.len() + other@.len() < usize::MAX,
        ensures
            final(list).wf(),
            *final(self) == *old(self),
            match r {
                Ok(()) => final(list)@ == old(list)@.take(at as int) + other@ + old(
                    list,
                )@.skip(at as int),
                Err((_, rest)) => exists|k: int|
                    {
                        &&& 0 <= k <= other@.len()
                        &&& final(list)@ == old(list)@.take(at as int) + other@.take(k) + old(
                            list,
                        )@.skip(at as int)
                        &&& rest@ == other@.skip(k)
                    },
            },
    {
        let mut rem = other;
        let ghost src = rem@;
        let mut moved_n: usize = 0;
        proof {
            assert(src.skip(0) =~= src);
            assert(old(list)@.take(at as int) + src.take(0) + old(list)@.skip(at as int)
                =~= old(list)@);
        }
        loop
            invariant
                list.wf(),
                rem.wf(),
                src == other@,
                at <= old(list)@.len(),
                moved_n as int <= src.len(),
                rem@ == src.skip(moved_n as int),
                list@.len() == old(list)@.len() + moved_n,
                list@ == old(list)@.take(at as int) + src.take(moved_n as int) + old(
                    list,
                )@.skip(at as int),
                old(list)@.len() + src.len() < usize::MAX,
            ensures
                rem@.len() == 0,
                moved_n as int == src.len(),
            decreases rem@.len(),
        {
            if rem.is_empty() {
                proof {
                    assert(src.skip(moved_n as int).len() == 0);
                }
                break;
            }
            match list.alloc.allocate(1) {
                Err(e) => {
                    proof {
                        assert(exists|k: int|
                            {
                                &&& 0 <= k <= src.len()
                                &&& list@ == old(list)@.take(at as int) + #[trigger] src.take(k)
                                    + old(list)@.skip(at as int)
                                &&& rem@ == src.skip(k)
                            }) by {
                            assert(0 <= moved_n as int <= src.len() && list@ == old(
                                list,
                            )@.take(at as int) + src.take(moved_n as int) + old(list)@.skip(
                                at as int,
                            ) && rem@ == src.skip(moved_n as int));
                        }
                    }
                    return Err((e, rem));
                }
                Ok(()) => {}
            }
            let v = match rem.pop_front() {
                Some(v) => v,
                None => vstd::pervasive::unreached(),
            };
            proof {
                assert(v == src[moved_n as int]);
            }
            let ghost prev_nodes = list.nodes@;
            let ghost prev_view = list@;
            list.nodes.insert(at + moved_n, DoublyLinkedListNode { value: v });
            moved_n = moved_n + 1;
            proof {
                prev_nodes.insert_ensures(at + moved_n - 1, DoublyLinkedListNode { value: v });
                assert(rem@ =~= src.skip(moved_n as int));
                assert forall|j: int| 0 <= j < list@.len() implies list@[j] == (
                old(list)@.take(at as int) + src.take(moved_n as int) + old(list)@.skip(
                    at as int,
                ))[j] by {
                    let p: int = at + moved_n - 1;
                    if j < p {
                        assert(list.nodes@[j] == prev_nodes[j]);
                        assert(prev_view[j] == prev_nodes[j].value);
                    } else if j == p {
                    } else {
                        assert(list.nodes@[j] == prev_nodes[j - 1]);
                        assert(prev_view[j - 1] == prev_nodes[j - 1].value);
                    }
                }
                assert(list@ =~= old(list)@.take(at as int) + src.take(moved_n as int) + old(
                    list,
                )@.skip(at as int));
            }
        }
        proof {
            assert(src.take(src.len() as int) =~= src);
        }
        Ok(())
    }

    /// Splits the list at the cursor: everything from the cursor's position
    /// on moves, in order, into the returned list over a fresh unlimited
    /// arena; the records' storage moves with them.
    pub fn split<T>(&mut self, list: &mut DoublyLinkedList<T>) -> (r: DoublyLinkedList<T>)
        requires
            old(list).wf(),
            old(list)@.len() < usize::MAX,
        ensures
            final(list).wf(),
            r.wf(),
            final(self).position() == old(self).position(),
            final(list)@ == old(list)@.take(clip(old(self).position(), old(list)@.len() as int)),
            r@ == old(list)@.skip(clip(old(self).position(), old(list)@.len() as int)),
    {
        let at = if self.index >= list.nodes.len() {
            list.nodes.len()
        } else {
            self.index
        };
        let fresh_arena = Allocator::unlimited();
        let mut out: DoublyLinkedList<T> = DoublyLinkedList::new_in(fresh_arena);
        proof {
            assert(out@ =~= old(list)@.skip(old(list)@.len() as int));
            assert(list@ =~= old(list)@.take(list@.len() as int));
        }
        while list.nodes.len() > at
            invariant
                list.wf(),
                out.wf(),
                at <= old(list)@.len(),
                list@.len() >= at,
                list@.len() <= old(list)@.len(),
                old(list)@.len() < usize::MAX,
                list@ == old(list)@.take(list@.len() as int),
                out@ == old(list)@.skip(list@.len() as int),
                out.arena().spec_budget() == Option::<u64>::None,
                out.arena().spec_allocated() == out@.len(),
                out.spec_baseline() == 0,
            decreases list@.len(),
        {
            let ghost prev_list = list@;
            let ghost prev_out = out@;
            let v = match list.pop_back() {
                Some(v) => v,
                None => vstd::pervasive::unreached(),
            };
            proof {
                assert(v == old(list)@[list@.len() as int]);
            }
            match out.push_front(v) {
                Ok(()) => {}
                Err(_) => {
                    proof {
                        assert(false);
                    }
                }
            }
            proof {
                assert(list@ =~= old(list)@.take(list@.len() as int));
                assert(out@ =~= old(list)@.skip(list@.len() as int));
            }
        }
        out
    }
}

/// Where a splice after position `pos` lands in a list of length `len`.
pub open spec fn splice_at(pos: int, len: int) -> int {
    if pos >= len {
        len
    } else {
        pos + 1
    }
}

/// `pos` clipped to a list of length `len`.
pub open spec fn clip(pos: int, len: int) -> int {
    if pos >= len {
        len
    } else {
        pos
    }
}

} // verus!
