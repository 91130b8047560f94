//! Capability interfaces for walking and draining containers.
//!
//! Each trait couples its executable walk to a specification view, so an
//! implementor promises exactly what the walk hands out. The queue and the
//! singly linked list implement the read-only and draining walks; the
//! range-based drains are declared for containers that index their
//! elements.

use vstd::prelude::*;

use crate::queue::ArrayQueue;
use crate::singly_linked_list::SinglyLinkedList;

verus! {

/// A container whose elements can be read out in order.
pub trait Iterable: Sized {
    /// The element type handed out.
    type Item;

    /// When the container can keep its contracts.
    spec fn items_wf(&self) -> bool;

    /// The elements, in walk order.
    spec fn items_view(&self) -> Seq<Self::Item>;

    /// Copies the elements out in walk order.
    fn iter_items(&self) -> (r: Vec<Self::Item>)
        requires
            self.items_wf(),
        ensures
            r@ == self.items_view(),
    ;
}

/// A container whose elements can be overwritten in place.
pub trait IterableMut: Iterable {
    /// Overwrites the element at `index` of the walk order.
    fn set_item(&mut self, index: usize, value: Self::Item)
        requires
            old(self).items_wf(),
            index < old(self).items_view().len(),
        ensures
            final(self).items_wf(),
            final(self).items_view() == old(self).items_view().update(index as int, value),
    ;
}

/// A container that can be emptied one element at a time.
pub trait Drainable: Iterable {
    /// Takes every element out, in walk order; the container ends empty.
    fn drain_items(&mut self) -> (r: Vec<Self::Item>)
        requires
            old(self).items_wf(),
        ensures
            final(self).items_wf(),
            r@ == old(self).items_view(),
            final(self).items_view().len() == 0,
    ;
}

/// A container that can drop exactly the elements a predicate picks.
pub trait DrainableBy: Iterable {
    /// Takes out the elements `f` answers `true` for, in walk order.
    fn drain_items_by<F: Fn(&Self::Item) -> bool>(&mut self, f: F) -> Vec<Self::Item>;
}

/// A container that can drain a contiguous range of its walk order.
pub trait DrainableRange: Iterable {
    /// Takes out the elements from `start` up to `end`, in walk order.
    fn drain_items_range(&mut self, start: usize, end: usize) -> Vec<Self::Item>;
}

/// A container that can keep a contiguous range and drop the rest.
pub trait RetainRange: Iterable {
    /// Keeps the elements from `start` up to `end`, dropping the others.
    fn retain_items_range(&mut self, start: usize, end: usize);
}

impl<T: Copy> Iterable for ArrayQueue<T> {
    type Item = T;

    open spec fn items_wf(&self) -> bool {
        self.wf()
    }

    open spec fn items_view(&self) -> Seq<T> {
        self@
    }

    fn iter_items(&self) -> (r: Vec<T>) {
        self.to_vec()
    }
}

impl<T: Copy> IterableMut for ArrayQueue<T> {
    fn set_item(&mut self, index: usize, value: T) {
        self.set(index, value)
    }
}

impl<T: Copy> Drainable for ArrayQueue<T> {
    fn drain_items(&mut self) -> (r: Vec<T>) {
        let mut out: Vec<T> = Vec::new();
        loop
            invariant
                self.wf(),
                out@ + self@ == old(self)@,
            ensures
                self@.len() == 0,
            decreases self@.len(),
        {
            match self.pop_front() {
                None => {
                    break;
                }
                Some(v) => {
                    out.push(v);
                    proof {
                        assert(out@ + self@ =~= old(self)@);
                    }
                }
            }
        }
        proof {
            assert(out@ =~= old(self)@);
        }
        out
    }
}

impl<T: Copy> Iterable for SinglyLinkedList<T> {
    type Item = T;

    open spec fn items_wf(&self) -> bool {
        self.wf()
    }

    open spec fn items_view(&self) -> Seq<T> {
        self@
    }

    fn iter_items(&self) -> (r: Vec<T>) {
        let mut out: Vec<T> = Vec::new();
        let mut iter = self.iter();
        proof {
            assert(out@ + iter.remaining() =~= self@);
        }
        loop
            invariant
                out@ + iter.remaining() == self@,
            ensures
                iter.remaining().len() == 0,
            decreases iter.remaining().len(),
        {
            match iter.next() {
                None => {
                    break;
                }
                Some(v) => {
                    out.push(*v);
                    proof {
                        assert(out@ + iter.remaining() =~= self@);
                    }
                }
            }
        }
        proof {
            assert(out@ =~= self@);
        }
        out
    }
}

impl<T: Copy> Drainable for SinglyLinkedList<T> {
    fn drain_items(&mut self) -> (r: Vec<T>) {
        let mut out: Vec<T> = Vec::new();
        loop
            invariant
                self.wf(),
                out@ + self@ == old(self)@,
            ensures
                self@.len() == 0,
            decreases self@.len(),
        {
            match self.pop() {
                None => {
                    break;
                }
                Some(v) => {
                    out.push(v);
                    proof {
                        assert(out@ + self@ =~= old(self)@);
                    }
                }
            }
        }
        proof {
            assert(out@ =~= old(self)@);
        }
        out
    }
}

} // verus!
