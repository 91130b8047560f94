//! An owned singly linked list of heap-allocated nodes.
//!
//! [`SinglyLinkedList`] owns every node reachable from its head, one heap
//! allocation per node, charged to the list's own allocator. Elements are
//! pushed and popped at the front; the list is viewed as the sequence of
//! its elements from front to back.

use vstd::prelude::*;

use crate::allocator::{AllocError, Allocator};
use vstd::std_specs::cmp::PartialEqSpec;

verus! {

/// One element of a list, owning the link to its successor.
#[derive(Debug)]
pub struct SinglyLinkedListNode<T> {
    value: T,
    next: Option<Box<SinglyLinkedListNode<T>>>,
}

impl<T> SinglyLinkedListNode<T> {
    /// The elements of the chain hanging from `node`, front first.
    pub closed spec fn chain_view(node: Option<Box<SinglyLinkedListNode<T>>>) -> Seq<T>
        decreases node,
    {
        match node {
            None => Seq::empty(),
            Some(b) => seq![b.value] + Self::chain_view(b.next),
        }
    }
}

/// An owned singly linked list; push and pop work at the front.
pub struct SinglyLinkedList<T> {
    head: Option<Box<SinglyLinkedListNode<T>>>,
    len: usize,
    alloc: Allocator,
    baseline: Ghost<int>,
}

impl<T> View for SinglyLinkedList<T> {
    type V = Seq<T>;

    /// The elements from front to back.
    closed spec fn view(&self) -> Seq<T> {
        SinglyLinkedListNode::chain_view(self.head)
    }
}

impl<T> SinglyLinkedList<T> {
    /// The arena the list's nodes are charged to.
    pub closed spec fn arena(&self) -> Allocator {
        self.alloc
    }

    /// Storage units the arena already had out when the list was built.
    pub closed spec fn spec_baseline(&self) -> int {
        self.baseline@
    }

    /// Well-formedness: the counter matches the chain, and the arena holds
    /// the baseline plus one unit per node.
    pub closed spec fn wf(&self) -> bool {
        &&& self.len == self@.len()
        &&& self.alloc.wf()
        &&& self.baseline@ >= 0
        &&& self.alloc.spec_outstanding() == self.baseline@ + self@.len()
    }

    /// An empty list over a fresh unlimited arena.
    pub fn new() -> (r: Self)
        ensures
            r.wf(),
            r@ =~= Seq::<T>::empty(),
    {
        Self::new_in(Allocator::unlimited())
    }

    /// An empty list over the given arena.
    pub fn new_in(alloc: Allocator) -> (r: Self)
        requires
            alloc.wf(),
        ensures
            r.wf(),
            r@ =~= Seq::<T>::empty(),
            r.arena() == alloc,
            r.spec_baseline() == alloc.spec_outstanding(),
    {
        let ghost base = alloc.spec_outstanding();
        SinglyLinkedList { head: None, len: 0, alloc, baseline: Ghost(base) }
    }

    /// Allocates a node for `item` and links it at the front; a refused
    /// allocation leaves the list unchanged.
    pub fn try_push(&mut self, item: T) -> (r: Result<(), AllocError>)
        requires
            old(self).wf(),
            old(self)@.len() < usize::MAX,
        ensures
            final(self).wf(),
            final(self).spec_baseline() == old(self).spec_baseline(),
            final(self).arena().spec_budget() == old(self).arena().spec_budget(),
            match r {
                Ok(()) => final(self)@ == seq![item] + old(self)@,
                Err(_) => *final(self) == *old(self) && !old(self).arena().can_allocate(1),
            },
    {
        match self.alloc.allocate(1) {
            Err(e) => {
                return Err(e);
            }
            Ok(()) => {}
        }
        let node = SinglyLinkedListNode { value: item, next: self.head.take() };
        let ghost rest = SinglyLinkedListNode::chain_view(node.next);
        self.head = Some(Box::new(node));
        self.len = self.len + 1;
        proof {
            assert(self@ =~= seq![item] + rest);
        }
        Ok(())
    }

    /// Links `item` at the front; the list's own arena covers the node.
    pub fn push(&mut self, item: T)
        requires
            old(self).wf(),
            old(self)@.len() < usize::MAX,
            old(self).arena().can_allocate(1),
        ensures
            final(self).wf(),
            final(self)@ == seq![item] + old(self)@,
            final(self).spec_baseline() == old(self).spec_baseline(),
    {
        match self.try_push(item) {
            Ok(()) => {}
            Err(_) => {
                proof {
                    assert(false);
                }
            }
        }
    }

    /// Unlinks and consumes the front node, releasing its storage.
    pub fn pop(&mut self) -> (r: Option<T>)
        requires
            old(self).wf(),
        ensures
            final(self).wf(),
            final(self).spec_baseline() == old(self).spec_baseline(),
            final(self).arena().spec_budget() == old(self).arena().spec_budget(),
            old(self)@.len() == 0 ==> r is None && final(self)@ == old(self)@,
            old(self)@.len() > 0 ==> {
                &&& r == Some(old(self)@[0])
                &&& final(self)@ == old(self)@.drop_first()
            },
    {
        match self.head.take() {
            None => None,
            Some(b) => {
                let ghost whole = old(self)@;
                let node = *b;
                proof {
                    assert(whole[0] == node.value);
                    assert(whole.drop_first() =~= SinglyLinkedListNode::chain_view(node.next));
                }
                self.head = node.next;
                self.len = self.len - 1;
                self.alloc.deallocate(1);
                Some(node.value)
            }
        }
    }

    /// Number of elements in the list.
    pub fn len(&self) -> (r: usize)
        requires
            self.wf(),
        ensures
            r as int == self@.len(),
    {
        self.len
    }

    /// Whether the list holds no element.
    pub fn is_empty(&self) -> (r: bool)
        requires
            self.wf(),
        ensures
            r == (self@.len() == 0),
    {
        self.len == 0
    }

    /// A reference to the last element, if any.
    pub fn last<'a>(&'a self) -> (r: Option<&'a T>)
        ensures
            self@.len() == 0 ==> r is None,
            self@.len() > 0 ==> r == Some(&self@.last()),
    {
        Self::last_in(&self.head)
    }

    fn last_in<'a>(node: &'a Option<Box<SinglyLinkedListNode<T>>>) -> (r: Option<&'a T>)
        ensures
            SinglyLinkedListNode::chain_view(*node).len() == 0 ==> r is None,
            SinglyLinkedListNode::chain_view(*node).len() > 0 ==> r == Some(
                &SinglyLinkedListNode::chain_view(*node).last(),
            ),
        decreases *node,
    {
        match node {
            None => None,
            Some(b) => {
                let ghost whole = SinglyLinkedListNode::chain_view(*node);
                proof {
                    assert(whole[0] == b.value);
                    assert(whole.drop_first() =~= SinglyLinkedListNode::chain_view(b.next));
                }
                match &b.next {
                    None => Some(&b.value),
                    Some(_) => Self::last_in(&b.next),
                }
            }
        }
    }

    /// Whether some element of the list equals `item`.
    pub fn contains(&self, item: &T) -> (r: bool)
        where T: PartialEq
        ensures
            T::obeys_eq_spec() ==> (r <==> exists|i: int|
                0 <= i < self@.len() && item.eq_spec(&self@[i])),
    {
        let mut cur: &Option<Box<SinglyLinkedListNode<T>>> = &self.head;
        let ghost whole = self@;
        let ghost mut seen: int = 0;
        loop
            invariant
                0 <= seen <= whole.len(),
                SinglyLinkedListNode::chain_view(*cur) == whole.skip(seen),
                whole == self@,
                T::obeys_eq_spec() ==> forall|j: int| 0 <= j < seen ==> !item.eq_spec(
                    &whole[j],
                ),
            ensures
                SinglyLinkedListNode::chain_view(*cur).len() == 0,
                seen == whole.len(),
            decreases SinglyLinkedListNode::chain_view(*cur).len(),
        {
            match cur {
                None => {
                    proof {
                        assert(whole.skip(seen) =~= Seq::<T>::empty());
                    }
                    break;
                }
                Some(b) => {
                    let ghost rest = SinglyLinkedListNode::chain_view(*cur);
                    proof {
                        assert(rest[0] == b.value);
                        assert(rest.drop_first() =~= SinglyLinkedListNode::chain_view(b.next));
                        assert(b.value == whole[seen]);
                    }
                    if item == &b.value {
                        return true;
                    }
                    cur = &b.next;
                    proof {
                        seen = seen + 1;
                        assert(SinglyLinkedListNode::chain_view(*cur) =~= whole.skip(seen));
                    }
                }
            }
        }
        false
    }
    /// A reference to the first element `f` answers `true` for.
    ///
    /// A hit comes with `f`'s answers pinned down: `true` on the hit, and
    /// `false` on everything in front of it; a miss means `f` answered
    /// `false` all the way down.
    pub fn get_by<'a, F: Fn(&T) -> bool>(&'a self, f: F) -> (r: Option<&'a T>)
        requires
            forall|x: &T| #[trigger] f.requires((x,)),
        ensures
            match r {
                Some(v) => exists|i: int|
                    0 <= i < self@.len() && *v == self@[i] && f.ensures((&self@[i],), true)
                        && (forall|j: int| 0 <= j < i ==> f.ensures((&self@[j],), false)),
                None => forall|j: int| 0 <= j < self@.len() ==> f.ensures((&self@[j],), false),
            },
    {
        let mut cur: &Option<Box<SinglyLinkedListNode<T>>> = &self.head;
        let ghost whole = self@;
        let ghost mut seen: int = 0;
        loop
            invariant
                forall|x: &T| #[trigger] f.requires((x,)),
                0 <= seen <= whole.len(),
                SinglyLinkedListNode::chain_view(*cur) == whole.skip(seen),
                whole == self@,
                forall|j: int| 0 <= j < seen ==> f.ensures((&whole[j],), false),
            ensures
                seen == whole.len(),
                forall|j: int| 0 <= j < whole.len() ==> f.ensures((&whole[j],), false),
            decreases SinglyLinkedListNode::chain_view(*cur).len(),
        {
            match cur {
                None => {
                    proof {
                        assert(whole.skip(seen) =~= Seq::<T>::empty());
                    }
                    break;
                }
                Some(b) => {
                    let ghost rest = SinglyLinkedListNode::chain_view(*cur);
                    proof {
                        assert(rest[0] == b.value);
                        assert(rest.drop_first() =~= SinglyLinkedListNode::chain_view(b.next));
                        assert(b.value == whole[seen]);
                    }
                    if f(&b.value) {
                        proof {
                            assert(0 <= seen < whole.len() && b.value == whole[seen] && f.ensures(
                                (&whole[seen],),
                                true,
                            ));
                        }
                        return Some(&b.value);
                    }
                    cur = &b.next;
                    proof {
                        seen = seen + 1;
                        assert(SinglyLinkedListNode::chain_view(*cur) =~= whole.skip(seen));
                    }
                }
            }
        }
        None
    }

    /// A mutable reference to the first element `f` answers `true` for,
    /// with the same answer-pinning as [`SinglyLinkedList::get_by`]; the
    /// ghost index names the position the borrow reaches into.
    pub fn get_mut_by<'a, F: Fn(&T) -> bool>(&'a mut self, f: F) -> (r: (
        Option<&'a mut T>,
        Ghost<int>,
    ))
        requires
            old(self).wf(),
            forall|x: &T| #[trigger] f.requires((x,)),
        ensures
            match r.0 {
                Some(v) => {
                    &&& 0 <= r.1@ < old(self)@.len()
                    &&& *v == old(self)@[r.1@]
                    &&& f.ensures((&old(self)@[r.1@],), true)
                    &&& (forall|j: int| 0 <= j < r.1@ ==> f.ensures((&old(self)@[j],), false))
                    &&& final(self)@.len() == old(self)@.len()
                    &&& final(self)@[r.1@] == *final(v)
                    &&& (forall|j: int|
                        0 <= j < old(self)@.len() && j != r.1@ ==> final(self)@[j] == old(
                            self,
                        )@[j])
                    &&& final(self).wf()
                },
                None => *final(self) == *old(self) && (forall|j: int|
                    0 <= j < old(self)@.len() ==> f.ensures((&old(self)@[j],), false)),
            },
    {
        let (r, idx) = Self::get_mut_by_in(&mut self.head, &f);
        (r, idx)
    }

    fn get_mut_by_in<'a, F: Fn(&T) -> bool>(
        node: &'a mut Option<Box<SinglyLinkedListNode<T>>>,
        f: &F,
    ) -> (r: (Option<&'a mut T>, Ghost<int>))
        requires
            forall|x: &T| #[trigger] f.requires((x,)),
        ensures
            match r.0 {
                Some(v) => {
                    &&& 0 <= r.1@ < SinglyLinkedListNode::chain_view(*old(node)).len()
                    &&& *v == SinglyLinkedListNode::chain_view(*old(node))[r.1@]
                    &&& f.ensures((&SinglyLinkedListNode::chain_view(*old(node))[r.1@],), true)
                    &&& (forall|j: int|
                        0 <= j < r.1@ ==> f.ensures(
                            (&SinglyLinkedListNode::chain_view(*old(node))[j],),
                            false,
                        ))
                    &&& SinglyLinkedListNode::chain_view(*final(node)).len()
                        == SinglyLinkedListNode::chain_view(*old(node)).len()
                    &&& SinglyLinkedListNode::chain_view(*final(node))[r.1@] == *final(v)
                    &&& (forall|j: int|
                        0 <= j < SinglyLinkedListNode::chain_view(*old(node)).len() && j != r.1@
                            ==> SinglyLinkedListNode::chain_view(*final(node))[j]
                            == SinglyLinkedListNode::chain_view(*old(node))[j])
                },
                None => *final(node) == *old(node) && (forall|j: int|
                    0 <= j < SinglyLinkedListNode::chain_view(*old(node)).len() ==> f.ensures(
                        (&SinglyLinkedListNode::chain_view(*old(node))[j],),
                        false,
                    )),
            },
        decreases *old(node),
    {
        let ghost whole = SinglyLinkedListNode::chain_view(*old(node));
        match node {
            None => (None, Ghost(0)),
            Some(b) => {
                proof {
                    assert(whole[0] == b.value);
                    assert(whole.drop_first() =~= SinglyLinkedListNode::chain_view(b.next));
                }
                if f(&b.value) {
                    (Some(&mut b.value), Ghost(0))
                } else {
                    let ghost old_rest = SinglyLinkedListNode::chain_view(b.next);
                    let (r, idx) = Self::get_mut_by_in(&mut b.next, f);
                    (r, Ghost(idx@ + 1))
                }
            }
        }
    }

    /// Unlinks and consumes the first element `f` answers `true` for,
    /// releasing its node's storage; the rest of the list keeps its order.
    pub fn remove_by<F: Fn(&T) -> bool>(&mut self, f: F) -> (r: Option<T>)
        requires
            old(self).wf(),
            forall|x: &T| #[trigger] f.requires((x,)),
        ensures
            final(self).wf(),
            final(self).spec_baseline() == old(self).spec_baseline(),
            final(self).arena().spec_budget() == old(self).arena().spec_budget(),
            final(self).arena().spec_allocated() == old(self).arena().spec_allocated(),
            match r {
                Some(v) => exists|i: int|
                    0 <= i < old(self)@.len() && v == old(self)@[i] && f.ensures(
                        (&old(self)@[i],),
                        true,
                    ) && (forall|j: int| 0 <= j < i ==> f.ensures((&old(self)@[j],), false))
                        && final(self)@ == #[trigger] old(self)@.remove(i),
                None => final(self)@ == old(self)@ && (forall|j: int|
                    0 <= j < old(self)@.len() ==> f.ensures((&old(self)@[j],), false)),
            },
    {
        let ghost whole = old(self)@;
        let r = Self::remove_by_in(&mut self.head, &f, &mut self.alloc);
        if r.is_some() {
            self.len = self.len - 1;
        }
        r
    }

    fn remove_by_in<F: Fn(&T) -> bool>(
        node: &mut Option<Box<SinglyLinkedListNode<T>>>,
        f: &F,
        alloc: &mut Allocator,
    ) -> (r: Option<T>)
        requires
            old(alloc).wf(),
            SinglyLinkedListNode::chain_view(*old(node)).len() <= old(alloc).spec_outstanding(),
            forall|x: &T| #[trigger] f.requires((x,)),
        ensures
            final(alloc).wf(),
            final(alloc).spec_budget() == old(alloc).spec_budget(),
            final(alloc).spec_allocated() == old(alloc).spec_allocated(),
            final(alloc).spec_freed() == old(alloc).spec_freed() + if r is Some {
                1int
            } else {
                0int
            },
            match r {
                Some(v) => exists|i: int|
                    #![trigger SinglyLinkedListNode::chain_view(*old(node)).remove(i)]
                    {
                        let chain = SinglyLinkedListNode::chain_view(*old(node));
                        &&& 0 <= i < chain.len()
                        &&& v == chain[i]
                        &&& f.ensures((&chain[i],), true)
                        &&& (forall|j: int| 0 <= j < i ==> f.ensures((&chain[j],), false))
                        &&& SinglyLinkedListNode::chain_view(*final(node)) == chain.remove(i)
                    },
                None => *final(node) == *old(node) && (forall|j: int|
                    0 <= j < SinglyLinkedListNode::chain_view(*old(node)).len() ==> f.ensures(
                        (&SinglyLinkedListNode::chain_view(*old(node))[j],),
                        false,
                    )),
            },
        decreases *old(node),
    {
        let ghost whole = SinglyLinkedListNode::chain_view(*old(node));
        match node.take() {
            None => None,
            Some(mut b) => {
                proof {
                    assert(whole[0] == b.value);
                    assert(whole.drop_first() =~= SinglyLinkedListNode::chain_view(b.next));
                }
                if f(&b.value) {
                    let taken = *b;
                    *node = taken.next;
                    alloc.deallocate(1);
                    proof {
                        assert(whole.remove(0) =~= whole.drop_first());
                        assert(0 <= 0 < whole.len() && taken.value == whole[0] && f.ensures(
                            (&whole[0],),
                            true,
                        ) && SinglyLinkedListNode::chain_view(*node) == whole.remove(0));
                    }
                    Some(taken.value)
                } else {
                    let ghost old_rest = SinglyLinkedListNode::chain_view(b.next);
                    let r = Self::remove_by_in(&mut b.next, f, alloc);
                    let ghost rest = SinglyLinkedListNode::chain_view(b.next);
                    let ghost head_val = b.value;
                    *node = Some(b);
                    proof {
                        assert(SinglyLinkedListNode::chain_view(*node) =~= seq![head_val]
                            + rest);
                        if r is Some {
                            let i = choose|i: int|
                                {
                                    &&& 0 <= i < old_rest.len()
                                    &&& r.unwrap() == old_rest[i]
                                    &&& f.ensures((&old_rest[i],), true)
                                    &&& (forall|j: int|
                                        0 <= j < i ==> f.ensures((&old_rest[j],), false))
                                    &&& rest == old_rest.remove(i)
                                };
                            assert(whole[i + 1] == old_rest[i]);
                            assert forall|j: int| 0 <= j < i + 1 implies f.ensures(
                                (&whole[j],),
                                false,
                            ) by {
                                if j > 0 {
                                    assert(whole[j] == old_rest[j - 1]);
                                }
                            }
                            assert(SinglyLinkedListNode::chain_view(*node) =~= whole.remove(
                                i + 1,
                            ));
                            assert(0 <= i + 1 < whole.len() && r.unwrap() == whole[i + 1]
                                && f.ensures((&whole[i + 1],), true) && (forall|j: int|
                                0 <= j < i + 1 ==> f.ensures((&whole[j],), false))
                                && SinglyLinkedListNode::chain_view(*final(node)) == whole.remove(
                                i + 1,
                            ));
                        } else {
                            assert forall|j: int| 0 <= j < whole.len() implies f.ensures(
                                (&whole[j],),
                                false,
                            ) by {
                                if j > 0 {
                                    assert(whole[j] == old_rest[j - 1]);
                                }
                            }
                            assert(*final(node) == *old(node));
                        }
                    }
                    r
                }
            }
        }
    }

    /// A cursor over the list's elements, front first, by reference.
    pub fn iter<'a>(&'a self) -> (r: Iter<'a, T>)
        ensures
            r.remaining() == self@,
    {
        Iter { node: &self.head }
    }

    /// Takes every element out of the list, front first, into a cursor;
    /// the list ends empty and the nodes' storage is released. What the
    /// cursor has not handed out can be put back with [`Drain::restore`].
    pub fn drain(&mut self) -> (r: Drain<T>)
        requires
            old(self).wf(),
        ensures
            final(self).wf(),
            final(self)@ =~= Seq::<T>::empty(),
            final(self).spec_baseline() == old(self).spec_baseline(),
            final(self).arena().spec_budget() == old(self).arena().spec_budget(),
            r.remaining() == old(self)@,
    {
        let mut items: Vec<T> = Vec::new();
        loop
            invariant
                self.wf(),
                self.spec_baseline() == old(self).spec_baseline(),
                self.arena().spec_budget() == old(self).arena().spec_budget(),
                items@ + self@ == old(self)@,
            ensures
                self@.len() == 0,
            decreases self@.len(),
        {
            match self.pop() {
                None => {
                    break;
                }
                Some(v) => {
                    items.push(v);
                    proof {
                        assert(items@ + self@ =~= old(self)@);
                    }
                }
            }
        }
        proof {
            assert(items@ =~= old(self)@);
        }
        Drain { items }
    }

    /// Consumes the list into a cursor that owns its elements.
    pub fn into_iter(self) -> (r: IntoIter<T>)
        requires
            self.wf(),
        ensures
            r.wf(),
            r.remaining() == self@,
    {
        IntoIter { inner: self }
    }
}

impl<T> Default for SinglyLinkedList<T> {
    /// The empty list over a fresh unlimited arena.
    fn default() -> (r: Self)
        ensures
            r.wf(),
            r@ =~= Seq::<T>::empty(),
    {
        Self::new()
    }
}

/// A cursor over a list's elements, front first, by reference.
pub struct Iter<'a, T> {
    node: &'a Option<Box<SinglyLinkedListNode<T>>>,
}

impl<'a, T> Iter<'a, T> {
    /// The elements not yet handed out.
    pub closed spec fn remaining(&self) -> Seq<T> {
        SinglyLinkedListNode::chain_view(*self.node)
    }

    /// Hands out a reference to the next element.
    pub fn next(&mut self) -> (r: Option<&'a T>)
        ensures
            old(self).remaining().len() == 0 ==> r is None && final(self).remaining()
                == old(self).remaining(),
            old(self).remaining().len() > 0 ==> {
                &&& r == Some(&old(self).remaining()[0])
                &&& final(self).remaining() == old(self).remaining().drop_first()
            },
    {
        match self.node {
            None => None,
            Some(b) => {
                let ghost whole = SinglyLinkedListNode::chain_view(*self.node);
                proof {
                    assert(whole[0] == b.value);
                    assert(whole.drop_first() =~= SinglyLinkedListNode::chain_view(b.next));
                }
                self.node = &b.next;
                Some(&b.value)
            }
        }
    }
}

/// A cursor over the elements taken out of a list.
pub struct Drain<T> {
    items: Vec<T>,
}

impl<T> Drain<T> {
    /// The elements not yet handed out.
    pub closed spec fn remaining(&self) -> Seq<T> {
        self.items@
    }

    /// Hands out the next drained element, front first.
    pub fn next(&mut self) -> (r: Option<T>)
        ensures
            old(self).remaining().len() == 0 ==> r is None && final(self).remaining()
                == old(self).remaining(),
            old(self).remaining().len() > 0 ==> {
                &&& r == Some(old(self).remaining()[0])
                &&& final(self).remaining() == old(self).remaining().drop_first()
            },
    {
        if self.items.len() > 0 {
            let e = self.items.remove(0);
            proof {
                assert(final(self).remaining() =~= old(self).remaining().drop_first());
            }
            Some(e)
        } else {
            None
        }
    }

    /// Puts the elements not yet handed out back at the front of `list`,
    /// in order, as a drain abandoned mid-way leaves them; their nodes are charged to the list's arena again.
    pub fn restore(self, list: &mut SinglyLinkedList<T>) -> (r: Result<(), AllocError>)
        requires
            old(list).wf(),
            old(list)@.len() + self.remaining().len() < usize::MAX,
        ensures
            final(list).wf(),
            match r {
                Ok(()) => final(list)@ == self.remaining() + old(list)@,
                Err(_) => exists|k: int|
                    0 <= k <= self.remaining().len() && final(list)@ == self.remaining().skip(k)
                        + old(list)@,
            },
    {
        let mut items = self.items;
        let ghost all = items@;
        proof {
            assert(all.skip(all.len() as int) =~= Seq::<T>::empty());
            assert(list@ =~= all.skip(all.len() as int) + old(list)@);
        }
        loop
            invariant
                list.wf(),
                all == self.remaining(),
                items@ == all.take(items@.len() as int),
                items@.len() <= all.len(),
                list@ == all.skip(items@.len() as int) + old(list)@,
                all.len() + old(list)@.len() < usize::MAX,
            ensures
                items@.len() == 0,
            decreases items@.len(),
        {
            match items.pop() {
                None => {
                    break;
                }
                Some(v) => {
                    proof {
                        assert(all.take(items@.len() as int + 1).last() == all[items@.len() as int]);
                        assert(all.take(items@.len() as int + 1).drop_last() =~= all.take(
                            items@.len() as int,
                        ));
                    }
                    match list.try_push(v) {
                        Ok(()) => {}
                        Err(_) => {
                            proof {
                                let k: int = items@.len() as int + 1;
                                assert(list@ == all.skip(k) + old(list)@);
                            }
                            return Err(AllocError);
                        }
                    }
                    proof {
                        assert(list@ =~= all.skip(items@.len() as int) + old(list)@);
                    }
                }
            }
        }
        proof {
            assert(all.skip(0) =~= all);
        }
        Ok(())
    }
}

/// A cursor that owns a list and consumes it, front first.
pub struct IntoIter<T> {
    inner: SinglyLinkedList<T>,
}

impl<T> IntoIter<T> {
    /// The elements not yet handed out.
    pub closed spec fn remaining(&self) -> Seq<T> {
        self.inner@
    }

    /// Whether the cursor can keep its contracts.
    pub closed spec fn wf(&self) -> bool {
        self.inner.wf()
    }

    /// Hands out the next element, front first.
    pub fn next(&mut self) -> (r: Option<T>)
        requires
            old(self).wf(),
        ensures
            final(self).wf(),
            old(self).remaining().len() == 0 ==> r is None && final(self).remaining()
                == old(self).remaining(),
            old(self).remaining().len() > 0 ==> {
                &&& r == Some(old(self).remaining()[0])
                &&& final(self).remaining() == old(self).remaining().drop_first()
            },
    {
        self.inner.pop()
    }
}

} // verus!
