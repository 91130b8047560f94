//! A binary min-heap over a total order.
//!
//! [`BinaryHeap`] keeps its elements in a vector under the classic
//! parent-before-child discipline, so the least element always stands at
//! the root: `peek` and `extract` answer a minimum of everything held, and
//! `insert`/`extract` change the heap's multiset of elements by exactly the
//! one element. The order comes from [`TotalOrdered`], a total order with
//! its laws proved by every implementor; [`InverseOrd`] turns any such
//! order around, making the heap a max-heap of the wrapped values.

use vstd::prelude::*;

use vstd::multiset::Multiset;
use vstd::seq_lib::group_to_multiset_ensures;

verus! {

/// A total order whose laws the implementor proves: any two values
/// compare, and comparison chains compose.
pub trait TotalOrdered: Sized + Copy {
    /// The order itself.
    spec fn le_spec(self, other: Self) -> bool;

    /// Totality and transitivity of the order.
    proof fn lemma_total_order(a: Self, b: Self, c: Self)
        ensures
            a.le_spec(b) || b.le_spec(a),
            a.le_spec(b) && b.le_spec(c) ==> a.le_spec(c),
    ;

    /// Decides the order.
    fn le(&self, other: &Self) -> (r: bool)
        ensures
            r == self.le_spec(*other),
    ;
}

impl TotalOrdered for u8 {
    open spec fn le_spec(self, other: Self) -> bool {
        self <= other
    }

    proof fn lemma_total_order(a: Self, b: Self, c: Self) {
    }

    fn le(&self, other: &Self) -> (r: bool) {
        *self <= *other
    }
}

impl TotalOrdered for u16 {
    open spec fn le_spec(self, other: Self) -> bool {
        self <= other
    }

    proof fn lemma_total_order(a: Self, b: Self, c: Self) {
    }

    fn le(&self, other: &Self) -> (r: bool) {
        *self <= *other
    }
}

impl TotalOrdered for u32 {
    open spec fn le_spec(self, other: Self) -> bool {
        self <= other
    }

    proof fn lemma_total_order(a: Self, b: Self, c: Self) {
    }

    fn le(&self, other: &Self) -> (r: bool) {
        *self <= *other
    }
}

impl TotalOrdered for u64 {
    open spec fn le_spec(self, other: Self) -> bool {
        self <= other
    }

    proof fn lemma_total_order(a: Self, b: Self, c: Self) {
    }

    fn le(&self, other: &Self) -> (r: bool) {
        *self <= *other
    }
}

impl TotalOrdered for usize {
    open spec fn le_spec(self, other: Self) -> bool {
        self <= other
    }

    proof fn lemma_total_order(a: Self, b: Self, c: Self) {
    }

    fn le(&self, other: &Self) -> (r: bool) {
        *self <= *other
    }
}

impl TotalOrdered for i32 {
    open spec fn le_spec(self, other: Self) -> bool {
        self <= other
    }

    proof fn lemma_total_order(a: Self, b: Self, c: Self) {
    }

    fn le(&self, other: &Self) -> (r: bool) {
        *self <= *other
    }
}

impl TotalOrdered for i64 {
    open spec fn le_spec(self, other: Self) -> bool {
        self <= other
    }

    proof fn lemma_total_order(a: Self, b: Self, c: Self) {
    }

    fn le(&self, other: &Self) -> (r: bool) {
        *self <= *other
    }
}

/// Turns a total order around: the heap of `InverseOrd<T>` hands its
/// largest `T` out first.
#[derive(Clone, Copy, PartialEq, Eq, Debug)]
pub struct InverseOrd<T>(pub T);

impl<T: TotalOrdered> TotalOrdered for InverseOrd<T> {
    open spec fn le_spec(self, other: Self) -> bool {
        other.0.le_spec(self.0)
    }

    proof fn lemma_total_order(a: Self, b: Self, c: Self) {
        T::lemma_total_order(c.0, b.0, a.0);
        T::lemma_total_order(b.0, a.0, a.0);
    }

    fn le(&self, other: &Self) -> (r: bool) {
        other.0.le(&self.0)
    }
}

/// Index of the parent of heap slot `i`.
pub open spec fn heap_parent(i: int) -> int {
    (i - 1) / 2
}

/// The parent-before-child discipline over the whole vector.
pub open spec fn heap_seq<T: TotalOrdered>(s: Seq<T>) -> bool {
    forall|j: int| 1 <= j < s.len() ==> s[heap_parent(j)].le_spec(#[trigger] s[j])
}

/// The discipline everywhere except at slot `idx`.
spec fn heap_except<T: TotalOrdered>(s: Seq<T>, idx: int) -> bool {
    forall|j: int| 1 <= j < s.len() && j != idx ==> s[heap_parent(j)].le_spec(#[trigger] s[j])
}

/// The discipline everywhere except below slot `idx`.
spec fn heap_except_below<T: TotalOrdered>(s: Seq<T>, idx: int) -> bool {
    forall|j: int| 1 <= j < s.len() && heap_parent(j) != idx ==> s[heap_parent(j)].le_spec(
        #[trigger] s[j],
    )
}

/// Slot `idx`'s children are bounded by `idx`'s parent, bridging the hole
/// an upward sift leaves.
spec fn bridged_up<T: TotalOrdered>(s: Seq<T>, idx: int) -> bool {
    idx > 0 ==> forall|j: int| 1 <= j < s.len() && heap_parent(j) == idx ==> s[heap_parent(
        idx,
    )].le_spec(#[trigger] s[j])
}

/// In a heap-ordered vector the root is below everything.
proof fn lemma_root_le<T: TotalOrdered>(s: Seq<T>, i: int)
    requires
        heap_seq(s),
        0 <= i < s.len(),
    ensures
        s[0].le_spec(s[i]),
    decreases i,
{
    if i == 0 {
        T::lemma_total_order(s[0], s[0], s[0]);
    } else {
        lemma_root_le(s, heap_parent(i));
        T::lemma_total_order(s[0], s[heap_parent(i)], s[i]);
    }
}

/// Overwriting one slot removes its old element from the multiset and
/// adds the new one.
proof fn lemma_update_to_multiset<T>(s: Seq<T>, i: int, v: T)
    requires
        0 <= i < s.len(),
    ensures
        s.update(i, v).to_multiset() =~= s.to_multiset().remove(s[i]).insert(v),
{
    broadcast use group_to_multiset_ensures;

    let t = s.update(i, v);
    assert(t.remove(i) =~= s.remove(i));
    assert(t.remove(i).to_multiset() =~= t.to_multiset().remove(v));
    assert(s.remove(i).to_multiset() =~= s.to_multiset().remove(s[i]));
    assert(t.to_multiset().remove(v) =~= s.to_multiset().remove(s[i]));
    assert(t.contains(v)) by {
        assert(t[i] == v);
    }
    assert(t.to_multiset().count(v) > 0);
    assert forall|x: T| t.to_multiset().count(x) == s.to_multiset().remove(s[i]).insert(
        v,
    ).count(x) by {
        if x == v {
            assert(t.to_multiset().remove(v).count(v) == t.to_multiset().count(v) - 1);
        } else {
            assert(t.to_multiset().remove(v).count(x) == t.to_multiset().count(x));
        }
    }
}

/// Swapping two slots leaves the multiset of elements alone.
proof fn lemma_swap_to_multiset<T>(s: Seq<T>, i: int, j: int)
    requires
        0 <= i < s.len(),
        0 <= j < s.len(),
        i != j,
    ensures
        s.update(i, s[j]).update(j, s[i]).to_multiset() =~= s.to_multiset(),
{
    broadcast use group_to_multiset_ensures;

    let t = s.update(i, s[j]);
    lemma_update_to_multiset(s, i, s[j]);
    lemma_update_to_multiset(t, j, s[i]);
    assert(t[j] == s[j]);
    assert(s.to_multiset().count(s[i]) > 0) by {
        assert(s.contains(s[i]));
    }
    assert(s.to_multiset().remove(s[i]).insert(s[j]).remove(s[j]).insert(s[i]) =~= s.to_multiset());
}

/// A binary min-heap of elements under a proved total order.
#[derive(Debug)]
pub struct BinaryHeap<T: TotalOrdered> {
    data: Vec<T>,
}

impl<T: TotalOrdered> BinaryHeap<T> {
    /// The elements, with multiplicity and without order.
    pub closed spec fn mset(&self) -> Multiset<T> {
        self.data@.to_multiset()
    }

    /// The heap discipline holds of the vector.
    pub closed spec fn wf(&self) -> bool {
        heap_seq(self.data@)
    }

    /// Number of elements held.
    pub closed spec fn spec_len(&self) -> int {
        self.data@.len() as int
    }

    /// An empty heap.
    pub fn new() -> (r: Self)
        ensures
            r.wf(),
            r.mset() =~= Multiset::<T>::empty(),
            r.spec_len() == 0,
    {
        let r = BinaryHeap { data: Vec::new() };
        proof {
            broadcast use group_to_multiset_ensures;

            assert(r.data@.to_multiset().len() == 0);
        }
        r
    }

    /// Number of elements held.
    pub fn len(&self) -> (r: usize)
        ensures
            r as int == self.spec_len(),
    {
        self.data.len()
    }

    /// Whether the heap holds no element.
    pub fn is_empty(&self) -> (r: bool)
        ensures
            r == (self.spec_len() == 0),
    {
        self.data.len() == 0
    }

    /// A reference to a least element, if any: everything in the heap is
    /// at or above it.
    pub fn peek<'a>(&'a self) -> (r: Option<&'a T>)
        requires
            self.wf(),
        ensures
            self.spec_len() == 0 ==> r is None,
            self.spec_len() > 0 ==> match r {
                Some(v) => self.mset().count(*v) > 0 && forall|x: T|
                    self.mset().count(x) > 0 ==> v.le_spec(x),
                None => false,
            },
    {
        if self.data.len() == 0 {
            None
        } else {
            proof {
                broadcast use group_to_multiset_ensures;

                assert(self.data@.contains(self.data@[0]));
                assert forall|x: T| self.mset().count(x) > 0 implies self.data@[0].le_spec(
                    x,
                ) by {
                    assert(self.data@.contains(x));
                    let i = choose|i: int| 0 <= i < self.data@.len() && self.data@[i] == x;
                    lemma_root_le(self.data@, i);
                }
            }
            Some(&self.data[0])
        }
    }

    /// Adds `val`; the multiset grows by exactly that element and the heap
    /// discipline is restored by sifting it up.
    pub fn insert(&mut self, val: T)
        requires
            old(self).wf(),
            old(self).spec_len() < usize::MAX,
        ensures
            final(self).wf(),
            final(self).mset() =~= old(self).mset().insert(val),
            final(self).spec_len() == old(self).spec_len() + 1,
    {
        let ghost target = old(self).mset().insert(val);
        let mut idx = self.data.len();
        self.data.push(val);
        proof {
            broadcast use group_to_multiset_ensures;

            assert(self.data@ == old(self).data@.push(val));
            assert(self.data@.to_multiset() =~= target);
            assert forall|j: int|
                1 <= j < self.data@.len() && j != idx as int implies self.data@[heap_parent(
                j,
            )].le_spec(#[trigger] self.data@[j]) by {
                assert(self.data@[j] == old(self).data@[j]);
                assert(self.data@[heap_parent(j)] == old(self).data@[heap_parent(j)]);
            }
        }
        self.upheap(idx);
    }

    /// Sifts slot `idx` up until its parent is at or below it.
    fn upheap(&mut self, idx: usize)
        requires
            idx < old(self).spec_len(),
            heap_except(old(self).data@, idx as int),
            bridged_up(old(self).data@, idx as int),
        ensures
            final(self).wf(),
            final(self).mset() =~= old(self).mset(),
            final(self).spec_len() == old(self).spec_len(),
    {
        let mut idx = idx;
        loop
            invariant
                idx < self.spec_len(),
                self.spec_len() == old(self).spec_len(),
                heap_except(self.data@, idx as int),
                bridged_up(self.data@, idx as int),
                self.data@.to_multiset() =~= old(self).data@.to_multiset(),
            ensures
                heap_seq(self.data@),
                self.data@.to_multiset() =~= old(self).data@.to_multiset(),
                self.data@.len() == old(self).data@.len(),
            decreases idx,
        {
            if idx == 0 {
                break;
            }
            let p = (idx - 1) / 2;
            proof {
                assert(p as int == heap_parent(idx as int));
            }
            let parent_ok = self.data[p].le(&self.data[idx]);
            if parent_ok {
                proof {
                    assert forall|j: int|
                        1 <= j < self.data@.len() implies self.data@[heap_parent(j)].le_spec(
                        #[trigger] self.data@[j],
                    ) by {}
                }
                break;
            }
            let ghost s = self.data@;
            let a = self.data[p];
            let b = self.data[idx];
            self.data.set(p, b);
            self.data.set(idx, a);
            proof {
                let t = self.data@;
                assert(t == s.update(p as int, s[idx as int]).update(idx as int, s[p as int]));
                lemma_swap_to_multiset(s, p as int, idx as int);
                T::lemma_total_order(s[idx as int], s[p as int], s[p as int]);
                assert(s[idx as int].le_spec(s[p as int]));
                assert forall|j: int|
                    1 <= j < t.len() && j != p as int implies t[heap_parent(j)].le_spec(
                    #[trigger] t[j],
                ) by {
                    if j == idx as int {
                        assert(heap_parent(j) == p as int);
                    } else if heap_parent(j) == idx as int {
                        assert(t[j] == s[j]);
                        assert(s[heap_parent(idx as int)].le_spec(s[j]));
                    } else if heap_parent(j) == p as int {
                        assert(t[j] == s[j]);
                        assert(s[p as int].le_spec(s[j]));
                        T::lemma_total_order(s[idx as int], s[p as int], s[j]);
                    } else {
                        assert(t[j] == s[j]);
                        assert(t[heap_parent(j)] == s[heap_parent(j)]);
                    }
                }
                assert(bridged_up(t, p as int)) by {
                    if p > 0 {
                        assert forall|j: int|
                            1 <= j < t.len() && heap_parent(j) == p as int implies t[heap_parent(
                            p as int,
                        )].le_spec(#[trigger] t[j]) by {
                            assert(t[heap_parent(p as int)] == s[heap_parent(p as int)]);
                            assert(s[heap_parent(p as int)].le_spec(s[p as int]));
                            if j == idx as int {
                                assert(t[j] == s[p as int]);
                            } else {
                                assert(t[j] == s[j]);
                                assert(s[p as int].le_spec(s[j]));
                                T::lemma_total_order(
                                    s[heap_parent(p as int)],
                                    s[p as int],
                                    s[j],
                                );
                            }
                        }
                    }
                }
            }
            idx = p;
        }
    }

    /// Removes and returns a least element, if any: everything that was in
    /// the heap stood at or above it, and only that one element is gone.
    pub fn extract(&mut self) -> (r: Option<T>)
        requires
            old(self).wf(),
        ensures
            final(self).wf(),
            old(self).spec_len() == 0 ==> r is None && final(self).mset() =~= old(self).mset(),
            old(self).spec_len() > 0 ==> match r {
                Some(v) => {
                    &&& old(self).mset().count(v) > 0
                    &&& (forall|x: T| old(self).mset().count(x) > 0 ==> v.le_spec(x))
                    &&& final(self).mset() =~= old(self).mset().remove(v)
                    &&& final(self).spec_len() == old(self).spec_len() - 1
                },
                None => false,
            },
    {
        if self.data.len() == 0 {
            return None;
        }
        proof {
            broadcast use group_to_multiset_ensures;

            assert(self.data@.contains(self.data@[0]));
            assert forall|x: T| self.mset().count(x) > 0 implies self.data@[0].le_spec(x) by {
                assert(self.data@.contains(x));
                let i = choose|i: int| 0 <= i < self.data@.len() && self.data@[i] == x;
                lemma_root_le(self.data@, i);
            }
        }
        let ghost s0 = self.data@;
        let elem = self.data.swap_remove(0);
        proof {
            broadcast use group_to_multiset_ensures;

            let t = s0.update(0, s0.last());
            assert(self.data@ == t.drop_last());
            assert(t.drop_last() =~= t.remove(t.len() - 1));
            assert(t.remove(t.len() - 1).to_multiset() =~= t.to_multiset().remove(
                t[t.len() - 1],
            ));
            lemma_update_to_multiset(s0, 0, s0.last());
            assert(t[t.len() - 1] == s0.last());
            assert(self.data@.to_multiset() =~= s0.to_multiset().remove(s0[0]).insert(
                s0.last(),
            ).remove(s0.last()));
            assert(self.data@.to_multiset() =~= s0.to_multiset().remove(s0[0]));
            assert forall|j: int|
                1 <= j < self.data@.len() && heap_parent(j) != 0 implies self.data@[heap_parent(
                j,
            )].le_spec(#[trigger] self.data@[j]) by {
                assert(self.data@[j] == s0[j]);
                assert(self.data@[heap_parent(j)] == s0[heap_parent(j)]);
            }
        }
        if self.data.len() > 0 {
            self.downheap(0);
        }
        Some(elem)
    }

    /// Sifts slot `idx` down until both children are at or above it.
    fn downheap(&mut self, idx: usize)
        requires
            idx < old(self).spec_len(),
            heap_except_below(old(self).data@, idx as int),
            bridged_up(old(self).data@, idx as int),
        ensures
            final(self).wf(),
            final(self).mset() =~= old(self).mset(),
            final(self).spec_len() == old(self).spec_len(),
    {
        let mut idx = idx;
        loop
            invariant
                idx < self.spec_len(),
                self.spec_len() == old(self).spec_len(),
                heap_except_below(self.data@, idx as int),
                bridged_up(self.data@, idx as int),
                self.data@.to_multiset() =~= old(self).data@.to_multiset(),
            ensures
                heap_seq(self.data@),
                self.data@.to_multiset() =~= old(self).data@.to_multiset(),
                self.data@.len() == old(self).data@.len(),
            decreases self.spec_len() - idx,
        {
            let n = self.data.len();
            let left = if idx <= (usize::MAX - 1) / 2 {
                2 * idx + 1
            } else {
                n
            };
            if left >= n {
                // no children: the discipline holds everywhere
                proof {
                    assert forall|j: int|
                        1 <= j < self.data@.len() implies self.data@[heap_parent(j)].le_spec(
                        #[trigger] self.data@[j],
                    ) by {
                        if heap_parent(j) == idx as int {
                            assert(j == 2 * (idx as int) + 1 || j == 2 * (idx as int) + 2);
                        }
                    }
                }
                break;
            }
            let right = left + 1;
            let c = if right < n {
                if self.data[right].le(&self.data[left]) {
                    right
                } else {
                    left
                }
            } else {
                left
            };
            proof {
                assert(heap_parent(c as int) == idx as int);
            }
            let child_ge = self.data[idx].le(&self.data[c]);
            if child_ge {
                proof {
                    T::lemma_total_order(self.data@[idx as int], self.data@[c as int], self.data@[
                        c as int
                    ]);
                    assert forall|j: int|
                        1 <= j < self.data@.len() implies self.data@[heap_parent(j)].le_spec(
                        #[trigger] self.data@[j],
                    ) by {
                        if heap_parent(j) == idx as int {
                            if j != c as int {
                                // j is the other child: the chosen child is the smaller one
                                T::lemma_total_order(
                                    self.data@[idx as int],
                                    self.data@[c as int],
                                    self.data@[j],
                                );
                                T::lemma_total_order(
                                    self.data@[c as int],
                                    self.data@[j],
                                    self.data@[j],
                                );
                            }
                        }
                    }
                }
                break;
            }
            let ghost s = self.data@;
            let a = self.data[idx];
            let b = self.data[c];
            self.data.set(idx, b);
            self.data.set(c, a);
            proof {
                let t = self.data@;
                assert(t == s.update(idx as int, s[c as int]).update(c as int, s[idx as int]));
                lemma_swap_to_multiset(s, idx as int, c as int);
                T::lemma_total_order(s[c as int], s[idx as int], s[idx as int]);
                assert(s[c as int].le_spec(s[idx as int]));
                assert(heap_except_below(t, c as int)) by {
                    assert forall|j: int|
                        1 <= j < t.len() && heap_parent(j) != c as int implies t[heap_parent(
                        j,
                    )].le_spec(#[trigger] t[j]) by {
                        if j == c as int {
                            assert(t[heap_parent(j)] == s[c as int]);
                            assert(t[j] == s[idx as int]);
                        } else if heap_parent(j) == idx as int {
                            // the other child of idx
                            assert(t[j] == s[j]);
                            assert(t[heap_parent(j)] == s[c as int]);
                            if s[c as int] == s[j] {
                            } else {
                            }
                            T::lemma_total_order(s[c as int], s[j], s[j]);
                            if c as int == 2 * (idx as int) + 1 {
                                assert(j == 2 * (idx as int) + 2);
                            } else {
                                assert(j == 2 * (idx as int) + 1);
                            }
                        } else if j == idx as int {
                            assert(t[j] == s[c as int]);
                            assert(t[heap_parent(j)] == s[heap_parent(idx as int)]);
                            assert(s[heap_parent(idx as int)].le_spec(s[c as int]));
                        } else {
                            assert(t[j] == s[j]);
                            assert(t[heap_parent(j)] == s[heap_parent(j)]);
                        }
                    }
                }
                assert(bridged_up(t, c as int)) by {
                    assert forall|j: int|
                        1 <= j < t.len() && heap_parent(j) == c as int implies t[heap_parent(
                        c as int,
                    )].le_spec(#[trigger] t[j]) by {
                        assert(t[heap_parent(c as int)] == t[idx as int]);
                        assert(t[idx as int] == s[c as int]);
                        assert(t[j] == s[j]);
                        assert(s[c as int].le_spec(s[j]));
                    }
                }
            }
            idx = c;
        }
    }
}

impl<T: TotalOrdered> Default for BinaryHeap<T> {
    /// The empty heap.
    fn default() -> (r: Self)
        ensures
            r.wf(),
            r.mset() =~= Multiset::<T>::empty(),
            r.spec_len() == 0,
    {
        Self::new()
    }
}

} // verus!
