//! Collision buckets: singly linked chains of owned key/value nodes.
//!
//! A [`SLLBucket`] owns every node reachable from its head, one heap
//! allocation per node, each charged to the allocator of the table that owns
//! the bucket. A bucket is viewed as the sequence of its `(key, value)`
//! entries from head to tail; `insert` keeps that sequence free of duplicate
//! keys by evicting any entry with the same key before linking the new node
//! at the head.

use vstd::prelude::*;

use crate::allocator::{AllocError, Allocator};
use crate::hashing::HashKey;

verus! {

/// First entry of `s` whose key is `k`, if any.
pub open spec fn find_entry<K, V>(s: Seq<(K, V)>, k: K) -> Option<(K, V)>
    decreases s.len(),
{
    if s.len() == 0 {
        None
    } else if s[0].0 == k {
        Some(s[0])
    } else {
        find_entry(s.drop_first(), k)
    }
}

/// `s` without its first entry whose key is `k`; `s` itself if none has it.
pub open spec fn remove_entry<K, V>(s: Seq<(K, V)>, k: K) -> Seq<(K, V)>
    decreases s.len(),
{
    if s.len() == 0 {
        s
    } else if s[0].0 == k {
        s.drop_first()
    } else {
        seq![s[0]] + remove_entry(s.drop_first(), k)
    }
}

/// No two entries of `s` share a key.
pub open spec fn distinct_keys<K, V>(s: Seq<(K, V)>) -> bool {
    forall|i: int, j: int| 0 <= i < j < s.len() ==> s[i].0 != s[j].0
}

/// What `find_entry` answers says of the entries themselves: a hit is an
/// entry of `s` under the asked key, and a miss means no entry has it.
pub proof fn lemma_find_entry_props<K, V>(s: Seq<(K, V)>, k: K)
    ensures
        match find_entry(s, k) {
            Some(e) => e.0 == k && exists|i: int| 0 <= i < s.len() && s[i] == e,
            None => forall|i: int| 0 <= i < s.len() ==> s[i].0 != k,
        },
    decreases s.len(),
{
    if s.len() != 0 && s[0].0 != k {
        lemma_find_entry_props(s.drop_first(), k);
        match find_entry(s.drop_first(), k) {
            Some(e) => {
                let i = choose|i: int| 0 <= i < s.drop_first().len() && s.drop_first()[i] == e;
                assert(s[i + 1] == e);
            }
            None => {
                assert forall|i: int| 0 <= i < s.len() implies s[i].0 != k by {
                    if i > 0 {
                        assert(s.drop_first()[i - 1] == s[i]);
                    }
                }
            }
        }
    }
}

/// A key is found exactly when some entry holds it.
pub proof fn lemma_find_entry_some_iff<K, V>(s: Seq<(K, V)>, k: K)
    ensures
        find_entry(s, k) is Some <==> exists|i: int| 0 <= i < s.len() && s[i].0 == k,
    decreases s.len(),
{
    lemma_find_entry_props(s, k);
    if find_entry(s, k) is Some {
        let e = find_entry(s, k).unwrap();
        let i = choose|i: int| 0 <= i < s.len() && s[i] == e;
        assert(s[i].0 == k);
    }
}

/// Under distinct keys, the search for an entry's key finds that entry.
pub proof fn lemma_find_entry_distinct_at<K, V>(s: Seq<(K, V)>, i: int)
    requires
        distinct_keys(s),
        0 <= i < s.len(),
    ensures
        find_entry(s, s[i].0) == Some(s[i]),
{
    lemma_find_entry_some_iff(s, s[i].0);
    lemma_find_entry_props(s, s[i].0);
    let e = find_entry(s, s[i].0).unwrap();
    let j = choose|j: int| 0 <= j < s.len() && s[j] == e;
    if i < j {
        assert(s[i].0 != s[j].0);
    } else if j < i {
        assert(s[j].0 != s[i].0);
    }
}

/// Removing one key shrinks the sequence by one exactly when the key was
/// found, and never touches more.
pub proof fn lemma_remove_entry_len<K, V>(s: Seq<(K, V)>, k: K)
    ensures
        remove_entry(s, k).len() == if find_entry(s, k) is Some {
            s.len() - 1
        } else {
            s.len() as int
        },
    decreases s.len(),
{
    if s.len() != 0 && s[0].0 != k {
        lemma_remove_entry_len(s.drop_first(), k);
    }
}

/// Removing key `k` leaves the search for any other key unchanged.
pub proof fn lemma_remove_entry_other<K, V>(s: Seq<(K, V)>, k: K, k2: K)
    requires
        k2 != k,
    ensures
        find_entry(remove_entry(s, k), k2) == find_entry(s, k2),
    decreases s.len(),
{
    if s.len() != 0 {
        if s[0].0 == k {
        } else {
            lemma_remove_entry_other(s.drop_first(), k, k2);
            let t = seq![s[0]] + remove_entry(s.drop_first(), k);
            assert(t.drop_first() =~= remove_entry(s.drop_first(), k));
        }
    }
}

/// Under distinct keys, removing a key removes its every trace.
pub proof fn lemma_remove_entry_same<K, V>(s: Seq<(K, V)>, k: K)
    requires
        distinct_keys(s),
    ensures
        find_entry(remove_entry(s, k), k) is None,
    decreases s.len(),
{
    if s.len() != 0 {
        if s[0].0 == k {
            lemma_find_entry_props(s.drop_first(), k);
            assert forall|i: int| 0 <= i < s.drop_first().len() implies s.drop_first()[i].0 != k by {
                assert(s.drop_first()[i] == s[i + 1]);
            }
        } else {
            assert(distinct_keys(s.drop_first())) by {
                assert forall|i: int, j: int|
                    0 <= i < j < s.drop_first().len() implies s.drop_first()[i].0
                    != s.drop_first()[j].0 by {
                    assert(s.drop_first()[i] == s[i + 1]);
                    assert(s.drop_first()[j] == s[j + 1]);
                }
            }
            lemma_remove_entry_same(s.drop_first(), k);
            let t = seq![s[0]] + remove_entry(s.drop_first(), k);
            assert(t.drop_first() =~= remove_entry(s.drop_first(), k));
        }
    }
}

/// Distinct keys survive a removal.
pub proof fn lemma_remove_entry_distinct<K, V>(s: Seq<(K, V)>, k: K)
    requires
        distinct_keys(s),
    ensures
        distinct_keys(remove_entry(s, k)),
    decreases s.len(),
{
    if s.len() != 0 {
        assert(distinct_keys(s.drop_first())) by {
            assert forall|i: int, j: int|
                0 <= i < j < s.drop_first().len() implies s.drop_first()[i].0
                != s.drop_first()[j].0 by {
                assert(s.drop_first()[i] == s[i + 1]);
                assert(s.drop_first()[j] == s[j + 1]);
            }
        }
        if s[0].0 != k {
            lemma_remove_entry_distinct(s.drop_first(), k);
            let t = seq![s[0]] + remove_entry(s.drop_first(), k);
            let r = remove_entry(s.drop_first(), k);
            assert forall|i: int, j: int| 0 <= i < j < t.len() implies t[i].0 != t[j].0 by {
                if i == 0 {
                    lemma_remove_entry_in_source(s.drop_first(), k, j - 1);
                } else {
                    assert(t[i] == r[i - 1]);
                    assert(t[j] == r[j - 1]);
                }
            }
        }
    }
}

/// Every entry left after a removal stood in the source sequence.
pub proof fn lemma_remove_entry_in_source<K, V>(s: Seq<(K, V)>, k: K, i: int)
    requires
        0 <= i < remove_entry(s, k).len(),
    ensures
        exists|j: int| 0 <= j < s.len() && s[j] == remove_entry(s, k)[i],
    decreases s.len(),
{
    if s.len() != 0 {
        if s[0].0 == k {
            assert(s[i + 1] == remove_entry(s, k)[i]);
        } else {
            let t = seq![s[0]] + remove_entry(s.drop_first(), k);
            if i == 0 {
                assert(s[0] == t[0]);
            } else {
                lemma_remove_entry_in_source(s.drop_first(), k, i - 1);
                let j = choose|j: int|
                    0 <= j < s.drop_first().len() && s.drop_first()[j] == remove_entry(
                        s.drop_first(),
                        k,
                    )[i - 1];
                assert(s[j + 1] == t[i]);
            }
        }
    }
}

/// One key/value record of a bucket chain, owning the link to its successor.
pub struct SinglyLinkedListNode<K, V> {
    /// The entry's key.
    pub key: K,
    /// The entry's value.
    pub val: V,
    next: Option<Box<SinglyLinkedListNode<K, V>>>,
}

impl<K, V> SinglyLinkedListNode<K, V> {
    /// The entries of the chain hanging from `node`, head first.
    pub closed spec fn chain_view(node: Option<Box<SinglyLinkedListNode<K, V>>>) -> Seq<(K, V)>
        decreases node,
    {
        match node {
            None => Seq::empty(),
            Some(b) => seq![(b.key, b.val)] + Self::chain_view(b.next),
        }
    }

    /// A node carrying exactly one entry, linked to nothing.
    pub closed spec fn is_detached(self) -> bool {
        self.next is None
    }

    /// The one entry of a detached node.
    pub closed spec fn entry(self) -> (K, V) {
        (self.key, self.val)
    }

    /// Makes a free-standing node for one entry. No allocation is charged
    /// here: the caller owns the storage unit that travels with the node.
    fn detached(key: K, val: V) -> (r: Box<Self>)
        ensures
            r.is_detached(),
            r.entry() == (key, val),
    {
        Box::new(SinglyLinkedListNode { key, val, next: None })
    }
}

/// A collision bucket: the head of a singly linked chain of owned nodes.
pub struct SLLBucket<K, V> {
    head: Option<Box<SinglyLinkedListNode<K, V>>>,
}

impl<K, V> View for SLLBucket<K, V> {
    type V = Seq<(K, V)>;

    closed spec fn view(&self) -> Seq<(K, V)> {
        SinglyLinkedListNode::chain_view(self.head)
    }
}

impl<K: HashKey, V> SLLBucket<K, V> {
    /// An empty bucket tied to no storage. The allocator of the owning table
    /// is handed to each operation that moves nodes.
    pub fn new_in() -> (r: Self)
        ensures
            r@ =~= Seq::<(K, V)>::empty(),
    {
        SLLBucket { head: None }
    }

    /// Whether the bucket holds no entry.
    pub fn is_empty(&self) -> (r: bool)
        ensures
            r == (self@.len() == 0),
    {
        self.head.is_none()
    }

    /// A reference to the value stored under `key`, if any.
    pub fn get<'a>(&'a self, key: &K) -> (r: Option<&'a V>)
        ensures
            match r {
                Some(v) => find_entry(self@, *key) == Some((*key, *v)),
                None => find_entry(self@, *key) is None,
            },
    {
        Self::get_in(&self.head, key)
    }

    fn get_in<'a>(node: &'a Option<Box<SinglyLinkedListNode<K, V>>>, key: &K) -> (r: Option<
        &'a V,
    >)
        ensures
            match r {
                Some(v) => find_entry(SinglyLinkedListNode::chain_view(*node), *key) == Some(
                    (*key, *v),
                ),
                None => find_entry(SinglyLinkedListNode::chain_view(*node), *key) is None,
            },
        decreases *node,
    {
        match node {
            None => None,
            Some(b) => {
                let ghost whole = SinglyLinkedListNode::chain_view(*node);
                proof {
                    assert(whole[0] == (b.key, b.val));
                    assert(whole.drop_first() =~= SinglyLinkedListNode::chain_view(b.next));
                }
                if b.key.key_eq(key) {
                    Some(&b.val)
                } else {
                    Self::get_in(&b.next, key)
                }
            }
        }
    }

    /// Unlinks and consumes the first node keyed `key`, returning its entry
    /// and releasing its storage unit.
    pub fn remove(&mut self, key: &K, alloc: &mut Allocator) -> (r: Option<(K, V)>)
        requires
            old(alloc).wf(),
            old(self)@.len() <= old(alloc).spec_outstanding(),
        ensures
            final(self)@ == remove_entry(old(self)@, *key),
            r == find_entry(old(self)@, *key),
            final(alloc).wf(),
            final(alloc).spec_budget() == old(alloc).spec_budget(),
            final(alloc).spec_allocated() == old(alloc).spec_allocated(),
            final(alloc).spec_freed() == old(alloc).spec_freed() + if r is Some {
                1int
            } else {
                0int
            },
    {
        Self::remove_in(&mut self.head, key, alloc)
    }

    fn remove_in(
        node: &mut Option<Box<SinglyLinkedListNode<K, V>>>,
        key: &K,
        alloc: &mut Allocator,
    ) -> (r: Option<(K, V)>)
        requires
            old(alloc).wf(),
            SinglyLinkedListNode::chain_view(*old(node)).len() <= old(alloc).spec_outstanding(),
        ensures
            SinglyLinkedListNode::chain_view(*final(node)) == remove_entry(
                SinglyLinkedListNode::chain_view(*old(node)),
                *key,
            ),
            r == find_entry(SinglyLinkedListNode::chain_view(*old(node)), *key),
            final(alloc).wf(),
            final(alloc).spec_budget() == old(alloc).spec_budget(),
            final(alloc).spec_allocated() == old(alloc).spec_allocated(),
            final(alloc).spec_freed() == old(alloc).spec_freed() + if r is Some {
                1int
            } else {
                0int
            },
        decreases *old(node),
    {
        let ghost whole = SinglyLinkedListNode::chain_view(*old(node));
        match node.take() {
            None => None,
            Some(mut b) => {
                proof {
                    assert(whole[0] == (b.key, b.val));
                    assert(whole.drop_first() =~= SinglyLinkedListNode::chain_view(b.next));
                }
                if b.key.key_eq(key) {
                    let taken = *b;
                    *node = taken.next;
                    alloc.deallocate(1);
                    Some((taken.key, taken.val))
                } else {
                    let ghost old_rest = SinglyLinkedListNode::chain_view(b.next);
                    let r = Self::remove_in(&mut b.next, key, alloc);
                    let ghost rest = SinglyLinkedListNode::chain_view(b.next);
                    let ghost head_entry = (b.key, b.val);
                    *node = Some(b);
                    proof {
                        assert(SinglyLinkedListNode::chain_view(*node) =~= seq![head_entry]
                            + rest);
                        assert(rest == remove_entry(old_rest, *key));
                        assert(remove_entry(whole, *key) == seq![whole[0]] + remove_entry(
                            whole.drop_first(),
                            *key,
                        ));
                        assert(SinglyLinkedListNode::chain_view(*node) =~= remove_entry(
                            whole,
                            *key,
                        ));
                    }
                    r
                }
            }
        }
    }

    /// Inserts `(key, value)` at the head of the chain.
    ///
    /// The node allocation is attempted first: if the allocator refuses, the
    /// bucket is structurally unchanged and no entry has been lost. On
    /// success any existing entry under the same key is unlinked, consumed
    /// and handed back, so the chain never holds a key twice.
    pub fn insert(&mut self, key: K, value: V, alloc: &mut Allocator) -> (r: Result<
        Option<(K, V)>,
        AllocError,
    >)
        requires
            old(alloc).wf(),
            old(self)@.len() <= old(alloc).spec_outstanding(),
        ensures
            final(alloc).wf(),
            final(alloc).spec_budget() == old(alloc).spec_budget(),
            match r {
                Ok(evicted) => {
                    &&& final(self)@ == seq![(key, value)] + remove_entry(old(self)@, key)
                    &&& evicted == find_entry(old(self)@, key)
                    &&& final(alloc).spec_allocated() == old(alloc).spec_allocated() + 1
                    &&& final(alloc).spec_freed() == old(alloc).spec_freed() + if evicted
                        is Some {
                        1int
                    } else {
                        0int
                    }
                },
                Err(_) => {
                    &&& *final(self) == *old(self)
                    &&& *final(alloc) == *old(alloc)
                    &&& !old(alloc).can_allocate(1)
                },
            },
    {
        match alloc.allocate(1) {
            Err(e) => Err(e),
            Ok(()) => {
                let evicted = Self::remove_in(&mut self.head, &key, alloc);
                let mut node = SinglyLinkedListNode::detached(key, value);
                node.next = self.head.take();
                let ghost rest = SinglyLinkedListNode::chain_view(node.next);
                self.head = Some(node);
                proof {
                    assert(self@ =~= seq![(key, value)] + rest);
                }
                Ok(evicted)
            }
        }
    }

    /// Detaches and consumes every node, handing the entries back in chain
    /// order and releasing one storage unit per node. The bucket is empty
    /// from the first step on.
    pub fn drain(&mut self, alloc: &mut Allocator) -> (r: Vec<(K, V)>)
        requires
            old(alloc).wf(),
            old(self)@.len() <= old(alloc).spec_outstanding(),
        ensures
            r@ == old(self)@,
            final(self)@ =~= Seq::<(K, V)>::empty(),
            final(alloc).wf(),
            final(alloc).spec_budget() == old(alloc).spec_budget(),
            final(alloc).spec_allocated() == old(alloc).spec_allocated(),
            final(alloc).spec_freed() == old(alloc).spec_freed() + old(self)@.len(),
    {
        let mut out: Vec<(K, V)> = Vec::new();
        loop
            invariant
                alloc.wf(),
                alloc.spec_budget() == old(alloc).spec_budget(),
                alloc.spec_allocated() == old(alloc).spec_allocated(),
                alloc.spec_freed() == old(alloc).spec_freed() + out@.len(),
                out@ + self@ == old(self)@,
                self@.len() <= alloc.spec_outstanding(),
            ensures
                self@.len() == 0,
            decreases self@.len(),
        {
            let ghost chain = self@;
            match self.head.take() {
                None => {
                    break;
                }
                Some(b) => {
                    proof {
                        assert(chain[0] == (b.key, b.val));
                        assert(chain.drop_first() =~= SinglyLinkedListNode::chain_view(b.next));
                    }
                    let taken = *b;
                    self.head = taken.next;
                    alloc.deallocate(1);
                    out.push((taken.key, taken.val));
                    proof {
                        assert(out@ + self@ =~= old(self)@);
                    }
                }
            }
        }
        proof {
            assert(out@ =~= old(self)@);
        }
        out
    }

    /// Consumes every node, releasing its storage; the bucket ends empty.
    pub fn clear(&mut self, alloc: &mut Allocator)
        requires
            old(alloc).wf(),
            old(self)@.len() <= old(alloc).spec_outstanding(),
        ensures
            final(self)@ =~= Seq::<(K, V)>::empty(),
            final(alloc).wf(),
            final(alloc).spec_budget() == old(alloc).spec_budget(),
            final(alloc).spec_allocated() == old(alloc).spec_allocated(),
            final(alloc).spec_freed() == old(alloc).spec_freed() + old(self)@.len(),
    {
        let _ = self.drain(alloc);
    }

    /// Unlinks the head entry without releasing its storage unit: the unit
    /// travels with the entry until it is attached to another bucket.
    /// Serves the rehash path, where nodes change buckets but never owners.
    pub(crate) fn detach_first(&mut self) -> (r: Option<(K, V)>)
        ensures
            match r {
                None => *final(self) == *old(self) && old(self)@.len() == 0,
                Some(e) => old(self)@.len() > 0 && e == old(self)@[0] && final(self)@ == old(
                    self,
                )@.drop_first(),
            },
    {
        match self.head.take() {
            None => None,
            Some(b) => {
                let taken = *b;
                self.head = taken.next;
                Some((taken.key, taken.val))
            }
        }
    }

    /// Links one migrated entry at the head, reusing the storage unit that
    /// came detached with it.
    pub(crate) fn attach_front(&mut self, key: K, val: V)
        ensures
            final(self)@ == seq![(key, val)] + old(self)@,
    {
        let mut node = SinglyLinkedListNode::detached(key, val);
        node.next = self.head.take();
        let ghost rest = SinglyLinkedListNode::chain_view(node.next);
        self.head = Some(node);
        proof {
            assert(self@ =~= seq![(key, val)] + rest);
        }
    }
}

impl<K: HashKey, V: Copy> SLLBucket<K, V> {
    /// Copies the entries out in chain order, leaving the bucket as it is.
    pub fn entries(&self) -> (r: Vec<(K, V)>)
        ensures
            r@ == self@,
    {
        let mut out: Vec<(K, V)> = Vec::new();
        let mut cur: &Option<Box<SinglyLinkedListNode<K, V>>> = &self.head;
        loop
            invariant
                out@ + SinglyLinkedListNode::chain_view(*cur) == self@,
            ensures
                SinglyLinkedListNode::chain_view(*cur).len() == 0,
            decreases SinglyLinkedListNode::chain_view(*cur).len(),
        {
            match cur {
                None => {
                    break;
                }
                Some(b) => {
                    let ghost chain = SinglyLinkedListNode::chain_view(*cur);
                    proof {
                        assert(chain[0] == (b.key, b.val));
                        assert(chain.drop_first() =~= SinglyLinkedListNode::chain_view(b.next));
                    }
                    out.push((b.key, b.val));
                    cur = &b.next;
                    proof {
                        assert(out@ + SinglyLinkedListNode::chain_view(*cur) =~= self@);
                    }
                }
            }
        }
        proof {
            assert(out@ =~= self@);
        }
        out
    }

    /// A cursor over a copy of the bucket's entries, head first.
    pub fn iter(&self) -> (r: SLLBucketIter<K, V>)
        ensures
            r.remaining() == self@,
    {
        SLLBucketIter { items: self.entries() }
    }

    /// Drains the bucket into a cursor: the bucket is empty from this call
    /// on, its nodes consumed and their storage released.
    pub fn drain_iter(&mut self, alloc: &mut Allocator) -> (r: SLLBucketDrain<K, V>)
        requires
            old(alloc).wf(),
            old(self)@.len() <= old(alloc).spec_outstanding(),
        ensures
            r.remaining() == old(self)@,
            final(self)@ =~= Seq::<(K, V)>::empty(),
            final(alloc).wf(),
            final(alloc).spec_budget() == old(alloc).spec_budget(),
            final(alloc).spec_allocated() == old(alloc).spec_allocated(),
            final(alloc).spec_freed() == old(alloc).spec_freed() + old(self)@.len(),
    {
        SLLBucketDrain { items: self.drain(alloc) }
    }
}

/// A cursor over a copy of one bucket's entries.
pub struct SLLBucketIter<K, V> {
    items: Vec<(K, V)>,
}

impl<K, V> SLLBucketIter<K, V> {
    /// The entries not yet handed out.
    pub closed spec fn remaining(&self) -> Seq<(K, V)> {
        self.items@
    }

    /// Hands out the next entry, front first.
    pub fn next(&mut self) -> (r: Option<(K, V)>)
        ensures
            old(self).remaining().len() == 0 ==> r is None && final(self).remaining()
                == old(self).remaining(),
            old(self).remaining().len() > 0 ==> {
                &&& r == Some(old(self).remaining()[0])
                &&& final(self).remaining() == old(self).remaining().drop_first()
            },
    {
        if self.items.len() > 0 {
            let e = self.items.remove(0);
            proof {
                assert(final(self).remaining() =~= old(self).remaining().drop_first());
            }
            Some(e)
        } else {
            None
        }
    }
}

/// A cursor over the entries drained out of one bucket.
pub struct SLLBucketDrain<K, V> {
    items: Vec<(K, V)>,
}

impl<K, V> SLLBucketDrain<K, V> {
    /// The entries not yet handed out.
    pub closed spec fn remaining(&self) -> Seq<(K, V)> {
        self.items@
    }

    /// Hands out the next drained entry, front first.
    pub fn next(&mut self) -> (r: Option<(K, V)>)
        ensures
            old(self).remaining().len() == 0 ==> r is None && final(self).remaining()
                == old(self).remaining(),
            old(self).remaining().len() > 0 ==> {
                &&& r == Some(old(self).remaining()[0])
                &&& final(self).remaining() == old(self).remaining().drop_first()
            },
    {
        if self.items.len() > 0 {
            let e = self.items.remove(0);
            proof {
                assert(final(self).remaining() =~= old(self).remaining().drop_first());
            }
            Some(e)
        } else {
            None
        }
    }
}

/// The first match decides the search: with no earlier match, `find_entry`
/// answers the entry at `i`.
pub proof fn lemma_find_entry_first_match<K, V>(s: Seq<(K, V)>, k: K, i: int)
    requires
        0 <= i < s.len(),
        s[i].0 == k,
        forall|j: int| 0 <= j < i ==> s[j].0 != k,
    ensures
        find_entry(s, k) == Some(s[i]),
    decreases i,
{
    if i > 0 {
        assert forall|j: int| 0 <= j < i - 1 implies s.drop_first()[j].0 != k by {
            assert(s.drop_first()[j] == s[j + 1]);
        }
        lemma_find_entry_first_match(s.drop_first(), k, i - 1);
    }
}

/// With no earlier match, removing the key removes exactly the entry at
/// its first match.
pub proof fn lemma_remove_entry_first_match<K, V>(s: Seq<(K, V)>, k: K, i: int)
    requires
        0 <= i < s.len(),
        s[i].0 == k,
        forall|j: int| 0 <= j < i ==> s[j].0 != k,
    ensures
        remove_entry(s, k) == s.remove(i),
    decreases i,
{
    if i == 0 {
        assert(remove_entry(s, k) =~= s.remove(0));
    } else {
        assert forall|j: int| 0 <= j < i - 1 implies s.drop_first()[j].0 != k by {
            assert(s.drop_first()[j] == s[j + 1]);
        }
        lemma_remove_entry_first_match(s.drop_first(), k, i - 1);
        assert(remove_entry(s, k) == seq![s[0]] + s.drop_first().remove(i - 1));
        assert(remove_entry(s, k) =~= s.remove(i));
    }
}

/// Without any match, removing the key changes nothing.
pub proof fn lemma_remove_entry_no_match<K, V>(s: Seq<(K, V)>, k: K)
    requires
        forall|j: int| 0 <= j < s.len() ==> s[j].0 != k,
    ensures
        remove_entry(s, k) == s,
        find_entry(s, k) is None,
    decreases s.len(),
{
    if s.len() != 0 {
        assert forall|j: int| 0 <= j < s.drop_first().len() implies s.drop_first()[j].0 != k by {
            assert(s.drop_first()[j] == s[j + 1]);
        }
        lemma_remove_entry_no_match(s.drop_first(), k);
        assert(remove_entry(s, k) =~= s);
    }
}

/// A collision bucket that keeps its entries in one flat array: the
/// alternative strategy to the linked chain, under the same interface.
/// One storage unit per entry is charged, exactly as for chain nodes.
pub struct ArrayBucket<K, V> {
    entries: Vec<(K, V)>,
}

impl<K: HashKey, V> ArrayBucket<K, V> {
    /// The entries in bucket order, newest first.
    pub closed spec fn entries_view(&self) -> Seq<(K, V)> {
        self.entries@
    }

    /// An empty bucket tied to no storage.
    pub fn new_in() -> (r: Self)
        ensures
            r.entries_view() =~= Seq::<(K, V)>::empty(),
    {
        ArrayBucket { entries: Vec::new() }
    }

    /// Whether the bucket holds no entry.
    pub fn is_empty(&self) -> (r: bool)
        ensures
            r == (self.entries_view().len() == 0),
    {
        self.entries.len() == 0
    }

    /// Index of the first entry under `key`, if any.
    fn position(&self, key: &K) -> (r: Option<usize>)
        ensures
            match r {
                Some(i) => {
                    &&& i < self.entries_view().len()
                    &&& self.entries_view()[i as int].0 == *key
                    &&& forall|j: int| 0 <= j < i ==> self.entries_view()[j].0 != *key
                },
                None => forall|j: int|
                    0 <= j < self.entries_view().len() ==> self.entries_view()[j].0 != *key,
            },
    {
        let mut i: usize = 0;
        while i < self.entries.len()
            invariant
                i <= self.entries_view().len(),
                forall|j: int| 0 <= j < i ==> self.entries_view()[j].0 != *key,
            decreases self.entries_view().len() - i,
        {
            if self.entries[i].0.key_eq(key) {
                return Some(i);
            }
            i = i + 1;
        }
        None
    }

    /// A reference to the value under `key`, if any.
    pub fn get<'a>(&'a self, key: &K) -> (r: Option<&'a V>)
        ensures
            match r {
                Some(v) => find_entry(self.entries_view(), *key) == Some((*key, *v)),
                None => find_entry(self.entries_view(), *key) is None,
            },
    {
        match self.position(key) {
            Some(i) => {
                proof {
                    lemma_find_entry_first_match(self.entries_view(), *key, i as int);
                }
                Some(&self.entries[i].1)
            }
            None => {
                proof {
                    lemma_remove_entry_no_match(self.entries_view(), *key);
                }
                None
            }
        }
    }

    /// Inserts at the front of the array, evicting any entry under the
    /// same key first; allocation failure leaves the bucket unchanged.
    pub fn insert(&mut self, key: K, value: V, alloc: &mut Allocator) -> (r: Result<
        Option<(K, V)>,
        AllocError,
    >)
        requires
            old(alloc).wf(),
            old(self).entries_view().len() <= old(alloc).spec_outstanding(),
        ensures
            final(alloc).wf(),
            final(alloc).spec_budget() == old(alloc).spec_budget(),
            match r {
                Ok(evicted) => {
                    &&& final(self).entries_view() == seq![(key, value)] + remove_entry(
                        old(self).entries_view(),
                        key,
                    )
                    &&& evicted == find_entry(old(self).entries_view(), key)
                    &&& final(alloc).spec_allocated() == old(alloc).spec_allocated() + 1
                    &&& final(alloc).spec_freed() == old(alloc).spec_freed() + if evicted
                        is Some {
                        1int
                    } else {
                        0int
                    }
                },
                Err(_) => {
                    &&& *final(self) == *old(self)
                    &&& *final(alloc) == *old(alloc)
                    &&& !old(alloc).can_allocate(1)
                },
            },
    {
        match alloc.allocate(1) {
            Err(e) => {
                return Err(e);
            }
            Ok(()) => {}
        }
        let evicted = self.take_first(&key, alloc);
        self.entries.insert(0, (key, value));
        proof {
            assert(self.entries_view() =~= seq![(key, value)] + remove_entry(
                old(self).entries_view(),
                key,
            ));
        }
        Ok(evicted)
    }

    /// Unlinks and consumes the entry under `key`, releasing its storage.
    pub fn remove(&mut self, key: &K, alloc: &mut Allocator) -> (r: Option<(K, V)>)
        requires
            old(alloc).wf(),
            old(self).entries_view().len() <= old(alloc).spec_outstanding(),
        ensures
            final(self).entries_view() == remove_entry(old(self).entries_view(), *key),
            r == find_entry(old(self).entries_view(), *key),
            final(alloc).wf(),
            final(alloc).spec_budget() == old(alloc).spec_budget(),
            final(alloc).spec_allocated() == old(alloc).spec_allocated(),
            final(alloc).spec_freed() == old(alloc).spec_freed() + if r is Some {
                1int
            } else {
                0int
            },
    {
        self.take_first(key, alloc)
    }

    fn take_first(&mut self, key: &K, alloc: &mut Allocator) -> (r: Option<(K, V)>)
        requires
            old(alloc).wf(),
            old(self).entries_view().len() <= old(alloc).spec_outstanding(),
        ensures
            final(self).entries_view() == remove_entry(old(self).entries_view(), *key),
            r == find_entry(old(self).entries_view(), *key),
            final(alloc).wf(),
            final(alloc).spec_budget() == old(alloc).spec_budget(),
            final(alloc).spec_allocated() == old(alloc).spec_allocated(),
            final(alloc).spec_freed() == old(alloc).spec_freed() + if r is Some {
                1int
            } else {
                0int
            },
    {
        match self.position(key) {
            Some(i) => {
                proof {
                    lemma_find_entry_first_match(self.entries_view(), *key, i as int);
                    lemma_remove_entry_first_match(self.entries_view(), *key, i as int);
                }
                let e = self.entries.remove(i);
                alloc.deallocate(1);
                Some(e)
            }
            None => {
                proof {
                    lemma_remove_entry_no_match(self.entries_view(), *key);
                }
                None
            }
        }
    }

    /// Consumes every entry, releasing its storage; the bucket ends empty.
    pub fn clear(&mut self, alloc: &mut Allocator)
        requires
            old(alloc).wf(),
            old(self).entries_view().len() <= old(alloc).spec_outstanding(),
        ensures
            final(self).entries_view() =~= Seq::<(K, V)>::empty(),
            final(alloc).wf(),
            final(alloc).spec_budget() == old(alloc).spec_budget(),
            final(alloc).spec_allocated() == old(alloc).spec_allocated(),
            final(alloc).spec_freed() == old(alloc).spec_freed() + old(self).entries_view().len(),
    {
        let n = self.entries.len();
        self.entries.clear();
        alloc.deallocate(n);
    }

    /// Unlinks the first entry without releasing its storage unit.
    pub fn detach_first(&mut self) -> (r: Option<(K, V)>)
        ensures
            match r {
                None => *final(self) == *old(self) && old(self).entries_view().len() == 0,
                Some(e) => {
                    &&& old(self).entries_view().len() > 0
                    &&& e == old(self).entries_view()[0]
                    &&& final(self).entries_view() == old(self).entries_view().drop_first()
                },
            },
    {
        if self.entries.len() == 0 {
            None
        } else {
            let e = self.entries.remove(0);
            proof {
                assert(self.entries_view() =~= old(self).entries_view().drop_first());
            }
            Some(e)
        }
    }

    /// Links one migrated entry at the front, reusing the storage unit
    /// that came detached with it.
    pub fn attach_front(&mut self, key: K, val: V)
        ensures
            final(self).entries_view() == seq![(key, val)] + old(self).entries_view(),
    {
        self.entries.insert(0, (key, val));
        proof {
            assert(self.entries_view() =~= seq![(key, val)] + old(self).entries_view());
        }
    }
}

} // verus!
