//! Bit strings: packed bits with exact per-bit contracts.
//!
//! A [`BitContainer`] packs eight bits into one byte; [`FixedBitString`]
//! keeps a fixed number of containers and is viewed as the sequence of its
//! bits; [`BitString`] is its growable sibling. Every operation says
//! exactly which bit changes and that no other does.

use vstd::prelude::*;

verus! {

/// Bit `i` of the byte `b`, lowest first.
pub open spec fn nth_bit(b: u8, i: u8) -> bool {
    (b >> i) & 1u8 == 1u8
}

/// Eight bits packed into one byte.
#[derive(Clone, Copy, PartialEq, Eq, Debug)]
pub struct BitContainer(pub u8);

impl BitContainer {
    /// Sets bit `idx % 8` to `val`, leaving the other bits alone.
    pub fn set(&mut self, idx: usize, val: bool)
        ensures
            forall|j: u8| j < 8 ==> nth_bit(final(self).0, j) == if j == (idx % 8) as u8 {
                val
            } else {
                nth_bit(old(self).0, j)
            },
    {
        let k: u8 = (idx % 8) as u8;
        let ghost b0 = self.0;
        if val {
            self.0 = self.0 | (1u8 << k);
        } else {
            self.0 = self.0 & !(1u8 << k);
        }
        proof {
            assert forall|j: u8| j < 8 implies nth_bit(self.0, j) == if j == k {
                val
            } else {
                nth_bit(b0, j)
            } by {
                if val {
                    assert(j < 8 && k < 8 ==> (((b0 | (1u8 << k)) >> j) & 1u8 == 1u8) == (if j
                        == k {
                        true
                    } else {
                        (b0 >> j) & 1u8 == 1u8
                    })) by (bit_vector);
                } else {
                    assert(j < 8 && k < 8 ==> (((b0 & !(1u8 << k)) >> j) & 1u8 == 1u8) == (if j
                        == k {
                        false
                    } else {
                        (b0 >> j) & 1u8 == 1u8
                    })) by (bit_vector);
                }
            }
        }
    }

    /// Reads bit `idx % 8`.
    pub fn get(&self, idx: usize) -> (r: bool)
        ensures
            r == nth_bit(self.0, (idx % 8) as u8),
    {
        let k: u8 = (idx % 8) as u8;
        (self.0 >> k) & 1u8 == 1u8
    }

    /// Flips bit `index % 8`, leaving the other bits alone.
    pub fn toggle(&mut self, index: usize)
        ensures
            forall|j: u8| j < 8 ==> nth_bit(final(self).0, j) == if j == (index % 8) as u8 {
                !nth_bit(old(self).0, j)
            } else {
                nth_bit(old(self).0, j)
            },
    {
        let k: u8 = (index % 8) as u8;
        let ghost b0 = self.0;
        self.0 = self.0 ^ (1u8 << k);
        proof {
            assert forall|j: u8| j < 8 implies nth_bit(self.0, j) == if j == k {
                !nth_bit(b0, j)
            } else {
                nth_bit(b0, j)
            } by {
                assert(j < 8 && k < 8 ==> (((b0 ^ (1u8 << k)) >> j) & 1u8 == 1u8) == (if j == k {
                    !((b0 >> j) & 1u8 == 1u8)
                } else {
                    (b0 >> j) & 1u8 == 1u8
                })) by (bit_vector);
            }
        }
    }
}

impl Default for BitContainer {
    /// All eight bits zero.
    fn default() -> (r: Self)
        ensures
            r.0 == 0,
    {
        BitContainer(0)
    }
}

/// A fixed-width bit string of `N` containers, so `8 * N` bits.
pub struct FixedBitString<const N: usize> {
    inner: Vec<BitContainer>,
}

impl<const N: usize> View for FixedBitString<N> {
    type V = Seq<bool>;

    /// The bits, lowest container first, lowest bit first.
    closed spec fn view(&self) -> Seq<bool> {
        Seq::new((8 * N) as nat, |i: int| nth_bit(self.inner@[i / 8].0, (i % 8) as u8))
    }
}

impl<const N: usize> FixedBitString<N> {
    /// Exactly `N` containers behind the bits.
    pub closed spec fn wf(&self) -> bool {
        self.inner@.len() == N
    }

    /// A bit string of `8 * N` zero bits.
    pub fn new() -> (r: Self)
        requires
            8 * N <= usize::MAX,
        ensures
            r.wf(),
            r@.len() == 8 * N,
            forall|i: int| 0 <= i < 8 * N ==> !r@[i],
    {
        let mut inner: Vec<BitContainer> = Vec::new();
        while inner.len() < N
            invariant
                inner@.len() <= N,
                forall|j: int| 0 <= j < inner@.len() ==> (#[trigger] inner@[j]).0 == 0,
            decreases N - inner@.len(),
        {
            inner.push(BitContainer(0));
        }
        let r = FixedBitString { inner };
        proof {
            assert forall|i: int| 0 <= i < 8 * N implies !r@[i] by {
                let j: u8 = (i % 8) as u8;
                assert(j < 8 ==> ((0u8 >> j) & 1u8 != 1u8)) by (bit_vector);
            }
        }
        r
    }

    /// Sets every bit back to zero.
    pub fn reset(&mut self)
        requires
            old(self).wf(),
            8 * N <= usize::MAX,
        ensures
            final(self).wf(),
            final(self)@.len() == 8 * N,
            forall|i: int| 0 <= i < 8 * N ==> !final(self)@[i],
    {
        let fresh = Self::new();
        self.inner = fresh.inner;
    }

    /// Sets the bit at `idx` to `val`, leaving every other bit alone.
    pub fn set(&mut self, idx: usize, val: bool)
        requires
            old(self).wf(),
            idx < 8 * N,
        ensures
            final(self).wf(),
            final(self)@ == old(self)@.update(idx as int, val),
    {
        let c = idx / 8;
        proof {
            assert(0 <= idx as int / 8 < N);
        }
        let slot = &mut self.inner[c];
        slot.set(idx, val);
        proof {
            assert(idx as int % 8 == (idx % 8) as int);
            assert forall|i: int| 0 <= i < 8 * N implies self@[i] == old(self)@.update(
                idx as int,
                val,
            )[i] by {
                if i / 8 == idx as int / 8 {
                    if i == idx as int {
                    } else {
                        assert((i % 8) as u8 != (idx as int % 8) as u8);
                    }
                } else {
                    assert(self.inner@[i / 8] == old(self).inner@[i / 8]);
                }
            }
            assert(self@ =~= old(self)@.update(idx as int, val));
        }
    }

    /// Flips the bit at `index`, leaving every other bit alone.
    pub fn toggle(&mut self, index: usize)
        requires
            old(self).wf(),
            index < 8 * N,
        ensures
            final(self).wf(),
            final(self)@ == old(self)@.update(index as int, !old(self)@[index as int]),
    {
        let c = index / 8;
        proof {
            assert(0 <= index as int / 8 < N);
        }
        let slot = &mut self.inner[c];
        slot.toggle(index);
        proof {
            assert(index as int % 8 == (index % 8) as int);
            assert forall|i: int| 0 <= i < 8 * N implies self@[i] == old(self)@.update(
                index as int,
                !old(self)@[index as int],
            )[i] by {
                if i / 8 == index as int / 8 {
                    if i == index as int {
                    } else {
                        assert((i % 8) as u8 != (index as int % 8) as u8);
                    }
                } else {
                    assert(self.inner@[i / 8] == old(self).inner@[i / 8]);
                }
            }
            assert(self@ =~= old(self)@.update(index as int, !old(self)@[index as int]));
        }
    }

    /// Reads the bit at `idx`; out of range answers `None`.
    pub fn get(&self, idx: usize) -> (r: Option<bool>)
        requires
            self.wf(),
            8 * N <= usize::MAX,
        ensures
            idx < 8 * N ==> r == Some(self@[idx as int]),
            idx >= 8 * N ==> r is None,
    {
        if idx < 8 * N {
            let c = idx / 8;
            proof {
                assert(0 <= idx as int / 8 < N);
                assert(idx as int % 8 == (idx % 8) as int);
            }
            Some(self.inner[c].get(idx))
        } else {
            None
        }
    }

    /// Whether every bit is zero.
    pub fn is_empty(&self) -> (r: bool)
        requires
            self.wf(),
            8 * N <= usize::MAX,
        ensures
            r <==> forall|i: int| 0 <= i < 8 * N ==> !self@[i],
    {
        let end: usize = 8 * N;
        let mut i: usize = 0;
        while i < end
            invariant
                self.wf(),
                8 * N <= usize::MAX,
                end == 8 * N,
                i <= end,
                forall|j: int| 0 <= j < i ==> !self@[j],
            decreases end - i,
        {
            let bit = match self.get(i) {
                Some(b) => b,
                None => vstd::pervasive::unreached(),
            };
            if bit {
                return false;
            }
            i = i + 1;
        }
        true
    }

    /// Copies `slice` into the bits from `idx` on, one bit per entry,
    /// leaving every bit outside that window alone.
    pub fn copy_from_bool_slice(&mut self, idx: usize, slice: &[bool])
        requires
            old(self).wf(),
            idx + slice@.len() <= 8 * N,
            8 * N <= usize::MAX,
        ensures
            final(self).wf(),
            final(self)@.len() == old(self)@.len(),
            forall|i: int| 0 <= i < 8 * N ==> final(self)@[i] == if idx <= i < idx + slice@.len() {
                slice@[i - idx]
            } else {
                old(self)@[i]
            },
    {
        let mut k: usize = 0;
        while k < slice.len()
            invariant
                self.wf(),
                k <= slice@.len(),
                idx + slice@.len() <= 8 * N,
                8 * N <= usize::MAX,
                self@.len() == old(self)@.len(),
                forall|i: int| 0 <= i < 8 * N ==> self@[i] == if idx <= i < idx + k {
                    slice@[i - idx]
                } else {
                    old(self)@[i]
                },
            decreases slice@.len() - k,
        {
            let b = slice[k];
            self.set(idx + k, b);
            k = k + 1;
        }
    }

    /// A cursor over a copy of the bits, lowest first.
    pub fn iter(&self) -> (r: BitStringIterator)
        requires
            self.wf(),
            8 * N <= usize::MAX,
        ensures
            r.remaining() == self@,
    {
        let end: usize = 8 * N;
        let mut bits: Vec<bool> = Vec::new();
        let mut i: usize = 0;
        while i < end
            invariant
                self.wf(),
                8 * N <= usize::MAX,
                end == 8 * N,
                i <= end,
                bits@ == self@.take(i as int),
            decreases end - i,
        {
            let bit = match self.get(i) {
                Some(b) => b,
                None => vstd::pervasive::unreached(),
            };
            bits.push(bit);
            i = i + 1;
            proof {
                assert(bits@ =~= self@.take(i as int));
            }
        }
        proof {
            assert(self@.take(self@.len() as int) =~= self@);
        }
        BitStringIterator { bits }
    }
}

/// A growable bit string backed by a vector of containers.
pub struct BitString {
    data: Vec<BitContainer>,
}

impl View for BitString {
    type V = Seq<bool>;

    /// The bits, lowest container first, lowest bit first.
    closed spec fn view(&self) -> Seq<bool> {
        Seq::new((8 * self.data@.len()) as nat, |i: int| nth_bit(self.data@[i / 8].0, (
        i % 8) as u8))
    }
}

impl BitString {
    /// An empty bit string.
    pub fn new() -> (r: Self)
        ensures
            r@ =~= Seq::<bool>::empty(),
    {
        BitString { data: Vec::new() }
    }

    /// Appends one container's worth of eight bits.
    pub fn push_byte(&mut self, byte: u8)
        requires
            old(self)@.len() + 8 <= usize::MAX,
        ensures
            final(self)@.len() == old(self)@.len() + 8,
            forall|i: int| 0 <= i < old(self)@.len() ==> final(self)@[i] == old(self)@[i],
            forall|j: u8| j < 8 ==> final(self)@[old(self)@.len() + j] == nth_bit(byte, j),
    {
        self.data.push(BitContainer(byte));
        proof {
            assert forall|i: int| 0 <= i < old(self)@.len() implies self@[i] == old(
                self,
            )@[i] by {
                assert(self.data@[i / 8] == old(self).data@[i / 8]);
            }
            assert forall|j: u8| j < 8 implies self@[old(self)@.len() + j] == nth_bit(
                byte,
                j,
            ) by {
                let i: int = old(self)@.len() + j;
                assert(i / 8 == old(self).data@.len());
                assert((i % 8) as u8 == j);
            }
        }
    }

    /// A cursor over a copy of the bits, lowest first.
    pub fn iter(&self) -> (r: BitStringIterator)
        requires
            8 * self@.len() <= usize::MAX,
            self@.len() <= usize::MAX,
        ensures
            r.remaining() == self@,
    {
        let end: usize = self.data.len() * 8;
        let mut bits: Vec<bool> = Vec::new();
        let mut i: usize = 0;
        proof {
            assert(self@.len() == 8 * self.data@.len());
        }
        while i < end
            invariant
                end as int == self@.len(),
                i <= end,
                bits@ == self@.take(i as int),
            decreases end - i,
        {
            let c = i / 8;
            proof {
                assert(0 <= i as int / 8 < self.data@.len());
                assert(i as int % 8 == (i % 8) as int);
            }
            let bit = self.data[c].get(i);
            bits.push(bit);
            i = i + 1;
            proof {
                assert(bits@ =~= self@.take(i as int));
            }
        }
        proof {
            assert(self@.take(self@.len() as int) =~= self@);
        }
        BitStringIterator { bits }
    }

    /// A cursor that hands out one owned bit handle per bit, for edits
    /// written back by the caller.
    pub fn iter_mut(&mut self) -> (r: BitStringIteratorMut)
        requires
            8 * old(self)@.len() <= usize::MAX,
            old(self)@.len() <= usize::MAX,
        ensures
            *final(self) == *old(self),
            r.remaining() == old(self)@,
    {
        let it = self.iter();
        let BitStringIterator { bits } = it;
        BitStringIteratorMut { bits }
    }
}

impl Default for BitString {
    /// The empty bit string.
    fn default() -> (r: Self)
        ensures
            r@ =~= Seq::<bool>::empty(),
    {
        Self::new()
    }
}

/// A cursor over a copy of a bit string's bits.
pub struct BitStringIterator {
    bits: Vec<bool>,
}

impl BitStringIterator {
    /// The bits not yet handed out.
    pub closed spec fn remaining(&self) -> Seq<bool> {
        self.bits@
    }

    /// Hands out the next bit, lowest first.
    pub fn next(&mut self) -> (r: Option<bool>)
        ensures
            old(self).remaining().len() == 0 ==> r is None && final(self).remaining()
                == old(self).remaining(),
            old(self).remaining().len() > 0 ==> {
                &&& r == Some(old(self).remaining()[0])
                &&& final(self).remaining() == old(self).remaining().drop_first()
            },
    {
        if self.bits.len() > 0 {
            let b = self.bits.remove(0);
            proof {
                assert(final(self).remaining() =~= old(self).remaining().drop_first());
            }
            Some(b)
        } else {
            None
        }
    }
}

/// A cursor that hands out one owned [`BitRefMut`] per bit.
pub struct BitStringIteratorMut {
    bits: Vec<bool>,
}

impl BitStringIteratorMut {
    /// The bits not yet handed out.
    pub closed spec fn remaining(&self) -> Seq<bool> {
        self.bits@
    }

    /// Hands out a bit handle for the next bit, lowest first.
    pub fn next(&mut self) -> (r: Option<BitRefMut>)
        ensures
            old(self).remaining().len() == 0 ==> r is None && final(self).remaining()
                == old(self).remaining(),
            old(self).remaining().len() > 0 ==> {
                &&& r matches Some(h) && h.bit() == old(self).remaining()[0]
                &&& final(self).remaining() == old(self).remaining().drop_first()
            },
    {
        if self.bits.len() > 0 {
            let b = self.bits.remove(0);
            proof {
                assert(final(self).remaining() =~= old(self).remaining().drop_first());
            }
            let mut container = BitContainer(0);
            container.set(0, b);
            proof {
                assert(nth_bit(container.0, 0u8) == b);
            }
            Some(BitRefMut { container, index: 0 })
        } else {
            None
        }
    }
}

/// An owned handle on one bit of a container copy; edits are read back
/// with [`BitRefMut::get`] and written where the caller chooses.
pub struct BitRefMut {
    container: BitContainer,
    index: u8,
}

impl BitRefMut {
    /// The bit the handle stands on.
    pub closed spec fn bit(&self) -> bool {
        nth_bit(self.container.0, self.index % 8)
    }

    /// Reads the bit.
    pub fn get(&self) -> (r: bool)
        ensures
            r == self.bit(),
    {
        self.container.get(self.index as usize)
    }

    /// Writes the bit.
    pub fn set(&mut self, val: bool)
        ensures
            final(self).bit() == val,
    {
        let idx = self.index as usize;
        self.container.set(idx, val);
    }

    /// Flips the bit.
    pub fn toggle(&mut self)
        ensures
            final(self).bit() == !old(self).bit(),
    {
        let idx = self.index as usize;
        self.container.toggle(idx);
    }
}

} // verus!
