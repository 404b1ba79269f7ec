//! The bit table that backs the frame ledger, kept in a `bitvec` bit-vector.
//!
//! Verus cannot read `bitvec`'s generic types, so the bit-vector is held in a
//! private field of `FrameBits`, whose contents are named by `bits_of`.

use vstd::prelude::*;
use bitvec::order::Lsb0;
use bitvec::vec::BitVec;

verus! {

/// A table of bits, one per physical frame; `true` marks a frame in use.
#[verifier::external_body]
pub struct FrameBits {
    bits: BitVec<usize, Lsb0>,
}

/// The bits that a table holds, lowest index first.
pub uninterp spec fn bits_of(t: FrameBits) -> Seq<bool>;

impl FrameBits {
    /// Relies on `BitVec::repeat`: a vector of `len` bits, each equal to `bit`.
    /// It panics past `usize::MAX >> 3` bits, the most a bit-vector encodes.
    #[verifier::external_body]
    pub(crate) fn repeat(bit: bool, len: usize) -> (r: FrameBits)
        requires
            len <= usize::MAX / 8,
        ensures
            bits_of(r) == Seq::new(len as nat, |i: int| bit),
    {
        FrameBits { bits: BitVec::repeat(bit, len) }
    }

    /// Relies on `BitVec::len`: the number of bits held.
    #[verifier::external_body]
    pub(crate) fn len(&self) -> (r: usize)
        ensures
            r == bits_of(*self).len(),
    {
        self.bits.len()
    }

    /// Relies on `BitSlice`'s indexing: the bit at `index`; it panics out of bounds.
    #[verifier::external_body]
    pub(crate) fn get(&self, index: usize) -> (r: bool)
        requires
            index < bits_of(*self).len(),
        ensures
            r == bits_of(*self)[index as int],
    {
        self.bits[index]
    }

    /// Relies on `BitSlice::first_zero`: the lowest index of a `false` bit, if any.
    #[verifier::external_body]
    pub(crate) fn first_zero(&self) -> (r: Option<usize>)
        ensures
            match r {
                Some(i) => i < bits_of(*self).len() && !bits_of(*self)[i as int]
                    && forall|j: int| 0 <= j < i ==> #[trigger] bits_of(*self)[j],
                None => forall|j: int| 0 <= j < bits_of(*self).len() ==> #[trigger] bits_of(*self)[j],
            },
    {
        self.bits.first_zero()
    }

    /// Relies on `BitSlice::set`: writes `value` at `index`; it panics out of bounds.
    #[verifier::external_body]
    pub(crate) fn set(&mut self, index: usize, value: bool)
        requires
            index < bits_of(*old(self)).len(),
        ensures
            bits_of(*final(self)) == bits_of(*old(self)).update(index as int, value),
    {
        self.bits.set(index, value)
    }

    /// Relies on `BitSlice::not_any` over the sub-slice `start..end`: whether
    /// every bit there is `false`. Slicing panics outside the table.
    #[verifier::external_body]
    pub(crate) fn none_set(&self, start: usize, end: usize) -> (r: bool)
        requires
            start <= end <= bits_of(*self).len(),
        ensures
            r == forall|j: int| start <= j < end ==> !#[trigger] bits_of(*self)[j],
    {
        self.bits[start..end].not_any()
    }

    /// Relies on `BitSlice::fill` over the sub-slice `start..end`: every bit
    /// there becomes `value`, the others stay. Slicing panics outside the table.
    #[verifier::external_body]
    pub(crate) fn fill(&mut self, start: usize, end: usize, value: bool)
        requires
            start <= end <= bits_of(*old(self)).len(),
        ensures
            bits_of(*final(self)).len() == bits_of(*old(self)).len(),
            forall|j: int| 0 <= j < bits_of(*old(self)).len() ==> #[trigger] bits_of(*final(self))[j]
                == if start <= j < end { value } else { bits_of(*old(self))[j] },
    {
        self.bits[start..end].fill(value)
    }
}

} // verus!
