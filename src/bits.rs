use bitvec::vec::BitVec;
use vstd::prelude::*;

verus! {

/// A growable sequence of bits held in a `bitvec::vec::BitVec`.
#[verifier::external_body]
pub struct Bits {
    v: BitVec,
}

/// The bits held, in index order.
pub uninterp spec fn bits_of(b: Bits) -> Seq<bool>;

/// The largest length that `BitVec::repeat` accepts without panicking.
pub open spec fn max_bits() -> int {
    usize::MAX as int / 8
}

impl Bits {
    /// Relies on `BitVec::repeat`: `len` copies of `bit`; it panics only above
    /// `BitSlice::MAX_BITS`, which is `usize::MAX >> 3`.
    #[verifier::external_body]
    pub(crate) fn repeat(bit: bool, len: usize) -> (r: Bits)
        requires
            len <= max_bits(),
        ensures
            bits_of(r) == Seq::new(len as nat, |i: int| bit),
    {
        Bits { v: BitVec::repeat(bit, len) }
    }

    /// Relies on indexing a `BitSlice` by `usize`: the bit at `i`, which
    /// exists below the length.
    #[verifier::external_body]
    pub(crate) fn get(&self, i: usize) -> (r: bool)
        requires
            i < bits_of(*self).len(),
        ensures
            r == bits_of(*self)[i as int],
    {
        self.v[i]
    }

    /// Relies on `BitSlice::set`: writes the bit at `i` and leaves the others
    /// and the length as they were; it panics only at `i` past the length.
    #[verifier::external_body]
    pub(crate) fn set(&mut self, i: usize, value: bool)
        requires
            i < bits_of(*old(self)).len(),
        ensures
            bits_of(*final(self)) == bits_of(*old(self)).update(i as int, value),
    {
        self.v.set(i, value)
    }

    /// Relies on `Clone for BitVec`: a new vector with the same bits.
    #[verifier::external_body]
    pub(crate) fn duplicate(&self) -> (r: Bits)
        ensures
            bits_of(r) == bits_of(*self),
    {
        Bits { v: self.v.clone() }
    }
}

} // verus!
