//! The bit vectors and bit arrays of the `bitvec` crate, as the filters use
//! them.

use bitvec::array::BitArray;
use bitvec::order::{Lsb0, Msb0};
use bitvec::vec::BitVec;
use vstd::prelude::*;

verus! {

/// A vector of bits that keeps its length, held in a `bitvec::vec::BitVec`.
#[verifier::external_body]
#[derive(Debug)]
pub struct BitVecStore {
    bits: BitVec<usize, Lsb0>,
}

/// An array of 32 bits, held in a `bitvec::array::BitArray` over one `u32`.
#[verifier::external_body]
pub struct BitArrayStore {
    bits: BitArray<[u32; 1], Msb0>,
}

/// The bits that a bit vector holds, in index order.
pub uninterp spec fn bitvec_bits(store: BitVecStore) -> Seq<bool>;

/// The bits that a bit array holds, in index order.
pub uninterp spec fn bitarray_bits(store: BitArrayStore) -> Seq<bool>;

impl View for BitVecStore {
    type V = Seq<bool>;

    open spec fn view(&self) -> Seq<bool> {
        bitvec_bits(*self)
    }
}

impl View for BitArrayStore {
    type V = Seq<bool>;

    open spec fn view(&self) -> Seq<bool> {
        bitarray_bits(*self)
    }
}

impl BitVecStore {
    /// `BitVec::repeat(false, len)`: a bit vector of `len` zero bits. The
    /// call panics where `len` is more than a bit vector can address, an
    /// eighth of the address space.
    #[verifier::external_body]
    pub(crate) fn zeroed(len: usize) -> (store: Self)
        requires
            len <= usize::MAX / 8,
        ensures
            bitvec_bits(store) == Seq::new(len as nat, |i: int| false),
    {
        BitVecStore { bits: BitVec::repeat(false, len) }
    }

    /// `BitVec::len`: the number of bits in the vector.
    #[verifier::external_body]
    pub(crate) fn len(&self) -> (len: usize)
        ensures
            len == bitvec_bits(*self).len(),
    {
        self.bits.len()
    }

    /// `BitSlice::set` on a bit vector: writes one bit and leaves the others.
    /// The call panics on an index out of bounds, and on no other.
    #[verifier::external_body]
    pub(crate) fn set(&mut self, index: usize, value: bool)
        requires
            index < bitvec_bits(*old(self)).len(),
        ensures
            bitvec_bits(*final(self)) == bitvec_bits(*old(self)).update(index as int, value),
        no_unwind
    {
        self.bits.set(index, value)
    }

    /// Indexing a bit vector: reads one bit. The call panics on an index out
    /// of bounds.
    #[verifier::external_body]
    pub(crate) fn get(&self, index: usize) -> (value: bool)
        requires
            index < bitvec_bits(*self).len(),
        ensures
            value == bitvec_bits(*self)[index as int],
    {
        self.bits[index]
    }
}

impl BitArrayStore {
    /// `BitArray::ZERO` over one `u32`: 32 zero bits.
    #[verifier::external_body]
    pub(crate) fn zeroed() -> (store: Self)
        ensures
            bitarray_bits(store) == Seq::new(32, |i: int| false),
    {
        BitArrayStore { bits: BitArray::ZERO }
    }

    /// `BitSlice::set` on a bit array: writes one bit and leaves the others.
    /// The call panics on an index out of bounds, and on no other.
    #[verifier::external_body]
    pub(crate) fn set(&mut self, index: usize, value: bool)
        requires
            index < bitarray_bits(*old(self)).len(),
        ensures
            bitarray_bits(*final(self)) == bitarray_bits(*old(self)).update(index as int, value),
        no_unwind
    {
        self.bits.set(index, value)
    }

    /// Indexing a bit array: reads one bit. The call panics on an index out
    /// of bounds.
    #[verifier::external_body]
    pub(crate) fn get(&self, index: usize) -> (value: bool)
        requires
            index < bitarray_bits(*self).len(),
        ensures
            value == bitarray_bits(*self)[index as int],
    {
        self.bits[index]
    }
}

} // verus!
