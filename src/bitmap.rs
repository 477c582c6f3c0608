//! The bit array of a Bloom filter stage, held in a `bitvec::vec::BitVec`.
//!
//! The bit-vector sits in a private field of `Bitmap`, which is opaque to the
//! verifier; what it holds is named by `bits_of`, and each operation the
//! filters use has a wrapper whose contract states its effect on that sequence.
use bitvec::vec::BitVec;
use vstd::prelude::*;

verus! {

/// A fixed-length array of bits.
#[verifier::external_body]
pub struct Bitmap {
    bits: BitVec,
}

/// The bits held by a bitmap, in index order.
pub uninterp spec fn bits_of(b: Bitmap) -> Seq<bool>;

/// The largest bitmap, in bits, that a bit-vector can hold: bitvec's
/// `BitSlice::MAX_BITS`.
pub const MAX_BITMAP_BITS: usize = usize::MAX >> 3;

/// A bitmap's length plus a byte's worth of bits stays within `usize`.
pub proof fn lemma_bitmap_limit()
    ensures
        MAX_BITMAP_BITS + 8 <= usize::MAX,
{
    let x: usize = usize::MAX;
    assert(x >> 3usize <= x / 8usize) by (bit_vector);
}

/// Relies on `BitVec::repeat`: a vector of `len` bits, all equal to `false`.
/// The crate panics above `usize::MAX >> 3` bits, which is `MAX_BITMAP_BITS`.
#[verifier::external_body]
pub(crate) fn zeroed_bits(len: usize) -> (r: Bitmap)
    requires
        len <= MAX_BITMAP_BITS,
    ensures
        bits_of(r) == Seq::new(len as nat, |i: int| false),
{
    Bitmap { bits: BitVec::repeat(false, len) }
}

/// Relies on indexing a `BitVec`: the bit at `i`, for `i` below the length.
#[verifier::external_body]
pub(crate) fn bit_at(b: &Bitmap, i: usize) -> (r: bool)
    requires
        i < bits_of(*b).len(),
    ensures
        r == bits_of(*b)[i as int],
{
    b.bits[i]
}

/// Relies on `BitSlice::replace`: writes `value` at `i` and returns the bit
/// that was there; the length and the other bits stay.
#[verifier::external_body]
pub(crate) fn replace_bit(b: &mut Bitmap, i: usize, value: bool) -> (r: bool)
    requires
        i < bits_of(*old(b)).len(),
    ensures
        r == bits_of(*old(b))[i as int],
        bits_of(*final(b)) == bits_of(*old(b)).update(i as int, value),
{
    b.bits.replace(i, value)
}

/// Relies on `BitSlice::fill`: every bit becomes `false`, the length stays.
#[verifier::external_body]
pub(crate) fn zero_all(b: &mut Bitmap)
    ensures
        bits_of(*final(b)) == Seq::new(bits_of(*old(b)).len(), |i: int| false),
{
    b.bits.fill(false)
}

} // verus!
