//! The bit-set the descriptors and the index matcher use, held behind a
//! small trusted surface: the set of set bits and the capacity are named,
//! and each method the library calls states over those names what the
//! crate's source does.

use bitvector::BitVector;
use vstd::prelude::*;

verus! {

#[verifier::external_type_specification]
#[verifier::external_body]
pub struct ExBitVector(BitVector);

/// The indices of the bits that are set.
pub uninterp spec fn bv_bits(b: BitVector) -> Set<int>;

/// The number of addressable bits (a whole number of 64-bit words).
pub uninterp spec fn bv_cap(b: BitVector) -> nat;

/// Relies on bitvector::BitVector::new: a fresh vector has no bit set and
/// room for `bits` bits, rounded up to a whole number of 64-bit words.
#[verifier::external_body]
pub fn bv_new(bits: usize) -> (r: BitVector)
    requires
        bits + 63 <= usize::MAX,
    ensures
        bv_bits(r) == Set::<int>::empty(),
        bv_cap(r) == ((bits + 63) / 64) * 64,
{
    BitVector::new(bits)
}

/// Relies on bitvector::BitVector::insert: sets the given bit and leaves
/// every other bit and the capacity alone when the bit is in range.
#[verifier::external_body]
pub fn bv_insert(b: &mut BitVector, bit: usize)
    requires
        bit < bv_cap(*old(b)),
    ensures
        bv_bits(*final(b)) == bv_bits(*old(b)).insert(bit as int),
        bv_cap(*final(b)) == bv_cap(*old(b)),
{
    b.insert(bit);
}

/// Relies on bitvector::BitVector::contains: reports whether the bit is
/// set; a bit at or past the capacity is never set.
#[verifier::external_body]
pub fn bv_contains(b: &BitVector, bit: usize) -> (r: bool)
    ensures
        r == (bit < bv_cap(*b) && bv_bits(*b).contains(bit as int)),
{
    b.contains(bit)
}

/// Relies on bitvector::BitVector::capacity.
#[verifier::external_body]
pub fn bv_capacity(b: &BitVector) -> (r: usize)
    ensures
        r == bv_cap(*b),
{
    b.capacity()
}

} // verus!
