//! The visited-row set, held in a `fixedbitset::FixedBitSet`.
use vstd::prelude::*;
use fixedbitset::FixedBitSet;

verus! {

#[verifier::external_type_specification]
#[verifier::external_body]
pub struct ExFixedBitSet(FixedBitSet);

/// The bits that are set in a bit set.
pub uninterp spec fn bitset_ones(s: FixedBitSet) -> Set<int>;

/// The number of bits that a bit set was made with.
pub uninterp spec fn bitset_len(s: FixedBitSet) -> nat;

/// Relies on `FixedBitSet::with_capacity`: `bits` bits, all clear.
#[verifier::external_body]
pub(crate) fn bits_with_capacity(bits: usize) -> (r: FixedBitSet)
    ensures
        bitset_ones(r) == Set::<int>::empty(),
        bitset_len(r) == bits,
{
    FixedBitSet::with_capacity(bits)
}

/// Relies on `FixedBitSet::clear`: every bit is cleared, the length is kept.
#[verifier::external_body]
pub(crate) fn bits_clear(s: &mut FixedBitSet)
    ensures
        bitset_ones(*final(s)) == Set::<int>::empty(),
        bitset_len(*final(s)) == bitset_len(*old(s)),
{
    s.clear()
}

/// Relies on `FixedBitSet::insert`: sets one bit; it panics past the length.
#[verifier::external_body]
pub(crate) fn bits_insert(s: &mut FixedBitSet, bit: usize)
    requires
        bit < bitset_len(*old(s)),
    ensures
        bitset_ones(*final(s)) == bitset_ones(*old(s)).insert(bit as int),
        bitset_len(*final(s)) == bitset_len(*old(s)),
{
    s.insert(bit)
}

/// Relies on `FixedBitSet::contains`: whether the bit is set.
#[verifier::external_body]
pub(crate) fn bits_contains(s: &FixedBitSet, bit: usize) -> (r: bool)
    ensures
        r == bitset_ones(*s).contains(bit as int),
{
    s.contains(bit)
}

} // verus!
