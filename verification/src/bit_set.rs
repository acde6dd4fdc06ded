use fixedbitset::FixedBitSet;
use vstd::prelude::*;

verus! {

/// A set of bit positions below a length fixed when it was made.
#[verifier::external_type_specification]
#[verifier::external_body]
pub struct ExFixedBitSet(FixedBitSet);

/// The positions of the bits that are set.
pub uninterp spec fn bitset_ones(bitset: FixedBitSet) -> Set<usize>;

/// The number of bits, set or not.
pub uninterp spec fn bitset_len(bitset: FixedBitSet) -> usize;

/// `FixedBitSet::with_capacity`: `bits` bits, none of them set.
#[verifier::external_body]
pub(crate) fn bitset_with_capacity(bits: usize) -> (bitset: FixedBitSet)
    ensures
        bitset_ones(bitset) == Set::<usize>::empty(),
        bitset_len(bitset) == bits,
{
    FixedBitSet::with_capacity(bits)
}

/// `FixedBitSet::insert`: sets the bit `bit`, which must lie below the length.
#[verifier::external_body]
pub(crate) fn bitset_insert(bitset: &mut FixedBitSet, bit: usize)
    requires
        bit < bitset_len(*old(bitset)),
    ensures
        bitset_ones(*final(bitset)) == bitset_ones(*old(bitset)).insert(bit),
        bitset_len(*final(bitset)) == bitset_len(*old(bitset)),
{
    bitset.insert(bit)
}

/// `FixedBitSet::put`: sets the bit `bit`, which must lie below the length,
/// and says whether it was set before.
#[verifier::external_body]
pub(crate) fn bitset_put(bitset: &mut FixedBitSet, bit: usize) -> (was_set: bool)
    requires
        bit < bitset_len(*old(bitset)),
    ensures
        was_set == bitset_ones(*old(bitset)).contains(bit),
        bitset_ones(*final(bitset)) == bitset_ones(*old(bitset)).insert(bit),
        bitset_len(*final(bitset)) == bitset_len(*old(bitset)),
{
    bitset.put(bit)
}

/// `FixedBitSet::contains`: whether the bit `bit` is set; no bit at or
/// above the length is.
#[verifier::external_body]
pub(crate) fn bitset_contains(bitset: &FixedBitSet, bit: usize) -> (is_set: bool)
    ensures
        is_set == bitset_ones(*bitset).contains(bit),
        is_set ==> bit < bitset_len(*bitset),
{
    bitset.contains(bit)
}

/// `FixedBitSet::count_ones` over the whole set: how many bits are set.
#[verifier::external_body]
pub(crate) fn bitset_count_ones(bitset: &FixedBitSet) -> (count: usize)
    ensures
        count == bitset_ones(*bitset).len(),
{
    bitset.count_ones(..)
}

/// `FixedBitSet::ones`, collected: the positions of the set bits in
/// increasing order.
#[verifier::external_body]
pub(crate) fn bitset_positions(bitset: &FixedBitSet) -> (positions: Vec<usize>)
    ensures
        forall|i: int, j: int|
            0 <= i < j < positions@.len() ==> positions@[i] < positions@[j],
        positions@.to_set() == bitset_ones(*bitset),
{
    bitset.ones().collect()
}

} // verus!
