//! The fixed-size bit set used to collect the reference fields of an object.
use vstd::prelude::*;
use fixedbitset::FixedBitSet;
use vstd::arithmetic::power2::pow2;

verus! {

#[verifier::external_type_specification]
#[verifier::external_body]
pub struct ExFixedBitSet(FixedBitSet);

/// The indices of the enabled bits of a bit set.
pub uninterp spec fn bitset_ones(b: FixedBitSet) -> Set<int>;

/// The number of bits a bit set holds.
pub uninterp spec fn bitset_len(b: FixedBitSet) -> nat;

/// The value of a word whose bit `i`, for each `i < n`, is set exactly when
/// `s` holds `i`.
pub open spec fn bits_value(s: Set<int>, n: nat) -> nat
    decreases n,
{
    if n == 0 {
        0
    } else {
        bits_value(s, (n - 1) as nat) + if s.contains(n - 1) {
            pow2((n - 1) as nat)
        } else {
            0
        }
    }
}

/// `FixedBitSet::with_capacity`: a bit set of `bits` bits, all clear.
#[verifier::external_body]
pub(crate) fn bitset_with_capacity(bits: usize) -> (r: FixedBitSet)
    ensures
        bitset_len(r) == bits,
        bitset_ones(r) == Set::<int>::empty(),
{
    FixedBitSet::with_capacity(bits)
}

/// `FixedBitSet::set_range` with `enabled == true`: sets every bit of
/// `start..end`; the source asserts that the range lies inside the set.
#[verifier::external_body]
pub(crate) fn bitset_enable_range(b: &mut FixedBitSet, start: usize, end: usize)
    requires
        start <= end <= bitset_len(*old(b)),
    ensures
        bitset_len(*final(b)) == bitset_len(*old(b)),
        bitset_ones(*final(b)) == bitset_ones(*old(b)).union(Set::new(|i: int| start <= i < end)),
{
    b.set_range(start..end, true);
}

/// `FixedBitSet::as_slice()[0]`: the first 32-bit block, whose bit `i` is
/// bit `i` of the set; bits past the length are clear.
#[verifier::external_body]
pub(crate) fn bitset_first_block(b: &FixedBitSet) -> (r: u32)
    requires
        1 <= bitset_len(*b) <= 32,
        forall|i: int| #[trigger] bitset_ones(*b).contains(i) ==> 0 <= i < bitset_len(*b),
    ensures
        r == bits_value(bitset_ones(*b), 32),
{
    b.as_slice()[0]
}

} // verus!
