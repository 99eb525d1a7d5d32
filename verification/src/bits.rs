//! Trusted interface to the `fixedbitset` bit buffer that stores the grid.
//!
//! The cell buffer is a `fixedbitset::FixedBitSet`, viewed in contracts as
//! the sequence of its bits, `bits_of`.

use vstd::prelude::*;

verus! {

/// Declares `fixedbitset::FixedBitSet`, the bit-packed cell buffer, so
/// that it can stand in signatures and fields; its contents are only
/// reached through `bits_of` and the wrappers below.
#[verifier::external_type_specification]
#[verifier::external_body]
pub struct ExFixedBitSet(fixedbitset::FixedBitSet);

/// The bits a `FixedBitSet` holds, in index order, one per bit of its
/// length.
pub uninterp spec fn bits_of(bs: fixedbitset::FixedBitSet) -> Seq<bool>;

/// Relies on `FixedBitSet::with_capacity`: a set of `nbits` bits, all
/// initially clear.
#[verifier::external_body]
pub(crate) fn bits_new(nbits: usize) -> (bs: fixedbitset::FixedBitSet)
    ensures
        bits_of(bs) == Seq::new(nbits as nat, |i: int| false),
{
    fixedbitset::FixedBitSet::with_capacity(nbits)
}

/// Relies on `FixedBitSet::len`: the number of bits the set holds.
#[verifier::external_body]
pub(crate) fn bits_len(bs: &fixedbitset::FixedBitSet) -> (n: usize)
    ensures
        n == bits_of(*bs).len(),
{
    bs.len()
}

/// Relies on `FixedBitSet::contains`: whether bit `bit` is set; `bit` is
/// kept in bounds so the answer is the stored bit itself.
#[verifier::external_body]
pub(crate) fn bits_get(bs: &fixedbitset::FixedBitSet, bit: usize) -> (b: bool)
    requires
        bit < bits_of(*bs).len(),
    ensures
        b == bits_of(*bs)[bit as int],
{
    bs.contains(bit)
}

/// Relies on `FixedBitSet::set`: writes bit `bit`, leaving every other bit
/// as it was; panics out of bounds, so `bit` is kept in bounds.
#[verifier::external_body]
pub(crate) fn bits_set(bs: &mut fixedbitset::FixedBitSet, bit: usize, value: bool)
    requires
        bit < bits_of(*old(bs)).len(),
    ensures
        bits_of(*final(bs)) == bits_of(*old(bs)).update(bit as int, value),
{
    bs.set(bit, value);
}

} // verus!
