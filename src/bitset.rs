//! What the library assumes of `fixedbitset::FixedBitSet`.

use fixedbitset::FixedBitSet;
use vstd::prelude::*;

verus! {

#[verifier::external_type_specification]
#[verifier::external_body]
pub struct ExFixedBitSet(FixedBitSet);

/// The flags held by a bit set, one per position, in order of position.
pub uninterp spec fn bits_of(b: FixedBitSet) -> Seq<bool>;

/// Relies on `FixedBitSet::with_capacity`: a set of `bits` positions, all clear.
pub assume_specification[ FixedBitSet::with_capacity ](bits: usize) -> (r: FixedBitSet)
    ensures
        bits_of(r) == Seq::new(bits as nat, |k: int| false),
;

/// Relies on `FixedBitSet::contains`: the flag at `bit`, and `false` past the end.
pub assume_specification[ FixedBitSet::contains ](b: &FixedBitSet, bit: usize) -> (r: bool)
    ensures
        r == (bit < bits_of(*b).len() && bits_of(*b)[bit as int]),
;

/// Relies on `FixedBitSet::set`: writes one flag, leaves the others; it panics
/// on a position past the end, which `requires` rules out.
pub assume_specification[ FixedBitSet::set ](b: &mut FixedBitSet, bit: usize, enabled: bool)
    requires
        bit < bits_of(*old(b)).len(),
    ensures
        bits_of(*final(b)) == bits_of(*old(b)).update(bit as int, enabled),
;

/// Relies on `<FixedBitSet as Clone>::clone`: the copy holds the same flags.
pub assume_specification[ <FixedBitSet as Clone>::clone ](b: &FixedBitSet) -> (r: FixedBitSet)
    ensures
        bits_of(r) == bits_of(*b),
;

} // verus!
