//! Wraparound-aware recency comparison for 16-bit sequence numbers.
use vstd::prelude::*;
use vstd::wrapping::u16_specs;

verus! {

/// `candidate` counts as more recent than `reference` when the forward gap
/// from `reference` to `candidate`, taken modulo 2^16, is at most half the
/// number space. This is the standard half-range comparator for wrapping
/// 16-bit sequence numbers.
pub open spec fn spec_is_recent(candidate: u16, reference: u16) -> bool {
    if candidate > reference {
        candidate - reference <= 32768
    } else {
        reference - candidate > 32768
    }
}

pub fn is_recent(candidate: u16, reference: u16) -> (r: bool)
    ensures
        r == spec_is_recent(candidate, reference),
{
    if candidate > reference {
        candidate - reference <= 32768
    } else {
        reference - candidate > 32768
    }
}

/// Law: the immediate successor of any sequence number is recent with respect
/// to it, and the immediate predecessor is not, across the wraparound
/// boundary included.
pub proof fn lemma_successor_is_recent(s: u16)
    ensures
        spec_is_recent(u16_specs::wrapping_add(s, 1), s),
        !spec_is_recent(u16_specs::wrapping_sub(s, 1), s),
{
}

} // verus!
