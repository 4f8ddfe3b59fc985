//! Participation flags: one bitmask byte per validator, taken verbatim
//! from the sliced byte range of the state buffer.

use vstd::prelude::*;

verus! {

/// Bit position of the timely-target attestation flag.
pub const TIMELY_TARGET_FLAG_INDEX: u8 = 1;

/// Mask selecting the timely-target attestation flag.
pub const TIMELY_TARGET: u8 = 1 << TIMELY_TARGET_FLAG_INDEX;

/// Whether every bit of `mask` is set in `flag`.
pub open spec fn spec_has_flag(flag: u8, mask: u8) -> bool {
    flag & mask == mask
}

/// Whether every bit of `mask` is set in `flag`.
pub fn has_flag(flag: u8, mask: u8) -> (r: bool)
    ensures
        r == spec_has_flag(flag, mask),
{
    flag & mask == mask
}

/// An ordered sequence of per-validator participation flags; index `i`
/// holds the flag byte of validator `i`.
pub struct ParticipationFlags {
    pub bytes: Vec<u8>,
}

impl ParticipationFlags {
    /// The flag byte of each validator, in validator-index order.
    pub open spec fn view(&self) -> Seq<u8> {
        self.bytes@
    }

    /// Number of validators covered by this flag sequence.
    pub fn len(&self) -> (n: usize)
        ensures
            n == self@.len(),
    {
        self.bytes.len()
    }
}

/// Interprets a sliced byte range as the flag sequence, copying only
/// the bytes of that range.
pub fn to_flags(slice: &[u8]) -> (r: ParticipationFlags)
    ensures
        r@ == slice@,
{
    ParticipationFlags { bytes: vstd::slice::slice_to_vec(slice) }
}

} // verus!
