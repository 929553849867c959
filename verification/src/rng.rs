//! Randomness for the state machine: message identifiers and the election
//! jitter. Both come from the rand crate, behind trusted wrappers.

use vstd::prelude::*;

verus! {

/// Relies on rand's `OsRng` (`RngCore::next_u32`) for message identifiers.
/// The result is an arbitrary number; nothing is promised of it.
#[verifier::external_body]
pub fn random_msg_id() -> u32 {
    rand::RngCore::next_u32(&mut rand::rngs::OsRng)
}

/// Relies on rand's `Rng::gen_range` over `0..bound`: the result is drawn
/// from that range, so it is below `bound`. `gen_range` panics on an empty
/// range, which the precondition rules out.
#[verifier::external_body]
pub fn random_below(bound: u64) -> (r: u64)
    requires
        bound > 0,
    ensures
        r < bound,
{
    rand::Rng::gen_range(&mut rand::thread_rng(), 0..bound)
}

} // verus!
