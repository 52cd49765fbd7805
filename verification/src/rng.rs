//! The single source of randomness: one uniform draw per tour step.

use vstd::prelude::*;

verus! {

/// Relies on rand::random: a uniformly distributed `u32`.  Nothing can be
/// promised of a random value; callers must hold for every outcome.
#[verifier::external_body]
pub(crate) fn random_u32() -> u32 {
    rand::random::<u32>()
}

} // verus!
