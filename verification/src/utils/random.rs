//! Random draws.

use rand::Rng;
use vstd::prelude::*;

verus! {

/// Calls rand's `Rng::gen_range` on the thread's generator with the range
/// `0..bound`. Trusted: the number drawn lies in that range. Which number
/// comes is left open.
#[verifier::external_body]
pub(crate) fn random_below(bound: u64) -> (drawn: u64)
    requires
        bound > 0,
    ensures
        drawn < bound,
{
    rand::thread_rng().gen_range(0..bound)
}

} // verus!
