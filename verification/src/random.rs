//! The one place where chance enters the library.

use rand::Rng;
use vstd::prelude::*;

verus! {

/// Calls `rand::thread_rng` and, on it, `Rng::gen_range` with the range
/// `0..bound`. The range is not empty, so the call does not panic, and the
/// number that comes back lies in it. Which number it is differs from call
/// to call.
#[verifier::external_body]
pub(crate) fn random_below(bound: usize) -> (index: usize)
    requires
        bound > 0,
    ensures
        index < bound,
{
    rand::thread_rng().gen_range(0..bound)
}

} // verus!
