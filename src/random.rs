//! Draws from the thread-local random generator.

use rand::Rng;
use vstd::prelude::*;

verus! {

/// Relies on `rand::rng` and `Rng::random_range`: a value in `[0, n)`;
/// the range must not be empty.
#[verifier::external_body]
pub(crate) fn random_below(n: usize) -> (r: usize)
    requires
        n > 0,
    ensures
        r < n,
{
    rand::rng().random_range(0..n)
}

} // verus!
