//! The library's single source of randomness.
//!
//! Every chaos decision consumes uniform draws produced here; the decision
//! logic itself is verified for every possible draw, so nothing is assumed
//! about the values beyond their range.

use vstd::prelude::*;
use rand::RngExt;

verus! {

/// Relies on rand::rng together with rand::RngExt::random_range: a uniform
/// draw from the half-open range `[0, bound)`. random_range panics only on an
/// empty range, which `bound > 0` rules out; rand::rng panics if the
/// operating system's entropy source fails at a thread's first seeding, an
/// environmental, input-independent failure akin to running out of memory.
/// Nothing beyond the range is promised: the result depends on the
/// thread-local generator's state.
#[verifier::external_body]
pub(crate) fn draw_below(bound: u64) -> (r: u64)
    requires
        bound > 0,
    ensures
        r < bound,
{
    rand::rng().random_range(0..bound)
}

} // verus!
