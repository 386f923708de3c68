use vstd::prelude::*;

use rand::RngExt;

verus! {

/// Relies on rand's `RngExt::random_range` over `0..bound`: a draw from a
/// nonempty integer range lies below its upper bound. The function panics
/// only on an empty range, which the precondition rules out. Nothing more
/// is assumed of the value: it is random.
#[verifier::external_body]
pub(crate) fn rand_below(bound: usize) -> (r: usize)
    requires
        1 <= bound,
    ensures
        r < bound,
{
    rand::rng().random_range(0..bound)
}

} // verus!
