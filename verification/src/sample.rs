//! The source of random positions, provided by the `rand` crate.

use rand::Rng;
use vstd::prelude::*;

verus! {

/// `Rng::gen_range(0, upper)` on the thread-local generator: some position
/// below `upper`. Nothing is claimed about which one.
#[verifier::external_body]
pub(crate) fn random_below(upper: usize) -> (i: usize)
    requires
        upper > 0,
    ensures
        i < upper,
{
    rand::thread_rng().gen_range(0, upper)
}

} // verus!
