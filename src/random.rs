use vstd::prelude::*;

use rand::Rng;

verus! {

/// A uniformly drawn integer of `[min, max)`.
///
/// Relies on `rand::thread_rng` and `Rng::gen_range` (rand 0.8), which
/// returns a value of the half-open range and panics only when that range
/// is empty, which `requires` leaves out.
#[verifier::external_body]
pub(crate) fn random_range(min: usize, max: usize) -> (r: usize)
    requires
        min < max,
    ensures
        min <= r < max,
{
    let mut rng = rand::thread_rng();
    rng.gen_range(min..max)
}

} // verus!
