use rand::Rng;
use vstd::prelude::*;

verus! {

/// Relies on `rand::thread_rng().gen_range(min..=max)` (rand 0.8): a uniformly drawn
/// integer in the closed range; it panics only on an empty range.
#[verifier::external_body]
pub fn random_int(min: i32, max: i32) -> (r: i32)
    requires
        min <= max,
    ensures
        min <= r <= max,
{
    rand::thread_rng().gen_range(min..=max)
}

} // verus!
