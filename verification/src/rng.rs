use vstd::prelude::*;
use rand::Rng;

verus! {

/// Relies on rand::Rng::gen_range on the thread-local generator
/// (rand::thread_rng): for the non-empty range `0..bound` it returns a
/// uniformly distributed value of that range, and it panics only on an empty
/// range, which the precondition excludes. Nothing beyond membership in the
/// range can be promised of a random draw.
#[verifier::external_body]
pub(crate) fn random_below(bound: usize) -> (r: usize)
    requires
        bound > 0,
    ensures
        r < bound,
{
    rand::thread_rng().gen_range(0..bound)
}

} // verus!
