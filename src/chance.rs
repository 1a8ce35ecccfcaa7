use vstd::prelude::*;
use rand::Rng;

verus! {

/// Relies on rand's `random`: a value drawn from the thread-local generator;
/// nothing is known of which one.
pub assume_specification<T>[ rand::random::<T> ]() -> (r: T)
    where
        rand::distr::StandardUniform: rand::distr::Distribution<T>,
;

/// Relies on rand's `Rng::random_range` on the thread-local generator from
/// `rand::rng`: a value in `lo..hi`. It panics on an empty range.
#[verifier::external_body]
pub(crate) fn random_in(lo: i32, hi: i32) -> (r: i32)
    requires
        lo < hi,
    ensures
        lo <= r < hi,
{
    rand::rng().random_range(lo..hi)
}

} // verus!
