use vstd::prelude::*;
#[allow(unused_imports)]
use rand::Rng;

verus! {

/// Relies on rand::Rng::gen_range over rand::thread_rng(): a draw from the
/// non-empty range `0 .. n` lies below `n`, whatever else the generator does.
/// Nothing further is assumed of the draw; callers state what holds of every
/// outcome.
#[verifier::external_body]
pub(crate) fn random_below(n: usize) -> (r: usize)
    requires
        n >= 1,
    ensures
        r < n,
{
    rand::thread_rng().gen_range(0..n)
}

} // verus!
