//! Random tie-breaking for the generation strategies, through the `rand`
//! crate. Nothing is assumed of the draws beyond the range they fall in, so
//! every property of the engine holds for every possible random outcome.

use vstd::prelude::*;
use rand::seq::SliceRandom;
use rand::Rng;

verus! {

/// Relies on rand::Rng::gen_range over `0..n`: the sample of a non-empty
/// range lies in it.
#[verifier::external_body]
pub(crate) fn rand_below(n: usize) -> (r: usize)
    requires
        n > 0,
    ensures
        r < n,
{
    rand::thread_rng().gen_range(0..n)
}

/// Relies on rand::seq::SliceRandom::choose: on a non-empty slice it returns
/// one of its elements.
#[verifier::external_body]
pub(crate) fn choose_from(v: &Vec<usize>) -> (r: usize)
    requires
        v@.len() > 0,
    ensures
        v@.contains(r),
{
    *v.choose(&mut rand::thread_rng()).unwrap()
}

} // verus!
