//! The random source. Every draw is made by the `rand` crate; what is stated
//! here of a draw holds whatever the generator returns.

use rand::Rng;
use rand::SeedableRng;
use rand::rngs::StdRng;
use rand::seq::SliceRandom;
use vstd::prelude::*;

verus! {

#[verifier::external_type_specification]
#[verifier::external_body]
pub struct ExStdRng(StdRng);

/// Calls `SeedableRng::seed_from_u64` of `rand`, which builds a generator
/// from a seed. Nothing is stated of the generator.
#[verifier::external_body]
pub(crate) fn seeded(seed: u64) -> (r: StdRng) {
    StdRng::seed_from_u64(seed)
}

/// Calls `Rng::gen_range` of `rand` on the half-open range `low..high`, which
/// must not be empty. The number drawn lies in the range.
#[verifier::external_body]
pub(crate) fn draw_in(rng: &mut StdRng, low: usize, high: usize) -> (r: usize)
    requires
        low < high,
    ensures
        low <= r < high,
{
    rng.gen_range(low..high)
}

/// Calls `Rng::gen_ratio` of `rand`, which returns `true` with probability
/// `numerator / denominator`. Only the two certain cases are stated: the
/// ratio 1 gives `true`, the ratio 0 gives `false`.
#[verifier::external_body]
pub(crate) fn chance(rng: &mut StdRng, numerator: u32, denominator: u32) -> (r: bool)
    requires
        denominator > 0,
        numerator <= denominator,
    ensures
        numerator == denominator ==> r,
        numerator == 0 ==> !r,
{
    rng.gen_ratio(numerator, denominator)
}

/// Calls `SliceRandom::shuffle` of `rand`, which reorders the slice in place
/// by swapping its elements: the same elements are there afterwards, each as
/// often as before.
#[verifier::external_body]
pub(crate) fn shuffle(jobs: &mut Vec<u32>, rng: &mut StdRng)
    ensures
        final(jobs)@.to_multiset() == old(jobs)@.to_multiset(),
{
    jobs.shuffle(rng)
}

/// Calls `SliceRandom::choose` of `rand`, which returns one element of the
/// slice, or `None` if the slice is empty.
#[verifier::external_body]
pub(crate) fn pick(places: &Vec<usize>, rng: &mut StdRng) -> (r: Option<usize>)
    ensures
        places.len() == 0 ==> r.is_none(),
        places.len() > 0 ==> r.is_some() && places@.contains(r.unwrap()),
{
    places.choose(rng).copied()
}

/// Draws a number below `bound`.
pub fn draw_below(rng: &mut StdRng, bound: usize) -> (r: usize)
    requires
        bound > 0,
    ensures
        r < bound,
{
    draw_in(rng, 0, bound)
}

} // verus!
