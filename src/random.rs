use rand::rngs::StdRng;
use rand::seq::SliceRandom;
use rand::Rng;
use vstd::prelude::*;

verus! {

/// The random number generator that spawns draw from.
#[verifier::external_type_specification]
#[verifier::external_body]
pub struct ExStdRng(StdRng);

/// Relies on rand's `SliceRandom::choose` for slices: `None` for an empty
/// slice, otherwise one of its elements, picked uniformly.
#[verifier::external_body]
pub(crate) fn choose_from(items: &Vec<usize>, rng: &mut StdRng) -> (r: Option<usize>)
    ensures
        r is None <==> items@.len() == 0,
        r is Some ==> items@.contains(r->0),
{
    items.as_slice().choose(rng).copied()
}

/// Relies on rand's `Rng::gen_ratio`: `true` with chance
/// `numerator / denominator`, always `true` when the two are equal and never
/// when `numerator` is zero. It panics when `denominator` is zero or smaller
/// than `numerator`.
#[verifier::external_body]
pub(crate) fn gen_ratio(rng: &mut StdRng, numerator: u32, denominator: u32) -> (r: bool)
    requires
        0 < denominator,
        numerator <= denominator,
    ensures
        numerator == 0 ==> !r,
        numerator == denominator ==> r,
{
    rng.gen_ratio(numerator, denominator)
}

} // verus!
