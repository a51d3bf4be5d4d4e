use crate::bird::Bird;
use rand::rngs::StdRng;
use rand::seq::SliceRandom;
use rand::Rng;
use vstd::prelude::*;

verus! {

/// The random number generator of the `rand` crate that every sampling and
/// playing function draws from. Nothing is known of its state.
#[verifier::external_type_specification]
#[verifier::external_body]
pub struct ExStdRng(StdRng);

/// Calls `Rng::gen_range` of the `rand` crate on the range from 0 up to, not
/// including, `bound`. It returns a number of that range; on an empty range
/// it panics, so `bound` has to be positive. Which number comes is left
/// open.
#[verifier::external_body]
pub(crate) fn random_below(rng: &mut StdRng, bound: u64) -> (r: u64)
    requires
        bound > 0,
    ensures
        r < bound,
{
    rng.gen_range(0..bound)
}

/// Calls `SliceRandom::shuffle` of the `rand` crate, which reorders the
/// cards in place by swapping pairs of them: the same cards are there
/// afterwards, each as often as before. In which order is left open.
#[verifier::external_body]
pub(crate) fn shuffle(rng: &mut StdRng, cards: &mut Vec<Bird>)
    ensures
        final(cards)@.to_multiset() == old(cards)@.to_multiset(),
{
    cards.shuffle(rng)
}

} // verus!
