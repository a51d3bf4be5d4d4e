use crate::bird::{lemma_index_at, Bird, SPECIES};
use crate::counts::{BirdCounts, BirdSet};
use crate::random::random_below;
use rand::rngs::StdRng;
use vstd::prelude::*;

verus! {

/// The species that a blacklist excludes: none where there is no blacklist.
pub open spec fn excluded(blacklist: Option<&BirdSet>) -> Set<Bird> {
    match blacklist {
        Some(set) => set@,
        None => Set::empty(),
    }
}

/// The weight of species `b` in a draw: the number of its cards, or 0 if the
/// species is excluded or has no card.
pub open spec fn weight(choices: &BirdCounts, excluded: Set<Bird>, b: Bird) -> int {
    if excluded.contains(b) || choices.count(b) <= 0 {
        0
    } else {
        choices.count(b)
    }
}

/// The weights of the species before position `i` of the enumeration order,
/// added up.
pub open spec fn weight_below(choices: &BirdCounts, excluded: Set<Bird>, i: int) -> int
    decreases i,
{
    if i <= 0 {
        0
    } else {
        weight_below(choices, excluded, i - 1) + weight(choices, excluded, Bird::at(i - 1))
    }
}

/// The weights of all species, added up: the number of cards that a draw
/// can give.
pub open spec fn total_weight(choices: &BirdCounts, excluded: Set<Bird>) -> int {
    weight_below(choices, excluded, SPECIES as int)
}

/// The weight of species `bird` in a draw.
fn weight_of(choices: &BirdCounts, blacklist: Option<&BirdSet>, bird: Bird) -> (w: u64)
    ensures
        w == weight(choices, excluded(blacklist), bird),
        w <= i32::MAX,
{
    let listed = match blacklist {
        Some(set) => set.contains(bird),
        None => false,
    };
    let n = choices.get(bird);
    if listed || n <= 0 {
        0
    } else {
        n as u64
    }
}

/// Number of cards that a draw from `choices` can give: the cards of the
/// species that are not on the blacklist.
pub fn eligible_total(choices: &BirdCounts, blacklist: Option<&BirdSet>) -> (t: u64)
    ensures
        t == total_weight(choices, excluded(blacklist)),
{
    let mut t: u64 = 0;
    let mut i: usize = 0;
    while i < SPECIES
        invariant
            i <= SPECIES,
            t == weight_below(choices, excluded(blacklist), i as int),
            t <= i * i32::MAX,
        decreases SPECIES - i,
    {
        let bird = Bird::from_ordinal(i).unwrap();
        let w = weight_of(choices, blacklist, bird);
        t = t + w;
        i = i + 1;
    }
    t
}

/// The species on which the number `random` falls when the eligible cards
/// are laid out species by species in enumeration order and numbered from 0:
/// the species `b` with
/// `weight_below(b.index()) <= random < weight_below(b.index() + 1)`.
/// There is none exactly when `random` is not below the total weight.
pub fn weighted_pick(choices: &BirdCounts, blacklist: Option<&BirdSet>, random: u64) -> (r: Option<
    Bird,
>)
    ensures
        match r {
            Some(b) => weight_below(choices, excluded(blacklist), b.index()) <= random
                < weight_below(choices, excluded(blacklist), b.index() + 1),
            None => random >= total_weight(choices, excluded(blacklist)),
        },
{
    let mut visited: u64 = 0;
    let mut i: usize = 0;
    while i < SPECIES
        invariant
            i <= SPECIES,
            visited == weight_below(choices, excluded(blacklist), i as int),
            visited <= i * i32::MAX,
            visited <= random,
        decreases SPECIES - i,
    {
        let bird = Bird::from_ordinal(i).unwrap();
        proof {
            lemma_index_at(bird, i as int);
        }
        let w = weight_of(choices, blacklist, bird);
        visited = visited + w;
        if visited > random {
            return Some(bird);
        }
        i = i + 1;
    }
    None
}

/// Draws one species at random, each with a chance in proportion to the
/// number of its cards in `choices`, among the species that are not on the
/// blacklist. No count is changed. The result is a species that is not
/// excluded and has a card; there is none exactly when no such species
/// exists.
pub fn weighted_choice(choices: &BirdCounts, blacklist: Option<&BirdSet>, rng: &mut StdRng) -> (r:
    Option<Bird>)
    ensures
        match r {
            Some(b) => !excluded(blacklist).contains(b) && choices.count(b) > 0,
            None => total_weight(choices, excluded(blacklist)) == 0,
        },
{
    let total_weights = eligible_total(choices, blacklist);
    if total_weights == 0 {
        return None;
    }
    let random = random_below(rng, total_weights);
    weighted_pick(choices, blacklist, random)
}

} // verus!
