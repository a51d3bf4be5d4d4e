use crate::bird::{lemma_index_at, Bird, SPECIES};
use crate::counts::{BirdCounts, BirdSet};
use crate::utilities::{
    eligible_total, excluded, total_weight, weight, weight_below, weighted_choice,
};
use crate::STARTING_CARDS_HAND;
use rand::rngs::StdRng;
use vstd::prelude::*;

verus! {

/// What is known of a set of cards that is not open: the cards that are
/// known to be in it, the species that are known not to be among the others,
/// and the number of cards in all.
#[derive(Debug, Clone, Copy)]
pub struct PartialCards {
    pub known_cards: BirdCounts,
    pub blacklisted_cards: BirdSet,
    pub total_cards: i32,
}

/// Taking one card of a species that has weight takes 1 from the accumulated
/// weight behind that species and leaves it before.
pub proof fn lemma_weight_after_draw(
    before: &BirdCounts,
    after: &BirdCounts,
    excluded: Set<Bird>,
    bird: Bird,
    i: int,
)
    requires
        weight(before, excluded, bird) > 0,
        after.count(bird) == before.count(bird) - 1,
        forall|o: Bird| o != bird ==> after.count(o) == before.count(o),
        0 <= i <= SPECIES,
    ensures
        weight_below(after, excluded, i) == weight_below(before, excluded, i) - if bird.index()
            < i {
            1int
        } else {
            0int
        },
    decreases i,
{
    if i > 0 {
        lemma_weight_after_draw(before, after, excluded, bird, i - 1);
        lemma_index_at(bird, i - 1);
    }
}

impl PartialCards {
    /// Number of cards of which the species is not known.
    pub open spec fn unknown(&self) -> int {
        self.total_cards - self.known_cards.sum()
    }

    /// The known cards are counted by natural numbers and are not more than
    /// the cards in all.
    pub open spec fn wf(&self) -> bool {
        &&& self.known_cards.wf()
        &&& self.unknown() >= 0
    }

    /// The pool holds enough cards outside the blacklist for the cards of
    /// which the species is not known.
    pub open spec fn samplable(&self, pool: &BirdCounts) -> bool {
        &&& self.wf()
        &&& self.unknown() <= total_weight(pool, self.blacklisted_cards@)
    }

    /// `after` is what a pool `before` can be once the cards of unknown
    /// species were drawn from it: as many cards are gone as were unknown,
    /// none of a species on the blacklist, and of no species more than there
    /// were.
    pub open spec fn may_leave(&self, before: &BirdCounts, after: &BirdCounts) -> bool {
        &&& forall|b: Bird| after.count(b) <= #[trigger] before.count(b)
        &&& forall|b: Bird|
            weight(before, self.blacklisted_cards@, b) == 0 ==> after.count(b)
                == #[trigger] before.count(b)
        &&& forall|b: Bird| #[trigger] before.count(b) > 0 ==> after.count(b) >= 0
        &&& before.sum() - after.sum() == self.unknown()
    }

    /// The cards are a batch of `count` cards with an empty blacklist: all of
    /// them known to be of the one species given, or, where none is given,
    /// none of them known.
    pub open spec fn is_batch(&self, species: Option<Bird>, count: int) -> bool {
        &&& self.total_cards == count
        &&& forall|b: Bird| !#[trigger] self.blacklisted_cards.has(b)
        &&& forall|b: Bird|
            #[trigger] self.known_cards.count(b) == if species == Some(b) {
                count
            } else {
                0
            }
    }

    /// A batch of `count` cards with an empty blacklist: all of them known
    /// to be of the one species given, or, where none is given, none of them
    /// known.
    pub fn batch(species: Option<Bird>, count: i32) -> (r: PartialCards)
        ensures
            r.is_batch(species, count as int),
    {
        let mut known_cards = BirdCounts::new();
        if let Some(bird) = species {
            known_cards.set(bird, count);
        }
        PartialCards { known_cards, blacklisted_cards: BirdSet::new(), total_cards: count }
    }

    /// What is known of a hand that was just dealt: nothing but its size.
    pub fn new() -> (r: PartialCards)
        ensures
            forall|b: Bird| r.known_cards.count(b) == 0,
            r.blacklisted_cards@ == Set::<Bird>::empty(),
            r.total_cards == STARTING_CARDS_HAND,
            r.is_batch(None, STARTING_CARDS_HAND as int),
            r.wf(),
    {
        PartialCards {
            known_cards: BirdCounts::new(),
            blacklisted_cards: BirdSet::new(),
            total_cards: STARTING_CARDS_HAND,
        }
    }

    /// Whether the known cards are counted by natural numbers and are not
    /// more than the cards in all.
    pub fn is_wf(&self) -> (r: bool)
        ensures
            r == self.wf(),
    {
        self.known_cards.is_wf() && self.total_cards as i64 - self.known_cards.total() >= 0
    }

    /// Notes that all cards of `bird` left the cards, `count` of them in
    /// all: none of them is known to be there any longer, and no card of the
    /// rest is of that species.
    pub fn give_up(&mut self, bird: Bird, count: i32)
        requires
            i32::MIN <= old(self).total_cards - count <= i32::MAX,
        ensures
            final(self).known_cards.count(bird) == 0,
            forall|o: Bird|
                o != bird ==> final(self).known_cards.count(o) == old(self).known_cards.count(o),
            forall|b: Bird|
                final(self).blacklisted_cards.has(b) == (b
                    == bird || old(self).blacklisted_cards.has(b)),
            final(self).total_cards == old(self).total_cards - count,
    {
        self.known_cards.remove(bird);
        self.blacklisted_cards.insert(bird);
        self.total_cards = self.total_cards - count;
    }

    /// Notes that the cards `birds` joined the cards: they are known to be
    /// there, and their species are off the blacklist.
    pub fn take_in(&mut self, birds: &BirdCounts)
        requires
            birds.wf(),
            forall|b: Bird|
                old(self).known_cards.count(b) + #[trigger] birds.count(b) <= i32::MAX,
            old(self).total_cards + birds.sum() <= i32::MAX,
        ensures
            forall|b: Bird|
                final(self).known_cards.count(b) == old(self).known_cards.count(b) + birds.count(
                    b,
                ),
            forall|b: Bird|
                final(self).blacklisted_cards.has(b) == (old(self).blacklisted_cards.has(b)
                    && birds.count(b) == 0),
            final(self).total_cards == old(self).total_cards + birds.sum(),
    {
        assert forall|b: Bird|
            i32::MIN <= self.known_cards.count(b) + #[trigger] birds.count(b) <= i32::MAX by {
            assert(birds.count(b) >= 0);
        }
        self.known_cards.add_all(birds);
        self.total_cards = (self.total_cards as i64 + birds.total()) as i32;
        let ghost counted = *self;
        let mut i: usize = 0;
        while i < SPECIES
            invariant
                i <= SPECIES,
                birds.wf(),
                forall|b: Bird|
                    b.index() < i
                        ==> #[trigger] self.blacklisted_cards.has(b)
                        == (old(self).blacklisted_cards.has(b) && birds.count(b) == 0),
                forall|b: Bird|
                    b.index() >= i
                        ==> #[trigger] self.blacklisted_cards.has(b)
                        == old(self).blacklisted_cards.has(b),
                self.known_cards == counted.known_cards,
                self.total_cards == counted.total_cards,
            decreases SPECIES - i,
        {
            let bird = Bird::from_ordinal(i).unwrap();
            proof {
                lemma_index_at(bird, i as int);
            }
            let ghost listed = self.blacklisted_cards;
            if birds.get(bird) > 0 {
                self.blacklisted_cards.remove(bird);
            }
            proof {
                assert forall|b: Bird| b.index() < i + 1 implies self.blacklisted_cards.has(b) == (
                old(self).blacklisted_cards.has(b) && birds.count(b) == 0) by {
                    lemma_index_at(b, 0);
                    if b != bird {
                        assert(self.blacklisted_cards.has(b) == listed.has(b));
                        assert(b.index() < i);
                        assert(listed.has(b) == (old(self).blacklisted_cards.has(b)
                            && birds.count(b) == 0));
                    } else {
                        assert(b.index() >= i);
                        assert(listed.has(b) == old(self).blacklisted_cards.has(b));
                        assert(birds.count(b) >= 0);
                    }
                }
            }
            i = i + 1;
        }
    }

    /// Whether `sample` can draw the cards of unknown species from `pool`.
    pub fn can_sample(&self, pool: &BirdCounts) -> (r: bool)
        ensures
            r == self.samplable(pool),
    {
        if !self.is_wf() {
            return false;
        }
        let unknown_cards = self.total_cards as i64 - self.known_cards.total();
        let eligible = eligible_total(pool, Some(&self.blacklisted_cards));
        unknown_cards as u64 <= eligible
    }

    /// Fills the cards up to their full number: the known cards, and for
    /// each card of unknown species one drawn at random from
    /// `available_cards` among the species that are not on the blacklist,
    /// each card of the pool being as likely as any other. The cards drawn
    /// leave the pool.
    pub fn sample(&self, available_cards: &mut BirdCounts, rng: &mut StdRng) -> (sampled_cards:
        BirdCounts)
        requires
            self.samplable(old(available_cards)),
        ensures
            self.may_leave(old(available_cards), final(available_cards)),
            forall|b: Bird|
                sampled_cards.count(b) == self.known_cards.count(b) + old(available_cards).count(
                    b,
                ) - final(available_cards).count(b),
            sampled_cards.wf(),
            sampled_cards.sum() == self.total_cards,
            forall|b: Bird| sampled_cards.count(b) >= self.known_cards.count(b),
            forall|b: Bird|
                self.blacklisted_cards@.contains(b) ==> sampled_cards.count(b)
                    == self.known_cards.count(b),
            forall|b: Bird|
                self.blacklisted_cards@.contains(b) && self.known_cards.count(b) == 0
                    ==> #[trigger] sampled_cards.count(b) == 0,
    {
        let ghost before = *available_cards;
        let ghost listed = self.blacklisted_cards@;
        let unknown_cards = self.total_cards as i64 - self.known_cards.total();
        let mut sampled_cards = self.known_cards;
        let mut drawn: i64 = 0;
        while drawn < unknown_cards
            invariant
                self.wf(),
                listed == self.blacklisted_cards@,
                unknown_cards == self.unknown(),
                0 <= drawn <= unknown_cards,
                total_weight(available_cards, listed) == total_weight(&before, listed) - drawn,
                unknown_cards <= total_weight(&before, listed),
                available_cards.sum() == before.sum() - drawn,
                sampled_cards.sum() == self.known_cards.sum() + drawn,
                sampled_cards.wf(),
                forall|b: Bird| available_cards.count(b) <= #[trigger] before.count(b),
                forall|b: Bird|
                    weight(&before, listed, b) == 0 ==> available_cards.count(b)
                        == #[trigger] before.count(b),
                forall|b: Bird| #[trigger] before.count(b) > 0 ==> available_cards.count(b) >= 0,
                forall|b: Bird|
                    sampled_cards.count(b) == self.known_cards.count(b) + before.count(b)
                        - available_cards.count(b),
            decreases unknown_cards - drawn,
        {
            let ghost pool = *available_cards;
            let picked = weighted_choice(available_cards, Some(&self.blacklisted_cards), rng);
            let choice = picked.unwrap();
            available_cards.add(choice, -1);
            sampled_cards.add(choice, 1);
            proof {
                lemma_weight_after_draw(&pool, available_cards, listed, choice, SPECIES as int);
                lemma_index_at(choice, 0);
            }
            drawn = drawn + 1;
        }
        sampled_cards
    }
}

} // verus!
