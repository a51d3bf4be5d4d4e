use crate::bird::{lemma_index_at, lemma_thresholds, Bird, SPECIES};
use crate::counts::BirdCounts;
use crate::partial_cards::PartialCards;
use vstd::prelude::*;

verus! {

/// A player as the game shows them: the flocks they have collected, and
/// what is known of their hand.
#[derive(Debug, Clone, Copy)]
pub struct Player {
    pub collection: BirdCounts,
    pub cards: PartialCards,
}

/// A player with every card of the hand fixed.
#[derive(Debug, Clone, Copy)]
pub struct MaterializedPlayer {
    pub collection: BirdCounts,
    pub cards: BirdCounts,
}

/// Number of cards that go to the collection when `count` cards of `bird`
/// fly home: 2 from a large flock, else 1.
pub open spec fn flock_size(bird: Bird, count: int) -> int {
    if count >= bird.large() {
        2
    } else {
        1
    }
}

impl Player {
    /// A player at the start of the game: nothing collected, a hand of
    /// which only the size is known.
    pub fn new() -> (r: Player)
        ensures
            forall|b: Bird| r.collection.count(b) == 0,
            forall|b: Bird| r.cards.known_cards.count(b) == 0,
            r.cards.blacklisted_cards@ == Set::<Bird>::empty(),
            r.cards.total_cards == crate::STARTING_CARDS_HAND,
    {
        Player { collection: BirdCounts::new(), cards: PartialCards::new() }
    }
}

impl MaterializedPlayer {
    /// The hand holds a flock of `bird`: as many cards as its small flock
    /// needs, or more.
    pub open spec fn can_flock(&self, bird: Bird) -> bool {
        self.cards.count(bird) >= bird.small()
    }

    /// The species of which the hand holds a flock, in enumeration order.
    pub fn flockable(&self) -> (valid: Vec<Bird>)
        ensures
            forall|b: Bird| valid@.contains(b) <==> self.can_flock(b),
            forall|i: int, j: int|
                0 <= i < j < valid@.len() ==> valid@[i].index() < valid@[j].index(),
            valid@.len() <= SPECIES,
    {
        let mut valid: Vec<Bird> = Vec::new();
        let mut i: usize = 0;
        while i < SPECIES
            invariant
                i <= SPECIES,
                valid@.len() <= i,
                forall|b: Bird| valid@.contains(b) <==> self.can_flock(b) && b.index() < i,
                forall|k: int| 0 <= k < valid@.len() ==> valid@[k].index() < i,
                forall|k: int, j: int|
                    0 <= k < j < valid@.len() ==> valid@[k].index() < valid@[j].index(),
            decreases SPECIES - i,
        {
            let bird = Bird::from_ordinal(i).unwrap();
            let ghost before = valid@;
            proof {
                lemma_index_at(bird, i as int);
            }
            let flock = self.cards.get(bird) >= bird.information().small;
            if flock {
                valid.push(bird);
            }
            proof {
                assert forall|b: Bird| valid@.contains(b) <==> self.can_flock(b) && b.index() < i
                    + 1 by {
                    lemma_index_at(b, i as int);
                    if before.contains(b) {
                        let j = choose|j: int| 0 <= j < before.len() && before[j] == b;
                        assert(valid@[j] == b);
                    }
                    if b == bird && flock {
                        assert(valid@[valid@.len() - 1] == b);
                    }
                }
            }
            i = i + 1;
        }
        proof {
            assert forall|b: Bird| valid@.contains(b) <==> self.can_flock(b) by {
                lemma_index_at(b, 0);
            }
        }
        valid
    }

    /// Number of species before position `i` of the enumeration order of
    /// which the hand holds a flock.
    pub open spec fn flocks_below(&self, i: int) -> int
        decreases i,
    {
        if i <= 0 {
            0
        } else {
            self.flocks_below(i - 1) + if self.can_flock(Bird::at(i - 1)) {
                1int
            } else {
                0int
            }
        }
    }

    /// The choice that the number `number` stands for when the flocks of the
    /// hand are numbered from 0 in enumeration order: the species of the
    /// flock with that number, or none, to let no flock fly home, where the
    /// hand holds no more flocks than `number`.
    pub fn flock_choice(&self, number: usize) -> (choice: Option<Bird>)
        ensures
            match choice {
                Some(bird) => self.can_flock(bird) && self.flocks_below(bird.index()) == number,
                None => self.flocks_below(SPECIES as int) <= number,
            },
    {
        let mut flocks: usize = 0;
        let mut i: usize = 0;
        while i < SPECIES
            invariant
                i <= SPECIES,
                flocks <= i,
                flocks == self.flocks_below(i as int),
                flocks <= number,
            decreases SPECIES - i,
        {
            let bird = Bird::from_ordinal(i).unwrap();
            proof {
                lemma_index_at(bird, i as int);
            }
            if self.cards.get(bird) >= bird.information().small {
                if flocks == number {
                    return Some(bird);
                }
                flocks = flocks + 1;
            }
            i = i + 1;
        }
        None
    }

    /// Lets the cards of `bird` fly home: all of them leave the hand, 2 of
    /// them join the collection where they make a large flock and 1
    /// otherwise, and the others go to the discard pile.
    pub fn fly_home(&mut self, bird: Bird, discard_pile: &mut BirdCounts)
        requires
            old(self).cards.count(bird) >= 1,
            old(self).collection.count(bird) + 2 <= i32::MAX,
            old(discard_pile).count(bird) + old(self).cards.count(bird) <= i32::MAX,
        ensures
            final(self).cards.count(bird) == 0,
            final(self).collection.count(bird) == old(self).collection.count(bird) + flock_size(
                bird,
                old(self).cards.count(bird),
            ),
            final(discard_pile).count(bird) == old(discard_pile).count(bird)
                + old(self).cards.count(bird)
                - flock_size(bird, old(self).cards.count(bird)),
            forall|o: Bird| o != bird ==> final(self).cards.count(o) == old(self).cards.count(o),
            forall|o: Bird|
                o != bird ==> final(self).collection.count(o) == old(self).collection.count(o),
            forall|o: Bird|
                o != bird ==> final(discard_pile).count(o) == old(discard_pile).count(o),
    {
        let bird_count = self.cards.remove(bird);
        let large = bird_count >= bird.information().large;
        let flock_size: i32 = if large {
            2
        } else {
            1
        };
        proof {
            lemma_thresholds(bird);
        }
        self.collection.add(bird, flock_size);
        discard_pile.add(bird, bird_count - flock_size);
    }
}

} // verus!
