use crate::bird::{lemma_index_at, occurrences, Bird, SPECIES};
use crate::counts::BirdCounts;
use crate::line::{lemma_occurrences_empty, lemma_occurrences_push, Line};
pub use crate::moves::{FlockMove, LineMove, SimplifiableMove};
use crate::player::MaterializedPlayer;
use crate::random::shuffle;
use crate::state::on_board;
use crate::sums::{lemma_sum_over_change, sum_over};
use rand::rngs::StdRng;
use vstd::prelude::*;

verus! {

/// The game with every card in a fixed place: the lines, the players with
/// their hands, the draw pile with its top at the end, and the discard
/// pile.
#[derive(Debug, Clone)]
pub struct MaterializedCubirdsState {
    pub board: [Line; 4],
    pub players: Vec<MaterializedPlayer>,
    pub player_idx: i32,
    pub draw_pile: Vec<Bird>,
    pub discard_pile: BirdCounts,
    pub turn: usize,
}

/// For each player, by position, the number of cards of `b` in the hand.
pub open spec fn hand_of(players: Seq<MaterializedPlayer>, b: Bird) -> spec_fn(int) -> int {
    |i: int| players[i].cards.count(b)
}

/// For each player, by position, the number of cards of `b` in the
/// collection.
pub open spec fn collection_of(players: Seq<MaterializedPlayer>, b: Bird) -> spec_fn(int) -> int {
    |i: int| players[i].collection.count(b)
}

/// Number of cards of `b` in the hands of the players.
pub open spec fn in_hands(players: Seq<MaterializedPlayer>, b: Bird) -> int {
    sum_over(players.len() as int, hand_of(players, b))
}

/// Number of cards of `b` in the collections of the players.
pub open spec fn in_collections(players: Seq<MaterializedPlayer>, b: Bird) -> int {
    sum_over(players.len() as int, collection_of(players, b))
}

/// Number of cards of `b` in the draw pile and the discard pile.
pub open spec fn in_piles(draw_pile: Seq<Bird>, discard_pile: BirdCounts, b: Bird) -> int {
    occurrences(draw_pile, b) + discard_pile.count(b)
}

/// The number of cards of a species that a pile of counted cards holds:
/// the count, or none where the count is negative.
pub open spec fn pile_count(pile: &BirdCounts, b: Bird) -> int {
    if pile.count(b) > 0 {
        pile.count(b)
    } else {
        0
    }
}

/// The player has won: the collection holds seven species or more, or
/// three cards or more of each of two species.
pub open spec fn has_won(collection: &BirdCounts) -> bool {
    collection.kinds_with(1) >= 7 || collection.kinds_with(3) >= 2
}

/// Where one player is replaced, the cards in the hands and in the
/// collections change by what that player's cards change.
pub proof fn lemma_replace_player(
    before: Seq<MaterializedPlayer>,
    after: Seq<MaterializedPlayer>,
    i: int,
    b: Bird,
)
    requires
        0 <= i < before.len(),
        after.len() == before.len(),
        forall|j: int| 0 <= j < before.len() && j != i ==> after[j] == before[j],
    ensures
        in_hands(after, b) == in_hands(before, b) - before[i].cards.count(b) + after[i].cards.count(
            b,
        ),
        in_collections(after, b) == in_collections(before, b) - before[i].collection.count(b)
            + after[i].collection.count(b),
{
    lemma_sum_over_change(before.len() as int, hand_of(before, b), hand_of(after, b), i);
    lemma_sum_over_change(
        before.len() as int,
        collection_of(before, b),
        collection_of(after, b),
        i,
    );
}

/// Where one line is replaced, the cards on the board change by what that
/// line's cards change.
pub proof fn lemma_replace_line(before: Seq<Line>, after: Seq<Line>, l: int, b: Bird)
    requires
        0 <= l < before.len(),
        after.len() == before.len(),
        forall|j: int| 0 <= j < before.len() && j != l ==> after[j]@ == before[j]@,
    ensures
        on_board(after, b) == on_board(before, b) - occurrences(before[l]@, b) + occurrences(
            after[l]@,
            b,
        ),
{
    lemma_sum_over_change(
        before.len() as int,
        crate::state::lying_on(before, b),
        crate::state::lying_on(after, b),
        l,
    );
}

impl MaterializedCubirdsState {
    /// Number of cards of `b` in the game: in the hands, in the
    /// collections, on the lines, in the draw pile and in the discard pile.
    pub open spec fn census(&self, b: Bird) -> int {
        in_hands(self.players@, b) + in_collections(self.players@, b) + on_board(self.board@, b)
            + in_piles(self.draw_pile@, self.discard_pile, b)
    }

    /// Of every species the game holds as many cards as the species has.
    pub open spec fn conserved(&self) -> bool {
        forall|b: Bird| #[trigger] self.census(b) == b.copies()
    }

    /// No hand, collection or pile holds a negative number of cards, and of
    /// every species the game holds as many cards as the species has.
    pub open spec fn wf(&self) -> bool {
        &&& forall|i: int|
            0 <= i < self.players@.len() ==> (#[trigger] self.players@[i]).cards.wf()
                && self.players@[i].collection.wf()
        &&& self.discard_pile.wf()
        &&& self.conserved()
    }

    /// The cards of a pile that is counted by species, laid out as a pile in
    /// a random order.
    pub(crate) fn sample_pile(pile: &BirdCounts, rng: &mut StdRng) -> (sampled: Vec<Bird>)
        ensures
            forall|b: Bird| #[trigger] occurrences(sampled@, b) == pile_count(pile, b),
    {
        let mut sampled: Vec<Bird> = Vec::new();
        let mut i: usize = 0;
        proof {
            assert forall|b: Bird| #[trigger] occurrences(sampled@, b) == 0 by {
                assert(sampled@ =~= Seq::<Bird>::empty());
                lemma_occurrences_empty(b);
            }
        }
        while i < SPECIES
            invariant
                i <= SPECIES,
                forall|b: Bird|
                    #[trigger] occurrences(sampled@, b) == if b.index() < i {
                        pile_count(pile, b)
                    } else {
                        0
                    },
            decreases SPECIES - i,
        {
            let bird = Bird::from_ordinal(i).unwrap();
            proof {
                lemma_index_at(bird, i as int);
            }
            let bird_count = pile.get(bird);
            let mut k: i32 = 0;
            while k < bird_count
                invariant
                    0 <= k,
                    k <= bird_count || k == 0,
                    bird.index() == i,
                    bird_count == pile.count(bird),
                    forall|b: Bird|
                        #[trigger] occurrences(sampled@, b) == if b.index() < i {
                            pile_count(pile, b)
                        } else if b == bird {
                            k as int
                        } else {
                            0
                        },
                decreases bird_count - k,
            {
                let ghost before = sampled@;
                sampled.push(bird);
                proof {
                    assert forall|b: Bird|
                        #[trigger] occurrences(sampled@, b) == if b.index() < i {
                            pile_count(pile, b)
                        } else if b == bird {
                            k + 1
                        } else {
                            0
                        } by {
                        lemma_occurrences_push(before, bird, b);
                    }
                }
                k = k + 1;
            }
            proof {
                assert forall|b: Bird|
                    #[trigger] occurrences(sampled@, b) == if b.index() < i + 1 {
                        pile_count(pile, b)
                    } else {
                        0
                    } by {
                    lemma_index_at(b, 0);
                }
            }
            i = i + 1;
        }
        let ghost ordered = sampled@;
        shuffle(rng, &mut sampled);
        proof {
            assert forall|b: Bird| #[trigger] occurrences(sampled@, b) == pile_count(pile, b) by {
                lemma_index_at(b, 0);
                assert(occurrences(sampled@, b) == occurrences(ordered, b));
            }
        }
        sampled
    }

    /// Draws the top card of the draw pile. Where the draw pile is empty,
    /// the discarded cards are first shuffled into a new draw pile, and the
    /// discard pile is left empty. There is no card exactly when both piles
    /// are empty.
    pub fn draw(draw_pile: &mut Vec<Bird>, discard_pile: &mut BirdCounts, rng: &mut StdRng) -> (r:
        Option<Bird>)
        ensures
            old(draw_pile)@.len() > 0 ==> r == Some(old(draw_pile)@.last()) && final(draw_pile)@
                == old(draw_pile)@.drop_last() && *final(discard_pile) == *old(discard_pile),
            old(draw_pile)@.len() == 0 ==> forall|b: Bird| #[trigger]
                final(discard_pile).count(b) == 0,
            forall|b: Bird|
                #[trigger] occurrences(final(draw_pile)@, b) + pile_count(final(discard_pile), b)
                    + match r {
                    Some(drawn) => crate::sums::one_if(drawn == b),
                    None => 0,
                } == occurrences(old(draw_pile)@, b) + pile_count(old(discard_pile), b),
            old(discard_pile).wf() ==> final(discard_pile).wf(),
            r is None <==> old(draw_pile)@.len() == 0 && forall|b: Bird| #[trigger]
                old(discard_pile).count(b) <= 0,
            final(draw_pile)@.len() + match r {
                Some(drawn) => 1int,
                None => 0,
            } + pile_total(final(discard_pile)) == old(draw_pile)@.len() + pile_total(
                old(discard_pile),
            ),
    {
        if draw_pile.len() == 0 {
            *draw_pile = Self::sample_pile(discard_pile, rng);
            *discard_pile = BirdCounts::new();
            proof {
                crate::line::lemma_occurrences_total(draw_pile@);
                assert(old(draw_pile)@ =~= Seq::<Bird>::empty());
                assert forall|b: Bird| #[trigger] occurrences(old(draw_pile)@, b) == 0 by {
                    lemma_occurrences_empty(b);
                }
            }
        }
        let ghost pile = draw_pile@;
        let r = draw_pile.pop();
        proof {
            crate::line::lemma_occurrences_total(pile);
            crate::line::lemma_occurrences_total(old(draw_pile)@);
            match r {
                Some(drawn) => {
                    assert(pile =~= draw_pile@.push(drawn));
                    assert forall|b: Bird|
                        #[trigger] occurrences(draw_pile@, b) + crate::sums::one_if(drawn == b)
                            == occurrences(pile, b) by {
                        lemma_occurrences_push(draw_pile@, drawn, b);
                    }
                },
                None => {
                    assert(pile =~= Seq::<Bird>::empty());
                    assert forall|b: Bird| #[trigger] old(discard_pile).count(b) <= 0 by {
                        lemma_occurrences_empty(b);
                        assert(occurrences(pile, b) == pile_count(old(discard_pile), b));
                    }
                },
            }
            if r is Some && old(draw_pile)@.len() == 0 {
                let drawn = r->0;
                assert(occurrences(pile, drawn) >= 1) by {
                    lemma_occurrences_push(draw_pile@, drawn, drawn);
                }
                assert(old(discard_pile).count(drawn) > 0);
            }
        }
        r
    }

    /// The first player, in the order of play, who has won, if any has: a
    /// player wins with seven species or more in the collection, or with
    /// three cards or more of each of two species.
    pub fn player_win(&self) -> (r: Option<i32>)
        requires
            self.players@.len() <= i32::MAX,
        ensures
            match r {
                Some(winner) => 0 <= winner < self.players@.len() && has_won(
                    &self.players@[winner as int].collection,
                ) && forall|i: int|
                    0 <= i < winner ==> !has_won(&(#[trigger] self.players@[i]).collection),
                None => forall|i: int|
                    0 <= i < self.players@.len() ==> !has_won(
                        &(#[trigger] self.players@[i]).collection,
                    ),
            },
    {
        let mut player_idx: usize = 0;
        while player_idx < self.players.len()
            invariant
                player_idx <= self.players@.len() <= i32::MAX,
                forall|i: int|
                    0 <= i < player_idx ==> !has_won(&(#[trigger] self.players@[i]).collection),
            decreases self.players@.len() - player_idx,
        {
            let collection = &self.players[player_idx].collection;
            if collection.kinds(1) >= 7 {
                return Some(player_idx as i32);
            }
            if collection.kinds(3) >= 2 {
                return Some(player_idx as i32);
            }
            player_idx = player_idx + 1;
        }
        None
    }
}

/// Number of cards that a pile of counted cards holds in all.
pub open spec fn pile_total(pile: &BirdCounts) -> int {
    pile_count(pile, Bird::PARROT) + pile_count(pile, Bird::WARBLER) + pile_count(
        pile,
        Bird::TOUCAN,
    ) + pile_count(pile, Bird::FLAMINGO) + pile_count(pile, Bird::ROBIN) + pile_count(
        pile,
        Bird::MAGPIE,
    ) + pile_count(pile, Bird::OWL) + pile_count(pile, Bird::DUCK)
}

} // verus!
