use crate::bird::{occurrences, Bird};
use crate::counts::BirdCounts;
use crate::line::Line;
use crate::materialized_state::{
    collection_of, hand_of, in_collections, in_hands, MaterializedCubirdsState,
};
use crate::partial_cards::PartialCards;
use crate::player::MaterializedPlayer;
use crate::state::{
    held_by, in_discards, lying_on, on_board, thrown_in, with_players, CubirdsState,
};
use crate::available::suppliable;
use crate::sums::{lemma_sum_over_add, lemma_sum_over_grows, lemma_sum_over_same, sum_over};
use rand::rngs::StdRng;
use vstd::prelude::*;

verus! {

/// The hand `hand` is one that the knowledge `partial` allows: it has the
/// full number of cards, holds every card that is known to be in it, and of
/// the species on the blacklist no other card.
pub open spec fn fills(hand: &BirdCounts, partial: &PartialCards) -> bool {
    &&& hand.wf()
    &&& hand.sum() == partial.total_cards
    &&& forall|b: Bird| #[trigger] hand.count(b) >= partial.known_cards.count(b)
    &&& forall|b: Bird|
        partial.blacklisted_cards@.contains(b) ==> #[trigger] hand.count(b)
            == partial.known_cards.count(b)
}

/// For each player, by position, the number of cards of `b` in the hand and
/// the collection together.
pub open spec fn both_of(players: Seq<MaterializedPlayer>, b: Bird) -> spec_fn(int) -> int {
    |i: int| players[i].cards.count(b) + players[i].collection.count(b)
}

/// For each batch of discarded cards, by position, the number of its cards.
pub open spec fn sizes_of(discards: Seq<PartialCards>) -> spec_fn(int) -> int {
    |i: int| discards[i].total_cards as int
}

/// Number of cards in all batches of discarded cards.
pub open spec fn discarded_cards(discards: Seq<PartialCards>) -> int {
    sum_over(discards.len() as int, sizes_of(discards))
}

impl MaterializedCubirdsState {
    /// The game with every card in a place is one that the knowledge
    /// `state` allows: the same lines, collections and turn, a hand for
    /// every player that the knowledge of it allows, a discard pile that
    /// holds what is known to be discarded and has the full number of
    /// cards, and no card of the game missing or added.
    pub open spec fn determinizes(&self, state: &CubirdsState) -> bool {
        &&& self.wf()
        &&& forall|l: int| 0 <= l < 4 ==> (#[trigger] self.board@[l])@ == state.board@[l]@
        &&& self.players@.len() == state.players@.len()
        &&& forall|i: int|
            0 <= i < self.players@.len() ==> (#[trigger] self.players@[i]).collection
                == state.players@[i].collection && fills(
                &self.players@[i].cards,
                &state.players@[i].cards,
            )
        &&& forall|b: Bird|
            #[trigger] self.discard_pile.count(b) >= in_discards(state.discard_pile@, b)
        &&& self.discard_pile.sum() == discarded_cards(state.discard_pile@)
        &&& self.player_idx == state.player_idx
        &&& self.turn == state.turn
    }

    /// Fixes the hands of the players, one after the other, by sampling
    /// from `pool`; stops where the pool cannot supply a hand.
    fn sample_hands(
        state: &CubirdsState,
        pool: &mut BirdCounts,
        rng: &mut StdRng,
    ) -> (r: Option<Vec<MaterializedPlayer>>)
        requires
            state.wf(),
            old(pool).wf(),
        ensures
            suppliable(state.hands(), 0, *old(pool)) ==> r is Some && suppliable(
                state.hands(),
                state.players@.len() as int,
                *final(pool),
            ),
            match r {
                Some(players) => {
                    &&& players@.len() == state.players@.len()
                    &&& final(pool).wf()
                    &&& forall|b: Bird| #[trigger] final(pool).count(b) <= old(pool).count(b)
                    &&& forall|i: int|
                        0 <= i < players@.len() ==> (#[trigger] players@[i]).collection
                            == state.players@[i].collection && fills(
                            &players@[i].cards,
                            &state.players@[i].cards,
                        ) && players@[i].collection.wf()
                    &&& forall|b: Bird|
                        #[trigger] in_hands(players@, b) + in_collections(players@, b)
                            == with_players(state.players@, b) + old(pool).count(b)
                            - final(pool).count(b)
                },
                None => true,
            },
    {
        let ghost hands = state.hands();
        let ghost start = *pool;
        let n = state.players.len();
        let mut players: Vec<MaterializedPlayer> = Vec::new();
        let mut i: usize = 0;
        while i < n
            invariant
                state.wf(),
                hands == state.hands(),
                start == *old(pool),
                i <= n == state.players@.len(),
                players@.len() == i,
                pool.wf(),
                forall|b: Bird| #[trigger] pool.count(b) <= start.count(b),
                suppliable(hands, 0, start) ==> suppliable(hands, i as int, *pool),
                forall|k: int|
                    0 <= k < i ==> (#[trigger] players@[k]).collection
                        == state.players@[k].collection && fills(
                        &players@[k].cards,
                        &state.players@[k].cards,
                    ) && players@[k].collection.wf(),
                forall|b: Bird|
                    #[trigger] sum_over(i as int, both_of(players@, b)) == sum_over(
                        i as int,
                        held_by(state.players@, b),
                    ) + start.count(b) - pool.count(b),
            decreases n - i,
        {
            let player = &state.players[i];
            let ghost before = *pool;
            let ghost earlier = players@;
            assert(hands[i as int] == player.cards);
            if !player.cards.can_sample(pool) {
                return None;
            }
            let cards = player.cards.sample(pool, rng);
            players.push(MaterializedPlayer { collection: player.collection, cards });
            proof {
                assert(pool.wf()) by {
                    assert forall|b: Bird| #[trigger] pool.count(b) >= 0 by {
                        assert(before.count(b) >= 0);
                        if before.count(b) == 0 {
                            assert(crate::utilities::weight(
                                &before,
                                player.cards.blacklisted_cards@,
                                b,
                            ) == 0);
                        }
                    }
                }
                assert forall|b: Bird| #[trigger] pool.count(b) <= start.count(b) by {
                    assert(pool.count(b) <= before.count(b));
                }
                assert forall|b: Bird|
                    #[trigger] sum_over(i + 1, both_of(players@, b)) == sum_over(
                        i + 1,
                        held_by(state.players@, b),
                    ) + start.count(b) - pool.count(b) by {
                    lemma_sum_over_same(i as int, both_of(earlier, b), both_of(players@, b));
                    assert(sum_over(i as int, both_of(earlier, b)) == sum_over(
                        i as int,
                        held_by(state.players@, b),
                    ) + start.count(b) - before.count(b));
                }
                assert forall|k: int| 0 <= k < i + 1 implies (#[trigger] players@[k]).collection
                    == state.players@[k].collection && fills(
                    &players@[k].cards,
                    &state.players@[k].cards,
                ) && players@[k].collection.wf() by {
                    if k < i {
                        assert(players@[k] == earlier[k]);
                    }
                }
            }
            i = i + 1;
        }
        proof {
            assert forall|b: Bird|
                #[trigger] in_hands(players@, b) + in_collections(players@, b) == with_players(
                    state.players@,
                    b,
                ) + start.count(b) - pool.count(b) by {
                lemma_sum_over_add(
                    n as int,
                    hand_of(players@, b),
                    collection_of(players@, b),
                    both_of(players@, b),
                );
                assert(sum_over(n as int, both_of(players@, b)) == sum_over(
                    n as int,
                    held_by(state.players@, b),
                ) + start.count(b) - pool.count(b));
            }
        }
        Some(players)
    }

    /// Fixes the batches of discarded cards, one after the other, by
    /// sampling from `pool`, and lays them on one pile; stops where the
    /// pool cannot supply a batch.
    fn sample_discards(
        state: &CubirdsState,
        pool: &mut BirdCounts,
        rng: &mut StdRng,
    ) -> (r: Option<BirdCounts>)
        requires
            state.wf(),
            old(pool).wf(),
            forall|b: Bird|
                #[trigger] old(pool).count(b) + in_discards(state.discard_pile@, b) <= i32::MAX,
        ensures
            suppliable(
                state.hands(),
                state.players@.len() as int,
                *old(pool),
            ) ==> r is Some,
            match r {
                Some(discarded) => {
                    &&& final(pool).wf()
                    &&& discarded.wf()
                    &&& forall|b: Bird| #[trigger] final(pool).count(b) <= old(pool).count(b)
                    &&& forall|b: Bird|
                        #[trigger] discarded.count(b) == in_discards(state.discard_pile@, b)
                            + old(pool).count(b) - final(pool).count(b)
                    &&& discarded.sum() == discarded_cards(state.discard_pile@)
                },
                None => true,
            },
    {
        let ghost hands = state.hands();
        let ghost start = *pool;
        let ghost np = state.players@.len() as int;
        let n = state.discard_pile.len();
        let mut discarded = BirdCounts::new();
        let mut j: usize = 0;
        while j < n
            invariant
                state.wf(),
                hands == state.hands(),
                start == *old(pool),
                np == state.players@.len(),
                j <= n == state.discard_pile@.len(),
                pool.wf(),
                discarded.wf(),
                forall|b: Bird|
                    #[trigger] start.count(b) + in_discards(state.discard_pile@, b) <= i32::MAX,
                forall|b: Bird| #[trigger] pool.count(b) <= start.count(b),
                suppliable(hands, np, start) ==> suppliable(hands, np + j, *pool),
                forall|b: Bird|
                    #[trigger] discarded.count(b) == sum_over(
                        j as int,
                        thrown_in(state.discard_pile@, b),
                    ) + start.count(b) - pool.count(b),
                discarded.sum() == sum_over(j as int, sizes_of(state.discard_pile@)),
            decreases n - j,
        {
            let discard = &state.discard_pile[j];
            let ghost before = *pool;
            assert(hands[np + j] == *discard);
            if !discard.can_sample(pool) {
                return None;
            }
            let sampled = discard.sample(pool, rng);
            proof {
                assert(pool.wf()) by {
                    assert forall|b: Bird| #[trigger] pool.count(b) >= 0 by {
                        assert(before.count(b) >= 0);
                        if before.count(b) == 0 {
                            assert(crate::utilities::weight(
                                &before,
                                discard.blacklisted_cards@,
                                b,
                            ) == 0);
                        }
                    }
                }
                assert forall|b: Bird|
                    pool.count(b) <= start.count(b) && i32::MIN <= discarded.count(b)
                        + #[trigger] sampled.count(b) <= i32::MAX by {
                    assert(pool.count(b) <= before.count(b));
                    assert(before.count(b) <= start.count(b));
                    lemma_sum_over_grows(
                        j + 1,
                        n as int,
                        thrown_in(state.discard_pile@, b),
                    );
                    assert(start.count(b) + in_discards(state.discard_pile@, b) <= i32::MAX);
                    assert(sampled.count(b) == discard.known_cards.count(b) + before.count(b)
                        - pool.count(b));
                }
            }
            discarded.add_all(&sampled);
            proof {
                assert forall|b: Bird| #[trigger] pool.count(b) <= start.count(b) by {
                    assert(pool.count(b) <= before.count(b));
                }
                assert forall|b: Bird|
                    #[trigger] discarded.count(b) == sum_over(
                        j + 1,
                        thrown_in(state.discard_pile@, b),
                    ) + start.count(b) - pool.count(b) by {
                    assert(sampled.count(b) == discard.known_cards.count(b) + before.count(b)
                        - pool.count(b));
                }
                assert(discarded.wf()) by {
                    assert forall|b: Bird| #[trigger] discarded.count(b) >= 0 by {
                        assert(sampled.count(b) >= 0);
                    }
                }
            }
            j = j + 1;
        }
        Some(discarded)
    }

    /// Fixes every card in a place that what is known of the game allows:
    /// the hands of the players are sampled in the order of play, then the
    /// batches of discarded cards in their order, each from the cards of
    /// which the place is not known and that the ones before have left, and
    /// what is left at the end is shuffled into the draw pile.
    ///
    /// The result is `None` where the counts of the knowledge are not
    /// natural numbers or more cards of a species are placed than the game
    /// has, and where, as the draws fell, the cards left could not supply a
    /// hand or a batch. None of these happens where the knowledge is
    /// consistent.
    pub fn try_sample_from(state: &CubirdsState, rng: &mut StdRng) -> (r: Option<
        MaterializedCubirdsState,
    >)
        ensures
            state.consistent() ==> r is Some,
            r is Some ==> state.accountable(),
            match r {
                Some(sampled) => sampled.determinizes(state),
                None => true,
            },
    {
        if !state.is_wf() {
            return None;
        }
        let mut available_cards = match state.available_above(0) {
            Some(cards) => cards,
            None => {
                return None;
            },
        };
        let ghost all = available_cards;
        proof {
            assert(state.is_residual(all));
            assert(available_cards.wf()) by {
                assert forall|b: Bird| #[trigger] available_cards.count(b) >= 0 by {
                    assert(state.residual(b) >= 0);
                }
            }
        }
        let players = match Self::sample_hands(state, &mut available_cards, rng) {
            Some(players) => players,
            None => {
                return None;
            },
        };
        let ghost second = available_cards;
        proof {
            assert forall|b: Bird|
                with_players(state.players@, b) >= 0 && on_board(state.board@, b) >= 0
                    && in_discards(state.discard_pile@, b) >= 0 && #[trigger] second.count(b)
                    + in_discards(state.discard_pile@, b) <= i32::MAX by {
                let np = state.players@.len() as int;
                let nd = state.discard_pile@.len() as int;
                lemma_sum_over_grows(np, np, held_by(state.players@, b));
                lemma_sum_over_grows(4, 4, lying_on(state.board@, b));
                lemma_sum_over_grows(nd, nd, thrown_in(state.discard_pile@, b));
                assert(all.count(b) == state.residual(b));
                assert(second.count(b) <= all.count(b));
            }
        }
        let discarded = match Self::sample_discards(state, &mut available_cards, rng) {
            Some(discarded) => discarded,
            None => {
                return None;
            },
        };
        let deck = Self::sample_pile(&available_cards, rng);
        let sampled = MaterializedCubirdsState {
            board: [
                state.board[0].clone(),
                state.board[1].clone(),
                state.board[2].clone(),
                state.board[3].clone(),
            ],
            players,
            player_idx: state.player_idx,
            draw_pile: deck,
            discard_pile: discarded,
            turn: state.turn,
        };
        proof {
            assert forall|b: Bird| #[trigger] sampled.census(b) == b.copies() by {
                lemma_sum_over_same(4, lying_on(sampled.board@, b), lying_on(state.board@, b));
                assert(all.count(b) == state.residual(b));
                assert(in_hands(sampled.players@, b) + in_collections(sampled.players@, b)
                    == with_players(state.players@, b) + all.count(b) - second.count(b));
                assert(discarded.count(b) == in_discards(state.discard_pile@, b) + second.count(
                    b,
                ) - available_cards.count(b));
                assert(occurrences(deck@, b) == crate::materialized_state::pile_count(
                    &available_cards,
                    b,
                ));
                assert(available_cards.count(b) >= 0);
            }
            assert forall|b: Bird|
                #[trigger] sampled.discard_pile.count(b) >= in_discards(
                    state.discard_pile@,
                    b,
                ) by {
                assert(available_cards.count(b) <= second.count(b));
            }
        }
        Some(sampled)
    }

    /// Fixes every card in a place that what is known of the game allows,
    /// as `try_sample_from` does, for knowledge that is consistent.
    pub fn sample_from(state: &CubirdsState, rng: &mut StdRng) -> (sampled:
        MaterializedCubirdsState)
        requires
            state.consistent(),
        ensures
            sampled.determinizes(state),
    {
        match Self::try_sample_from(state, rng) {
            Some(sampled) => sampled,
            None => {
                assert(false);
                MaterializedCubirdsState {
                    board: [Line::new(), Line::new(), Line::new(), Line::new()],
                    players: Vec::new(),
                    player_idx: state.player_idx,
                    draw_pile: Vec::new(),
                    discard_pile: BirdCounts::new(),
                    turn: state.turn,
                }
            },
        }
    }
}

} // verus!
