use crate::bird::{lemma_thresholds, Bird};
use crate::counts::BirdCounts;
use crate::materialized_state::MaterializedCubirdsState;
use crate::moves::FlockMove;
use crate::player::{flock_size, MaterializedPlayer};
use crate::sums::{lemma_sum_over_change, lemma_sum_over_zero, sum_over};
use crate::random::random_below;
use crate::STARTING_CARDS_HAND;
use rand::rngs::StdRng;
use vstd::prelude::*;

verus! {

/// For each player, by position, the number of cards in the hand.
pub open spec fn hand_sizes(players: Seq<MaterializedPlayer>) -> spec_fn(int) -> int {
    |i: int| players[i].cards.sum()
}

impl MaterializedCubirdsState {
    /// The cards of this state lie as those of `before` do once the player
    /// whose turn it is there has made the choice `choice`: nothing has
    /// moved where no flock flies home; else all cards of the species have
    /// left the hand, 2 of them have joined the collection where they make a
    /// large flock and 1 otherwise, and the others have gone to the discard
    /// pile.
    pub open spec fn flock_effect(&self, before: &Self, choice: FlockMove) -> bool {
        &&& self.same_but(before, before.turn as int, 0)
        &&& self.board@[0]@ == before.board@[0]@
        &&& self.draw_pile@ == before.draw_pile@
        &&& match choice.bird {
            Some(bird) => {
                &&& forall|b: Bird|
                    #[trigger] self.players@[before.turn as int].cards.count(b) == if b == bird {
                        0
                    } else {
                        before.active_hand().count(b)
                    }
                &&& forall|b: Bird|
                    #[trigger] self.players@[before.turn as int].collection.count(b)
                        == before.players@[before.turn as int].collection.count(b) + if b
                        == bird {
                        flock_size(bird, before.active_hand().count(bird))
                    } else {
                        0
                    }
                &&& forall|b: Bird|
                    #[trigger] self.discard_pile.count(b) == before.discard_pile.count(b) + if b
                        == bird {
                        before.active_hand().count(bird) - flock_size(
                            bird,
                            before.active_hand().count(bird),
                        )
                    } else {
                        0
                    }
            },
            None => self.players@[before.turn as int] == before.players@[before.turn as int]
                && self.discard_pile == before.discard_pile,
        }
    }

    /// This state is what `before` becomes when the player whose turn it is
    /// makes the choice `choice`, and the turn stays with that player.
    pub open spec fn flocked(&self, before: &Self, choice: FlockMove) -> bool {
        &&& self.turn == before.turn
        &&& self.flock_effect(before, choice)
    }

    /// A flock that flies home from a hand gives 2 cards to the collection
    /// and the others to the discard pile where it is large, and 1 card to
    /// the collection and the others to the discard pile where it is small.
    pub proof fn lemma_flock_sizing(&self, before: &Self, bird: Bird)
        requires
            self.flock_effect(before, FlockMove { bird: Some(bird) }),
        ensures
            before.active_hand().count(bird) >= bird.large() ==> {
                &&& self.players@[before.turn as int].collection.count(bird)
                    == before.players@[before.turn as int].collection.count(bird) + 2
                &&& self.discard_pile.count(bird) == before.discard_pile.count(bird)
                    + before.active_hand().count(bird) - 2
            },
            bird.small() <= before.active_hand().count(bird) < bird.large() ==> {
                &&& self.players@[before.turn as int].collection.count(bird)
                    == before.players@[before.turn as int].collection.count(bird) + 1
                &&& self.discard_pile.count(bird) == before.discard_pile.count(bird)
                    + before.active_hand().count(bird) - 1
            },
            self.players@[before.turn as int].cards.count(bird) == 0,
    {
    }

    /// Plays the end of a turn with the choice given: the flock of the
    /// species chosen, if any, flies home from the hand of the player whose
    /// turn it is.
    pub fn flock_play(&mut self, choice: FlockMove)
        requires
            old(self).wf(),
            old(self).turn < old(self).players@.len(),
            match choice.bird {
                Some(bird) => old(self).active_hand().count(bird) >= 1,
                None => true,
            },
        ensures
            final(self).wf(),
            final(self).flocked(old(self), choice),
    {
        let turn = self.turn;
        if let Some(bird) = choice.bird {
            proof {
                self.lemma_bounds(turn as int, 0, bird);
                lemma_thresholds(bird);
            }
            self.players[turn].fly_home(bird, &mut self.discard_pile);
            proof {
                assert forall|b: Bird| #[trigger] self.census(b) == b.copies() by {
                    self.lemma_census_frame(old(self), turn as int, 0, b);
                    assert(old(self).census(b) == b.copies());
                }
                assert forall|i: int| 0 <= i < self.players@.len() implies (
                #[trigger] self.players@[i]).cards.wf() && self.players@[i].collection.wf() by {
                    assert(old(self).players@[i].cards.wf());
                    assert(old(self).players@[i].collection.wf());
                    if i == turn {
                        assert forall|b: Bird|
                            #[trigger] self.players@[i].cards.count(b) >= 0 by {
                            assert(old(self).players@[i].cards.count(b) >= 0);
                        }
                        assert forall|b: Bird|
                            #[trigger] self.players@[i].collection.count(b) >= 0 by {
                            assert(old(self).players@[i].collection.count(b) >= 0);
                        }
                    }
                }
                assert forall|b: Bird| #[trigger] self.discard_pile.count(b) >= 0 by {
                    assert(old(self).discard_pile.count(b) >= 0);
                }
            }
        }
    }

    /// Ends a turn with a random choice: each flock in the hand of the
    /// player whose turn it is, and letting none fly home, is as likely as
    /// any other. The choice is the one that `flock_choice` gives for a
    /// random number up to the number of flocks.
    pub fn random_flock_play(&mut self, rng: &mut StdRng) -> (choice: FlockMove)
        requires
            old(self).wf(),
            old(self).turn < old(self).players@.len(),
        ensures
            final(self).wf(),
            final(self).flocked(old(self), choice),
            match choice.bird {
                Some(bird) => old(self).players@[old(self).turn as int].can_flock(bird),
                None => true,
            },
    {
        let flockable = self.players[self.turn].flockable();
        let flock_idx = random_below(rng, flockable.len() as u64 + 1) as usize;
        let choice = FlockMove { bird: self.players[self.turn].flock_choice(flock_idx) };
        proof {
            if let Some(bird) = choice.bird {
                lemma_thresholds(bird);
            }
        }
        self.flock_play(choice);
        choice
    }

    /// Number of cards in the hands of all players together.
    pub open spec fn held_cards(&self) -> int {
        sum_over(self.players@.len() as int, hand_sizes(self.players@))
    }

    /// Ends the round: every hand goes to the discard pile, and every
    /// player is dealt a new hand from the piles, one player after the
    /// other. The result tells whether the piles held the cards for all:
    /// they do exactly when the hands and the piles together hold a full
    /// hand for every player.
    pub fn reset(&mut self, rng: &mut StdRng) -> (dealt: bool)
        requires
            old(self).wf(),
        ensures
            final(self).wf(),
            final(self).turn == old(self).turn,
            final(self).player_idx == old(self).player_idx,
            final(self).players@.len() == old(self).players@.len(),
            forall|i: int|
                0 <= i < final(self).players@.len()
                    ==> (#[trigger] final(self).players@[i]).collection
                    == old(self).players@[i].collection,
            forall|l: int| 0 <= l < 4
                ==> (#[trigger] final(self).board@[l])@ == old(self).board@[l]@,
            dealt ==> forall|i: int|
                0 <= i < final(self).players@.len()
                    ==> (#[trigger] final(self).players@[i]).cards.sum() == STARTING_CARDS_HAND,
            !dealt ==> final(self).draw_pile@.len() == 0 && final(self).discard_pile.sum() == 0,
            dealt <==> old(self).held_cards() + old(self).piled() >= STARTING_CARDS_HAND
                * old(self).players@.len(),
    {
        let n = self.players.len();
        let ghost cards = self.held_cards() + self.piled();
        let mut i: usize = 0;
        while i < n
            invariant
                self.wf(),
                self.held_cards() + self.piled() == cards,
                cards == old(self).held_cards() + old(self).piled(),
                i <= n == self.players@.len(),
                n == old(self).players@.len(),
                self.turn == old(self).turn,
                self.player_idx == old(self).player_idx,
                forall|k: int|
                    0 <= k < n ==> (#[trigger] self.players@[k]).collection
                        == old(self).players@[k].collection,
                forall|k: int| 0 <= k < i ==> (#[trigger] self.players@[k]).cards.sum() == 0,
                forall|l: int| 0 <= l < 4 ==> (#[trigger] self.board@[l])@ == old(self).board@[l]@,
            decreases n - i,
        {
            let ghost before = *self;
            let hand = self.players[i].cards;
            proof {
                assert forall|b: Bird|
                    i32::MIN <= self.discard_pile.count(b) + #[trigger] hand.count(b)
                        <= i32::MAX by {
                    self.lemma_bounds(i as int, 0, b);
                }
            }
            self.discard_pile.add_all(&hand);
            self.players[i].cards = BirdCounts::new();
            proof {
                lemma_sum_over_change(
                    n as int,
                    hand_sizes(before.players@),
                    hand_sizes(self.players@),
                    i as int,
                );
                assert(self.same_but(&before, i as int, 0));
                assert forall|b: Bird| #[trigger] self.census(b) == b.copies() by {
                    self.lemma_census_frame(&before, i as int, 0, b);
                    assert(before.census(b) == b.copies());
                }
                assert forall|k: int| 0 <= k < self.players@.len() implies (
                #[trigger] self.players@[k]).cards.wf() && self.players@[k].collection.wf() by {
                    assert(before.players@[k].cards.wf());
                    assert(before.players@[k].collection.wf());
                }
                assert forall|b: Bird| #[trigger] self.discard_pile.count(b) >= 0 by {
                    assert(before.discard_pile.count(b) >= 0);
                    assert(before.players@[i as int].cards.wf());
                    assert(hand.count(b) >= 0);
                }
                assert forall|k: int| 0 <= k < i + 1 implies (
                #[trigger] self.players@[k]).cards.sum() == 0 by {
                    if k < i {
                        assert(self.players@[k] == before.players@[k]);
                    }
                }
                assert forall|k: int| 0 <= k < n implies (#[trigger] self.players@[k]).collection
                    == old(self).players@[k].collection by {
                    assert(before.players@[k].collection == old(self).players@[k].collection);
                }
            }
            i = i + 1;
        }
        proof {
            assert forall|k: int| 0 <= k < n implies #[trigger] hand_sizes(self.players@)(k)
                == 0 by {
                assert(self.players@[k].cards.sum() == 0);
            }
            lemma_sum_over_zero(n as int, hand_sizes(self.players@));
        }
        let mut p: usize = 0;
        while p < n
            invariant
                self.wf(),
                self.piled() == cards - STARTING_CARDS_HAND * p,
                cards == old(self).held_cards() + old(self).piled(),
                p <= n == self.players@.len(),
                n == old(self).players@.len(),
                self.turn == old(self).turn,
                self.player_idx == old(self).player_idx,
                forall|k: int|
                    0 <= k < n ==> (#[trigger] self.players@[k]).collection
                        == old(self).players@[k].collection,
                forall|k: int|
                    0 <= k < p ==> (#[trigger] self.players@[k]).cards.sum()
                        == STARTING_CARDS_HAND,
                forall|k: int| p <= k < n ==> (#[trigger] self.players@[k]).cards.sum() == 0,
                forall|l: int| 0 <= l < 4 ==> (#[trigger] self.board@[l])@ == old(self).board@[l]@,
            decreases n - p,
        {
            let mut c: i32 = 0;
            while c < STARTING_CARDS_HAND
                invariant
                    self.wf(),
                    self.piled() == cards - STARTING_CARDS_HAND * p - c,
                    cards == old(self).held_cards() + old(self).piled(),
                    0 <= c <= STARTING_CARDS_HAND,
                    p < n == self.players@.len(),
                    n == old(self).players@.len(),
                    self.turn == old(self).turn,
                    self.player_idx == old(self).player_idx,
                    forall|k: int|
                        0 <= k < n ==> (#[trigger] self.players@[k]).collection
                            == old(self).players@[k].collection,
                    forall|k: int|
                        0 <= k < p ==> (#[trigger] self.players@[k]).cards.sum()
                            == STARTING_CARDS_HAND,
                    forall|k: int| p < k < n ==> (#[trigger] self.players@[k]).cards.sum() == 0,
                    self.players@[p as int].cards.sum() == c,
                    forall|l: int|
                        0 <= l < 4 ==> (#[trigger] self.board@[l])@ == old(self).board@[l]@,
                decreases STARTING_CARDS_HAND - c,
            {
                let ghost before = *self;
                let drawn = self.draw_for(p, rng);
                proof {
                    before.lemma_piled();
                    assert forall|k: int| 0 <= k < n implies (
                    #[trigger] self.players@[k]).collection
                        == old(self).players@[k].collection by {
                        assert(before.players@[k].collection == old(self).players@[k].collection);
                        if k != p {
                            assert(self.players@[k] == before.players@[k]);
                        }
                    }
                    assert forall|k: int| 0 <= k < p implies (
                    #[trigger] self.players@[k]).cards.sum() == STARTING_CARDS_HAND by {
                        assert(self.players@[k] == before.players@[k]);
                    }
                    assert forall|k: int| p < k < n implies
                        (#[trigger] self.players@[k]).cards.sum()
                        == 0 by {
                        assert(self.players@[k] == before.players@[k]);
                    }
                    assert forall|l: int| 0 <= l < 4 implies (#[trigger] self.board@[l])@
                        == old(self).board@[l]@ by {
                        assert(before.board@[l]@ == old(self).board@[l]@);
                    }
                }
                if drawn.is_none() {
                    return false;
                }
                c = c + 1;
            }
            p = p + 1;
        }
        proof {
            self.lemma_piled();
        }
        true
    }

    /// Ends the turn: where the hand of the player whose turn it was is
    /// empty, the round ends and new hands are dealt, and the player plays
    /// again; the result then tells whether the piles held the cards.
    /// Otherwise the turn passes to the next player, and the result is
    /// `None`.
    pub fn determine_reset(&mut self, rng: &mut StdRng) -> (r: Option<bool>)
        requires
            old(self).wf(),
            old(self).turn < old(self).players@.len(),
        ensures
            final(self).wf(),
            final(self).player_idx == old(self).player_idx,
            final(self).players@.len() == old(self).players@.len(),
            forall|i: int|
                0 <= i < final(self).players@.len()
                    ==> (#[trigger] final(self).players@[i]).collection
                    == old(self).players@[i].collection,
            forall|l: int| 0 <= l < 4
                ==> (#[trigger] final(self).board@[l])@ == old(self).board@[l]@,
            r is Some <==> old(self).active_hand().sum() == 0,
            match r {
                Some(dealt) => {
                    &&& final(self).turn == old(self).turn
                    &&& dealt ==> forall|i: int|
                        0 <= i < final(self).players@.len()
                            ==> (#[trigger] final(self).players@[i]).cards.sum()
                            == STARTING_CARDS_HAND
                    &&& !dealt ==> final(self).draw_pile@.len()
                        == 0 && final(self).discard_pile.sum() == 0
                    &&& dealt <==> old(self).held_cards() + old(self).piled()
                        >= STARTING_CARDS_HAND * old(self).players@.len()
                },
                None => {
                    &&& final(self).turn == (old(self).turn + 1) % (old(self).players@.len() as int)
                    &&& final(self).players@ == old(self).players@
                    &&& final(self).draw_pile@ == old(self).draw_pile@
                    &&& final(self).discard_pile == old(self).discard_pile
                },
            },
    {
        let turn = self.turn;
        let n = self.players.len();
        if self.players[turn].cards.total() == 0 {
            return Some(self.reset(rng));
        }
        let next = if turn + 1 == n {
            0
        } else {
            turn + 1
        };
        proof {
            let n = self.players@.len() as int;
            if self.turn + 1 == n {
                assert((self.turn + 1) % n == 0);
            } else {
                assert((self.turn + 1) % n == self.turn + 1) by {
                    vstd::arithmetic::div_mod::lemma_small_mod((self.turn + 1) as nat, n as nat);
                }
            }
            assert forall|b: Bird| #[trigger] self.census(b) == b.copies() by {
                assert(old(self).census(b) == b.copies());
            }
        }
        self.turn = next;
        proof {
            assert forall|b: Bird| #[trigger] self.census(b) == b.copies() by {
                assert(old(self).census(b) == b.copies());
                assert(self.census(b) == old(self).census(b));
            }
        }
        None
    }

    /// The hand of the player whose turn it is holds more cards than those
    /// that the choice `choice` lets fly home.
    pub open spec fn outlasts(&self, choice: FlockMove) -> bool {
        self.active_hand().sum() > match choice.bird {
            Some(bird) => self.active_hand().count(bird),
            None => 0,
        }
    }

    /// Plays the end of a turn at random: a flock may fly home, each flock
    /// of the hand and none being as likely as any other; then the round
    /// ends, if the hand is empty, or the turn passes on. The result is the
    /// choice of the flock and, where the round ended, whether the piles
    /// held new hands for all.
    pub fn end_turn(&mut self, rng: &mut StdRng) -> (r: (FlockMove, Option<bool>))
        requires
            old(self).wf(),
            old(self).turn < old(self).players@.len(),
        ensures
            final(self).wf(),
            final(self).player_idx == old(self).player_idx,
            final(self).players@.len() == old(self).players@.len(),
            forall|l: int| 0 <= l < 4
                ==> (#[trigger] final(self).board@[l])@ == old(self).board@[l]@,
            forall|i: int|
                0 <= i < old(self).players@.len() && i != old(self).turn
                    ==> (#[trigger] final(self).players@[i]).collection
                    == old(self).players@[i].collection,
            forall|b: Bird|
                #[trigger] final(self).players@[old(self).turn as int].collection.count(b)
                    >= old(self).players@[old(self).turn as int].collection.count(b),
            match r.0.bird {
                Some(bird) => old(self).players@[old(self).turn as int].can_flock(bird),
                None => true,
            },
            r.1 is None <==> old(self).outlasts(r.0),
            match r.1 {
                Some(dealt) => {
                    &&& final(self).turn == old(self).turn
                    &&& dealt ==> forall|i: int|
                        0 <= i < final(self).players@.len()
                            ==> (#[trigger] final(self).players@[i]).cards.sum()
                            == STARTING_CARDS_HAND
                    &&& !dealt ==> final(self).draw_pile@.len() == 0
                        && final(self).discard_pile.sum() == 0
                },
                None => {
                    &&& final(self).flock_effect(old(self), r.0)
                    &&& final(self).turn == (old(self).turn + 1) % (old(self).players@.len() as int)
                    &&& old(self).players@.len() > 1 ==> final(self).turn != old(self).turn
                    &&& final(self).players@[old(self).turn as int].cards.sum() > 0
                },
            },
    {
        let ghost turn = self.turn as int;
        let ghost n = self.players@.len() as int;
        let choice = self.random_flock_play(rng);
        let ghost flocked_state = *self;
        proof {
            assert(self.players@[turn].cards.wf());
            assert(old(self).players@[turn].cards.wf());
            match choice.bird {
                Some(bird) => {
                    crate::rollout::lemma_sum_without(
                        &old(self).active_hand(),
                        &self.active_hand(),
                        bird,
                    );
                },
                None => {},
            }
            crate::rollout::lemma_sum_natural(&self.active_hand());
        }
        let ended = self.determine_reset(rng);
        proof {
            assert forall|b: Bird|
                #[trigger] self.players@[turn].collection.count(b)
                    >= old(self).players@[turn].collection.count(b) by {
                assert(self.players@[turn].collection == flocked_state.players@[turn].collection);
                assert(flocked_state.players@[turn].collection.count(b)
                    >= old(self).players@[turn].collection.count(b));
            }
            assert forall|i: int| 0 <= i < n && i != turn implies (
            #[trigger] self.players@[i]).collection == old(self).players@[i].collection by {
                assert(self.players@[i].collection == flocked_state.players@[i].collection);
                assert(flocked_state.players@[i] == old(self).players@[i]);
            }
            assert forall|l: int| 0 <= l < 4 implies
                (#[trigger] self.board@[l])@ == old(self).board@[l]@ by {
                assert(flocked_state.board@[l]@ == old(self).board@[l]@);
            }
            if ended is None {
                if turn + 1 != n {
                    vstd::arithmetic::div_mod::lemma_small_mod((turn + 1) as nat, n as nat);
                } else {
                    vstd::arithmetic::div_mod::lemma_mod_self_0(n);
                }
                assert(self.flock_effect(old(self), choice)) by {
                    assert(self.players@ == flocked_state.players@);
                    assert(flocked_state.flock_effect(old(self), choice));
                }
            }
        }
        (choice, ended)
    }
}

} // verus!
