use crate::bird::Bird;
use crate::counts::BirdCounts;
use crate::line::{after_capture, facing, has_capture};
use crate::materialized_state::{has_won, MaterializedCubirdsState};
use crate::moves::{FlockMove, LineMove};
use crate::playout::TURN_LIMIT;
use crate::random::random_below;
use crate::{LINES, STARTING_CARDS_HAND};
use rand::rngs::StdRng;
use vstd::prelude::*;

verus! {

/// The line is the line `base` with cards laid at one of its ends.
pub open spec fn filled_from(line: Seq<Bird>, base: Seq<Bird>) -> bool {
    &&& line.len() >= base.len()
    &&& facing(line, true).skip(line.len() - base.len()) == facing(base, true) || facing(
        line,
        false,
    ).skip(line.len() - base.len()) == facing(base, false)
}

/// The hand holds cards of the three species, which differ.
pub open spec fn holds_three(hand: &BirdCounts, a: Bird, b: Bird, c: Bird) -> bool {
    a != b && a != c && b != c && hand.count(a) > 0 && hand.count(b) > 0 && hand.count(c) > 0
}

/// The hand holds cards of three species or more.
pub open spec fn three_species(hand: &BirdCounts) -> bool {
    exists|a: Bird, b: Bird, c: Bird| holds_three(hand, a, b, c)
}

/// Counts that grow do not lose a species that they hold `n` cards of.
pub proof fn lemma_kinds_grow(before: &BirdCounts, after: &BirdCounts, n: int, i: int)
    requires
        forall|b: Bird| #[trigger] after.count(b) >= before.count(b),
    ensures
        after.kinds_below(n, i) >= before.kinds_below(n, i),
    decreases i,
{
    if i > 0 {
        lemma_kinds_grow(before, after, n, i - 1);
        assert(after.count(Bird::at(i - 1)) >= before.count(Bird::at(i - 1)));
    }
}

/// A hand of natural numbers of cards that holds a card of one species is
/// not empty.
pub proof fn lemma_hand_holds(hand: &BirdCounts, bird: Bird)
    requires
        hand.wf(),
        hand.count(bird) > 0,
    ensures
        hand.sum() > 0,
{
    assert(hand.count(Bird::PARROT) >= 0);
    assert(hand.count(Bird::WARBLER) >= 0);
    assert(hand.count(Bird::TOUCAN) >= 0);
    assert(hand.count(Bird::FLAMINGO) >= 0);
    assert(hand.count(Bird::ROBIN) >= 0);
    assert(hand.count(Bird::MAGPIE) >= 0);
    assert(hand.count(Bird::OWL) >= 0);
    assert(hand.count(Bird::DUCK) >= 0);
}

/// A hand that loses all cards of one species and no others loses as many
/// cards as it held of that species.
pub proof fn lemma_sum_without(before: &BirdCounts, after: &BirdCounts, bird: Bird)
    requires
        forall|b: Bird|
            #[trigger] after.count(b) == if b == bird {
                0
            } else {
                before.count(b)
            },
    ensures
        after.sum() == before.sum() - before.count(bird),
{
    assert(after.count(Bird::PARROT) == 0 || after.count(Bird::PARROT)
        == before.count(Bird::PARROT));
    assert(after.count(Bird::WARBLER) == 0 || after.count(Bird::WARBLER) == before.count(
        Bird::WARBLER,
    ));
    assert(after.count(Bird::TOUCAN) == 0 || after.count(Bird::TOUCAN)
        == before.count(Bird::TOUCAN));
    assert(after.count(Bird::FLAMINGO) == 0 || after.count(Bird::FLAMINGO) == before.count(
        Bird::FLAMINGO,
    ));
    assert(after.count(Bird::ROBIN) == 0 || after.count(Bird::ROBIN) == before.count(Bird::ROBIN));
    assert(after.count(Bird::MAGPIE) == 0 || after.count(Bird::MAGPIE)
        == before.count(Bird::MAGPIE));
    assert(after.count(Bird::OWL) == 0 || after.count(Bird::OWL) == before.count(Bird::OWL));
    assert(after.count(Bird::DUCK) == 0 || after.count(Bird::DUCK) == before.count(Bird::DUCK));
}

/// A hand of natural numbers of cards holds a natural number of cards, and
/// of no species more than it holds in all.
pub proof fn lemma_sum_natural(hand: &BirdCounts)
    requires
        hand.wf(),
    ensures
        hand.sum() >= 0,
        forall|b: Bird| 0 <= #[trigger] hand.count(b) <= hand.sum(),
{
    assert(hand.count(Bird::PARROT) >= 0);
    assert(hand.count(Bird::WARBLER) >= 0);
    assert(hand.count(Bird::TOUCAN) >= 0);
    assert(hand.count(Bird::FLAMINGO) >= 0);
    assert(hand.count(Bird::ROBIN) >= 0);
    assert(hand.count(Bird::MAGPIE) >= 0);
    assert(hand.count(Bird::OWL) >= 0);
    assert(hand.count(Bird::DUCK) >= 0);
}

/// A hand of natural numbers of cards holds as many cards as it holds of
/// two species together, or more.
pub proof fn lemma_sum_of_two(hand: &BirdCounts, a: Bird, b: Bird)
    requires
        hand.wf(),
        a != b,
    ensures
        hand.sum() >= hand.count(a) + hand.count(b),
{
    lemma_sum_natural(hand);
}

impl MaterializedCubirdsState {
    /// The same players sit at the table as in `before`, and no collection
    /// has lost a card.
    pub open spec fn grown_from(&self, before: &Self) -> bool {
        &&& self.players@.len() == before.players@.len()
        &&& forall|i: int, b: Bird|
            0 <= i < before.players@.len() ==> #[trigger] self.players@[i].collection.count(b)
                >= before.players@[i].collection.count(b)
    }

    /// The hand of the player whose turn it is holds a card, and will hold
    /// one whatever flock flies home.
    pub open spec fn keeps_cards(&self) -> bool {
        &&& self.active_hand().sum() > 0
        &&& forall|b: Bird|
            #[trigger] self.players@[self.turn as int].can_flock(b) ==> self.active_hand().count(
                b,
            ) < self.active_hand().sum()
    }

    /// Collections that have grown since a state in which they had grown
    /// have grown since the first.
    pub proof fn lemma_grown_further(&self, between: &Self, before: &Self)
        requires
            self.grown_from(between),
            between.grown_from(before),
        ensures
            self.grown_from(before),
    {
        assert forall|i: int, b: Bird| 0 <= i < before.players@.len() implies #[trigger]
            self.players@[i].collection.count(b) >= before.players@[i].collection.count(b) by {
            assert(self.players@[i].collection.count(b) >= between.players@[i].collection.count(b));
            assert(between.players@[i].collection.count(b) >= before.players@[i].collection.count(
                b,
            ));
        }
    }

    /// Where a player has won, the game is decided.
    pub proof fn lemma_some_winner(&self, w: int)
        requires
            0 <= w < self.players@.len(),
            has_won(&self.players@[w].collection),
        ensures
            self.decided(),
        decreases w,
    {
        if forall|i: int| 0 <= i < w ==> !has_won(&(#[trigger] self.players@[i]).collection) {
            assert(self.is_winner(w));
        } else {
            let i = choose|i: int| 0 <= i < w && has_won(&(#[trigger] self.players@[i]).collection);
            self.lemma_some_winner(i);
        }
    }

    /// A game that is decided stays decided while no collection loses a
    /// card.
    pub proof fn lemma_stays_decided(&self, before: &Self)
        requires
            before.decided(),
            self.grown_from(before),
        ensures
            self.decided(),
    {
        let w = choose|w: int| before.is_winner(w);
        let then = before.players@[w].collection;
        let now = self.players@[w].collection;
        assert forall|b: Bird| #[trigger] now.count(b) >= then.count(b) by {
            assert(self.players@[w].collection.count(b) >= before.players@[w].collection.count(b));
        }
        lemma_kinds_grow(&then, &now, 1, 8);
        lemma_kinds_grow(&then, &now, 3, 8);
        self.lemma_some_winner(w);
    }

    /// At most one player is the first to have won.
    pub proof fn lemma_winner_unique(&self, v: int, w: int)
        requires
            self.is_winner(v),
            self.is_winner(w),
        ensures
            v == w,
    {
        if v < w {
            assert(!crate::materialized_state::has_won(&self.players@[v].collection));
        }
        if w < v {
            assert(!crate::materialized_state::has_won(&self.players@[w].collection));
        }
    }

    /// A hand that holds cards holds cards of some species.
    proof fn lemma_some_species(&self)
        requires
            self.ready(),
        ensures
            exists|b: Bird| self.active_hand().count(b) > 0,
    {
        let hand = self.active_hand();
        assert(self.players@[self.turn as int].cards.wf());
        if hand.count(Bird::PARROT) > 0 {
        } else if hand.count(Bird::WARBLER) > 0 {
        } else if hand.count(Bird::TOUCAN) > 0 {
        } else if hand.count(Bird::FLAMINGO) > 0 {
        } else if hand.count(Bird::ROBIN) > 0 {
        } else if hand.count(Bird::MAGPIE) > 0 {
        } else if hand.count(Bird::OWL) > 0 {
        } else {
            assert(hand.count(Bird::DUCK) > 0);
        }
    }

    /// Plays one turn at random. The player whose turn it is lays all cards
    /// of one species of the hand, each species being as likely as any
    /// other, at the left or the right end of one of the lines, all equally
    /// likely. Where the cards enclose others, those join the hand, and the
    /// line is filled up at a random end; where not, the player draws two
    /// cards or none, as a coin decides. Then a flock may fly home, and at
    /// last the round ends, if the hand is empty, or the turn passes on.
    ///
    /// The result is the move with which the turn began, or `None` where
    /// the piles ran out of cards.
    pub fn random_play(&mut self, rng: &mut StdRng) -> (r: Option<LineMove>)
        requires
            old(self).ready(),
        ensures
            final(self).wf(),
            final(self).player_idx == old(self).player_idx,
            final(self).players@.len() == old(self).players@.len(),
            final(self).turn == old(self).turn || final(self).turn == (old(self).turn + 1) % (
            old(self).players@.len() as int),
            forall|i: int|
                0 <= i < old(self).players@.len() && i != old(self).turn
                    ==> (#[trigger] final(self).players@[i]).collection
                    == old(self).players@[i].collection,
            final(self).grown_from(old(self)),
            old(self).piled() > 20 && three_species(&old(self).active_hand()) ==> r is Some
                && final(self).turn == (old(self).turn + 1) % (old(self).players@.len() as int),
            match r {
                Some(played) => {
                    &&& final(self).ready()
                    &&& played.line < LINES
                    &&& old(self).active_hand().count(played.bird) > 0
                    &&& forall|l: int|
                        0 <= l < 4 && l != played.line ==> (#[trigger] final(self).board@[l])@
                            == old(self).board@[l]@
                    &&& played.draw ==> !has_capture(
                        facing(
                            old(self).line_played(played.bird, played.line, played.left),
                            played.left,
                        ),
                    ) && old(self).piled() >= 2
                    &&& !has_capture(
                        facing(
                            old(self).line_played(played.bird, played.line, played.left),
                            played.left,
                        ),
                    ) ==> final(self).board@[played.line as int]@ == old(self).line_played(
                        played.bird,
                        played.line,
                        played.left,
                    )
                    &&& has_capture(
                        facing(
                            old(self).line_played(played.bird, played.line, played.left),
                            played.left,
                        ),
                    ) ==> filled_from(
                        final(self).board@[played.line as int]@,
                        after_capture(
                            old(self).line_played(played.bird, played.line, played.left),
                            played.left,
                        ),
                    )
                    &&& final(self).turn == old(self).turn && old(self).players@.len() > 1
                        ==> forall|i: int|
                        0 <= i < final(self).players@.len() ==> (
                        #[trigger] final(self).players@[i]).cards.sum() == STARTING_CARDS_HAND
                    &&& final(self).turn != old(self).turn ==> forall|i: int|
                        0 <= i < final(self).players@.len() && i != old(self).turn
                            ==> #[trigger] final(self).players@[i] == old(self).players@[i]
                },
                None => final(self).piled() == 0,
            },
    {
        let turn = self.turn;
        let available_birds = self.players[turn].cards.species();
        proof {
            self.lemma_some_species();
            let b = choose|b: Bird| self.active_hand().count(b) > 0;
            assert(available_birds@.contains(b));
        }
        let bird_idx = random_below(rng, available_birds.len() as u64) as usize;
        let bird = available_birds[bird_idx];
        proof {
            assert(available_birds@[bird_idx as int] == bird);
            assert(available_birds@.contains(bird));
        }
        let line = random_below(rng, LINES as u64) as usize;
        let direction = random_below(rng, 2) == 0;
        let coin = random_below(rng, 2) == 0;
        let retval = match self.play_line(bird, line, direction, coin, rng) {
            Some(played) => played,
            None => {
                proof {
                    assert forall|i: int, b: Bird|
                        0 <= i < old(self).players@.len() implies #[trigger]
                        self.players@[i].collection.count(b)
                            >= old(self).players@[i].collection.count(b) by {
                        if i != turn {
                            assert(self.players@[i] == old(self).players@[i]);
                        }
                    }
                }
                return None;
            },
        };
        let ghost played_state = *self;
        let (first_choice, ended) = self.end_turn(rng);
        proof {
            let n = old(self).players@.len() as int;
            assert forall|i: int, b: Bird| 0 <= i < n implies #[trigger]
                self.players@[i].collection.count(b) >= old(self).players@[i].collection.count(
                b,
            ) by {
                if i != turn {
                    assert(self.players@[i].collection == played_state.players@[i].collection);
                    assert(played_state.players@[i] == old(self).players@[i]);
                } else {
                    assert(self.players@[turn as int].collection.count(b)
                        >= played_state.players@[turn as int].collection.count(b));
                }
            }
            assert forall|i: int| 0 <= i < n && i != turn implies (
            #[trigger] self.players@[i]).collection == old(self).players@[i].collection by {
                assert(self.players@[i].collection == played_state.players@[i].collection);
                assert(played_state.players@[i] == old(self).players@[i]);
            }
            assert forall|l: int| 0 <= l < 4 && l != line implies (#[trigger] self.board@[l])@
                == old(self).board@[l]@ by {
                assert(self.board@[l]@ == played_state.board@[l]@);
                assert(played_state.board@[l]@ == old(self).board@[l]@);
            }
            assert(self.board@[line as int]@ == played_state.board@[line as int]@);
            if ended is None {
                assert forall|i: int| 0 <= i < n && i != turn implies #[trigger] self.players@[i]
                    == old(self).players@[i] by {
                    assert(played_state.players@[i] == old(self).players@[i]);
                }
                assert forall|i: int| 0 <= i < n && i != turn implies (
                #[trigger] self.players@[i]).cards.sum() > 0 by {
                    assert(self.players@[i] == old(self).players@[i]);
                    assert(old(self).players@[i].cards.sum() > 0);
                }
            }
            if old(self).piled() > 20 && three_species(&old(self).active_hand()) {
                let hand = old(self).active_hand();
                let (a, b, c) = choose|a: Bird, b: Bird, c: Bird| holds_three(&hand, a, b, c);
                let x1 = if a != bird {
                    a
                } else {
                    b
                };
                let x2 = if a != bird && b != bird {
                    b
                } else {
                    c
                };
                let held = played_state.active_hand();
                assert(held.count(x1) >= hand.count(x1));
                assert(held.count(x2) >= hand.count(x2));
                assert(played_state.players@[turn as int].cards.wf());
                let y = if first_choice.bird == Some(x1) {
                    x2
                } else {
                    x1
                };
                match first_choice.bird {
                    Some(flown) => {
                        lemma_sum_of_two(&held, flown, y);
                    },
                    None => {
                        lemma_hand_holds(&held, y);
                    },
                }
                assert(played_state.outlasts(first_choice));
            }
        }
        match ended {
            Some(dealt) => {
                if dealt {
                    Some(retval)
                } else {
                    None
                }
            },
            None => Some(retval),
        }
    }

    /// Plays turns at random until a player has won, the piles run out of
    /// cards, or `limit` turns were played. The result is the winner, if
    /// there is one, and the number of turns that were played. Where a
    /// player has won already, no turn is played.
    pub fn rollout_turns(&mut self, limit: u64, rng: &mut StdRng) -> (r: (Option<i32>, u64))
        requires
            old(self).ready(),
        ensures
            final(self).wf(),
            final(self).player_idx == old(self).player_idx,
            final(self).grown_from(old(self)),
            r.1 <= limit,
            old(self).decided() ==> r.0 is Some && r.1 == 0 && *final(self) == *old(self),
            match r.0 {
                Some(winner) => final(self).is_winner(winner as int),
                None => final(self).piled() == 0 || (r.1 == limit && !final(self).decided()),
            },
    {
        let mut win = self.player_win();
        let mut turns: u64 = 0;
        proof {
            if old(self).decided() {
                let w = choose|w: int| self.is_winner(w);
                assert(has_won(&self.players@[w].collection));
            }
        }
        while win.is_none() && turns < limit
            invariant
                self.ready(),
                self.player_idx == old(self).player_idx,
                self.grown_from(old(self)),
                turns <= limit,
                old(self).decided() ==> win is Some && turns == 0 && *self == *old(self),
                match win {
                    Some(winner) => self.is_winner(winner as int),
                    None => !self.decided(),
                },
            decreases limit - turns,
        {
            let ghost before = *self;
            let cmove = self.random_play(rng);
            proof {
                self.lemma_grown_further(&before, old(self));
            }
            turns = turns + 1;
            if cmove.is_none() {
                return (None, turns);
            }
            win = self.player_win();
            proof {
                if win is None && self.decided() {
                    let w = choose|w: int| self.is_winner(w);
                    assert(has_won(&self.players@[w].collection));
                }
            }
        }
        proof {
            if win is None && self.decided() {
                let w = choose|w: int| self.is_winner(w);
                assert(has_won(&self.players@[w].collection));
            }
        }
        (win, turns)
    }

    /// Plays turns at random until a player has won. The result is the
    /// winner, or `None` where the piles ran out of cards or the limit of
    /// turns was reached before anybody won. Where a player has won already,
    /// no turn is played, and the result is that player.
    fn complete_rollout(&mut self, rng: &mut StdRng) -> (r: Option<i32>)
        requires
            old(self).ready(),
        ensures
            final(self).wf(),
            final(self).player_idx == old(self).player_idx,
            final(self).grown_from(old(self)),
            old(self).decided() ==> r is Some && *final(self) == *old(self),
            match r {
                Some(winner) => final(self).is_winner(winner as int),
                None => final(self).piled() == 0 || !final(self).decided(),
            },
    {
        self.rollout_turns(TURN_LIMIT, rng).0
    }

    /// Plays the game out at random from the start of a turn. The result is
    /// the first move and whether the player for whom the game is judged
    /// was the one to win, or `None` where the game was given up: the piles
    /// ran out of cards, or the limit of turns was reached with the game
    /// still open.
    ///
    /// The first turn is played even where a player has won already. It
    /// cannot fail where the piles hold more cards than a species has and
    /// the hand holds cards of three species: then no refill and no draw can
    /// empty the piles, and the hand is not empty at the end of the turn. A
    /// game that was decided before is then over after that turn.
    pub fn full_rollout(&mut self, rng: &mut StdRng) -> (r: Option<(LineMove, bool)>)
        requires
            old(self).ready(),
        ensures
            final(self).wf(),
            final(self).player_idx == old(self).player_idx,
            final(self).grown_from(old(self)),
            old(self).decided() && old(self).piled() > 20 && three_species(
                &old(self).active_hand(),
            ) ==> r is Some && final(self).turn == (old(self).turn + 1) % (
            old(self).players@.len() as int),
            match r {
                Some((first_move, won)) => {
                    &&& first_move.line < LINES
                    &&& old(self).active_hand().count(first_move.bird) > 0
                    &&& final(self).decided()
                    &&& won <==> final(self).is_winner(final(self).player_idx as int)
                },
                None => final(self).piled() == 0 || !final(self).decided(),
            },
    {
        let first_move = match self.random_play(rng) {
            Some(played) => played,
            None => {
                return None;
            },
        };
        let ghost played_state = *self;
        proof {
            if old(self).decided() {
                self.lemma_stays_decided(old(self));
            }
        }
        let outcome = self.complete_rollout(rng);
        proof {
            self.lemma_grown_further(&played_state, old(self));
        }
        match outcome {
            Some(winner) => {
                proof {
                    if self.is_winner(self.player_idx as int) {
                        self.lemma_winner_unique(winner as int, self.player_idx as int);
                    }
                }
                Some((first_move, winner == self.player_idx))
            },
            None => None,
        }
    }

    /// Plays the game out at random from the end of a turn, where a flock
    /// may fly home. The result is the choice made there and whether the
    /// player for whom the game is judged was the one to win, or `None`
    /// where the game was given up: the piles ran out of cards, or the limit
    /// of turns was reached with the game still open.
    ///
    /// Where a player has won already and the hand keeps a card whatever
    /// flock flies home, the turn passes on after the choice and the game is
    /// over: the result is the choice, and nothing but the choice has moved
    /// a card.
    pub fn flock_rollout(&mut self, rng: &mut StdRng) -> (r: Option<(FlockMove, bool)>)
        requires
            old(self).ready_to_flock(),
        ensures
            final(self).wf(),
            final(self).player_idx == old(self).player_idx,
            final(self).grown_from(old(self)),
            old(self).decided() && old(self).keeps_cards() ==> match r {
                Some((first_move, won)) => final(self).flock_effect(old(self), first_move)
                    && final(self).turn == (old(self).turn + 1) % (
                old(self).players@.len() as int),
                None => false,
            },
            match r {
                Some((first_move, won)) => {
                    &&& match first_move.bird {
                        Some(bird) => old(self).players@[old(self).turn as int].can_flock(bird),
                        None => true,
                    }
                    &&& final(self).decided()
                    &&& won <==> final(self).is_winner(final(self).player_idx as int)
                },
                None => final(self).piled() == 0 || !final(self).decided(),
            },
    {
        let turn = self.turn;
        let (first_move, ended) = self.end_turn(rng);
        let ghost passed_state = *self;
        proof {
            let n = old(self).players@.len() as int;
            assert forall|i: int, b: Bird| 0 <= i < n implies #[trigger]
                self.players@[i].collection.count(b) >= old(self).players@[i].collection.count(
                b,
            ) by {
                if i != turn {
                    assert(self.players@[i].collection == old(self).players@[i].collection);
                }
            }
            if old(self).decided() {
                self.lemma_stays_decided(old(self));
            }
            if ended is None {
                assert forall|i: int| 0 <= i < n && i != turn implies (
                #[trigger] self.players@[i]).cards.sum() > 0 by {
                    assert(self.players@[i] == old(self).players@[i]);
                    assert(old(self).players@[i].cards.sum() > 0);
                }
            }
            if old(self).keeps_cards() {
                assert(old(self).outlasts(first_move));
            }
        }
        if let Some(dealt) = ended {
            if !dealt {
                return None;
            }
        }
        let outcome = self.complete_rollout(rng);
        proof {
            self.lemma_grown_further(&passed_state, old(self));
        }
        match outcome {
            Some(winner) => {
                proof {
                    if self.is_winner(self.player_idx as int) {
                        self.lemma_winner_unique(winner as int, self.player_idx as int);
                    }
                }
                Some((first_move, winner == self.player_idx))
            },
            None => None,
        }
    }
}

} // verus!
