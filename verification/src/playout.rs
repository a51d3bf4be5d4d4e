use crate::bird::{occurrences, Bird};
use crate::counts::BirdCounts;
use crate::line::{
    after_capture, captured, facing, has_capture, lemma_capture_splits,
    lemma_occurrences_placed, lemma_occurrences_total, off_the_top, open_end, placed,
};
use crate::materialized_state::{
    collection_of, hand_of, in_collections, in_hands, in_piles, lemma_replace_line,
    lemma_replace_player, pile_count, MaterializedCubirdsState,
};
use crate::moves::LineMove;
use crate::state::{lying_on, on_board};
use crate::sums::{lemma_sum_over_grows, lemma_sum_over_term, one_if};
use crate::LINES;
use rand::rngs::StdRng;
use vstd::prelude::*;

verus! {

/// Number of turns after which a playout is given up. Random play need not
/// come to an end; a playout that reaches the limit is abandoned like one
/// that ran out of cards.
pub const TURN_LIMIT: u64 = 0xffff_ffff_ffff_ffff;

impl MaterializedCubirdsState {
    /// The hand of the player whose turn it is.
    pub open spec fn active_hand(&self) -> BirdCounts {
        self.players@[self.turn as int].cards
    }

    /// Number of cards in the draw pile and the discard pile together.
    pub open spec fn piled(&self) -> int {
        self.draw_pile@.len() + self.discard_pile.sum()
    }

    /// It is the turn of one of the players, and only the hand of that
    /// player may be empty.
    pub open spec fn ready_to_flock(&self) -> bool {
        &&& self.wf()
        &&& self.turn < self.players@.len() <= i32::MAX
        &&& forall|i: int|
            0 <= i < self.players@.len() && i != self.turn ==> (
            #[trigger] self.players@[i]).cards.sum() > 0
    }

    /// It is the turn of one of the players, and no hand is empty.
    pub open spec fn ready(&self) -> bool {
        &&& self.ready_to_flock()
        &&& self.active_hand().sum() > 0
    }

    /// Player `w` has won and no player before `w` has.
    pub open spec fn is_winner(&self, w: int) -> bool {
        &&& 0 <= w < self.players@.len()
        &&& crate::materialized_state::has_won(&self.players@[w].collection)
        &&& forall|i: int|
            0 <= i < w ==> !crate::materialized_state::has_won(
                &(#[trigger] self.players@[i]).collection,
            )
    }

    /// Some player has won.
    pub open spec fn decided(&self) -> bool {
        exists|w: int| self.is_winner(w)
    }

    /// Between `before` and this state only player `who`, line `line` and
    /// the piles may differ.
    pub open spec fn same_but(&self, before: &Self, who: int, line: int) -> bool {
        &&& self.players@.len() == before.players@.len()
        &&& forall|j: int|
            0 <= j < before.players@.len() && j != who ==> #[trigger] self.players@[j]
                == before.players@[j]
        &&& forall|l: int| 0 <= l < 4 && l != line
            ==> (#[trigger] self.board@[l])@ == before.board@[l]@
        &&& self.player_idx == before.player_idx
    }

    /// Where only one player, one line and the piles differ between two
    /// states, the number of cards of a species differs by what those
    /// differ.
    pub proof fn lemma_census_frame(&self, before: &Self, who: int, line: int, b: Bird)
        requires
            self.same_but(before, who, line),
            0 <= who < before.players@.len(),
            0 <= line < 4,
        ensures
            self.census(b) - before.census(b) == self.players@[who].cards.count(b)
                - before.players@[who].cards.count(b) + self.players@[who].collection.count(b)
                - before.players@[who].collection.count(b) + occurrences(self.board@[line]@, b)
                - occurrences(before.board@[line]@, b) + in_piles(
                self.draw_pile@,
                self.discard_pile,
                b,
            ) - in_piles(before.draw_pile@, before.discard_pile, b),
    {
        lemma_replace_player(before.players@, self.players@, who, b);
        lemma_replace_line(before.board@, self.board@, line, b);
    }

    /// In a state that holds the cards of the game and no others, the
    /// hands, the collections, the lines and the piles each hold a natural
    /// number of cards of every species.
    pub proof fn lemma_zones(&self, b: Bird)
        requires
            self.counted(),
        ensures
            in_hands(self.players@, b) >= 0,
            in_collections(self.players@, b) >= 0,
            on_board(self.board@, b) >= 0,
            in_piles(self.draw_pile@, self.discard_pile, b) >= 0,
            self.wf() ==> self.census(b) == b.copies(),
    {
        let n = self.players@.len() as int;
        lemma_sum_over_grows(n, n, hand_of(self.players@, b));
        lemma_sum_over_grows(n, n, collection_of(self.players@, b));
        lemma_sum_over_grows(4, 4, lying_on(self.board@, b));
    }

    /// In a state that holds the cards of the game and no others, a hand, a
    /// collection, a line and the piles together hold no more cards of a
    /// species than the species has.
    pub proof fn lemma_bounds(&self, who: int, line: int, b: Bird)
        requires
            self.counted(),
            0 <= who < self.players@.len(),
            0 <= line < 4,
        ensures
            0 <= self.players@[who].cards.count(b),
            0 <= self.players@[who].collection.count(b),
            0 <= self.discard_pile.count(b),
            self.players@[who].cards.count(b) + self.players@[who].collection.count(b)
                + occurrences(self.board@[line]@, b) + occurrences(self.draw_pile@, b)
                + self.discard_pile.count(b) <= self.census(b),
            self.wf() ==> self.census(b) == b.copies(),
            b.copies() <= 20,
    {
        let n = self.players@.len() as int;
        self.lemma_zones(b);
        lemma_sum_over_term(n, hand_of(self.players@, b), who);
        lemma_sum_over_term(n, collection_of(self.players@, b), who);
        lemma_sum_over_term(4, lying_on(self.board@, b), line);
    }

    /// In a state that holds the cards of the game and no others, no line
    /// is longer than the game has cards.
    pub proof fn lemma_line_length(&self, line: int)
        requires
            self.wf(),
            0 <= line < 4,
        ensures
            self.board@[line]@.len() <= 110,
    {
        lemma_occurrences_total(self.board@[line]@);
        self.lemma_zones(Bird::PARROT);
        self.lemma_zones(Bird::WARBLER);
        self.lemma_zones(Bird::TOUCAN);
        self.lemma_zones(Bird::FLAMINGO);
        self.lemma_zones(Bird::ROBIN);
        self.lemma_zones(Bird::MAGPIE);
        self.lemma_zones(Bird::OWL);
        self.lemma_zones(Bird::DUCK);
        lemma_sum_over_term(4, lying_on(self.board@, Bird::PARROT), line);
        lemma_sum_over_term(4, lying_on(self.board@, Bird::WARBLER), line);
        lemma_sum_over_term(4, lying_on(self.board@, Bird::TOUCAN), line);
        lemma_sum_over_term(4, lying_on(self.board@, Bird::FLAMINGO), line);
        lemma_sum_over_term(4, lying_on(self.board@, Bird::ROBIN), line);
        lemma_sum_over_term(4, lying_on(self.board@, Bird::MAGPIE), line);
        lemma_sum_over_term(4, lying_on(self.board@, Bird::OWL), line);
        lemma_sum_over_term(4, lying_on(self.board@, Bird::DUCK), line);
    }

    /// Player `who` draws a card into the hand, if the piles hold one.
    pub(crate) fn draw_for(&mut self, who: usize, rng: &mut StdRng) -> (r: Option<Bird>)
        requires
            old(self).wf(),
            who < old(self).players@.len(),
        ensures
            final(self).wf(),
            final(self).turn == old(self).turn,
            final(self).same_but(old(self), who as int, 0),
            final(self).board@[0]@ == old(self).board@[0]@,
            final(self).players@[who as int].collection
                == old(self).players@[who as int].collection,
            forall|b: Bird|
                #[trigger] final(self).players@[who as int].cards.count(b)
                    == old(self).players@[who as int].cards.count(b) + match r {
                    Some(drawn) => one_if(drawn == b),
                    None => 0,
                },
            final(self).players@[who as int].cards.sum()
                == old(self).players@[who as int].cards.sum() + one_if(r is Some),
            r is None <==> old(self).draw_pile@.len() == 0 && old(self).discard_pile.sum() == 0,
            r is None ==> final(self).draw_pile@.len() == 0 && final(self).discard_pile.sum() == 0,
            final(self).piled() + one_if(r is Some) == old(self).piled(),
    {
        let r = Self::draw(&mut self.draw_pile, &mut self.discard_pile, rng);
        if let Some(drawn) = r {
            proof {
                old(self).lemma_bounds(who as int, 0, drawn);
            }
            self.players[who].cards.add(drawn, 1);
        }
        proof {
            assert forall|b: Bird| #[trigger] self.census(b) == b.copies() by {
                self.lemma_census_frame(old(self), who as int, 0, b);
                assert(old(self).census(b) == b.copies());
                assert(occurrences(self.draw_pile@, b) + pile_count(&self.discard_pile, b)
                    + match r {
                    Some(drawn) => one_if(drawn == b),
                    None => 0,
                } == occurrences(old(self).draw_pile@, b) + pile_count(
                    &old(self).discard_pile,
                    b,
                ));
                assert(old(self).discard_pile.count(b) >= 0);
                assert(self.discard_pile.count(b) >= 0);
            }
            assert forall|i: int| 0 <= i < self.players@.len() implies (
            #[trigger] self.players@[i]).cards.wf() && self.players@[i].collection.wf() by {
                assert(old(self).players@[i].cards.wf());
                assert(old(self).players@[i].collection.wf());
                if i == who {
                    assert forall|b: Bird| #[trigger] self.players@[i].cards.count(b) >= 0 by {
                        assert(old(self).players@[i].cards.count(b) >= 0);
                    }
                }
            }
            assert(forall|b: Bird| #[trigger] old(self).discard_pile.count(b) >= 0);
            assert(forall|b: Bird| #[trigger] self.discard_pile.count(b) >= 0);
        }
        r
    }

    /// The line `line` once the player whose turn it is has laid all cards
    /// of `bird` at one end of it.
    pub open spec fn line_played(&self, bird: Bird, line: usize, left: bool) -> Seq<Bird> {
        placed(self.board@[line as int]@, bird, self.active_hand().count(bird), left)
    }

    /// Every hand and collection and the discard pile hold natural numbers
    /// of cards.
    pub open spec fn counted(&self) -> bool {
        &&& forall|i: int|
            0 <= i < self.players@.len() ==> (#[trigger] self.players@[i]).cards.wf()
                && self.players@[i].collection.wf()
        &&& self.discard_pile.wf()
    }

    /// The player whose turn it is lays all cards of `bird` at one end of a
    /// line; what they enclose leaves the line and is returned.
    fn lay_cards(&mut self, bird: Bird, line: usize, left: bool) -> (r: Option<BirdCounts>)
        requires
            old(self).wf(),
            old(self).turn < old(self).players@.len(),
            line < LINES,
        ensures
            final(self).counted(),
            final(self).turn == old(self).turn,
            final(self).same_but(old(self), old(self).turn as int, line as int),
            final(self).draw_pile@ == old(self).draw_pile@,
            final(self).discard_pile == old(self).discard_pile,
            final(self).players@[old(self).turn as int].collection
                == old(self).players@[old(self).turn as int].collection,
            forall|b: Bird|
                #[trigger] final(self).active_hand().count(b) == if b == bird {
                    0
                } else {
                    old(self).active_hand().count(b)
                },
            final(self).board@[line as int]@ == after_capture(
                old(self).line_played(bird, line, left),
                left,
            ),
            r is Some <==> has_capture(facing(old(self).line_played(bird, line, left), left)),
            match r {
                Some(birds) => birds.wf() && forall|b: Bird|
                    #[trigger] birds.count(b) == occurrences(
                        captured(old(self).line_played(bird, line, left), left),
                        b,
                    ),
                None => true,
            },
            forall|b: Bird|
                #[trigger] final(self).census(b) + occurrences(
                    captured(old(self).line_played(bird, line, left), left),
                    b,
                ) == b.copies(),
    {
        let turn = self.turn;
        proof {
            old(self).lemma_line_length(line as int);
            old(self).lemma_bounds(turn as int, line as int, bird);
        }
        let bird_count = self.players[turn].cards.remove(bird);
        let r = self.board[line].play(bird, bird_count, left);
        proof {
            let laid = old(self).line_played(bird, line, left);
            assert forall|b: Bird|
                #[trigger] self.census(b) + occurrences(captured(laid, left), b)
                    == b.copies() by {
                self.lemma_census_frame(old(self), turn as int, line as int, b);
                lemma_capture_splits(laid, left, b);
                lemma_occurrences_placed(
                    old(self).board@[line as int]@,
                    bird,
                    bird_count as int,
                    left,
                    b,
                );
                assert(old(self).census(b) == b.copies());
            }
            assert forall|i: int| 0 <= i < self.players@.len() implies (
            #[trigger] self.players@[i]).cards.wf() && self.players@[i].collection.wf() by {
                assert(old(self).players@[i].cards.wf());
                assert(old(self).players@[i].collection.wf());
                if i == turn {
                    assert forall|b: Bird| #[trigger] self.players@[i].cards.count(b) >= 0 by {
                        assert(old(self).players@[i].cards.count(b) >= 0);
                    }
                }
            }
        }
        r
    }

    /// Plays the first part of a turn with the choices given: the player
    /// whose turn it is lays all cards of `bird` at the left or the right
    /// end of line `line`. Where the cards enclose others, those join the
    /// hand, and the line is filled up from the piles at its left end, where
    /// `coin` is set, or its right end. Where they enclose none, the player
    /// draws two cards if `coin` is set. The result is the move that was
    /// played, or `None` where the piles ran out of cards.
    pub fn play_line(
        &mut self,
        bird: Bird,
        line: usize,
        left: bool,
        coin: bool,
        rng: &mut StdRng,
    ) -> (r: Option<LineMove>)
        requires
            old(self).wf(),
            old(self).turn < old(self).players@.len(),
            line < LINES,
        ensures
            final(self).wf(),
            final(self).turn == old(self).turn,
            final(self).same_but(old(self), old(self).turn as int, line as int),
            final(self).players@[old(self).turn as int].collection
                == old(self).players@[old(self).turn as int].collection,
            match r {
                Some(played) => played == (LineMove {
                    line,
                    bird,
                    left,
                    draw: coin && !has_capture(
                        facing(old(self).line_played(bird, line, left), left),
                    ),
                }),
                None => final(self).draw_pile@.len() == 0 && final(self).discard_pile.sum() == 0
                    && (coin || has_capture(
                    facing(old(self).line_played(bird, line, left), left),
                )),
            },
            has_capture(facing(old(self).line_played(bird, line, left), left)) ==> {
                &&& forall|b: Bird|
                    #[trigger] final(self).active_hand().count(b) == if b == bird {
                        0
                    } else {
                        old(self).active_hand().count(b)
                    } + occurrences(captured(old(self).line_played(bird, line, left), left), b)
                &&& final(self).board@[line as int]@.len() >= after_capture(
                    old(self).line_played(bird, line, left),
                    left,
                ).len()
                &&& facing(final(self).board@[line as int]@, coin).skip(
                    final(self).board@[line as int]@.len() - after_capture(
                        old(self).line_played(bird, line, left),
                        left,
                    ).len(),
                ) == facing(after_capture(old(self).line_played(bird, line, left), left), coin)
                &&& forall|i: int|
                    1 <= i < final(self).board@[line as int]@.len() - after_capture(
                        old(self).line_played(bird, line, left),
                        left,
                    ).len() ==> #[trigger] facing(final(self).board@[line as int]@, coin)[i]
                        == facing(
                        after_capture(old(self).line_played(bird, line, left), left),
                        coin,
                    )[0]
                &&& off_the_top(
                    facing(final(self).board@[line as int]@, coin),
                    final(self).board@[line as int]@.len() - after_capture(
                        old(self).line_played(bird, line, left),
                        left,
                    ).len(),
                    old(self).draw_pile@,
                    final(self).draw_pile@,
                )
                &&& r is Some <==> open_end(final(self).board@[line as int]@, coin)
            },
            !has_capture(facing(old(self).line_played(bird, line, left), left)) ==> {
                &&& final(self).board@[line as int]@ == old(self).line_played(bird, line, left)
                &&& forall|b: Bird|
                    #[trigger] final(self).active_hand().count(b) >= if b == bird {
                        0
                    } else {
                        old(self).active_hand().count(b)
                    }
                &&& final(self).active_hand().sum() + final(self).piled()
                    == old(self).active_hand().sum() - old(self).active_hand().count(bird)
                    + old(self).piled()
                &&& !coin ==> final(self).draw_pile@ == old(self).draw_pile@
                    && final(self).discard_pile == old(self).discard_pile
                &&& coin && r is Some ==> final(self).piled() + 2 == old(self).piled()
                &&& r is Some <==> !coin || old(self).piled() >= 2
            },
            old(self).piled() > 20 ==> r is Some,
    {
        let retval = LineMove { line, bird, left, draw: false };
        let ghost laid = self.line_played(bird, line, left);
        match self.lay_cards(bird, line, left) {
            Some(sandwiched) => {
                proof {
                    lemma_capture_splits(laid, left, bird);
                }
                if self.capture_turn(&sandwiched, line, coin, rng) {
                    Some(retval)
                } else {
                    None
                }
            },
            None => {
                proof {
                    lemma_capture_splits(laid, left, bird);
                    assert forall|b: Bird| #[trigger] self.census(b) == b.copies() by {
                        lemma_capture_splits(laid, left, b);
                        crate::line::lemma_occurrences_empty(b);
                        assert(captured(laid, left) =~= Seq::<Bird>::empty());
                    }
                    assert(self.wf());
                }
                if coin {
                    if self.draw_two(rng) {
                        Some(LineMove { line, bird, left, draw: true })
                    } else {
                        None
                    }
                } else {
                    Some(retval)
                }
            },
        }
    }

    /// The second part of a play that captured cards: the cards join the
    /// hand of the player whose turn it is, and the line is filled up from
    /// the piles at the end given.
    fn capture_turn(
        &mut self,
        birds: &BirdCounts,
        line: usize,
        refill_left: bool,
        rng: &mut StdRng,
    ) -> (filled: bool)
        requires
            old(self).counted(),
            old(self).turn < old(self).players@.len(),
            line < LINES,
            birds.wf(),
            old(self).board@[line as int]@.len() > 0,
            forall|b: Bird| #[trigger] old(self).census(b) + birds.count(b) == b.copies(),
        ensures
            final(self).wf(),
            final(self).turn == old(self).turn,
            final(self).same_but(old(self), old(self).turn as int, line as int),
            final(self).players@[old(self).turn as int].collection
                == old(self).players@[old(self).turn as int].collection,
            forall|b: Bird|
                #[trigger] final(self).active_hand().count(b) == old(self).active_hand().count(b)
                    + birds.count(b),
            final(self).board@[line as int]@.len() >= old(self).board@[line as int]@.len(),
            facing(final(self).board@[line as int]@, refill_left).skip(
                final(self).board@[line as int]@.len() - old(self).board@[line as int]@.len(),
            ) == facing(old(self).board@[line as int]@, refill_left),
            forall|i: int|
                1 <= i < final(self).board@[line as int]@.len()
                    - old(self).board@[line as int]@.len() ==> #[trigger] facing(
                    final(self).board@[line as int]@,
                    refill_left,
                )[i] == facing(old(self).board@[line as int]@, refill_left)[0],
            off_the_top(
                facing(final(self).board@[line as int]@, refill_left),
                final(self).board@[line as int]@.len() - old(self).board@[line as int]@.len(),
                old(self).draw_pile@,
                final(self).draw_pile@,
            ),
            filled <==> open_end(final(self).board@[line as int]@, refill_left),
            !filled ==> final(self).draw_pile@.len() == 0 && final(self).discard_pile.sum() == 0,
            old(self).piled() > 20 ==> filled,
    {
        let turn = self.turn;
        proof {
            assert forall|b: Bird|
                i32::MIN <= self.players@[turn as int].cards.count(b) + #[trigger] birds.count(b)
                    <= i32::MAX by {
                self.lemma_bounds(turn as int, line as int, b);
                assert(self.census(b) + birds.count(b) == b.copies());
            }
        }
        self.players[turn].cards.add_all(birds);
        let ghost merged = *self;
        proof {
            assert forall|b: Bird| #[trigger] self.census(b) == b.copies() by {
                self.lemma_census_frame(old(self), turn as int, line as int, b);
                assert(old(self).census(b) + birds.count(b) == b.copies());
            }
            assert forall|i: int| 0 <= i < self.players@.len() implies (
            #[trigger] self.players@[i]).cards.wf() && self.players@[i].collection.wf() by {
                assert(old(self).players@[i].cards.wf());
                assert(old(self).players@[i].collection.wf());
                if i == turn {
                    assert forall|b: Bird| #[trigger] self.players@[i].cards.count(b) >= 0 by {
                        assert(old(self).players@[i].cards.count(b) >= 0);
                        assert(birds.count(b) >= 0);
                    }
                }
            }
        }
        let filled = self.board[line].draw_new(
            refill_left,
            &mut self.draw_pile,
            &mut self.discard_pile,
            rng,
        );
        proof {
            assert forall|b: Bird| #[trigger] self.census(b) == b.copies() by {
                self.lemma_census_frame(&merged, turn as int, line as int, b);
                assert(merged.census(b) == b.copies());
                assert(merged.discard_pile.count(b) >= 0);
                assert(self.discard_pile.count(b) >= 0);
            }
            assert(self.players@ == merged.players@);
            if !filled {
                assert(self.discard_pile.sum() == 0) by {
                    assert(self.discard_pile.count(Bird::PARROT) == 0);
                    assert(self.discard_pile.count(Bird::WARBLER) == 0);
                    assert(self.discard_pile.count(Bird::TOUCAN) == 0);
                    assert(self.discard_pile.count(Bird::FLAMINGO) == 0);
                    assert(self.discard_pile.count(Bird::ROBIN) == 0);
                    assert(self.discard_pile.count(Bird::MAGPIE) == 0);
                    assert(self.discard_pile.count(Bird::OWL) == 0);
                    assert(self.discard_pile.count(Bird::DUCK) == 0);
                }
                assert forall|b: Bird|
                    #[trigger] occurrences(self.board@[line as int]@, b) == occurrences(
                        merged.board@[line as int]@,
                        b,
                    ) + occurrences(merged.draw_pile@, b) + merged.discard_pile.count(b) by {
                    assert(self.draw_pile@ =~= Seq::<Bird>::empty());
                    crate::line::lemma_occurrences_empty(b);
                    assert(self.discard_pile.count(b) <= 0);
                    assert(merged.discard_pile.count(b) >= 0);
                    assert(occurrences(self.board@[line as int]@, b) + occurrences(
                        self.draw_pile@,
                        b,
                    ) + pile_count(&self.discard_pile, b) == occurrences(
                        merged.board@[line as int]@,
                        b,
                    ) + occurrences(merged.draw_pile@, b) + pile_count(
                        &merged.discard_pile,
                        b,
                    ));
                }
                merged.lemma_piles_of_one_species(
                    merged.board@[line as int]@,
                    self.board@[line as int]@,
                    refill_left,
                );
            }
        }
        filled
    }

    /// The piles hold a natural number of cards, and none exactly when the
    /// draw pile is empty and the discard pile holds no card.
    pub proof fn lemma_piled(&self)
        requires
            self.counted(),
        ensures
            self.piled() >= 0,
            self.discard_pile.sum() >= 0,
            self.piled() == 0 <==> self.draw_pile@.len() == 0 && self.discard_pile.sum() == 0,
    {
        assert(self.discard_pile.count(Bird::PARROT) >= 0);
        assert(self.discard_pile.count(Bird::WARBLER) >= 0);
        assert(self.discard_pile.count(Bird::TOUCAN) >= 0);
        assert(self.discard_pile.count(Bird::FLAMINGO) >= 0);
        assert(self.discard_pile.count(Bird::ROBIN) >= 0);
        assert(self.discard_pile.count(Bird::MAGPIE) >= 0);
        assert(self.discard_pile.count(Bird::OWL) >= 0);
        assert(self.discard_pile.count(Bird::DUCK) >= 0);
    }

    /// Where a line was filled up from the piles until they were empty and
    /// the two cards at the end that was filled do not differ still, the piles held cards of that
    /// species only, and so no more than a species has.
    proof fn lemma_piles_of_one_species(&self, before: Seq<Bird>, after: Seq<Bird>, left: bool)
        requires
            self.wf(),
            before.len() > 0,
            after.len() >= before.len(),
            facing(after, left).skip(after.len() - before.len()) == facing(before, left),
            forall|i: int|
                1 <= i < after.len() - before.len() ==> #[trigger] facing(after, left)[i]
                    == facing(before, left)[0],
            !open_end(after, left),
            forall|b: Bird|
                #[trigger] occurrences(after, b) == occurrences(before, b) + occurrences(
                    self.draw_pile@,
                    b,
                ) + self.discard_pile.count(b),
        ensures
            self.piled() <= 20,
    {
        let e = facing(before, left)[0];
        lemma_occurrences_total(self.draw_pile@);
        self.lemma_zones(e);
        crate::bird::lemma_thresholds(e);
        assert forall|b: Bird| b != e implies occurrences(self.draw_pile@, b) == 0
            && #[trigger] self.discard_pile.count(b) == 0 by {
            crate::line::lemma_filled_in_vain(before, after, left, b);
            assert(occurrences(after, b) == occurrences(before, b) + occurrences(
                self.draw_pile@,
                b,
            ) + self.discard_pile.count(b));
            assert(self.discard_pile.count(b) >= 0);
        }
        assert(self.discard_pile.count(Bird::PARROT) >= 0);
        assert(self.discard_pile.count(Bird::WARBLER) >= 0);
        assert(self.discard_pile.count(Bird::TOUCAN) >= 0);
        assert(self.discard_pile.count(Bird::FLAMINGO) >= 0);
        assert(self.discard_pile.count(Bird::ROBIN) >= 0);
        assert(self.discard_pile.count(Bird::MAGPIE) >= 0);
        assert(self.discard_pile.count(Bird::OWL) >= 0);
        assert(self.discard_pile.count(Bird::DUCK) >= 0);
        assert(self.piled() == occurrences(self.draw_pile@, e) + self.discard_pile.count(e));
        assert(self.census(e) == e.copies());
    }

    /// The player whose turn it is draws two cards into the hand; the
    /// result tells whether the piles held them.
    fn draw_two(&mut self, rng: &mut StdRng) -> (drawn: bool)
        requires
            old(self).wf(),
            old(self).turn < old(self).players@.len(),
        ensures
            final(self).wf(),
            final(self).turn == old(self).turn,
            final(self).same_but(old(self), old(self).turn as int, 0),
            final(self).board@[0]@ == old(self).board@[0]@,
            final(self).players@[old(self).turn as int].collection
                == old(self).players@[old(self).turn as int].collection,
            forall|b: Bird|
                #[trigger] final(self).active_hand().count(b) >= old(self).active_hand().count(b),
            final(self).active_hand().sum() + final(self).piled() == old(self).active_hand().sum()
                + old(self).piled(),
            drawn ==> final(self).piled() + 2 == old(self).piled(),
            !drawn ==> final(self).draw_pile@.len() == 0 && final(self).discard_pile.sum() == 0,
            drawn <==> old(self).piled() >= 2,
    {
        let turn = self.turn;
        proof {
            old(self).lemma_piled();
        }
        let first = self.draw_for(turn, rng);
        let ghost middle = *self;
        if first.is_none() {
            return false;
        }
        proof {
            middle.lemma_piled();
        }
        let second = self.draw_for(turn, rng);
        proof {
            assert forall|b: Bird|
                #[trigger] self.active_hand().count(b) >= old(self).active_hand().count(b) by {
                assert(middle.active_hand().count(b) >= old(self).active_hand().count(b));
            }
            assert forall|j: int|
                0 <= j < old(self).players@.len() && j != self.turn implies
                    #[trigger] self.players@[j]
                == old(self).players@[j] by {
                assert(middle.players@[j] == old(self).players@[j]);
            }
            assert forall|l: int| 0 <= l < 4 implies
                (#[trigger] self.board@[l])@ == old(self).board@[l]@ by {
                assert(middle.board@[l]@ == old(self).board@[l]@);
            }
        }
        second.is_some()
    }
}

} // verus!
