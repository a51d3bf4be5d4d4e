use crate::bird::{lemma_index_at, occurrences, Bird, SPECIES};
use crate::counts::BirdCounts;
use crate::line::{lemma_occurrences_concat, lemma_occurrences_empty, lemma_occurrences_push, Line};
use crate::partial_cards::PartialCards;
use crate::state::{
    held_by, in_discards, lying_on, on_board, thrown_in, with_players, CubirdsState,
};
use crate::sums::{lemma_sum_over_grows, sum_over};
use crate::LINES;
use vstd::prelude::*;

verus! {

/// Whatever the draws bring, the pool can supply every set of cards from
/// position `from` on, one after the other: the first can be sampled from
/// the pool, and the others from whatever pool that sampling may leave.
pub open spec fn suppliable(hands: Seq<PartialCards>, from: int, pool: BirdCounts) -> bool
    decreases hands.len() - from,
{
    if from < 0 || from >= hands.len() {
        true
    } else {
        &&& hands[from].samplable(&pool)
        &&& forall|next: BirdCounts| #[trigger]
            hands[from].may_leave(&pool, &next) ==> suppliable(hands, from + 1, next)
    }
}

impl CubirdsState {
    /// The sets of cards that are not open, in the order in which they are
    /// sampled: the hands of the players, then the batches of discarded
    /// cards.
    pub open spec fn hands(&self) -> Seq<PartialCards> {
        Seq::new(
            self.players@.len() + self.discard_pile@.len(),
            |i: int|
                if i < self.players@.len() {
                    self.players@[i].cards
                } else {
                    self.discard_pile@[i - self.players@.len()]
                },
        )
    }

    /// `pool` holds, of every species, the cards of which the place is not
    /// known.
    pub open spec fn is_residual(&self, pool: BirdCounts) -> bool {
        forall|b: Bird| #[trigger] pool.count(b) == self.residual(b)
    }

    /// The books can be balanced: the counts are natural numbers, and of no
    /// species more cards are placed than the game has.
    pub open spec fn accountable(&self) -> bool {
        &&& self.wf()
        &&& forall|b: Bird| #[trigger] self.residual(b) >= 0
    }

    /// What is known of the game can be true: the counts are natural
    /// numbers, of no species more cards are placed than the game has, and
    /// the cards of which the place is not known are enough to fill every
    /// hand and every batch of discarded cards, whatever is drawn for the
    /// ones before.
    pub open spec fn consistent(&self) -> bool {
        &&& self.wf()
        &&& forall|b: Bird| #[trigger] self.residual(b) >= 0
        &&& forall|pool: BirdCounts| #[trigger]
            self.is_residual(pool) ==> suppliable(self.hands(), 0, pool)
    }

    /// Takes from `cards` what the players are known to hold or have
    /// collected, unless a count would fall below `floor`.
    fn take_players(&self, cards: &mut BirdCounts, floor: i32) -> (done: bool)
        requires
            self.wf(),
        ensures
            done == (forall|b: Bird|
                #[trigger] old(cards).count(b) - with_players(self.players@, b) >= floor),
            done ==> forall|b: Bird|
                #[trigger] final(cards).count(b) == old(cards).count(b) - with_players(
                    self.players@,
                    b,
                ),
    {
        let ghost np = self.players@.len() as int;
        let mut p: usize = 0;
        while p < self.players.len()
            invariant
                self.wf(),
                p <= np == self.players@.len(),
                forall|b: Bird|
                    #[trigger] cards.count(b) == old(cards).count(b) - sum_over(
                        p as int,
                        held_by(self.players@, b),
                    ),
                forall|b: Bird| #[trigger] cards.count(b) >= floor || p == 0,
            decreases np - p,
        {
            let player = &self.players[p];
            let ghost start = *cards;
            proof {
                assert forall|b: Bird|
                    sum_over(p + 1, held_by(self.players@, b)) <= #[trigger] with_players(
                        self.players@,
                        b,
                    ) && player.cards.known_cards.count(b) >= 0 && player.collection.count(b)
                        >= 0 by {
                    lemma_sum_over_grows(p + 1, np, held_by(self.players@, b));
                }
            }
            if !cards.subtract_above(&player.cards.known_cards, floor) {
                proof {
                    let b = choose|b: Bird|
                        start.count(b) - #[trigger] player.cards.known_cards.count(b) < floor;
                    assert(with_players(self.players@, b) >= sum_over(
                        p + 1,
                        held_by(self.players@, b),
                    ));
                    assert(old(cards).count(b) - with_players(self.players@, b) < floor);
                }
                return false;
            }
            let ghost middle = *cards;
            if !cards.subtract_above(&player.collection, floor) {
                proof {
                    let b = choose|b: Bird|
                        middle.count(b) - #[trigger] player.collection.count(b) < floor;
                    assert(middle.count(b) == start.count(b) - player.cards.known_cards.count(b));
                    assert(with_players(self.players@, b) >= sum_over(
                        p + 1,
                        held_by(self.players@, b),
                    ));
                    assert(old(cards).count(b) - with_players(self.players@, b) < floor);
                }
                return false;
            }
            proof {
                assert forall|b: Bird|
                    #[trigger] cards.count(b) == old(cards).count(b) - sum_over(
                        p + 1,
                        held_by(self.players@, b),
                    ) && cards.count(b) >= floor by {
                    assert(middle.count(b) == start.count(b) - player.cards.known_cards.count(b));
                    assert(cards.count(b) == middle.count(b) - player.collection.count(b));
                }
            }
            p = p + 1;
        }
        let mut done = true;
        let mut s: usize = 0;
        while s < SPECIES
            invariant
                s <= SPECIES,
                done == (forall|b: Bird| b.index() < s ==> #[trigger] cards.count(b) >= floor),
            decreases SPECIES - s,
        {
            let bird = Bird::from_ordinal(s).unwrap();
            proof {
                lemma_index_at(bird, s as int);
            }
            let enough = cards.get(bird) >= floor;
            proof {
                if done && enough {
                    assert forall|b: Bird| b.index() < s + 1 implies #[trigger] cards.count(b)
                        >= floor by {
                        lemma_index_at(b, 0);
                    }
                }
            }
            done = done && enough;
            s = s + 1;
        }
        proof {
            if done {
                assert forall|b: Bird|
                    #[trigger] old(cards).count(b) - with_players(self.players@, b)
                        >= floor by {
                    lemma_index_at(b, 0);
                    assert(cards.count(b) >= floor);
                }
            } else {
                let b = choose|b: Bird| b.index() < s && #[trigger] cards.count(b) < floor;
                assert(old(cards).count(b) - with_players(self.players@, b) < floor);
            }
            assert forall|b: Bird|
                #[trigger] cards.count(b) == old(cards).count(b) - with_players(
                    self.players@,
                    b,
                ) by {
                assert(cards.count(b) == old(cards).count(b) - sum_over(
                    p as int,
                    held_by(self.players@, b),
                ));
            }
        }
        done
    }

    /// Takes from `cards` the cards of one line, unless a count would fall
    /// below `floor`.
    fn take_line(line: &Line, cards: &mut BirdCounts, floor: i32) -> (done: bool)
        requires
            forall|b: Bird| #[trigger] old(cards).count(b) >= floor,
        ensures
            done == (forall|b: Bird|
                #[trigger] old(cards).count(b) - occurrences(line@, b) >= floor),
            done ==> forall|b: Bird|
                #[trigger] final(cards).count(b) == old(cards).count(b) - occurrences(line@, b),
    {
        let mut k: usize = 0;
        proof {
            assert(line@.take(0) =~= Seq::<Bird>::empty());
            assert forall|b: Bird| occurrences(line@.take(0), b) == 0 by {
                lemma_occurrences_empty(b);
            }
        }
        while k < line.0.len()
            invariant
                k <= line@.len(),
                forall|b: Bird|
                    #[trigger] cards.count(b) == old(cards).count(b) - occurrences(
                        line@.take(k as int),
                        b,
                    ),
                forall|b: Bird| #[trigger] cards.count(b) >= floor,
            decreases line@.len() - k,
        {
            let bird = line.0[k];
            proof {
                assert(line@.take(k + 1) =~= line@.take(k as int).push(bird));
                assert(line@ =~= line@.take(k + 1) + line@.skip(k + 1));
                assert forall|b: Bird|
                    occurrences(line@.take(k + 1), b) == occurrences(line@.take(k as int), b)
                        + crate::sums::one_if(bird == b) && #[trigger] occurrences(
                        line@.take(k + 1),
                        b,
                    ) <= occurrences(line@, b) by {
                    lemma_occurrences_push(line@.take(k as int), bird, b);
                    lemma_occurrences_concat(line@.take(k + 1), line@.skip(k + 1), b);
                }
                assert(occurrences(line@.take(k + 1), bird) <= occurrences(line@, bird));
            }
            if cards.get(bird) <= floor {
                proof {
                    assert(old(cards).count(bird) - occurrences(line@, bird) < floor);
                }
                return false;
            }
            cards.add(bird, -1);
            k = k + 1;
        }
        proof {
            assert(line@.take(line@.len() as int) =~= line@);
            assert forall|b: Bird|
                #[trigger] old(cards).count(b) - occurrences(line@, b) >= floor by {
                assert(cards.count(b) >= floor);
            }
        }
        true
    }

    /// Takes from `cards` the cards on the lines, unless a count would fall
    /// below `floor`.
    fn take_board(&self, cards: &mut BirdCounts, floor: i32) -> (done: bool)
        requires
            forall|b: Bird| #[trigger] old(cards).count(b) >= floor,
        ensures
            done == (forall|b: Bird|
                #[trigger] old(cards).count(b) - on_board(self.board@, b) >= floor),
            done ==> forall|b: Bird|
                #[trigger] final(cards).count(b) == old(cards).count(b) - on_board(
                    self.board@,
                    b,
                ),
    {
        let mut l: usize = 0;
        while l < LINES
            invariant
                l <= LINES,
                forall|b: Bird|
                    #[trigger] cards.count(b) == old(cards).count(b) - sum_over(
                        l as int,
                        lying_on(self.board@, b),
                    ),
                forall|b: Bird| #[trigger] cards.count(b) >= floor,
            decreases LINES - l,
        {
            let ghost start = *cards;
            proof {
                assert forall|b: Bird|
                    sum_over(l + 1, lying_on(self.board@, b)) <= #[trigger] on_board(
                        self.board@,
                        b,
                    ) by {
                    lemma_sum_over_grows(l + 1, 4, lying_on(self.board@, b));
                }
            }
            if !Self::take_line(&self.board[l], cards, floor) {
                proof {
                    let b = choose|b: Bird|
                        #[trigger] start.count(b) - occurrences(self.board@[l as int]@, b)
                            < floor;
                    assert(on_board(self.board@, b) >= sum_over(
                        l + 1,
                        lying_on(self.board@, b),
                    ));
                    assert(old(cards).count(b) - on_board(self.board@, b) < floor);
                }
                return false;
            }
            proof {
                assert forall|b: Bird|
                    #[trigger] cards.count(b) == old(cards).count(b) - sum_over(
                        l + 1,
                        lying_on(self.board@, b),
                    ) && cards.count(b) >= floor by {
                    assert(cards.count(b) == start.count(b) - occurrences(
                        self.board@[l as int]@,
                        b,
                    ));
                    assert(start.count(b) - occurrences(self.board@[l as int]@, b) >= floor);
                }
            }
            l = l + 1;
        }
        proof {
            assert forall|b: Bird|
                #[trigger] old(cards).count(b) - on_board(self.board@, b) >= floor by {
                assert(cards.count(b) >= floor);
            }
        }
        true
    }

    /// Takes from `cards` what is known to be among the discarded cards,
    /// unless a count would fall below `floor`.
    fn take_discards(&self, cards: &mut BirdCounts, floor: i32) -> (done: bool)
        requires
            self.wf(),
            forall|b: Bird| #[trigger] old(cards).count(b) >= floor,
        ensures
            done == (forall|b: Bird|
                #[trigger] old(cards).count(b) - in_discards(self.discard_pile@, b) >= floor),
            done ==> forall|b: Bird|
                #[trigger] final(cards).count(b) == old(cards).count(b) - in_discards(
                    self.discard_pile@,
                    b,
                ),
    {
        let ghost nd = self.discard_pile@.len() as int;
        let mut d: usize = 0;
        while d < self.discard_pile.len()
            invariant
                self.wf(),
                d <= nd == self.discard_pile@.len(),
                forall|b: Bird|
                    #[trigger] cards.count(b) == old(cards).count(b) - sum_over(
                        d as int,
                        thrown_in(self.discard_pile@, b),
                    ),
                forall|b: Bird| #[trigger] cards.count(b) >= floor,
            decreases nd - d,
        {
            let discard = &self.discard_pile[d];
            let ghost start = *cards;
            proof {
                assert forall|b: Bird|
                    sum_over(d + 1, thrown_in(self.discard_pile@, b)) <= #[trigger] in_discards(
                        self.discard_pile@,
                        b,
                    ) && discard.known_cards.count(b) >= 0 by {
                    lemma_sum_over_grows(d + 1, nd, thrown_in(self.discard_pile@, b));
                }
            }
            if !cards.subtract_above(&discard.known_cards, floor) {
                proof {
                    let b = choose|b: Bird|
                        start.count(b) - #[trigger] discard.known_cards.count(b) < floor;
                    assert(in_discards(self.discard_pile@, b) >= sum_over(
                        d + 1,
                        thrown_in(self.discard_pile@, b),
                    ));
                    assert(old(cards).count(b) - in_discards(self.discard_pile@, b) < floor);
                }
                return false;
            }
            proof {
                assert forall|b: Bird|
                    #[trigger] cards.count(b) == old(cards).count(b) - sum_over(
                        d + 1,
                        thrown_in(self.discard_pile@, b),
                    ) && cards.count(b) >= floor by {
                    assert(cards.count(b) == start.count(b) - discard.known_cards.count(b));
                    assert(start.count(b) - discard.known_cards.count(b) >= floor);
                }
            }
            d = d + 1;
        }
        proof {
            assert forall|b: Bird|
                #[trigger] old(cards).count(b) - in_discards(self.discard_pile@, b)
                    >= floor by {
                assert(cards.count(b) >= floor);
            }
        }
        true
    }

    /// The cards of which the place is not known, by species, unless of some
    /// species there are fewer than `floor`.
    pub fn available_above(&self, floor: i32) -> (r: Option<BirdCounts>)
        requires
            self.wf(),
            floor <= 0,
        ensures
            r is Some <==> forall|b: Bird| #[trigger] self.residual(b) >= floor,
            match r {
                Some(cards) => forall|b: Bird| #[trigger] cards.count(b) == self.residual(b),
                None => true,
            },
    {
        let mut cards = BirdCounts::new();
        let mut s: usize = 0;
        while s < SPECIES
            invariant
                s <= SPECIES,
                forall|b: Bird| b.index() < s ==> cards.count(b) == b.copies(),
                forall|b: Bird| b.index() >= s ==> cards.count(b) == 0,
            decreases SPECIES - s,
        {
            let bird = Bird::from_ordinal(s).unwrap();
            proof {
                lemma_index_at(bird, s as int);
            }
            cards.set(bird, bird.information().cards);
            s = s + 1;
        }
        proof {
            assert forall|b: Bird|
                with_players(self.players@, b) >= 0 && on_board(self.board@, b) >= 0
                    && in_discards(self.discard_pile@, b) >= 0 && #[trigger] cards.count(b)
                    == b.copies() by {
                let np = self.players@.len() as int;
                let nd = self.discard_pile@.len() as int;
                lemma_sum_over_grows(np, np, held_by(self.players@, b));
                lemma_sum_over_grows(4, 4, lying_on(self.board@, b));
                lemma_sum_over_grows(nd, nd, thrown_in(self.discard_pile@, b));
                lemma_index_at(b, 0);
            }
        }
        let ghost all = cards;
        if !self.take_players(&mut cards, floor) {
            proof {
                let b = choose|b: Bird|
                    #[trigger] all.count(b) - with_players(self.players@, b) < floor;
                assert(self.residual(b) < floor);
            }
            return None;
        }
        let ghost second = cards;
        if !self.take_board(&mut cards, floor) {
            proof {
                let b = choose|b: Bird|
                    #[trigger] second.count(b) - on_board(self.board@, b) < floor;
                assert(second.count(b) == all.count(b) - with_players(self.players@, b));
                assert(self.residual(b) < floor);
            }
            return None;
        }
        let ghost third = cards;
        if !self.take_discards(&mut cards, floor) {
            proof {
                let b = choose|b: Bird|
                    #[trigger] third.count(b) - in_discards(self.discard_pile@, b) < floor;
                assert(third.count(b) == second.count(b) - on_board(self.board@, b));
                assert(second.count(b) == all.count(b) - with_players(self.players@, b));
                assert(self.residual(b) < floor);
            }
            return None;
        }
        proof {
            assert forall|b: Bird|
                #[trigger] cards.count(b) == self.residual(b) && self.residual(b) >= floor by {
                assert(cards.count(b) == third.count(b) - in_discards(self.discard_pile@, b));
                assert(third.count(b) == second.count(b) - on_board(self.board@, b));
                assert(second.count(b) == all.count(b) - with_players(self.players@, b));
                assert(third.count(b) - in_discards(self.discard_pile@, b) >= floor);
            }
            assert forall|b: Bird| #[trigger] self.residual(b) >= floor by {
                assert(cards.count(b) == self.residual(b));
            }
        }
        Some(cards)
    }

    /// The cards of which the place is not known, by species: all cards of
    /// the game but those that are known to be in a hand, in a collection,
    /// on a line or among the discarded cards.
    pub fn all_available_cards(&self) -> (cards_available: BirdCounts)
        requires
            self.wf(),
            forall|b: Bird| #[trigger] self.residual(b) >= i32::MIN,
        ensures
            forall|b: Bird| #[trigger] cards_available.count(b) == self.residual(b),
    {
        match self.available_above(i32::MIN) {
            Some(cards_available) => cards_available,
            None => {
                assert(false);
                BirdCounts::new()
            },
        }
    }
}

} // verus!
