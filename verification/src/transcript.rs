use crate::bird::{lemma_index_at, occurrences, Bird, SPECIES};
use crate::counts::BirdCounts;
use crate::partial_cards::PartialCards;
use crate::sampling::{discarded_cards, sizes_of};
use crate::state::{flock_cards, CubirdsState};
use crate::sums::{lemma_sum_over_grows, sum_over};
use crate::STARTING_CARDS_HAND;
use vstd::prelude::*;

verus! {

/// Number of cards that a flock of the size told took from the hand at
/// least and that did not join the collection.
pub open spec fn flock_rest(bird: Bird, flock_small: bool) -> int {
    if flock_small {
        bird.small() - 1
    } else {
        bird.large() - 2
    }
}

impl CubirdsState {
    /// `draw_seen` can record the draw: the player exists, and no number of
    /// cards leaves the range of the counters.
    pub open spec fn draw_seen_allowed(&self, player_number: usize, birds: Seq<Bird>) -> bool {
        &&& player_number < self.players@.len()
        &&& self.players@[player_number as int].cards.total_cards + birds.len() <= i32::MAX
        &&& forall|b: Bird|
            #[trigger] self.players@[player_number as int].cards.known_cards.count(b)
                + occurrences(birds, b) <= i32::MAX
    }

    /// What is known of the hand of the player for whom the game is judged.
    pub open spec fn main_hand(&self) -> PartialCards {
        self.players@[self.player_idx as int].cards
    }

    /// Number of cards that went to the discard pile when it holds
    /// `discard_size` cards afterwards.
    pub open spec fn newly_discarded(&self, discard_size: usize) -> int {
        discard_size - discarded_cards(self.discard_pile@)
    }

    /// `fly_seen` can record the flock: the player exists, the discard pile
    /// has not shrunk, and no number of cards leaves the range of the
    /// counters.
    pub open spec fn fly_seen_allowed(
        &self,
        player_number: usize,
        bird: Bird,
        flock_small: bool,
        discard_size: usize,
    ) -> bool {
        &&& player_number < self.players@.len()
        &&& forall|i: int|
            0 <= i < self.discard_pile@.len() ==> (#[trigger] self.discard_pile@[i]).total_cards
                >= 0
        &&& 0 <= self.newly_discarded(discard_size) <= i32::MAX - 20
        &&& i32::MIN <= self.players@[player_number as int].cards.total_cards
            - self.newly_discarded(discard_size) - flock_rest(bird, flock_small)
        &&& self.players@[player_number as int].collection.count(bird) + 2 <= i32::MAX
    }

    /// Records that player `player_number` drew the cards `birds`, which
    /// were seen: they are known to be in the hand.
    pub fn draw_seen(&mut self, player_number: usize, birds: &Vec<Bird>)
        requires
            birds@.len() <= i32::MAX,
            old(self).draw_seen_allowed(player_number, birds@),
        ensures
            final(self).players@.len() == old(self).players@.len(),
            forall|j: int|
                0 <= j < old(self).players@.len() && j != player_number
                    ==> final(self).players@[j] == old(self).players@[j],
            final(self).players@[player_number as int].collection
                == old(self).players@[player_number as int].collection,
            final(self).players@[player_number as int].cards.blacklisted_cards
                == old(self).players@[player_number as int].cards.blacklisted_cards,
            final(self).players@[player_number as int].cards.total_cards
                == old(self).players@[player_number as int].cards.total_cards + birds@.len(),
            forall|b: Bird|
                #[trigger] final(self).players@[player_number as int].cards.known_cards.count(b)
                    == old(self).players@[player_number as int].cards.known_cards.count(b)
                    + occurrences(birds@, b),
            final(self).board == old(self).board,
            final(self).discard_pile == old(self).discard_pile,
            final(self).player_idx == old(self).player_idx,
            final(self).total_discarded == old(self).total_discarded,
            final(self).turn == old(self).turn,
    {
        let drawn = BirdCounts::from_birds(birds);
        proof {
            assert forall|b: Bird|
                i32::MIN <= self.players@[player_number as int].cards.known_cards.count(b)
                    + #[trigger] drawn.count(b) <= i32::MAX by {
                assert(self.players@[player_number as int].cards.known_cards.count(b)
                    + occurrences(birds@, b) <= i32::MAX);
            }
        }
        self.players[player_number].cards.known_cards.add_all(&drawn);
        self.players[player_number].cards.total_cards =
            self.players[player_number].cards.total_cards + birds.len() as i32;
    }

    /// Number of cards in all batches of discarded cards.
    pub fn discarded_total(&self) -> (total: usize)
        requires
            forall|i: int|
                0 <= i < self.discard_pile@.len() ==> (#[trigger] self.discard_pile@[i]).total_cards
                    >= 0,
            discarded_cards(self.discard_pile@) <= usize::MAX,
        ensures
            total == discarded_cards(self.discard_pile@),
    {
        let ghost n = self.discard_pile@.len() as int;
        let mut total: usize = 0;
        let mut i: usize = 0;
        while i < self.discard_pile.len()
            invariant
                i <= n == self.discard_pile@.len(),
                forall|k: int|
                    0 <= k < n ==> (#[trigger] self.discard_pile@[k]).total_cards >= 0,
                discarded_cards(self.discard_pile@) <= usize::MAX,
                total == sum_over(i as int, sizes_of(self.discard_pile@)),
            decreases n - i,
        {
            proof {
                assert forall|k: int| 0 <= k < n implies #[trigger] sizes_of(self.discard_pile@)(
                    k,
                ) >= 0 by {
                    assert(self.discard_pile@[k].total_cards >= 0);
                }
                lemma_sum_over_grows(i + 1, n, sizes_of(self.discard_pile@));
            }
            total = total + self.discard_pile[i].total_cards as usize;
            i = i + 1;
        }
        total
    }

    /// Records that player `player_number` let a flock of `bird` fly home,
    /// after which the discard pile holds `discard_size` cards. The cards
    /// that left the hand are those that the discard pile has gained and
    /// those that the flock needs besides; 1 of them, for a small flock, or
    /// 2 join the collection, and the discarded ones form a new batch of
    /// which nothing is known. No card of the species stays in the hand, so
    /// it goes on the hand's blacklist.
    pub fn fly_seen(
        &mut self,
        player_number: usize,
        bird: Bird,
        flock_small: bool,
        discard_size: usize,
    )
        requires
            old(self).fly_seen_allowed(player_number, bird, flock_small, discard_size),
        ensures
            final(self).players@.len() == old(self).players@.len(),
            forall|j: int|
                0 <= j < old(self).players@.len() && j != player_number
                    ==> final(self).players@[j] == old(self).players@[j],
            final(self).players@[player_number as int].cards.total_cards
                == old(self).players@[player_number as int].cards.total_cards
                - old(self).newly_discarded(discard_size) - flock_rest(bird, flock_small),
            forall|b: Bird|
                #[trigger] final(self).players@[player_number as int].cards.known_cards.count(b)
                    == if b == bird {
                    0
                } else {
                    old(self).players@[player_number as int].cards.known_cards.count(b)
                },
            forall|b: Bird|
                #[trigger] final(self).players@[player_number as int].cards.blacklisted_cards.has(b)
                    == (b == bird
                    || old(self).players@[player_number as int].cards.blacklisted_cards.has(b)),
            forall|b: Bird|
                #[trigger] final(self).players@[player_number as int].collection.count(b)
                    == old(self).players@[player_number as int].collection.count(b) + if b
                    == bird {
                    flock_cards(flock_small)
                } else {
                    0
                },
            old(self).newly_discarded(discard_size) == 0 ==> final(self).discard_pile@
                == old(self).discard_pile@,
            old(self).newly_discarded(discard_size) > 0 ==> final(self).discard_pile@.drop_last()
                == old(self).discard_pile@ && final(self).discard_pile@.last().is_batch(
                None,
                old(self).newly_discarded(discard_size),
            ),
            final(self).board == old(self).board,
            final(self).player_idx == old(self).player_idx,
            final(self).total_discarded == old(self).total_discarded,
            final(self).turn == old(self).turn,
    {
        let flock_size: i32 = if flock_small {
            1
        } else {
            2
        };
        let old_discard_size = self.discarded_total();
        let new_discarded = discard_size - old_discard_size;
        let info = bird.information();
        let birds_required = if flock_small {
            info.small
        } else {
            info.large
        } - flock_size;
        proof {
            crate::bird::lemma_thresholds(bird);
        }
        let flown_count = new_discarded as i32 + birds_required;
        self.players[player_number].cards.give_up(bird, flown_count);
        self.players[player_number].collection.add(bird, flock_size);
        if new_discarded > 0 {
            self.discard_pile.push(PartialCards::batch(None, new_discarded as i32));
            assert(self.discard_pile@.drop_last() =~= old(self).discard_pile@);
        }
    }

    /// Records that the round is over and new hands were dealt, of which
    /// the hand `hand` of the player for whom the game is judged is known.
    pub fn redeal(&mut self, hand: &Vec<Bird>)
        requires
            0 <= old(self).player_idx < old(self).players@.len(),
            hand@.len() <= i32::MAX,
        ensures
            final(self).players@.len() == old(self).players@.len(),
            forall|i: int|
                0 <= i < old(self).players@.len()
                    ==> (#[trigger] final(self).players@[i]).collection
                    == old(self).players@[i].collection,
            forall|i: int|
                0 <= i < old(self).players@.len() && i != old(self).player_idx ==> (
                #[trigger] final(self).players@[i]).cards.is_batch(
                    None,
                    STARTING_CARDS_HAND as int,
                ),
            final(self).main_hand().total_cards == STARTING_CARDS_HAND,
            forall|b: Bird|
                !#[trigger] final(self).main_hand().blacklisted_cards.has(b),
            forall|b: Bird|
                #[trigger] final(self).main_hand().known_cards.count(b) == occurrences(hand@, b),
            final(self).board == old(self).board,
            final(self).discard_pile == old(self).discard_pile,
            final(self).player_idx == old(self).player_idx,
            final(self).total_discarded == old(self).total_discarded,
            final(self).turn == old(self).turn,
    {
        let n = self.players.len();
        let mut i: usize = 0;
        while i < n
            invariant
                i <= n == self.players@.len(),
                n == old(self).players@.len(),
                forall|k: int|
                    0 <= k < n ==> (#[trigger] self.players@[k]).collection
                        == old(self).players@[k].collection,
                forall|k: int|
                    0 <= k < i ==> (#[trigger] self.players@[k]).cards.is_batch(
                        None,
                        STARTING_CARDS_HAND as int,
                    ),
                self.board == old(self).board,
                self.discard_pile == old(self).discard_pile,
                self.player_idx == old(self).player_idx,
                self.total_discarded == old(self).total_discarded,
                self.turn == old(self).turn,
            decreases n - i,
        {
            self.players[i].cards = PartialCards::new();
            i = i + 1;
        }
        let main = self.player_idx as usize;
        self.players[main].cards.known_cards = BirdCounts::from_birds(hand);
    }

    /// Whether `draw_seen` can record the draw of the cards `birds`.
    pub fn can_draw_seen(&self, player_number: usize, birds: &Vec<Bird>) -> (r: bool)
        ensures
            r == (birds@.len() <= i32::MAX && self.draw_seen_allowed(player_number, birds@)),
    {
        if player_number >= self.players.len() || birds.len() > 0x7fff_ffff {
            return false;
        }
        let cards = &self.players[player_number].cards;
        if cards.total_cards as i64 + birds.len() as i64 > 0x7fff_ffff {
            return false;
        }
        let drawn = BirdCounts::from_birds(birds);
        let mut i: usize = 0;
        while i < SPECIES
            invariant
                i <= SPECIES,
                player_number < self.players@.len(),
                *cards == self.players@[player_number as int].cards,
                forall|b: Bird| #[trigger] drawn.count(b) == occurrences(birds@, b),
                forall|b: Bird|
                    b.index() < i ==> #[trigger] cards.known_cards.count(b) + occurrences(
                        birds@,
                        b,
                    ) <= i32::MAX,
            decreases SPECIES - i,
        {
            let b = Bird::from_ordinal(i).unwrap();
            proof {
                lemma_index_at(b, i as int);
                assert(drawn.count(b) == occurrences(birds@, b));
            }
            if cards.known_cards.get(b) as i64 + drawn.get(b) as i64 > 0x7fff_ffff {
                proof {
                    assert(self.players@[player_number as int].cards.known_cards.count(b)
                        + occurrences(birds@, b) > i32::MAX);
                }
                return false;
            }
            proof {
                assert forall|o: Bird| o.index() < i + 1 implies #[trigger] cards.known_cards.count(
                    o,
                ) + occurrences(birds@, o) <= i32::MAX by {
                    lemma_index_at(o, 0);
                }
            }
            i = i + 1;
        }
        proof {
            assert forall|o: Bird|
                #[trigger] self.players@[player_number as int].cards.known_cards.count(o)
                    + occurrences(birds@, o) <= i32::MAX by {
                lemma_index_at(o, 0);
                assert(cards.known_cards.count(o) + occurrences(birds@, o) <= i32::MAX);
            }
        }
        true
    }

    /// Whether `fly_seen` can record the flock.
    pub fn can_fly_seen(
        &self,
        player_number: usize,
        bird: Bird,
        flock_small: bool,
        discard_size: usize,
    ) -> (r: bool)
        ensures
            r == self.fly_seen_allowed(player_number, bird, flock_small, discard_size),
    {
        if player_number >= self.players.len() {
            return false;
        }
        let ghost n = self.discard_pile@.len() as int;
        let ghost sizes = sizes_of(self.discard_pile@);
        let mut total: usize = 0;
        let mut i: usize = 0;
        while i < self.discard_pile.len()
            invariant
                i <= n == self.discard_pile@.len(),
                sizes == sizes_of(self.discard_pile@),
                forall|k: int|
                    0 <= k < i ==> (#[trigger] self.discard_pile@[k]).total_cards >= 0,
                total == sum_over(i as int, sizes),
                total <= discard_size,
            decreases n - i,
        {
            let size = self.discard_pile[i].total_cards;
            if size < 0 {
                return false;
            }
            if size as usize > discard_size - total {
                proof {
                    if forall|k: int|
                        0 <= k < n ==> (#[trigger] self.discard_pile@[k]).total_cards >= 0 {
                        assert forall|k: int| 0 <= k < n implies #[trigger] sizes(k) >= 0 by {
                            assert(self.discard_pile@[k].total_cards >= 0);
                        }
                        lemma_sum_over_grows(i + 1, n, sizes);
                    }
                }
                return false;
            }
            total = total + size as usize;
            i = i + 1;
        }
        let new_discarded = discard_size - total;
        if new_discarded > 0x7fff_ffff - 20 {
            return false;
        }
        let player = &self.players[player_number];
        let info = bird.information();
        let rest = if flock_small {
            info.small - 1
        } else {
            info.large - 2
        };
        player.cards.total_cards as i64 - new_discarded as i64 - rest as i64 >= -0x8000_0000
            && player.collection.get(bird) <= 0x7fff_ffff - 2
    }

    /// Passes the turn to the next player in the order of play.
    pub fn pass_turn(&mut self)
        requires
            old(self).turn < old(self).players@.len(),
        ensures
            final(self).turn == (old(self).turn + 1) % (old(self).players@.len() as int),
            final(self).players == old(self).players,
            final(self).board == old(self).board,
            final(self).discard_pile == old(self).discard_pile,
            final(self).player_idx == old(self).player_idx,
            final(self).total_discarded == old(self).total_discarded,
    {
        let n = self.players.len();
        let turn = self.turn;
        proof {
            if turn + 1 == n {
                assert((turn + 1) % (n as int) == 0);
            } else {
                vstd::arithmetic::div_mod::lemma_small_mod((turn + 1) as nat, n as nat);
            }
        }
        self.turn = if turn + 1 == n {
            0
        } else {
            turn + 1
        };
    }
}

} // verus!
