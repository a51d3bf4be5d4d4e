use crate::bird::{lemma_index_at, occurrences, Bird, SPECIES};
use crate::counts::BirdCounts;
use crate::line::{
    captured, facing, has_capture, lemma_capture_splits, lemma_occurrences_empty,
    lemma_occurrences_total, placed,
};
use crate::state::CubirdsState;
use crate::LINES;
use vstd::prelude::*;

verus! {

impl CubirdsState {
    /// `play` can record the play: the player and the line exist, and no
    /// number of cards leaves the range of the counters.
    pub open spec fn play_allowed(
        &self,
        player_number: usize,
        bird: Bird,
        count: i32,
        line: usize,
        play_dir: bool,
    ) -> bool {
        &&& player_number < self.players@.len()
        &&& line < LINES
        &&& self.board@[line as int]@.len() <= i32::MAX
        &&& self.board@[line as int]@.len() + count <= i32::MAX
        &&& i32::MIN <= self.players@[player_number as int].cards.total_cards - count
        &&& self.players@[player_number as int].cards.total_cards - count + self.play_capture(
            bird,
            count,
            line,
            play_dir,
        ).len() <= i32::MAX
        &&& forall|b: Bird|
            b != bird ==> #[trigger] self.players@[player_number as int].cards.known_cards.count(b)
                + occurrences(self.play_capture(bird, count, line, play_dir), b) <= i32::MAX
    }

    /// `draw` can record the draw: the player exists, and no number of
    /// cards leaves the range of the counters.
    pub open spec fn draw_allowed(
        &self,
        player_number: usize,
        birds: Option<(Bird, Bird)>,
    ) -> bool {
        &&& player_number < self.players@.len()
        &&& self.players@[player_number as int].cards.total_cards + 2 <= i32::MAX
        &&& match birds {
            Some((first, second)) => self.players@[player_number as int].cards.known_cards.count(
                first,
            ) + 2 <= i32::MAX && self.players@[player_number as int].cards.known_cards.count(
                second,
            ) + 2 <= i32::MAX,
            None => true,
        }
    }

    /// `fly` can record the flock: the player exists, and no number of cards
    /// leaves the range of the counters.
    pub open spec fn fly_allowed(
        &self,
        player_number: usize,
        bird: Bird,
        new_total_cards: i32,
    ) -> bool {
        &&& player_number < self.players@.len()
        &&& i32::MIN <= self.flown(player_number, new_total_cards) - 2
        &&& self.flown(player_number, new_total_cards) <= i32::MAX
        &&& self.players@[player_number as int].collection.count(bird) + 2 <= i32::MAX
    }

    /// `reset` can discard every hand: of no hand more cards are unknown
    /// than a counter can hold.
    pub open spec fn reset_allowed(&self) -> bool {
        forall|i: int|
            0 <= i < self.players@.len() ==> (#[trigger] self.players@[i]).cards.unknown()
                <= i32::MAX
    }

    /// Whether a play of `count` cards of `bird` to one end of line `line`
    /// captures cards.
    pub fn captures(&self, bird: Bird, count: i32, line: usize, play_dir: bool) -> (r: bool)
        requires
            line < LINES,
            self.board@[line as int]@.len() <= i32::MAX,
            self.board@[line as int]@.len() + count <= i32::MAX,
        ensures
            r == has_capture(
                facing(placed(self.board@[line as int]@, bird, count as int, play_dir), play_dir),
            ),
            r == (self.play_capture(bird, count, line, play_dir).len() > 0),
    {
        let mut trial = self.board[line].clone();
        proof {
            lemma_capture_splits(
                placed(self.board@[line as int]@, bird, count as int, play_dir),
                play_dir,
                bird,
            );
        }
        trial.play(bird, count, play_dir).is_some()
    }

    /// Whether `play` can record the play.
    pub fn can_play(
        &self,
        player_number: usize,
        bird: Bird,
        count: i32,
        line: usize,
        play_dir: bool,
    ) -> (r: bool)
        ensures
            r == self.play_allowed(player_number, bird, count, line, play_dir),
    {
        if player_number >= self.players.len() || line >= LINES {
            return false;
        }
        let length = self.board[line].0.len();
        if length > 0x7fff_ffff || length as i64 + count as i64 > 0x7fff_ffff {
            return false;
        }
        let cards = &self.players[player_number].cards;
        let left = cards.total_cards as i64 - count as i64;
        if left < -0x8000_0000 {
            return false;
        }
        let ghost laid = placed(self.board@[line as int]@, bird, count as int, play_dir);
        let ghost taken = captured(laid, play_dir);
        let mut trial = self.board[line].clone();
        let birds = match trial.play(bird, count, play_dir) {
            Some(birds) => birds,
            None => BirdCounts::new(),
        };
        proof {
            lemma_capture_splits(laid, play_dir, bird);
            lemma_occurrences_total(taken);
            assert forall|b: Bird| #[trigger] birds.count(b) == occurrences(taken, b) by {
                if !has_capture(facing(laid, play_dir)) {
                    assert(taken =~= Seq::<Bird>::empty());
                    lemma_occurrences_empty(b);
                }
            }
            assert(birds.sum() == taken.len());
        }
        if left + birds.total() > 0x7fff_ffff {
            return false;
        }
        let mut i: usize = 0;
        while i < SPECIES
            invariant
                i <= SPECIES,
                player_number < self.players@.len(),
                *cards == self.players@[player_number as int].cards,
                taken == self.play_capture(bird, count, line, play_dir),
                forall|b: Bird| #[trigger] birds.count(b) == occurrences(taken, b),
                forall|b: Bird|
                    b.index() < i && b != bird ==> #[trigger] cards.known_cards.count(b)
                        + occurrences(taken, b) <= i32::MAX,
            decreases SPECIES - i,
        {
            let b = Bird::from_ordinal(i).unwrap();
            proof {
                lemma_index_at(b, i as int);
            }
            if b != bird && cards.known_cards.get(b) as i64 + birds.get(b) as i64 > 0x7fff_ffff {
                proof {
                    assert(birds.count(b) == occurrences(taken, b));
                    assert(self.players@[player_number as int].cards.known_cards.count(b)
                        + occurrences(self.play_capture(bird, count, line, play_dir), b)
                        > i32::MAX);
                }
                return false;
            }
            proof {
                assert forall|o: Bird| o.index() < i + 1 && o != bird implies
                    #[trigger] cards.known_cards.count(
                    o,
                ) + occurrences(taken, o) <= i32::MAX by {
                    lemma_index_at(o, 0);
                    if o.index() == i {
                        assert(o == b);
                        assert(birds.count(b) == occurrences(taken, b));
                    }
                }
            }
            i = i + 1;
        }
        proof {
            assert forall|o: Bird| o != bird implies #[trigger] cards.known_cards.count(o)
                + occurrences(taken, o) <= i32::MAX by {
                lemma_index_at(o, 0);
            }
        }
        true
    }

    /// Whether `draw` can record the draw.
    pub fn can_draw(&self, player_number: usize, birds: Option<(Bird, Bird)>) -> (r: bool)
        ensures
            r == self.draw_allowed(player_number, birds),
    {
        if player_number >= self.players.len() {
            return false;
        }
        let cards = &self.players[player_number].cards;
        if cards.total_cards > 0x7fff_ffff - 2 {
            return false;
        }
        match birds {
            Some((first, second)) => cards.known_cards.get(first) <= 0x7fff_ffff - 2
                && cards.known_cards.get(second) <= 0x7fff_ffff - 2,
            None => true,
        }
    }

    /// Whether `fly` can record the flock.
    pub fn can_fly(&self, player_number: usize, bird: Bird, new_total_cards: i32) -> (r: bool)
        ensures
            r == self.fly_allowed(player_number, bird, new_total_cards),
    {
        if player_number >= self.players.len() {
            return false;
        }
        let player = &self.players[player_number];
        let flown = player.cards.total_cards as i64 - new_total_cards as i64;
        -0x8000_0000 <= flown - 2 && flown <= 0x7fff_ffff && player.collection.get(bird)
            <= 0x7fff_ffff - 2
    }

    /// Whether `reset` can discard every hand.
    pub fn can_reset(&self) -> (r: bool)
        ensures
            r == self.reset_allowed(),
    {
        let mut i: usize = 0;
        while i < self.players.len()
            invariant
                i <= self.players@.len(),
                forall|k: int|
                    0 <= k < i ==> (#[trigger] self.players@[k]).cards.unknown() <= i32::MAX,
            decreases self.players@.len() - i,
        {
            let cards = &self.players[i].cards;
            if cards.total_cards as i64 - cards.known_cards.total() > 0x7fff_ffff {
                return false;
            }
            i = i + 1;
        }
        true
    }
}

} // verus!
