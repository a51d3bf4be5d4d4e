use crate::bird::{occurrences, Bird, SPECIES};
use crate::counts::{BirdCounts, BirdSet};
use crate::line::{
    after_capture, captured, lemma_occurrences_empty, lemma_occurrences_total, placed, Line,
};
use crate::partial_cards::PartialCards;
use crate::player::Player;
use crate::sums::{one_if, sum_over};
use crate::LINES;
use vstd::prelude::*;

verus! {

/// The game as one player sees it: the lines, the players with what is
/// known of their hands, the batches of discarded cards with what is known
/// of each, and whose turn it is.
#[derive(Debug, Clone)]
pub struct CubirdsState {
    pub board: [Line; 4],
    pub players: Vec<Player>,
    pub player_idx: i32,
    pub discard_pile: Vec<PartialCards>,
    pub total_discarded: i32,
    pub turn: usize,
}

/// For each player, by position, the number of cards of `b` that the player
/// is known to hold in the hand or has collected.
pub open spec fn held_by(players: Seq<Player>, b: Bird) -> spec_fn(int) -> int {
    |i: int| players[i].cards.known_cards.count(b) + players[i].collection.count(b)
}

/// For each line, by position, the number of cards of `b` on it.
pub open spec fn lying_on(board: Seq<Line>, b: Bird) -> spec_fn(int) -> int {
    |i: int| occurrences(board[i]@, b) as int
}

/// For each batch of discarded cards, by position, the number of cards of
/// `b` that are known to be in it.
pub open spec fn thrown_in(discards: Seq<PartialCards>, b: Bird) -> spec_fn(int) -> int {
    |i: int| discards[i].known_cards.count(b)
}

/// Number of cards of `b` that the players are known to hold in their hands
/// or have collected.
pub open spec fn with_players(players: Seq<Player>, b: Bird) -> int {
    sum_over(players.len() as int, held_by(players, b))
}

/// Number of cards of `b` on the lines.
pub open spec fn on_board(board: Seq<Line>, b: Bird) -> int {
    sum_over(board.len() as int, lying_on(board, b))
}

/// Number of cards of `b` that are known to be among the discarded cards.
pub open spec fn in_discards(discards: Seq<PartialCards>, b: Bird) -> int {
    sum_over(discards.len() as int, thrown_in(discards, b))
}

impl CubirdsState {
    /// Number of cards of `b` of which the place is known.
    pub open spec fn fixed(&self, b: Bird) -> int {
        with_players(self.players@, b) + on_board(self.board@, b) + in_discards(
            self.discard_pile@,
            b,
        )
    }

    /// Number of cards of `b` of which the place is not known.
    pub open spec fn residual(&self, b: Bird) -> int {
        b.copies() - self.fixed(b)
    }

    /// Every count of known cards is a natural number, and no part is known
    /// to hold more cards than it has.
    pub open spec fn wf(&self) -> bool {
        &&& forall|i: int|
            0 <= i < self.players@.len() ==> (#[trigger] self.players@[i]).cards.wf()
                && self.players@[i].collection.wf()
        &&& forall|i: int|
            0 <= i < self.discard_pile@.len() ==> (#[trigger] self.discard_pile@[i]).wf()
    }

    /// The game before anybody has sat down: four empty lines, no player,
    /// nothing discarded.
    pub fn new() -> (r: CubirdsState)
        ensures
            r.players@.len() == 0,
            r.discard_pile@.len() == 0,
            forall|l: int| 0 <= l < LINES ==> (#[trigger] r.board@[l])@.len() == 0,
            r.player_idx == 0,
            r.total_discarded == 0,
            r.turn == 0,
            r.wf(),
    {
        CubirdsState {
            board: [Line::new(), Line::new(), Line::new(), Line::new()],
            players: Vec::new(),
            player_idx: 0,
            discard_pile: Vec::new(),
            total_discarded: 0,
            turn: 0,
        }
    }

    /// Whether every count of known cards is a natural number and no part
    /// is known to hold more cards than it has.
    pub fn is_wf(&self) -> (r: bool)
        ensures
            r == self.wf(),
    {
        let mut i: usize = 0;
        while i < self.players.len()
            invariant
                i <= self.players@.len(),
                forall|k: int|
                    0 <= k < i ==> (#[trigger] self.players@[k]).cards.wf()
                        && self.players@[k].collection.wf(),
            decreases self.players@.len() - i,
        {
            if !self.players[i].cards.is_wf() || !self.players[i].collection.is_wf() {
                return false;
            }
            i = i + 1;
        }
        let mut j: usize = 0;
        while j < self.discard_pile.len()
            invariant
                j <= self.discard_pile@.len(),
                forall|k: int| 0 <= k < j ==> (#[trigger] self.discard_pile@[k]).wf(),
            decreases self.discard_pile@.len() - j,
        {
            if !self.discard_pile[j].is_wf() {
                return false;
            }
            j = j + 1;
        }
        true
    }

    /// The cards that a play of `count` cards of `bird` to one end of line
    /// `line` captures.
    pub open spec fn play_capture(
        &self,
        bird: Bird,
        count: i32,
        line: usize,
        play_dir: bool,
    ) -> Seq<Bird> {
        captured(placed(self.board@[line as int]@, bird, count as int, play_dir), play_dir)
    }

    /// Line `line` once `count` cards of `bird` were played to one end of it
    /// and what they enclose has left.
    pub open spec fn play_line(
        &self,
        bird: Bird,
        count: i32,
        line: usize,
        play_dir: bool,
    ) -> Seq<Bird> {
        after_capture(placed(self.board@[line as int]@, bird, count as int, play_dir), play_dir)
    }

    /// Records that player `player_number` played `count` cards of `bird`,
    /// all they had, to the left (`play_dir`) or right end of line `line`.
    /// The cards leave the hand, and `bird` goes on the hand's blacklist.
    /// What the play captures joins the hand as known cards, off the
    /// blacklist; after a capture the cards `new_bird`, where given, are laid
    /// before the left end of the line (where its flag is set) or behind the
    /// right end.
    pub fn play(
        &mut self,
        player_number: usize,
        bird: Bird,
        count: i32,
        line: usize,
        play_dir: bool,
        new_bird: Option<(Vec<Bird>, bool)>,
    )
        requires
            old(self).play_allowed(player_number, bird, count, line, play_dir),
        ensures
            final(self).players@.len() == old(self).players@.len(),
            forall|j: int|
                0 <= j < old(self).players@.len() && j != player_number
                    ==> final(self).players@[j] == old(self).players@[j],
            final(self).players@[player_number as int].collection
                == old(self).players@[player_number as int].collection,
            forall|b: Bird|
                #[trigger] final(self).players@[player_number as int].cards.known_cards.count(b)
                    == if b == bird {
                    0
                } else {
                    old(self).players@[player_number as int].cards.known_cards.count(b)
                } + occurrences(old(self).play_capture(bird, count, line, play_dir), b),
            forall|b: Bird|
                #[trigger] final(self).players@[player_number as int].cards.blacklisted_cards.has(
                    b,
                ) == ((b == bird
                    || old(self).players@[player_number as int].cards.blacklisted_cards.has(b))
                    && occurrences(
                    old(self).play_capture(bird, count, line, play_dir),
                    b,
                ) == 0),
            final(self).players@[player_number as int].cards.total_cards
                == old(self).players@[player_number as int].cards.total_cards - count
                + old(self).play_capture(
                bird,
                count,
                line,
                play_dir,
            ).len(),
            forall|l: int|
                0 <= l < LINES && l != line ==> final(self).board@[l] == old(self).board@[l],
            final(self).board@[line as int]@ == match new_bird {
                Some((birds, new_dir)) if old(self).play_capture(bird, count, line, play_dir).len()
                    > 0 => if new_dir {
                    birds@ + old(self).play_line(bird, count, line, play_dir)
                } else {
                    old(self).play_line(bird, count, line, play_dir) + birds@
                },
                _ => old(self).play_line(bird, count, line, play_dir),
            },
            final(self).discard_pile == old(self).discard_pile,
            final(self).player_idx == old(self).player_idx,
            final(self).total_discarded == old(self).total_discarded,
            final(self).turn == old(self).turn,
    {
        let ghost taken = self.play_capture(bird, count, line, play_dir);
        proof {
            lemma_occurrences_total(taken);
        }
        self.players[player_number].cards.give_up(bird, count);
        let sandwiched = self.board[line].play(bird, count, play_dir);
        match sandwiched {
            Some(birds) => {
                proof {
                    assert(birds.sum() == taken.len());
                }
                self.players[player_number].cards.take_in(&birds);
                if let Some((nb, nbd)) = new_bird {
                    self.board[line].lay(&nb, nbd);
                }
            },
            None => {
                proof {
                    assert(taken =~= Seq::<Bird>::empty());
                    assert forall|b: Bird| occurrences(taken, b) == 0 by {
                        lemma_occurrences_empty(b);
                    }
                }
            },
        }
    }

    /// Records that player `player_number` drew two cards: the hand has two
    /// cards more and an empty blacklist, and where the two cards are given,
    /// they are known to be in the hand.
    pub fn draw(&mut self, player_number: usize, birds: Option<(Bird, Bird)>)
        requires
            old(self).draw_allowed(player_number, birds),
        ensures
            final(self).players@.len() == old(self).players@.len(),
            forall|j: int|
                0 <= j < old(self).players@.len() && j != player_number
                    ==> final(self).players@[j] == old(self).players@[j],
            final(self).players@[player_number as int].collection
                == old(self).players@[player_number as int].collection,
            final(self).players@[player_number as int].cards.total_cards
                == old(self).players@[player_number as int].cards.total_cards + 2,
            forall|b: Bird|
                !#[trigger] final(self).players@[player_number as int].cards.blacklisted_cards.has(
                    b,
                ),
            forall|b: Bird|
                #[trigger] final(self).players@[player_number as int].cards.known_cards.count(b)
                    == old(self).players@[player_number as int].cards.known_cards.count(b)
                    + match birds {
                    Some((first, second)) => one_if(first == b) + one_if(second == b),
                    None => 0int,
                },
            final(self).board == old(self).board,
            final(self).discard_pile == old(self).discard_pile,
            final(self).player_idx == old(self).player_idx,
            final(self).total_discarded == old(self).total_discarded,
            final(self).turn == old(self).turn,
    {
        self.players[player_number].cards.blacklisted_cards = BirdSet::new();
        let total_cards = self.players[player_number].cards.total_cards;
        self.players[player_number].cards.total_cards = total_cards + 2;
        if let Some(new_birds) = birds {
            self.players[player_number].cards.known_cards.add(new_birds.0, 1);
            self.players[player_number].cards.known_cards.add(new_birds.1, 1);
        }
    }

    /// Records that player `player_number` let a flock of `bird` fly home
    /// and holds `new_total_cards` cards afterwards. The cards that left the
    /// hand are those that the hand has lost; 1 of them, for a small flock,
    /// or 2 join the collection, and the others form a new batch of
    /// discarded cards of that species. No card of the species stays in the
    /// hand, so it goes on the hand's blacklist.
    pub fn fly(&mut self, player_number: usize, bird: Bird, new_total_cards: i32, flock_small: bool)
        requires
            old(self).fly_allowed(player_number, bird, new_total_cards),
        ensures
            final(self).players@.len() == old(self).players@.len(),
            forall|j: int|
                0 <= j < old(self).players@.len() && j != player_number
                    ==> final(self).players@[j] == old(self).players@[j],
            final(self).players@[player_number as int].cards.total_cards == new_total_cards,
            forall|b: Bird|
                #[trigger] final(self).players@[player_number as int].cards.known_cards.count(b)
                    == if b == bird {
                    0
                } else {
                    old(self).players@[player_number as int].cards.known_cards.count(b)
                },
            forall|b: Bird|
                #[trigger] final(self).players@[player_number as int].cards.blacklisted_cards.has(
                    b,
                ) == (b == bird
                    || old(self).players@[player_number as int].cards.blacklisted_cards.has(b)),
            forall|b: Bird|
                #[trigger] final(self).players@[player_number as int].collection.count(b)
                    == old(self).players@[player_number as int].collection.count(b) + if b == bird {
                    flock_cards(flock_small)
                } else {
                    0
                },
            final(self).discard_pile@.len() == old(self).discard_pile@.len() + 1,
            final(self).discard_pile@.drop_last() == old(self).discard_pile@,
            final(self).discard_pile@.last().is_batch(
                Some(bird),
                old(self).flown(player_number, new_total_cards) - flock_cards(flock_small),
            ),
            final(self).board == old(self).board,
            final(self).player_idx == old(self).player_idx,
            final(self).total_discarded == old(self).total_discarded,
            final(self).turn == old(self).turn,
    {
        let flock_size: i32 = if flock_small {
            1
        } else {
            2
        };
        let flown_count = self.players[player_number].cards.total_cards - new_total_cards;
        let discarded = flown_count - flock_size;
        self.players[player_number].cards.give_up(bird, flown_count);
        self.players[player_number].collection.add(bird, flock_size);
        let discarded_cards = PartialCards::batch(Some(bird), discarded);
        self.discard_pile.push(discarded_cards);
        assert(self.discard_pile@.drop_last() =~= old(self).discard_pile@);
    }

    /// Number of cards that player `player_number` has lost when
    /// `new_total_cards` cards are left in the hand.
    pub open spec fn flown(&self, player_number: usize, new_total_cards: i32) -> int {
        self.players@[player_number as int].cards.total_cards - new_total_cards
    }

    /// Records that player `player_number` holds exactly the cards `birds`.
    pub fn set_birds(&mut self, player_number: usize, birds: &Vec<Bird>)
        requires
            player_number < old(self).players@.len(),
            birds@.len() <= i32::MAX,
        ensures
            final(self).players@.len() == old(self).players@.len(),
            forall|j: int|
                0 <= j < old(self).players@.len() && j != player_number
                    ==> final(self).players@[j] == old(self).players@[j],
            final(self).players@[player_number as int].collection
                == old(self).players@[player_number as int].collection,
            final(self).players@[player_number as int].cards.total_cards == birds@.len(),
            forall|b: Bird|
                !#[trigger] final(self).players@[player_number as int].cards.blacklisted_cards.has(
                    b,
                ),
            forall|b: Bird|
                #[trigger] final(self).players@[player_number as int].cards.known_cards.count(b)
                    == occurrences(birds@, b),
            final(self).players@[player_number as int].cards.wf(),
            final(self).board == old(self).board,
            final(self).discard_pile == old(self).discard_pile,
            final(self).player_idx == old(self).player_idx,
            final(self).total_discarded == old(self).total_discarded,
            final(self).turn == old(self).turn,
    {
        self.players[player_number].cards.known_cards = BirdCounts::from_birds(birds);
        self.players[player_number].cards.blacklisted_cards = BirdSet::new();
        self.players[player_number].cards.total_cards = birds.len() as i32;
    }
}

/// A batch of cards as `reset` discards it: the one species that all its
/// cards are known to be of, or none where nothing is known of them, and
/// the number of the cards.
pub type Batch = (Option<Bird>, int);

/// The batches of known cards in which a hand is discarded, for the species
/// before position `i`: one batch for each species of which the hand is known
/// to hold cards, in enumeration order.
pub open spec fn known_batches(cards: PartialCards, i: int) -> Seq<Batch>
    decreases i,
{
    if i <= 0 {
        Seq::empty()
    } else if cards.known_cards.count(Bird::at(i - 1)) > 0 {
        known_batches(cards, i - 1).push(
            (Some(Bird::at(i - 1)), cards.known_cards.count(Bird::at(i - 1))),
        )
    } else {
        known_batches(cards, i - 1)
    }
}

/// The batches in which a hand is discarded: those of its known cards, and
/// after them one batch of the cards of which nothing is known, if there
/// are any.
pub open spec fn batches(cards: PartialCards) -> Seq<Batch> {
    if cards.unknown() > 0 {
        known_batches(cards, SPECIES as int).push((None, cards.unknown()))
    } else {
        known_batches(cards, SPECIES as int)
    }
}

/// The batches in which the hands of the first `n` players are discarded,
/// player by player.
pub open spec fn hands_discarded(players: Seq<Player>, n: int) -> Seq<Batch>
    decreases n,
{
    if n <= 0 {
        Seq::empty()
    } else {
        hands_discarded(players, n - 1) + batches(players[n - 1].cards)
    }
}

/// From position `from` on, the pile holds the batches `expected`, in their
/// order, and nothing else.
pub open spec fn holds_batches(pile: Seq<PartialCards>, from: int, expected: Seq<Batch>) -> bool {
    &&& pile.len() == from + expected.len()
    &&& forall|k: int|
        0 <= k < expected.len() ==> (#[trigger] pile[from + k]).is_batch(
            expected[k].0,
            expected[k].1,
        )
}

/// Discards a hand: appends its batches to the pile.
fn discard_hand(cards: &PartialCards, pile: &mut Vec<PartialCards>)
    requires
        cards.unknown() <= i32::MAX,
    ensures
        final(pile)@.take(old(pile)@.len() as int) == old(pile)@,
        holds_batches(final(pile)@, old(pile)@.len() as int, batches(*cards)),
{
    let ghost from = pile@.len() as int;
    let mut i: usize = 0;
    assert(pile@.take(from) =~= old(pile)@);
    while i < SPECIES
        invariant
            i <= SPECIES,
            from == old(pile)@.len(),
            pile@.take(from) == old(pile)@,
            holds_batches(pile@, from, known_batches(*cards, i as int)),
        decreases SPECIES - i,
    {
        let bird = Bird::from_ordinal(i).unwrap();
        let bird_count = cards.known_cards.get(bird);
        if bird_count > 0 {
            let ghost before = pile@;
            pile.push(PartialCards::batch(Some(bird), bird_count));
            proof {
                assert(pile@.take(from) =~= before.take(from));
                let expected = known_batches(*cards, i + 1);
                assert forall|k: int| 0 <= k < expected.len() implies (#[trigger] pile@[from
                    + k]).is_batch(expected[k].0, expected[k].1) by {
                    if k < expected.len() - 1 {
                        assert(pile@[from + k] == before[from + k]);
                    }
                }
            }
        }
        i = i + 1;
    }
    let unknown = cards.total_cards as i64 - cards.known_cards.total();
    if unknown > 0 {
        let ghost before = pile@;
        pile.push(PartialCards::batch(None, unknown as i32));
        proof {
            assert(pile@.take(from) =~= before.take(from));
            let expected = batches(*cards);
            assert forall|k: int| 0 <= k < expected.len() implies (#[trigger] pile@[from
                + k]).is_batch(expected[k].0, expected[k].1) by {
                if k < expected.len() - 1 {
                    assert(pile@[from + k] == before[from + k]);
                }
            }
        }
    }
}

impl CubirdsState {
    /// Records that the round is over: every hand is discarded, in batches,
    /// player by player, and every player is dealt a new hand of which
    /// nothing is known but its size.
    pub fn reset(&mut self)
        requires
            old(self).reset_allowed(),
        ensures
            final(self).players@.len() == old(self).players@.len(),
            forall|i: int|
                0 <= i < old(self).players@.len()
                    ==> (#[trigger] final(self).players@[i]).collection
                    == old(self).players@[i].collection && final(self).players@[i].cards.is_batch(
                    None,
                    crate::STARTING_CARDS_HAND as int,
                ),
            final(self).discard_pile@.take(old(self).discard_pile@.len() as int)
                == old(self).discard_pile@,
            holds_batches(
                final(self).discard_pile@,
                old(self).discard_pile@.len() as int,
                hands_discarded(old(self).players@, old(self).players@.len() as int),
            ),
            final(self).board == old(self).board,
            final(self).player_idx == old(self).player_idx,
            final(self).total_discarded == old(self).total_discarded,
            final(self).turn == old(self).turn,
    {
        let ghost from = self.discard_pile@.len() as int;
        let n = self.players.len();
        let mut p: usize = 0;
        assert(self.discard_pile@.take(from) =~= old(self).discard_pile@);
        while p < n
            invariant
                p <= n == old(self).players@.len(),
                self.players@.len() == n,
                from == old(self).discard_pile@.len(),
                forall|i: int|
                    p <= i < n ==> #[trigger] self.players@[i] == old(self).players@[i],
                forall|i: int|
                    0 <= i < n ==> (#[trigger] old(self).players@[i]).cards.unknown() <= i32::MAX,
                forall|i: int|
                    0 <= i < p ==> (#[trigger] self.players@[i]).collection
                        == old(self).players@[i].collection && self.players@[i].cards.is_batch(
                        None,
                        crate::STARTING_CARDS_HAND as int,
                    ),
                self.discard_pile@.take(from) == old(self).discard_pile@,
                holds_batches(
                    self.discard_pile@,
                    from,
                    hands_discarded(old(self).players@, p as int),
                ),
                self.board == old(self).board,
                self.player_idx == old(self).player_idx,
                self.total_discarded == old(self).total_discarded,
                self.turn == old(self).turn,
            decreases n - p,
        {
            let cards = self.players[p].cards;
            let ghost before = self.discard_pile@;
            let ghost earlier = hands_discarded(old(self).players@, p as int);
            assert(cards == old(self).players@[p as int].cards);
            discard_hand(&cards, &mut self.discard_pile);
            self.players[p].cards = PartialCards::new();
            proof {
                let added = batches(cards);
                let expected = hands_discarded(old(self).players@, p + 1);
                assert(expected == earlier + added);
                assert(self.discard_pile@.take(from) =~= before.take(from));
                assert forall|k: int| 0 <= k < expected.len() implies (
                #[trigger] self.discard_pile@[from + k]).is_batch(
                    expected[k].0,
                    expected[k].1,
                ) by {
                    if k < earlier.len() {
                        assert(self.discard_pile@[from + k] == before[from + k]);
                        assert(self.discard_pile@.take(before.len() as int)[from + k]
                            == before[from + k]);
                    } else {
                        assert(self.discard_pile@[before.len() + (k - earlier.len())].is_batch(
                            added[k - earlier.len()].0,
                            added[k - earlier.len()].1,
                        ));
                    }
                }
            }
            p = p + 1;
        }
    }
}

/// Number of cards of a flock that join the collection: 1 of a small flock,
/// 2 of a large one.
pub open spec fn flock_cards(flock_small: bool) -> int {
    if flock_small {
        1
    } else {
        2
    }
}

} // verus!
