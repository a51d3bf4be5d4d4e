use crate::materialized_state::MaterializedCubirdsState;
use crate::moves::{FlockMove, LineMove, SimplifiableMove};
use crate::state::CubirdsState;
use crate::sums::{lemma_sum_over_same, one_if, sum_over};
use crate::tally::Tally;
use crate::LINES;
use rand::rngs::StdRng;
use std::time::{Duration, Instant};
use vstd::prelude::*;

verus! {

/// Number of seconds for which a worker plays games out for one request.
pub const TIME_BUDGET: u64 = 10;

/// Number of playouts after which a worker stops whatever the clock says:
/// as many as a counter of the tally can hold.
pub const PLAYOUT_LIMIT: i32 = 0x7fff_ffff;

/// A point in time of the clock of `std`. Nothing is known of it.
#[verifier::external_type_specification]
#[verifier::external_body]
pub struct ExInstant(Instant);

/// `Instant::now` of `std` reads the clock; nothing is promised of what it
/// returns.
pub assume_specification[ Instant::now ]() -> Instant;

/// `Instant::elapsed` of `std` gives the time that has passed since the
/// instant; nothing is promised of what it returns.
pub assume_specification[ Instant::elapsed ](start: &Instant) -> Duration;

/// `Duration::as_secs` of `std` gives the whole seconds of a duration;
/// nothing is promised of what it returns.
pub assume_specification[ Duration::as_secs ](duration: &Duration) -> u64;

impl CubirdsState {
    /// It is the turn of one of the players, and every player but that one
    /// holds a card.
    pub open spec fn flock_playable(&self) -> bool {
        &&& self.turn < self.players@.len() <= i32::MAX
        &&& forall|i: int|
            0 <= i < self.players@.len() && i != self.turn ==> (
            #[trigger] self.players@[i]).cards.total_cards > 0
    }

    /// It is the turn of one of the players, and every player holds a card.
    pub open spec fn line_playable(&self) -> bool {
        &&& self.flock_playable()
        &&& self.players@[self.turn as int].cards.total_cards > 0
    }

    /// Whether games can be played out from the end of the turn of the
    /// player whose turn it is: that player is one of the players, and all
    /// others hold a card.
    pub fn can_play_flocks(&self) -> (r: bool)
        ensures
            r == self.flock_playable(),
    {
        if self.turn >= self.players.len() || self.players.len() > 0x7fff_ffff {
            return false;
        }
        let mut i: usize = 0;
        while i < self.players.len()
            invariant
                i <= self.players@.len(),
                forall|k: int|
                    0 <= k < i && k != self.turn ==> (
                    #[trigger] self.players@[k]).cards.total_cards > 0,
            decreases self.players@.len() - i,
        {
            if i != self.turn && self.players[i].cards.total_cards <= 0 {
                return false;
            }
            i = i + 1;
        }
        true
    }

    /// Whether games can be played out from the start of the turn of the
    /// player whose turn it is: that player is one of the players, and all
    /// hold a card.
    pub fn can_play_lines(&self) -> (r: bool)
        ensures
            r == self.line_playable(),
    {
        self.can_play_flocks() && self.players[self.turn].cards.total_cards > 0
    }
}

/// `key` is the canonical name of a move of the kind that is rated: of a
/// choice of a flock or, where `flock_moves` is not set, of a line move to
/// one of the lines.
pub open spec fn names_move(flock_moves: bool, key: Seq<char>) -> bool {
    if flock_moves {
        exists|choice: FlockMove| key == #[trigger] SimplifiableMove::key(&choice)
    } else {
        exists|played: LineMove|
            played.line < LINES && key == #[trigger] SimplifiableMove::key(&played)
    }
}

/// The tally `after` is the tally `before` with one more playout of the
/// move named `key`, and one more win of it where the playout was won.
pub open spec fn recorded(before: &Tally, after: &Tally, key: Seq<char>, won: bool) -> bool {
    &&& forall|k: Seq<char>| #[trigger] after.total(k) == before.total(k) + one_if(k == key)
    &&& forall|k: Seq<char>|
        #[trigger] after.wins(k) == before.wins(k) + one_if(k == key && won)
}

/// What became of one playout.
#[derive(Debug, Clone)]
pub enum Playout {
    /// No world could be sampled from what is known of the game.
    Unsampled,
    /// A world was sampled, and the game was given up.
    GivenUp,
    /// A world was sampled, and the game was played to its end: the
    /// canonical name of the move it began with, and whether it was won.
    Finished { name: String, won: bool },
}

/// The outcome of a playout as a tally counts it: the name of the move that
/// the game began with and whether it was won, or none for a game that was
/// given up.
pub type Outcome = Option<(Seq<char>, bool)>;

impl Playout {
    /// The outcome of the playout as a tally counts it.
    pub open spec fn outcome(&self) -> Outcome {
        match self {
            Playout::Finished { name, won } => Some((name@, *won)),
            _ => None,
        }
    }
}

/// For each outcome, by position, 1 where it is of a game that began with
/// the move named `key`, else 0.
pub open spec fn played_at(outcomes: Seq<Outcome>, key: Seq<char>) -> spec_fn(int) -> int {
    |i: int|
        match outcomes[i] {
            Some(finished) => one_if(finished.0 == key),
            None => 0,
        }
}

/// For each outcome, by position, 1 where it is of a game that began with
/// the move named `key` and was won, else 0.
pub open spec fn won_at(outcomes: Seq<Outcome>, key: Seq<char>) -> spec_fn(int) -> int {
    |i: int|
        match outcomes[i] {
            Some(finished) => one_if(finished.0 == key && finished.1),
            None => 0,
        }
}

/// The tally counts the outcomes and nothing else: of every move as many
/// playouts as there are outcomes of games that began with it, and as many
/// wins as there are such outcomes of games that were won. A game that was
/// given up counts for nothing.
pub open spec fn tallies(tally: &Tally, outcomes: Seq<Outcome>) -> bool {
    &&& forall|key: Seq<char>|
        #[trigger] tally.total(key) == sum_over(outcomes.len() as int, played_at(outcomes, key))
    &&& forall|key: Seq<char>|
        #[trigger] tally.wins(key) == sum_over(outcomes.len() as int, won_at(outcomes, key))
}

/// Every outcome of a game that was played to its end names a move of the
/// kind that is rated.
pub open spec fn all_name_moves(flock_moves: bool, outcomes: Seq<Outcome>) -> bool {
    forall|i: int|
        0 <= i < outcomes.len() ==> match #[trigger] outcomes[i] {
            Some(finished) => names_move(flock_moves, finished.0),
            None => true,
        }
}

/// Plays one game out from what is known of the game and records its
/// outcome: a world is sampled from the knowledge and played out at
/// random, from the start of the turn or, for `flock_moves`, from its end.
/// A game that is given up leaves the tally as it is; any other adds one
/// playout to the move it began with, and one win where it was won. The
/// result tells what became of the playout. No world can be sampled where
/// the books cannot be balanced.
pub fn evaluate_once(
    state: &CubirdsState,
    flock_moves: bool,
    tally: &mut Tally,
    rng: &mut StdRng,
) -> (r: Playout)
    requires
        old(tally).wf(),
        forall|key: Seq<char>| #[trigger] old(tally).total(key) < i32::MAX,
        if flock_moves {
            state.flock_playable()
        } else {
            state.line_playable()
        },
    ensures
        final(tally).wf(),
        state.consistent() ==> !(r is Unsampled),
        !(r is Unsampled) ==> state.accountable(),
        match r {
            Playout::Finished { name, won } => names_move(flock_moves, name@) && recorded(
                old(tally),
                final(tally),
                name@,
                won,
            ),
            _ => final(tally).scores@ == old(tally).scores@,
        },
{
    let mut world = match MaterializedCubirdsState::try_sample_from(state, rng) {
        Some(world) => world,
        None => {
            return Playout::Unsampled;
        },
    };
    proof {
        assert forall|i: int|
            0 <= i < world.players@.len() && (i != world.turn || !flock_moves) implies (
        #[trigger] world.players@[i]).cards.sum() > 0 by {
            assert(crate::sampling::fills(&world.players@[i].cards, &state.players@[i].cards));
            assert(state.players@[i].cards.total_cards > 0);
        }
    }
    if flock_moves {
        let outcome = world.flock_rollout(rng);
        proof {
            if let Some((first_move, won)) = outcome {
                assert(tally.total(SimplifiableMove::key(&first_move)) < i32::MAX);
            }
        }
        tally.record::<FlockMove>(outcome);
        match outcome {
            Some((first_move, won)) => {
                let name = first_move.simplified();
                proof {
                    assert(names_move(flock_moves, SimplifiableMove::key(&first_move)));
                }
                Playout::Finished { name, won }
            },
            None => Playout::GivenUp,
        }
    } else {
        let outcome = world.full_rollout(rng);
        proof {
            if let Some((first_move, won)) = outcome {
                assert(tally.total(SimplifiableMove::key(&first_move)) < i32::MAX);
            }
        }
        tally.record::<LineMove>(outcome);
        match outcome {
            Some((first_move, won)) => {
                let name = first_move.simplified();
                proof {
                    assert(names_move(flock_moves, SimplifiableMove::key(&first_move)));
                }
                Playout::Finished { name, won }
            },
            None => Playout::GivenUp,
        }
    }
}

/// Plays games out from what is known of the game for as long as the time
/// budget lasts, and returns the tally of their outcomes: line moves from
/// the start of the turn or, for `flock_moves`, choices of a flock from its
/// end. The game that is being played when the time is over is played to
/// its end. The result is `None` where no world could be sampled from the
/// knowledge, as it is whenever the books cannot be balanced.
///
/// The tally counts the outcomes of the games that were played and nothing
/// else: a game that was given up counts for nothing, neither as a playout
/// nor as a loss. No more games are played than the limit of playouts.
pub fn internal_evaluate_state(state: &CubirdsState, flock_moves: bool, rng: &mut StdRng) -> (r:
    Option<Tally>)
    requires
        if flock_moves {
            state.flock_playable()
        } else {
            state.line_playable()
        },
    ensures
        state.consistent() ==> r is Some,
        r is Some ==> state.accountable(),
        match r {
            Some(move_scores) => {
                &&& move_scores.wf()
                &&& exists|outcomes: Seq<Outcome>|
                    outcomes.len() <= PLAYOUT_LIMIT && all_name_moves(flock_moves, outcomes)
                        && #[trigger] tallies(&move_scores, outcomes)
                &&& forall|key: Seq<char>| #[trigger] move_scores.total(key) <= PLAYOUT_LIMIT
                &&& forall|key: Seq<char>|
                    #[trigger] move_scores.total(key) > 0 ==> names_move(flock_moves, key)
            },
            None => true,
        },
{
    if !state.is_wf() {
        return None;
    }
    if state.available_above(0).is_none() {
        return None;
    }
    let mut move_scores = Tally::new();
    let now = Instant::now();
    let mut playouts: i32 = 0;
    let ghost mut outcomes: Seq<Outcome> = Seq::empty();
    while now.elapsed().as_secs() <= TIME_BUDGET && playouts < PLAYOUT_LIMIT
        invariant
            move_scores.wf(),
            0 <= playouts <= PLAYOUT_LIMIT,
            outcomes.len() == playouts,
            all_name_moves(flock_moves, outcomes),
            tallies(&move_scores, outcomes),
            forall|key: Seq<char>| #[trigger] move_scores.total(key) <= playouts,
            forall|key: Seq<char>|
                #[trigger] move_scores.total(key) > 0 ==> names_move(flock_moves, key),
            if flock_moves {
                state.flock_playable()
            } else {
                state.line_playable()
            },
        decreases PLAYOUT_LIMIT - playouts,
    {
        let ghost before = move_scores;
        let ghost earlier = outcomes;
        let playout = evaluate_once(state, flock_moves, &mut move_scores, rng);
        if let Playout::Unsampled = playout {
            return None;
        }
        proof {
            let n = earlier.len() as int;
            outcomes = earlier.push(playout.outcome());
            assert forall|key: Seq<char>|
                #[trigger] move_scores.total(key) == sum_over(n + 1, played_at(outcomes, key))
                    && move_scores.total(key) <= playouts + 1 && (move_scores.total(key) > 0
                    ==> names_move(flock_moves, key)) by {
                lemma_sum_over_same(n, played_at(earlier, key), played_at(outcomes, key));
                assert(before.total(key) == sum_over(n, played_at(earlier, key)));
                assert(before.total(key) <= playouts);
                if move_scores.total(key) > 0 && move_scores.total(key) == before.total(key) {
                    assert(before.total(key) > 0);
                }
            }
            assert forall|key: Seq<char>|
                #[trigger] move_scores.wins(key) == sum_over(n + 1, won_at(outcomes, key)) by {
                lemma_sum_over_same(n, won_at(earlier, key), won_at(outcomes, key));
                assert(before.wins(key) == sum_over(n, won_at(earlier, key)));
            }
            assert forall|i: int| 0 <= i < n + 1 implies match #[trigger] outcomes[i] {
                Some(finished) => names_move(flock_moves, finished.0),
                None => true,
            } by {
                if i < n {
                    assert(outcomes[i] == earlier[i]);
                }
            }
        }
        playouts = playouts + 1;
    }
    Some(move_scores)
}

} // verus!
