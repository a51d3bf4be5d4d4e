//! Monte Carlo move evaluation for the card game Cubirds.

use vstd::prelude::*;

pub mod available;
pub mod bird;
pub mod counts;
pub mod evaluator;
pub mod limits;
pub mod line;
pub mod materialized_state;
pub mod moves;
pub mod partial_cards;
pub mod player;
pub mod playout;
pub mod random;
pub mod ranking;
pub mod rollout;
pub mod sampling;
pub mod state;
pub mod sums;
pub mod tally;
pub mod transcript;
pub mod turns;
pub mod utilities;

verus! {

/// Number of lines on the board.
pub const LINES: usize = 4;

/// Number of cards that every player is dealt at the start of a round.
pub const STARTING_CARDS_HAND: i32 = 8;

} // verus!
