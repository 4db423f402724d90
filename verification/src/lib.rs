//! Gomoku engine: board model, line index, pattern evaluation and search.

use vstd::prelude::*;

pub mod board;
pub mod error;
pub mod evaluation;
pub mod fen;
pub mod functions;
pub mod moves;
pub mod node;
pub mod notation;
pub mod player;
pub mod pool;
pub mod ranking;
pub mod search;
pub mod sequences;
pub mod state;
pub mod stats;
pub mod text;
pub mod utils;

pub use board::{Board, Tile, TilePointer};
pub use moves::Move;
pub use player::Player;
pub use state::State;
pub use stats::Stats;

pub use pool::set_thread_count;
pub use search::decide;

verus! {

/// Score of a position or of a move; larger is better for the player it is taken for.
pub type Score = i64;

} // verus!
