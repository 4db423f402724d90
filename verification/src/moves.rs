//! A move that the engine proposes.

use vstd::prelude::*;
use crate::board::TilePointer;
use crate::Score;

verus! {

/// A move in the game
///
/// Consists of a target tile and a score, independent of the player
#[derive(Clone, Copy, PartialEq, Eq, Structural, Debug)]
pub struct Move {
    /// Target tile
    pub tile: TilePointer,
    /// Score of the move
    pub score: Score,
}

/// A move with its score, and whether it ends the game.
#[derive(Clone, Copy, PartialEq, Eq, Structural, Debug)]
pub struct MoveWithEnd {
    /// Target tile
    pub tile: TilePointer,
    /// Score of the move
    pub score: Score,
    /// Whether the game is over after the move
    pub is_end: bool,
}

} // verus!
