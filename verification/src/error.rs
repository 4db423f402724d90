//! Why the engine gives no move.

use vstd::prelude::*;

verus! {

/// Why the engine gives no move.
#[derive(Debug, Clone, PartialEq, Eq, Structural)]
pub enum GomokuError {
    /// every cell of the board is occupied
    NoEmptyTiles,
    /// the opponent of the player to move has already won
    GameEnd,
    /// the grid handed in is no board
    MisshapedBoard(crate::board::Error),
}

} // verus!
