//! Evaluation of a position as free functions, and the signed square root of a score.

use vstd::prelude::*;
use crate::board::{Board, TilePointer};
use crate::evaluation::{
    as_ints, board_tally, cells_along, line_tally, tile_tally, Eval, BOARD_LIMIT, LINE_LIMIT,
    WIN_SCORE,
};
use crate::player::Player;
use crate::state::State;
use crate::Score;

verus! {

/// `r` is the largest integer whose square is not above `m`.
pub open spec fn is_floor_sqrt(r: int, m: int) -> bool {
    0 <= r && r * r <= m < (r + 1) * (r + 1)
}

/// The integer part of the square root of `m`, for `m >= 0`.
pub open spec fn floor_sqrt(m: int) -> int {
    choose|r: int| is_floor_sqrt(r, m)
}

/// The square root that keeps the sign: `sign(n) * floor(sqrt(|n|))`.
pub open spec fn signed_sqrt(n: int) -> int {
    if n >= 0 {
        floor_sqrt(n)
    } else {
        -floor_sqrt(-n)
    }
}

/// A number has one integer square root only.
pub proof fn lemma_floor_sqrt_unique(r1: int, r2: int, m: int)
    requires
        is_floor_sqrt(r1, m),
        is_floor_sqrt(r2, m),
    ensures
        r1 == r2,
{
    assert(r1 == r2) by (nonlinear_arith)
        requires
            0 <= r1,
            0 <= r2,
            r1 * r1 <= m < (r1 + 1) * (r1 + 1),
            r2 * r2 <= m < (r2 + 1) * (r2 + 1),
    {
        if r1 < r2 {
            assert((r1 + 1) * (r1 + 1) <= r2 * r2);
        } else if r2 < r1 {
            assert((r2 + 1) * (r2 + 1) <= r1 * r1);
        }
    }
}

/// An integer square root is the value of `floor_sqrt`, and is not above the number.
pub proof fn lemma_floor_sqrt_is(r: int, m: int)
    requires
        is_floor_sqrt(r, m),
    ensures
        floor_sqrt(m) == r,
        r <= m,
{
    lemma_floor_sqrt_unique(floor_sqrt(m), r, m);
    assert(r <= m) by (nonlinear_arith)
        requires
            0 <= r,
            r * r <= m,
    {
        if r >= 1 {
            assert(r * r >= r);
        }
    }
}

/// The largest integer whose square is not above `m`.
pub fn integer_sqrt(m: u128) -> (r: u128)
    requires
        m <= 0x4_0000_0000_0000_0000,
    ensures
        is_floor_sqrt(r as int, m as int),
        r == floor_sqrt(m as int),
        r <= m,
        r <= 8_589_934_592,
{
    let mut low: u128 = 0;
    let mut high: u128 = 8_589_934_593;
    while high - low > 1
        invariant
            low < high <= 8_589_934_593,
            m <= 0x4_0000_0000_0000_0000,
            low * low <= m < high * high,
        decreases high - low,
    {
        let mid: u128 = low + (high - low) / 2;
        assert(mid * mid <= 73_786_976_312_018_075_649) by (nonlinear_arith)
            requires
                0 <= mid <= 8_589_934_593,
        ;
        if mid * mid <= m {
            low = mid;
        } else {
            high = mid;
        }
    }
    proof {
        lemma_floor_sqrt_is(low as int, m as int);
    }
    low
}

/// The square root of a score that keeps its sign: `sign(n) * floor(sqrt(|n|))`.
pub fn score_sqrt(n: Score) -> (r: Score)
    ensures
        r == signed_sqrt(n as int),
        n >= 0 ==> 0 <= r <= n,
        n < 0 ==> n <= r <= 0,
{
    if n >= 0 {
        let r = integer_sqrt(n as u128);
        r as i64
    } else {
        let m: u128 = ((-(n + 1)) as u128) + 1;
        let r = integer_sqrt(m);
        -(r as i64)
    }
}

/// Evaluate one line of cells of the board, given by the indices of its cells.
pub fn eval_sequence(board: &Board, sequence: &[usize]) -> (eval: Eval)
    requires
        forall|j: int| 0 <= j < sequence@.len() ==> #[trigger] sequence@[j] < board@.len(),
        (sequence@.len() + 1) * WIN_SCORE <= i64::MAX,
    ensures
        eval@ == line_tally(cells_along(board@, as_ints(sequence@))),
{
    board.evaluate_sequence(sequence)
}

/// Evaluate the four lines through a tile: its row, its column and both diagonals.
pub fn eval_relevant_sequences(board: &Board, tile: TilePointer) -> (eval: Eval)
    requires
        board.wf(),
        board.holds(tile),
    ensures
        eval@ == tile_tally(board@, board.side(), tile.x as int, tile.y as int),
        eval@.within(4 * LINE_LIMIT),
{
    board.evaluate_sequences_relevant_to(tile)
}

/// Evaluate the whole board for one player: the player's score less the opponent's, and
/// `Win` if the player has five in a row.
pub fn evaluate_board(board: &Board, current_player: Player) -> (r: (Score, State))
    requires
        board.wf(),
    ensures
        r.0 == board_tally(board@, board.side()).balance(current_player),
        r.1 == (if board_tally(board@, board.side()).win_of(current_player) {
            State::Win
        } else {
            State::NotEnd
        }),
        -BOARD_LIMIT <= r.0 <= BOARD_LIMIT,
{
    board.evaluate_for(current_player)
}

} // verus!
