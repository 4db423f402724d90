//! The deadline of a search, and helpers for a frontend.

use vstd::prelude::*;
use std::time::Instant;
pub use crate::fen::{parse_fen_string, to_fen_string};
use crate::board::{Board, Tile};
use crate::evaluation::cells_along;
use crate::player::Player;
use crate::sequences::{lemma_line_in_board, line, line_count};

verus! {

/// A moment on the clock of std, `std::time::Instant`. Nothing is known of what it holds.
#[verifier::external_type_specification]
#[verifier::external_body]
pub struct ExInstant(std::time::Instant);

/// The time that a search may take: the moment at which it began, and its budget in
/// microseconds. A deadline without a beginning has no budget and never passes.
pub struct Deadline {
    start: Option<Instant>,
    micros: u64,
}

/// Reads the clock: `Instant::now`. Nothing is known of the moment it gives.
#[verifier::external_body]
fn clock_now() -> (now: Instant) {
    Instant::now()
}

/// The whole microseconds from the moment `start` to the moment `now`, none if `now` is the
/// earlier one: `Instant::saturating_duration_since`. Nothing is known of their number.
#[verifier::external_body]
fn micros_between(start: &Instant, now: &Instant) -> (spent: u128) {
    now.saturating_duration_since(*start).as_micros()
}

/// The budget of a search with a time limit of `time_limit` milliseconds, in microseconds:
/// 99 hundredths of the limit, so that the search can wind up in time, and no more than a
/// budget can hold.
pub open spec fn budget_of(time_limit: int) -> int {
    if time_limit * 990 <= u64::MAX {
        time_limit * 990
    } else {
        u64::MAX as int
    }
}

/// The budget of a search with a time limit of `time_limit` milliseconds, in microseconds.
pub fn budget_micros(time_limit: u64) -> (micros: u64)
    ensures
        micros == budget_of(time_limit as int),
{
    if time_limit <= u64::MAX / 990 {
        time_limit * 990
    } else {
        u64::MAX
    }
}

impl Deadline {
    /// The budget of the search in microseconds, if it has one.
    pub closed spec fn budget(&self) -> Option<int> {
        match self.start {
            None => None,
            Some(_) => Some(self.micros as int),
        }
    }

    /// The deadline never passes.
    pub open spec fn unlimited(&self) -> bool {
        self.budget() is None
    }

    /// The deadline has not passed when `spent` microseconds of the search are over: less
    /// than the budget is spent, or there is no budget.
    pub open spec fn open_after(&self, spent: int) -> bool {
        match self.budget() {
            None => true,
            Some(budget) => spent < budget,
        }
    }

    /// A deadline that never passes.
    pub fn never() -> (deadline: Deadline)
        ensures
            deadline.unlimited(),
    {
        Deadline { start: None, micros: 0 }
    }

    /// The deadline of a search with a budget of `time_limit` milliseconds, taken from now:
    /// it passes after 99 hundredths of the budget, so that the search can wind up in time.
    pub fn after_millis(time_limit: u64) -> (deadline: Deadline)
        ensures
            deadline.budget() == Some(budget_of(time_limit as int)),
    {
        let micros = budget_micros(time_limit);
        let now = clock_now();
        Deadline { start: Some(now), micros }
    }

    /// Whether the deadline has not passed when `spent` microseconds of the search are over.
    pub fn allows(&self, spent: u128) -> (go_on: bool)
        ensures
            go_on == self.open_after(spent as int),
    {
        match &self.start {
            None => true,
            Some(_) => spent < self.micros as u128,
        }
    }
}

/// Check if the engine should continue running: the deadline has not passed. The clock
/// says how much of the search is over; a search without deadline always goes on, and one
/// without budget never does.
pub fn do_run(deadline: &Deadline) -> (go_on: bool)
    ensures
        exists|spent: int| 0 <= spent && go_on == #[trigger] deadline.open_after(spent),
        deadline.unlimited() ==> go_on,
{
    match &deadline.start {
        None => {
            assert(deadline.open_after(0));
            true
        },
        Some(start) => {
            let now = clock_now();
            let spent = micros_between(start, &now);
            let go_on = deadline.allows(spent);
            assert(go_on == deadline.open_after(spent as int));
            go_on
        },
    }
}

/// Length of the run of stones of `player` that ends with the cell before position `end`.
pub open spec fn run_before(cells: Seq<Tile>, end: int, player: Player) -> int
    decreases end,
{
    if end <= 0 || end > cells.len() {
        0
    } else if cells[end - 1] == Some(player) {
        run_before(cells, end - 1, player) + 1
    } else {
        0
    }
}

/// Among the first `upto` cells of a line there are five stones of `player` in a row.
pub open spec fn five_in_line(cells: Seq<Tile>, upto: int, player: Player) -> bool {
    exists|end: int| 0 <= end <= upto && #[trigger] run_before(cells, end, player) >= 5
}

/// Some line of the board holds five stones of `player` in a row.
pub open spec fn five_on_board(cells: Seq<Tile>, n: int, upto: int, player: Player) -> bool {
    exists|k: int|
        0 <= k < upto && five_in_line(
            #[trigger] cells_along(cells, line(n, k)),
            line(n, k).len() as int,
            player,
        )
}

/// Whether a line holds five stones of the player in a row.
fn is_game_end_sequence(sequence: &Vec<usize>, current_player: Player, board: &Board) -> (end:
    bool)
    requires
        forall|j: int| 0 <= j < sequence@.len() ==> #[trigger] sequence@[j] < board@.len(),
    ensures
        end == five_in_line(
            cells_along(board@, crate::evaluation::as_ints(sequence@)),
            sequence@.len() as int,
            current_player,
        ),
{
    let ghost cells = cells_along(board@, crate::evaluation::as_ints(sequence@));
    let mut consecutive: usize = 0;
    let mut i: usize = 0;
    while i < sequence.len()
        invariant
            i <= sequence@.len(),
            forall|j: int| 0 <= j < sequence@.len() ==> #[trigger] sequence@[j] < board@.len(),
            cells == cells_along(board@, crate::evaluation::as_ints(sequence@)),
            consecutive == run_before(cells, i as int, current_player),
            consecutive < 5,
            !five_in_line(cells, i as int, current_player),
        decreases sequence@.len() - i,
    {
        let tile = *board.get_tile_raw(sequence[i]);
        assert(cells[i as int] == board@[sequence@[i as int] as int]);
        let mine = match tile {
            Some(p) => p == current_player,
            None => false,
        };
        if mine {
            consecutive += 1;
            if consecutive >= 5 {
                assert(run_before(cells, i as int + 1, current_player) >= 5);
                return true;
            }
        } else {
            consecutive = 0;
        }
        i += 1;
    }
    false
}

/// Check if the game has ended: whether some row, column or diagonal holds five stones of
/// the player in a row.
pub fn is_game_end(board: &Board, current_player: Player) -> (end: bool)
    requires
        board.wf(),
    ensures
        end == five_on_board(board@, board.side(), line_count(board.side()), current_player),
{
    let sequences = board.sequences();
    let ghost n = board.side();
    let mut k: usize = 0;
    while k < sequences.len()
        invariant
            board.wf(),
            n == board.side(),
            sequences@ == board.table(),
            k <= sequences@.len(),
            !five_on_board(board@, n, k as int, current_player),
        decreases sequences@.len() - k,
    {
        proof {
            lemma_line_in_board(n, k as int);
            assert(crate::evaluation::as_ints(sequences@[k as int]@) =~= line(n, k as int));
        }
        if is_game_end_sequence(&sequences[k], current_player, board) {
            assert(five_in_line(
                cells_along(board@, line(n, k as int)),
                line(n, k as int).len() as int,
                current_player,
            ));
            return true;
        }
        k += 1;
    }
    false
}

} // verus!
