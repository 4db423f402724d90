//! Pattern evaluation: the score of a shape, and the scan of one line of cells.
//!
//! A line is read from its first cell to its last. The scan keeps the player whose run is
//! being counted, the length of the run, the open ends seen so far and whether one empty
//! cell was taken into the run as a hole. Whenever a run ends, its shape is scored for its
//! owner.

use vstd::prelude::*;
use vstd::std_specs::ops::AddSpec;
use crate::player::Player;
use crate::sequences::{line, line_count, row_line, column_line, falling_left_line, falling_right_line, lemma_line_in_board};
use crate::Score;

verus! {

/// Score of five or more in a row without a hole: the game is won.
pub const WIN_SCORE: Score = 100_000_000;

/// Score and win flag of a shape: `run` stones (a hole counts as one), `open_ends` empty cells
/// at its ends, and whether the run holds a hole.
pub open spec fn shape(run: int, open_ends: int, has_hole: bool) -> (int, bool) {
    if has_hole {
        if run >= 5 {
            (40_000, false)
        } else if run == 4 {
            if open_ends == 2 {
                (20_000, false)
            } else if open_ends == 1 {
                (500, false)
            } else {
                (0, false)
            }
        } else {
            (0, false)
        }
    } else if run >= 5 {
        (100_000_000, true)
    } else if run == 4 {
        if open_ends == 2 {
            (10_000_000, false)
        } else if open_ends == 1 {
            (100_000, false)
        } else {
            (0, false)
        }
    } else if run == 3 {
        if open_ends == 2 {
            (5_000_000, false)
        } else if open_ends == 1 {
            (10_000, false)
        } else {
            (0, false)
        }
    } else if run == 2 {
        if open_ends == 2 {
            (2_000, false)
        } else {
            (0, false)
        }
    } else {
        (0, false)
    }
}

/// Return score and win state for the given shape
///
/// Shape is defined by number of consecutive symbols, number of open ends and
/// if the shape contains a hole (in that case it is included in consecutive).
pub fn shape_score(consecutive: u8, open_ends: u8, has_hole: bool) -> (r: (Score, bool))
    ensures
        r.0 == shape(consecutive as int, open_ends as int, has_hole).0,
        r.1 == shape(consecutive as int, open_ends as int, has_hole).1,
{
    if has_hole {
        return if consecutive >= 5 {
            (40_000, false)
        } else if consecutive == 4 {
            if open_ends == 2 {
                (20_000, false)
            } else if open_ends == 1 {
                (500, false)
            } else {
                (0, false)
            }
        } else {
            (0, false)
        };
    }
    if consecutive >= 5 {
        (100_000_000, true)
    } else if consecutive == 4 {
        if open_ends == 2 {
            (10_000_000, false)
        } else if open_ends == 1 {
            (100_000, false)
        } else {
            (0, false)
        }
    } else if consecutive == 3 {
        if open_ends == 2 {
            (5_000_000, false)
        } else if open_ends == 1 {
            (10_000, false)
        } else {
            (0, false)
        }
    } else if consecutive == 2 {
        if open_ends == 2 {
            (2_000, false)
        } else {
            (0, false)
        }
    } else {
        (0, false)
    }
}

/// A shape scores between nothing and a win, and only five in a row without a hole wins.
pub proof fn lemma_shape_range(run: int, open_ends: int, has_hole: bool)
    ensures
        0 <= shape(run, open_ends, has_hole).0 <= WIN_SCORE,
        shape(run, open_ends, has_hole).1 <==> (run >= 5 && !has_hole),
        shape(run, open_ends, has_hole).1 <==> shape(run, open_ends, has_hole).0 == WIN_SCORE,
{
}

/// A longer run, or one more open end, never scores less; a hole never scores more.
pub proof fn lemma_shape_monotone(run: int, longer: int, open_ends: int, more_open: int)
    requires
        run <= longer,
        0 <= open_ends <= more_open <= 2,
    ensures
        shape(run, open_ends, false).0 <= shape(longer, more_open, false).0,
        shape(run, open_ends, true).0 <= shape(longer, more_open, true).0,
        shape(run, open_ends, true).0 <= shape(run, open_ends, false).0,
{
}

/// Scores of the two players.
#[derive(Debug, Clone, Copy, PartialEq, Eq, Structural)]
pub struct EvalScore(pub Score, pub Score);

impl EvalScore {
    /// The score of one player.
    pub fn get(&self, player: Player) -> (s: Score)
        ensures
            s == (if player == Player::X { self.0 } else { self.1 }),
    {
        match player {
            Player::X => self.0,
            Player::O => self.1,
        }
    }
}

impl Default for EvalScore {
    /// No score for either player.
    fn default() -> (s: EvalScore)
        ensures
            s.0 == 0,
            s.1 == 0,
    {
        EvalScore(0, 0)
    }
}

/// Win flags of the two players.
#[derive(Debug, Clone, Copy, PartialEq, Eq, Structural)]
pub struct EvalWin(pub bool, pub bool);

impl EvalWin {
    /// The win flag of one player.
    pub fn get(&self, player: Player) -> (w: bool)
        ensures
            w == (if player == Player::X { self.0 } else { self.1 }),
    {
        match player {
            Player::X => self.0,
            Player::O => self.1,
        }
    }
}

impl Default for EvalWin {
    /// No win for either player.
    fn default() -> (w: EvalWin)
        ensures
            !w.0,
            !w.1,
    {
        EvalWin(false, false)
    }
}

/// Weights of the two players, by which their scores can be multiplied.
#[derive(Debug, Clone, Copy, PartialEq, Eq, Structural)]
pub struct EvalWinPotential(pub i32, pub i32);

impl EvalWinPotential {
    /// The weight of one player.
    pub fn get(&self, player: Player) -> (w: i32)
        ensures
            w == (if player == Player::X { self.0 } else { self.1 }),
    {
        match player {
            Player::X => self.0,
            Player::O => self.1,
        }
    }
}

/// What a line, or a set of lines, is worth to each player.
#[derive(Debug, Clone, Copy, PartialEq, Eq, Structural)]
pub struct Eval {
    pub score: EvalScore,
    pub win: EvalWin,
}

/// An evaluation as mathematical values: unbounded scores and the two win flags.
pub struct Tally {
    pub score_x: int,
    pub score_o: int,
    pub win_x: bool,
    pub win_o: bool,
}

impl Tally {
    /// Nothing scored, nobody wins.
    pub open spec fn zero() -> Tally {
        Tally { score_x: 0, score_o: 0, win_x: false, win_o: false }
    }

    /// Scores add, win flags are or-ed.
    pub open spec fn plus(self, other: Tally) -> Tally {
        Tally {
            score_x: self.score_x + other.score_x,
            score_o: self.score_o + other.score_o,
            win_x: self.win_x || other.win_x,
            win_o: self.win_o || other.win_o,
        }
    }

    /// The score of one player.
    pub open spec fn score_of(self, player: Player) -> int {
        match player {
            Player::X => self.score_x,
            Player::O => self.score_o,
        }
    }

    /// The win flag of one player.
    pub open spec fn win_of(self, player: Player) -> bool {
        match player {
            Player::X => self.win_x,
            Player::O => self.win_o,
        }
    }

    /// The tally with one more shape scored for `player`.
    pub open spec fn credit(self, player: Player, shape: (int, bool)) -> Tally {
        match player {
            Player::X => Tally {
                score_x: self.score_x + shape.0,
                win_x: self.win_x || shape.1,
                ..self
            },
            Player::O => Tally {
                score_o: self.score_o + shape.0,
                win_o: self.win_o || shape.1,
                ..self
            },
        }
    }

    /// The tally with the two players exchanged.
    pub open spec fn swapped(self) -> Tally {
        Tally {
            score_x: self.score_o,
            score_o: self.score_x,
            win_x: self.win_o,
            win_o: self.win_x,
        }
    }

    /// Score from the side of `player`: own score less the opponent's.
    pub open spec fn balance(self, player: Player) -> int {
        self.score_of(player) - self.score_of(player.other())
    }

    /// Neither player has a winning shape.
    pub open spec fn quiet(self) -> bool {
        !self.win_x && !self.win_o
    }

    /// Both scores lie between 0 and `limit`.
    pub open spec fn within(self, limit: int) -> bool {
        0 <= self.score_x <= limit && 0 <= self.score_o <= limit
    }
}

impl View for Eval {
    type V = Tally;

    /// The scores as unbounded integers, and the win flags.
    open spec fn view(&self) -> Tally {
        Tally {
            score_x: self.score.0 as int,
            score_o: self.score.1 as int,
            win_x: self.win.0,
            win_o: self.win.1,
        }
    }
}

impl Eval {
    /// The evaluation in which nothing is scored and nobody wins.
    pub fn new() -> (e: Eval)
        ensures
            e@ == Tally::zero(),
    {
        Eval { score: EvalScore(0, 0), win: EvalWin(false, false) }
    }

    /// Scores one more shape for `player`.
    pub fn credit(self, player: Player, shape: (Score, bool)) -> (e: Eval)
        requires
            i64::MIN <= self@.score_of(player) + shape.0 <= i64::MAX,
        ensures
            e@ == self@.credit(player, (shape.0 as int, shape.1)),
    {
        match player {
            Player::X => Eval {
                score: EvalScore(self.score.0 + shape.0, self.score.1),
                win: EvalWin(self.win.0 || shape.1, self.win.1),
            },
            Player::O => Eval {
                score: EvalScore(self.score.0, self.score.1 + shape.0),
                win: EvalWin(self.win.0, self.win.1 || shape.1),
            },
        }
    }
}

impl Default for Eval {
    /// The evaluation in which nothing is scored and nobody wins.
    fn default() -> (e: Eval)
        ensures
            e@ == Tally::zero(),
    {
        Eval::new()
    }
}

impl core::ops::Add for Eval {
    type Output = Eval;

    /// Scores add, win flags are or-ed.
    fn add(self, other: Eval) -> (e: Eval) {
        Eval {
            score: EvalScore(self.score.0 + other.score.0, self.score.1 + other.score.1),
            win: EvalWin(self.win.0 || other.win.0, self.win.1 || other.win.1),
        }
    }
}

impl vstd::std_specs::ops::AddSpecImpl for Eval {
    open spec fn obeys_add_spec() -> bool {
        true
    }

    open spec fn add_req(self, other: Eval) -> bool {
        &&& i64::MIN <= self.score.0 + other.score.0 <= i64::MAX
        &&& i64::MIN <= self.score.1 + other.score.1 <= i64::MAX
    }

    open spec fn add_spec(self, other: Eval) -> Eval {
        Eval {
            score: EvalScore(
                (self.score.0 + other.score.0) as i64,
                (self.score.1 + other.score.1) as i64,
            ),
            win: EvalWin(self.win.0 || other.win.0, self.win.1 || other.win.1),
        }
    }
}

/// Adding evaluations adds their tallies.
pub proof fn lemma_add_is_plus(a: Eval, b: Eval)
    requires
        a.add_req(b),
    ensures
        a.add_spec(b)@ == a@.plus(b@),
{
}

/// Tallies form a commutative monoid under `plus`, with `zero` as identity.
pub proof fn lemma_tally_monoid(a: Tally, b: Tally, c: Tally)
    ensures
        a.plus(Tally::zero()) == a,
        Tally::zero().plus(a) == a,
        a.plus(b) == b.plus(a),
        a.plus(b).plus(c) == a.plus(b.plus(c)),
{
}

/// State of the scan of a line, between two cells.
pub struct Scan {
    /// owner of the run that is being counted; without meaning while `run` is 0
    pub current: Player,
    /// length of the run, a hole included
    pub run: int,
    /// open ends of the run seen so far
    pub open_ends: int,
    /// whether an empty cell was taken into the run
    pub has_hole: bool,
    /// what the runs that have ended were worth
    pub tally: Tally,
}

/// The scan before the first cell.
pub open spec fn scan_start() -> Scan {
    Scan { current: Player::X, run: 0, open_ends: 0, has_hole: false, tally: Tally::zero() }
}

/// The scan after the cell at `i`, from the scan `s` before it.
pub open spec fn scan_step(cells: Seq<Option<Player>>, i: int, s: Scan) -> Scan {
    match cells[i] {
        Some(p) => if s.run == 0 {
            Scan { current: p, run: 1, ..s }
        } else if p == s.current {
            Scan { run: s.run + 1, ..s }
        } else {
            Scan {
                current: p,
                run: 1,
                open_ends: 0,
                has_hole: false,
                tally: s.tally.credit(s.current, shape(s.run, s.open_ends, s.has_hole)),
            }
        },
        None => if s.run == 0 {
            Scan { open_ends: 1, has_hole: false, ..s }
        } else if !s.has_hole && s.run < 5 && i + 1 < cells.len() && cells[i + 1] == Some(
            s.current,
        ) {
            Scan { run: s.run + 1, has_hole: true, ..s }
        } else {
            Scan {
                current: s.current,
                run: 0,
                open_ends: 1,
                has_hole: false,
                tally: s.tally.credit(s.current, shape(s.run, s.open_ends + 1, s.has_hole)),
            }
        },
    }
}

/// The scan after the first `i` cells of a line.
pub open spec fn scan_prefix(cells: Seq<Option<Player>>, i: int) -> Scan
    decreases i,
{
    if i <= 0 {
        scan_start()
    } else {
        scan_step(cells, i - 1, scan_prefix(cells, i - 1))
    }
}

/// What a finished scan is worth: a run that reaches the end of the line is scored with the
/// open ends it has.
pub open spec fn scan_close(s: Scan) -> Tally {
    if s.run > 0 {
        s.tally.credit(s.current, shape(s.run, s.open_ends, s.has_hole))
    } else {
        s.tally
    }
}

/// What a line of cells is worth to each player.
pub open spec fn line_tally(cells: Seq<Option<Player>>) -> Tally {
    scan_close(scan_prefix(cells, cells.len() as int))
}

/// The cells of a board along a line of cell indices.
pub open spec fn cells_along(cells: Seq<Option<Player>>, line: Seq<int>) -> Seq<Option<Player>> {
    Seq::new(line.len(), |j: int| cells[line[j]])
}

/// A list of cell indices as integers.
pub open spec fn as_ints(line: Seq<usize>) -> Seq<int> {
    Seq::new(line.len(), |j: int| line[j] as int)
}

/// During a scan the run is no longer than the part read, at most one open end is kept, a
/// run of length 0 has no hole, and each cell read has ended at most one run.
pub proof fn lemma_scan_bounds(cells: Seq<Option<Player>>, i: int)
    requires
        0 <= i <= cells.len(),
    ensures
        0 <= scan_prefix(cells, i).run <= i,
        0 <= scan_prefix(cells, i).open_ends <= 1,
        scan_prefix(cells, i).run == 0 ==> !scan_prefix(cells, i).has_hole,
        0 <= scan_prefix(cells, i).tally.score_x,
        0 <= scan_prefix(cells, i).tally.score_o,
        scan_prefix(cells, i).tally.score_x + scan_prefix(cells, i).tally.score_o <= i
            * WIN_SCORE,
    decreases i,
{
    if i > 0 {
        lemma_scan_bounds(cells, i - 1);
        let s = scan_prefix(cells, i - 1);
        lemma_shape_range(s.run, s.open_ends, s.has_hole);
        lemma_shape_range(s.run, s.open_ends + 1, s.has_hole);
        assert(i * WIN_SCORE == (i - 1) * WIN_SCORE + WIN_SCORE) by (nonlinear_arith);
    }
}

/// A line is worth at most one win for each of its cells and one more, to both players
/// together.
pub proof fn lemma_line_tally_bound(cells: Seq<Option<Player>>)
    ensures
        0 <= line_tally(cells).score_x,
        0 <= line_tally(cells).score_o,
        line_tally(cells).score_x + line_tally(cells).score_o <= (cells.len() + 1) * WIN_SCORE,
        line_tally(cells).within((cells.len() + 1) * WIN_SCORE),
{
    let n = cells.len() as int;
    lemma_scan_bounds(cells, n);
    let s = scan_prefix(cells, n);
    lemma_shape_range(s.run, s.open_ends, s.has_hole);
    assert((n + 1) * WIN_SCORE == n * WIN_SCORE + WIN_SCORE) by (nonlinear_arith);
}

/// Most that one line of a board can be worth to both players together.
pub const LINE_LIMIT: Score = 25_600_000_000;

/// Most that a whole board can be worth to both players together.
pub const BOARD_LIMIT: Score = 39_116_800_000_000;

/// What the first `upto` lines of the index of a board are worth.
pub open spec fn lines_tally(cells: Seq<Option<Player>>, n: int, upto: int) -> Tally
    decreases upto,
{
    if upto <= 0 {
        Tally::zero()
    } else {
        lines_tally(cells, n, upto - 1).plus(line_tally(cells_along(cells, line(n, upto - 1))))
    }
}

/// What a board of size `n` is worth: the sum over all lines of its index.
pub open spec fn board_tally(cells: Seq<Option<Player>>, n: int) -> Tally {
    lines_tally(cells, n, line_count(n))
}

/// What the `k`-th line of a board is worth.
pub open spec fn nth_line_tally(cells: Seq<Option<Player>>, n: int, k: int) -> Tally {
    line_tally(cells_along(cells, line(n, k)))
}

/// What the four lines through the cell `(x, y)` are worth: row, column and both diagonals.
pub open spec fn tile_tally(cells: Seq<Option<Player>>, n: int, x: int, y: int) -> Tally {
    Tally::zero().plus(nth_line_tally(cells, n, row_line(n, x, y))).plus(
        nth_line_tally(cells, n, column_line(n, x, y)),
    ).plus(nth_line_tally(cells, n, falling_left_line(n, x, y))).plus(
        nth_line_tally(cells, n, falling_right_line(n, x, y)),
    )
}

/// One line of a board of at most 255 cells a side stays within `LINE_LIMIT`.
pub proof fn lemma_nth_line_bound(cells: Seq<Option<Player>>, n: int, k: int)
    requires
        1 <= n <= 255,
        0 <= k < line_count(n),
    ensures
        0 <= nth_line_tally(cells, n, k).score_x,
        0 <= nth_line_tally(cells, n, k).score_o,
        nth_line_tally(cells, n, k).score_x + nth_line_tally(cells, n, k).score_o <= LINE_LIMIT,
{
    lemma_line_in_board(n, k);
    let along = cells_along(cells, line(n, k));
    lemma_line_tally_bound(along);
    assert((along.len() + 1) * WIN_SCORE <= LINE_LIMIT) by (nonlinear_arith)
        requires
            along.len() <= 255,
    ;
}

/// The four lines through a cell stay within four times `LINE_LIMIT`.
pub proof fn lemma_tile_tally_bound(cells: Seq<Option<Player>>, n: int, x: int, y: int)
    requires
        1 <= n <= 255,
        0 <= x < n,
        0 <= y < n,
    ensures
        0 <= tile_tally(cells, n, x, y).score_x,
        0 <= tile_tally(cells, n, x, y).score_o,
        tile_tally(cells, n, x, y).score_x + tile_tally(cells, n, x, y).score_o <= 4 * LINE_LIMIT,
        -4 * LINE_LIMIT <= tile_tally(cells, n, x, y).balance(Player::X) <= 4 * LINE_LIMIT,
        -4 * LINE_LIMIT <= tile_tally(cells, n, x, y).balance(Player::O) <= 4 * LINE_LIMIT,
{
    lemma_nth_line_bound(cells, n, row_line(n, x, y));
    lemma_nth_line_bound(cells, n, column_line(n, x, y));
    lemma_nth_line_bound(cells, n, falling_left_line(n, x, y));
    lemma_nth_line_bound(cells, n, falling_right_line(n, x, y));
}

/// The first `upto` lines of a board stay within `upto` times `LINE_LIMIT`.
pub proof fn lemma_lines_tally_bound(cells: Seq<Option<Player>>, n: int, upto: int)
    requires
        1 <= n <= 255,
        0 <= upto <= line_count(n),
    ensures
        0 <= lines_tally(cells, n, upto).score_x,
        0 <= lines_tally(cells, n, upto).score_o,
        lines_tally(cells, n, upto).score_x + lines_tally(cells, n, upto).score_o <= upto
            * LINE_LIMIT,
        upto * LINE_LIMIT <= BOARD_LIMIT,
    decreases upto,
{
    assert(upto * LINE_LIMIT <= BOARD_LIMIT) by (nonlinear_arith)
        requires
            0 <= upto <= 1528,
    ;
    if upto > 0 {
        lemma_lines_tally_bound(cells, n, upto - 1);
        lemma_nth_line_bound(cells, n, upto - 1);
        assert(upto * LINE_LIMIT == (upto - 1) * LINE_LIMIT + LINE_LIMIT) by (nonlinear_arith);
    }
}

/// A tile with the players exchanged.
pub open spec fn swap_tile(t: Option<Player>) -> Option<Player> {
    match t {
        Some(p) => Some(p.other()),
        None => None,
    }
}

/// A sequence of cells with the players exchanged.
pub open spec fn swap_cells(cells: Seq<Option<Player>>) -> Seq<Option<Player>> {
    Seq::new(cells.len(), |j: int| swap_tile(cells[j]))
}

/// Two scans that mirror each other: all is equal but the owner of the run, and the tallies
/// are exchanged.
pub open spec fn mirrored(a: Scan, b: Scan) -> bool {
    &&& a.run == b.run
    &&& a.open_ends == b.open_ends
    &&& a.has_hole == b.has_hole
    &&& a.run > 0 ==> b.current == a.current.other()
    &&& b.tally == a.tally.swapped()
}

/// The scans of a line and of the line with the players exchanged mirror each other.
proof fn lemma_scan_mirrored(cells: Seq<Option<Player>>, i: int)
    requires
        0 <= i <= cells.len(),
    ensures
        mirrored(scan_prefix(cells, i), scan_prefix(swap_cells(cells), i)),
    decreases i,
{
    if i > 0 {
        lemma_scan_mirrored(cells, i - 1);
        let a = scan_prefix(cells, i - 1);
        let b = scan_prefix(swap_cells(cells), i - 1);
        assert(swap_cells(cells)[i - 1] == swap_tile(cells[i - 1]));
        if i < cells.len() {
            assert(swap_cells(cells)[i] == swap_tile(cells[i]));
        }
    }
}

/// Exchanging the players in a line exchanges what the line is worth to them.
pub proof fn lemma_line_tally_swapped(cells: Seq<Option<Player>>)
    ensures
        line_tally(swap_cells(cells)) == line_tally(cells).swapped(),
{
    lemma_scan_mirrored(cells, cells.len() as int);
}

/// Exchanging the players on a board exchanges what its first lines are worth to them.
proof fn lemma_lines_tally_swapped(cells: Seq<Option<Player>>, n: int, upto: int)
    requires
        n >= 1,
        cells.len() == n * n,
        0 <= upto <= line_count(n),
    ensures
        lines_tally(swap_cells(cells), n, upto) == lines_tally(cells, n, upto).swapped(),
    decreases upto,
{
    if upto > 0 {
        lemma_lines_tally_swapped(cells, n, upto - 1);
        lemma_nth_line_swapped(cells, n, upto - 1);
    }
}

/// Exchanging the players on a board exchanges what each line is worth to them.
pub proof fn lemma_nth_line_swapped(cells: Seq<Option<Player>>, n: int, k: int)
    requires
        n >= 1,
        cells.len() == n * n,
        0 <= k < line_count(n),
    ensures
        nth_line_tally(swap_cells(cells), n, k) == nth_line_tally(cells, n, k).swapped(),
{
    lemma_line_in_board(n, k);
    let l = line(n, k);
    assert(cells_along(swap_cells(cells), l) =~= swap_cells(cells_along(cells, l)));
    lemma_line_tally_swapped(cells_along(cells, l));
}

/// Eval symmetry: exchanging all stones of X and O on a board exchanges the two players'
/// scores and win flags, so the score from either player's side changes its sign.
pub proof fn lemma_eval_symmetry(cells: Seq<Option<Player>>, n: int, player: Player)
    requires
        n >= 1,
        cells.len() == n * n,
    ensures
        board_tally(swap_cells(cells), n) == board_tally(cells, n).swapped(),
        board_tally(swap_cells(cells), n).balance(player) == -board_tally(cells, n).balance(
            player,
        ),
        board_tally(swap_cells(cells), n).win_of(player) == board_tally(cells, n).win_of(
            player.other(),
        ),
{
    lemma_lines_tally_swapped(cells, n, line_count(n));
}

} // verus!
