//! The board: a square of cells, each empty or holding one player's stone.

use vstd::prelude::*;
use std::sync::Arc;
use vstd::std_specs::cmp::PartialEqSpecImpl;
use crate::evaluation::{
    as_ints, board_tally, cells_along, lemma_lines_tally_bound, lemma_nth_line_bound,
    lemma_scan_bounds, lemma_shape_range, line_tally, lines_tally, nth_line_tally, scan_prefix,
    shape_score, tile_tally, Eval, Scan, BOARD_LIMIT, LINE_LIMIT, WIN_SCORE,
};
use crate::player::Player;
use crate::sequences::{
    cell_index, column_line, falling_left_line, falling_right_line, generate, holds_line,
    is_line_index, lemma_line_in_board, line, line_count, row_line,
};
use crate::state::State;
use crate::Score;

verus! {

/// Why a grid of tiles is not a board.
#[derive(Debug, Clone, PartialEq, Eq, Structural)]
pub enum Error {
    /// fewer than 9 rows
    TooSmall { size: usize },
    /// the row numbered `line`, counted from 1, is `width` tiles wide and not `height`
    NotSquare { height: usize, line: usize, width: usize },
    /// more than 255 rows
    TooLarge { size: usize },
}

/// Represents a tile on the board.
///
/// Some(Player) indicates that the tile is occupied.
/// None indicates that the tile is empty.
pub type Tile = Option<Player>;

/// Represents a pointer to a tile on the board.
///
/// Doesn't provide any bounds checking or other guarantees.
#[derive(Clone, Copy, PartialEq, Eq, Structural, Debug)]
pub struct TilePointer {
    /// x coordinate
    pub x: u8,
    /// y coordinate
    pub y: u8,
}

impl TilePointer {
    /// The pointer names a cell of a board of size `n`.
    pub open spec fn on_board(self, n: int) -> bool {
        self.x < n && self.y < n
    }

    /// Index of the cell in the cell array of a board of size `n`.
    pub open spec fn index(self, n: int) -> int {
        cell_index(n, self.x as int, self.y as int)
    }
}

/// Squared distance of the cell `(x, y)` from the centre of a board of size `n`, rounded to
/// the nearest integer, a half rounded up. The centre lies at `(n - 1) / 2` on both axes.
pub open spec fn centre_distance(n: int, x: int, y: int) -> int {
    ((2 * x - (n - 1)) * (2 * x - (n - 1)) + (2 * y - (n - 1)) * (2 * y - (n - 1)) + 2) / 4
}

/// The rows of a grid of tiles.
pub open spec fn rows_of(data: Seq<Vec<Tile>>) -> Seq<Seq<Tile>> {
    Seq::new(data.len(), |i: int| data[i]@)
}

/// The cells of a grid of `n` rows of `n` tiles, row after row.
pub open spec fn grid_cells(rows: Seq<Seq<Tile>>, n: int) -> Seq<Tile> {
    Seq::new((n * n) as nat, |i: int| rows[i / n][i % n])
}

/// The first of the first `upto` rows of the grid whose width is not the height, if there
/// is one.
pub open spec fn first_uneven_row(rows: Seq<Seq<Tile>>, upto: int) -> Option<int>
    decreases upto,
{
    if upto <= 0 {
        None
    } else {
        match first_uneven_row(rows, upto - 1) {
            Some(i) => Some(i),
            None => if rows[upto - 1].len() != rows.len() {
                Some(upto - 1)
            } else {
                None
            },
        }
    }
}

/// What a grid of tiles is as a board: its size and its cells, or why it is none. A grid of
/// fewer than 9 rows is too small; else the first row whose width is not the height makes it
/// not square; else a grid of more than 255 rows is too large.
pub open spec fn grid_verdict(rows: Seq<Seq<Tile>>) -> Result<(int, Seq<Tile>), Error> {
    if rows.len() <= 8 {
        Err(Error::TooSmall { size: rows.len() as usize })
    } else {
        match first_uneven_row(rows, rows.len() as int) {
            Some(i) => Err(
                Error::NotSquare {
                    height: rows.len() as usize,
                    line: (i + 1) as usize,
                    width: rows[i].len() as usize,
                },
            ),
            None => if rows.len() > 255 {
                Err(Error::TooLarge { size: rows.len() as usize })
            } else {
                Ok((rows.len() as int, grid_cells(rows, rows.len() as int)))
            },
        }
    }
}

/// The number that a tile counts as in a table of keys: 0 for an empty tile, 1 for a stone
/// of X, 2 for a stone of O.
pub open spec fn tile_kind(t: Tile) -> int {
    match t {
        None => 0,
        Some(Player::X) => 1,
        Some(Player::O) => 2,
    }
}

/// The rows of a table of keys.
pub open spec fn key_rows(table: Seq<Vec<u128>>) -> Seq<Seq<u128>> {
    Seq::new(table.len(), |i: int| table[i]@)
}

/// The hash of the first `upto` cells for a table of keys.
pub open spec fn position_hash(cells: Seq<Tile>, keys: Seq<Seq<u128>>, upto: int) -> u128
    decreases upto,
{
    if upto <= 0 {
        0
    } else {
        position_hash(cells, keys, upto - 1) ^ keys[upto - 1][tile_kind(cells[upto - 1])]
    }
}

/// The indices of the empty cells among the first `upto`, in rising order.
pub open spec fn empty_cells(cells: Seq<Tile>, upto: int) -> Seq<int>
    decreases upto,
{
    if upto <= 0 {
        Seq::empty()
    } else if cells[upto - 1] is None {
        empty_cells(cells, upto - 1).push(upto - 1)
    } else {
        empty_cells(cells, upto - 1)
    }
}

/// The rising list of empty cells holds every empty cell once, and nothing else.
pub proof fn lemma_empty_cells(cells: Seq<Tile>, upto: int)
    requires
        0 <= upto <= cells.len(),
    ensures
        empty_cells(cells, upto).len() <= upto,
        forall|k: int|
            0 <= k < empty_cells(cells, upto).len() ==> 0 <= #[trigger] empty_cells(
                cells,
                upto,
            )[k] < upto && cells[empty_cells(cells, upto)[k]] is None,
        forall|k: int, l: int|
            0 <= k < l < empty_cells(cells, upto).len() ==> empty_cells(cells, upto)[k]
                < empty_cells(cells, upto)[l],
        forall|i: int|
            0 <= i < upto && cells[i] is None ==> empty_cells(cells, upto).contains(i),
    decreases upto,
{
    if upto > 0 {
        lemma_empty_cells(cells, upto - 1);
        let before = empty_cells(cells, upto - 1);
        let now = empty_cells(cells, upto);
        assert forall|i: int| 0 <= i < upto && cells[i] is None implies now.contains(i) by {
            if i < upto - 1 {
                assert(before.contains(i));
                let k = choose|k: int| 0 <= k < before.len() && before[k] == i;
                assert(now[k] == i);
            } else {
                assert(now[now.len() - 1] == i);
            }
        }
    }
}

/// A Gomoku board.
///
/// The board is a square of at least 9x9 cells. It carries the line index of its size, which
/// its copies share.
#[derive(Debug)]
pub struct Board {
    size: u8,
    data: Vec<Tile>,
    lines: Arc<Vec<Vec<usize>>>,
}

impl View for Board {
    type V = Seq<Tile>;

    /// The cells, row after row.
    closed spec fn view(&self) -> Seq<Tile> {
        self.data@
    }
}

/// Hands out one more handle to a shared line index: `Arc::clone`, which gives a handle to
/// the same value.
#[verifier::external_body]
fn share_lines(lines: &Arc<Vec<Vec<usize>>>) -> (shared: Arc<Vec<Vec<usize>>>)
    ensures
        shared == *lines,
{
    Arc::clone(lines)
}

impl Board {
    /// Number of cells along one side.
    pub closed spec fn side(&self) -> int {
        self.size as int
    }

    /// The line index that the board carries.
    pub closed spec fn table(&self) -> Seq<Vec<usize>> {
        (*self.lines)@
    }

    /// The board is a square of at least 9 cells a side and carries the line index of its size.
    pub open spec fn wf(&self) -> bool {
        &&& 9 <= self.side() <= 255
        &&& self@.len() == self.side() * self.side()
        &&& is_line_index(self.table(), self.side())
    }

    /// The pointer names a cell of this board.
    pub open spec fn holds(&self, ptr: TilePointer) -> bool {
        ptr.on_board(self.side())
    }

    /// The tile that the pointer names.
    pub open spec fn at(&self, ptr: TilePointer) -> Tile {
        self@[ptr.index(self.side())]
    }

    /// No cell is empty.
    pub open spec fn full(&self) -> bool {
        forall|i: int| 0 <= i < self@.len() ==> self@[i] is Some
    }

    /// Create an empty board of the given size.
    pub fn new_empty(size: u8) -> (board: Board)
        requires
            9 <= size,
        ensures
            board.wf(),
            board.side() == size,
            board@ == Seq::new((size * size) as nat, |i: int| None::<Player>),
    {
        let n: usize = size as usize;
        assert(n * n <= 65025) by (nonlinear_arith)
            requires
                n <= 255,
        ;
        let mut data: Vec<Tile> = Vec::new();
        let mut i: usize = 0;
        while i < n * n
            invariant
                n * n <= 65025,
                i <= n * n,
                data@.len() == i,
                forall|k: int| 0 <= k < i ==> data@[k] == None::<Player>,
            decreases n * n - i,
        {
            data.push(None);
            i += 1;
        }
        let lines = Arc::new(generate(size));
        assert(data@ =~= Seq::new((size * size) as nat, |i: int| None::<Player>));
        Board { size, data, lines }
    }

    /// Create an empty board of the given size.
    pub fn get_empty_board(size: u8) -> (board: Board)
        requires
            9 <= size,
        ensures
            board.wf(),
            board.side() == size,
            board@ == Seq::new((size * size) as nat, |i: int| None::<Player>),
    {
        Board::new_empty(size)
    }

    /// The tiles along every line of the index, line by line.
    pub fn get_all_tile_sequences(&self) -> (all: Vec<Vec<Tile>>)
        requires
            self.wf(),
        ensures
            all@.len() == line_count(self.side()),
            forall|k: int|
                0 <= k < all@.len() ==> (#[trigger] all@[k])@ == cells_along(
                    self@,
                    line(self.side(), k),
                ),
    {
        let sequences = self.sequences();
        let mut all: Vec<Vec<Tile>> = Vec::new();
        let mut k: usize = 0;
        while k < sequences.len()
            invariant
                self.wf(),
                sequences@ == self.table(),
                k <= sequences@.len(),
                all@.len() == k,
                forall|j: int|
                    0 <= j < k ==> (#[trigger] all@[j])@ == cells_along(
                        self@,
                        line(self.side(), j),
                    ),
            decreases sequences@.len() - k,
        {
            proof {
                lemma_line_in_board(self.side(), k as int);
            }
            let sequence = &sequences[k];
            let mut tiles: Vec<Tile> = Vec::new();
            let mut j: usize = 0;
            while j < sequence.len()
                invariant
                    self.wf(),
                    k < line_count(self.side()),
                    holds_line(sequence@, line(self.side(), k as int)),
                    forall|i: int|
                        0 <= i < line(self.side(), k as int).len() ==> 0 <= #[trigger] line(
                            self.side(),
                            k as int,
                        )[i] < self.side() * self.side(),
                    j <= sequence@.len(),
                    tiles@.len() == j,
                    forall|i: int|
                        0 <= i < j ==> #[trigger] tiles@[i] == self@[line(self.side(), k as int)[i]],
                decreases sequence@.len() - j,
            {
                assert(sequence@[j as int] as int == line(self.side(), k as int)[j as int]);
                tiles.push(*self.get_tile_raw(sequence[j]));
                j += 1;
            }
            assert(tiles@ =~= cells_along(self@, line(self.side(), k as int)));
            all.push(tiles);
            k += 1;
        }
        all
    }

    /// The hash of the position for a table of keys: the keys of all cells, each taken for
    /// what the cell holds, combined by exclusive or. The table has a row for every cell,
    /// with the keys for an empty cell, a stone of X and a stone of O.
    pub fn hash(&self, hash_table: &Vec<Vec<u128>>) -> (hash: u128)
        requires
            hash_table@.len() >= self@.len(),
            forall|i: int| 0 <= i < self@.len() ==> (#[trigger] hash_table@[i])@.len() >= 3,
        ensures
            hash == position_hash(self@, key_rows(hash_table@), self@.len() as int),
    {
        let mut hash: u128 = 0;
        let mut index: usize = 0;
        while index < self.data.len()
            invariant
                index <= self@.len(),
                hash_table@.len() >= self@.len(),
                forall|i: int| 0 <= i < self@.len() ==> (#[trigger] hash_table@[i])@.len() >= 3,
                hash == position_hash(self@, key_rows(hash_table@), index as int),
            decreases self@.len() - index,
        {
            let tile_type: usize = match self.data[index] {
                Some(p) => p.value(),
                None => 0,
            };
            assert(key_rows(hash_table@)[index as int] == hash_table@[index as int]@);
            hash = hash ^ hash_table[index][tile_type];
            index += 1;
        }
        hash
    }

    /// Get a reference to the line index.
    pub fn sequences(&self) -> (lines: &Vec<Vec<usize>>)
        ensures
            lines@ == self.table(),
    {
        &*self.lines
    }

    /// Get the size of the board.
    pub fn size(&self) -> (n: u8)
        ensures
            n == self.side(),
    {
        self.size
    }

    /// Get the size of the board.
    pub fn get_size(&self) -> (n: u8)
        ensures
            n == self.side(),
    {
        self.size
    }

    /// Get reference to slice of all tiles in the board.
    pub fn tiles(&self) -> (tiles: &[Tile])
        ensures
            tiles@ == self@,
    {
        self.data.as_slice()
    }

    /// Index of the cell `(x, y)` of a board of the given size.
    pub fn get_index_raw(size: u8, x: u8, y: u8) -> (index: usize)
        ensures
            index == cell_index(size as int, x as int, y as int),
    {
        assert(size * y <= 65025) by (nonlinear_arith)
            requires
                size <= 255,
                y <= 255,
        ;
        (size as usize) * (y as usize) + (x as usize)
    }

    /// Index of the cell that `ptr` names on a board of the given size.
    pub fn get_index(size: u8, ptr: TilePointer) -> (index: usize)
        ensures
            index == ptr.index(size as int),
    {
        Board::get_index_raw(size, ptr.x, ptr.y)
    }

    /// Convert a raw index to `TilePointer`: the column is `index % size`, the row is
    /// `index / size`, cut to 8 bits.
    pub fn get_ptr_from_index(&self, index: usize) -> (ptr: TilePointer)
        requires
            self.wf(),
        ensures
            ptr.x == index % (self.side() as usize),
            ptr.y == (index / (self.side() as usize)) % 256,
            index < self@.len() ==> self.holds(ptr) && ptr.index(self.side()) == index,
    {
        let n: usize = self.size as usize;
        let x: u8 = (index % n) as u8;
        let y: u8 = ((index / n) % 256) as u8;
        proof {
            if index < self@.len() {
                assert(index / n < n && index == (index / n) * n + index % n)
                    by (nonlinear_arith)
                    requires
                        n > 0,
                        index < n * n,
                {
                    assert(index == n * (index / n) + index % n);
                    if index / n >= n {
                        assert((index / n) * n >= n * n);
                    }
                }
            }
        }
        TilePointer { x, y }
    }

    /// Get value of a tile at the given index, which must lie on the board.
    pub fn get_tile_raw(&self, index: usize) -> (tile: &Tile)
        requires
            index < self@.len(),
        ensures
            *tile == self@[index as int],
    {
        &self.data[index]
    }

    /// Get value of a tile at the given pointer, whose index must lie on the board.
    pub fn get_tile(&self, ptr: TilePointer) -> (tile: &Tile)
        requires
            ptr.index(self.side()) < self@.len(),
        ensures
            *tile == self.at(ptr),
    {
        let index = Board::get_index(self.size, ptr);
        self.get_tile_raw(index)
    }

    /// Set a tile at the given pointer: either a stone on an empty tile, or nothing on an
    /// occupied one.
    pub fn set_tile(&mut self, ptr: TilePointer, value: Tile)
        requires
            ptr.index(old(self).side()) < old(self)@.len(),
            value is Some <==> old(self).at(ptr) is None,
        ensures
            final(self)@ == old(self)@.update(ptr.index(old(self).side()), value),
            final(self).side() == old(self).side(),
            final(self).table() == old(self).table(),
            old(self).wf() ==> final(self).wf(),
    {
        let index = Board::get_index(self.size, ptr);
        self.data[index] = value;
    }

    /// Calculate the square of the distance from the center of the board.
    pub fn squared_distance_from_center(&self, p: TilePointer) -> (d: Score)
        ensures
            d == centre_distance(self.side(), p.x as int, p.y as int),
    {
        let a: i64 = 2 * (p.x as i64) - (self.size as i64 - 1);
        let b: i64 = 2 * (p.y as i64) - (self.size as i64 - 1);
        assert(0 <= a * a <= 261121 && 0 <= b * b <= 261121) by (nonlinear_arith)
            requires
                -511 <= a <= 511,
                -511 <= b <= 511,
        ;
        (a * a + b * b + 2) / 4
    }

    /// Create a new board from a 2D vector of tiles.
    ///
    /// The grid must be square and have between 9 and 255 rows: a grid with fewer rows is
    /// `TooSmall`; otherwise the first row whose width is not the height makes it `NotSquare`;
    /// otherwise a grid with more rows is `TooLarge`.
    pub fn new(data: Vec<Vec<Tile>>) -> (r: Result<Board, Error>)
        ensures
            match grid_verdict(rows_of(data@)) {
                Ok((n, cells)) => r matches Ok(board) && board.wf() && board.side() == n && board@
                    == cells,
                Err(e) => r == Err::<Board, Error>(e),
            },
    {
        let ghost rows = rows_of(data@);
        let n: usize = data.len();
        if n <= 8 {
            return Err(Error::TooSmall { size: n });
        }
        let mut index: usize = 0;
        while index < n
            invariant
                n == data@.len(),
                rows == rows_of(data@),
                n >= 9,
                index <= n,
                first_uneven_row(rows, index as int) is None,
            decreases n - index,
        {
            assert(rows[index as int] == data@[index as int]@);
            if data[index].len() != n {
                proof {
                    lemma_uneven_row_stays(rows, index as int + 1, n as int);
                }
                return Err(
                    Error::NotSquare { height: n, line: index + 1, width: data[index].len() },
                );
            }
            index += 1;
        }
        if n > 255 {
            return Err(Error::TooLarge { size: n });
        }
        proof {
            lemma_even_rows(rows, n as int);
            assert forall|i: int| 0 <= i < n implies (#[trigger] data@[i])@.len() == n by {
                assert(rows[i] == data@[i]@);
            }
        }
        assert(n * n <= 65025) by (nonlinear_arith)
            requires
                n <= 255,
        ;
        let mut flat: Vec<Tile> = Vec::new();
        let mut y: usize = 0;
        while y < n
            invariant
                n == data@.len(),
                n * n <= 65025,
                y <= n,
                forall|i: int| 0 <= i < n ==> (#[trigger] data@[i])@.len() == n,
                flat@.len() == y * n,
                forall|k: int| 0 <= k < flat@.len() ==> #[trigger] flat@[k] == data@[k / (n as int)]@[k % (n as int)],
            decreases n - y,
        {
            let mut x: usize = 0;
            while x < n
                invariant
                    n == data@.len(),
                    n * n <= 65025,
                    y < n,
                    x <= n,
                    forall|i: int| 0 <= i < n ==> (#[trigger] data@[i])@.len() == n,
                    flat@.len() == y * n + x,
                    forall|k: int| 0 <= k < flat@.len() ==> #[trigger] flat@[k] == data@[k / (n as int)]@[k % (n as int)],
                decreases n - x,
            {
                proof {
                    let k = (y * n + x) as int;
                    assert(k / (n as int) == y && k % (n as int) == x) by (nonlinear_arith)
                        requires
                            k == y * n + x,
                            0 <= x < n,
                            0 <= y,
                    {
                        assert(k == n * y + x);
                        assert((n * y + x) / (n as int) == y) by {
                            vstd::arithmetic::div_mod::lemma_fundamental_div_mod_converse(k, n as int, y as int, x as int);
                        }
                        assert((n * y + x) % (n as int) == x) by {
                            vstd::arithmetic::div_mod::lemma_fundamental_div_mod_converse(k, n as int, y as int, x as int);
                        }
                    }
                }
                flat.push(data[y][x]);
                x += 1;
            }
            assert((y + 1) * n == y * n + n) by (nonlinear_arith);
            y += 1;
        }
        assert(flat@ =~= grid_cells(rows, n as int)) by {
            assert forall|k: int| 0 <= k < n * n implies flat@[k] == grid_cells(rows, n as int)[k] by {
                assert(0 <= k / (n as int) < n && 0 <= k % (n as int) < n) by (nonlinear_arith)
                    requires
                        0 <= k < n * n,
                        n > 0,
                {
                    if k / (n as int) >= n {
                        assert((k / (n as int)) * n >= n * n);
                        assert(k == (n as int) * (k / (n as int)) + k % (n as int));
                    }
                }
                assert(rows[k / (n as int)] == data@[k / (n as int)]@);
            }
        }
        let size: u8 = n as u8;
        let lines = Arc::new(generate(size));
        Ok(Board { size, data: flat, lines })
    }

    /// Get sequences relevant for the given tile.
    ///
    /// Relevant means the row, the column and both diagonals that include the tile, in this
    /// order.
    pub fn relevant_sequences(&self, ptr: TilePointer) -> (lines: [&Vec<usize>; 4])
        requires
            self.wf(),
            self.holds(ptr),
        ensures
            holds_line(lines[0]@, line(self.side(), row_line(self.side(), ptr.x as int, ptr.y as int))),
            holds_line(lines[1]@, line(self.side(), column_line(self.side(), ptr.x as int, ptr.y as int))),
            holds_line(lines[2]@, line(self.side(), falling_left_line(self.side(), ptr.x as int, ptr.y as int))),
            holds_line(lines[3]@, line(self.side(), falling_right_line(self.side(), ptr.x as int, ptr.y as int))),
    {
        let n: usize = self.size as usize;
        let x: usize = ptr.x as usize;
        let y: usize = ptr.y as usize;
        let sequences = self.sequences();
        [
            &sequences[y],
            &sequences[n + x],
            &sequences[2 * n + x + y],
            &sequences[(4 * n - 2) + n + y - x],
        ]
    }

    /// Get pointers to all empty tiles in the board, in the order of the cell array.
    pub fn pointers_to_empty_tiles(&self) -> (empty: Vec<TilePointer>)
        requires
            self.wf(),
        ensures
            empty@.len() == empty_cells(self@, self@.len() as int).len(),
            forall|k: int|
                0 <= k < empty@.len() ==> self.holds(#[trigger] empty@[k]) && empty@[k].index(
                    self.side(),
                ) == empty_cells(self@, self@.len() as int)[k],
            forall|k: int| 0 <= k < empty@.len() ==> self.at(#[trigger] empty@[k]) is None,
            empty@.len() == 0 <==> self.full(),
    {
        let mut empty: Vec<TilePointer> = Vec::new();
        let mut index: usize = 0;
        while index < self.data.len()
            invariant
                self.wf(),
                index <= self.data.len(),
                empty@.len() == empty_cells(self@, index as int).len(),
                forall|k: int|
                    0 <= k < empty@.len() ==> self.holds(#[trigger] empty@[k]) && empty@[k].index(
                        self.side(),
                    ) == empty_cells(self@, index as int)[k],
            decreases self.data.len() - index,
        {
            if self.data[index].is_none() {
                let ptr = self.get_ptr_from_index(index);
                empty.push(ptr);
            }
            index += 1;
        }
        proof {
            lemma_empty_cells(self@, self@.len() as int);
            let all = empty_cells(self@, self@.len() as int);
            if empty@.len() == 0 {
                assert forall|i: int| 0 <= i < self@.len() implies self@[i] is Some by {
                    if self@[i] is None {
                        assert(all.contains(i));
                    }
                }
            } else {
                assert(self@[all[0]] is None);
            }
        }
        empty
    }

    /// Get pointers to all empty tiles of the board, or an error if the board is full.
    pub fn get_empty_tiles(&self) -> (r: Result<Vec<TilePointer>, crate::error::GomokuError>)
        requires
            self.wf(),
        ensures
            r is Err <==> self.full(),
            r matches Err(e) ==> e == crate::error::GomokuError::NoEmptyTiles,
            r matches Ok(empty) ==> {
                &&& empty@.len() == empty_cells(self@, self@.len() as int).len()
                &&& forall|k: int|
                    0 <= k < empty@.len() ==> self.holds(#[trigger] empty@[k]) && empty@[k].index(
                        self.side(),
                    ) == empty_cells(self@, self@.len() as int)[k]
            },
    {
        let empty = self.pointers_to_empty_tiles();
        if empty.len() == 0 {
            Err(crate::error::GomokuError::NoEmptyTiles)
        } else {
            Ok(empty)
        }
    }

    /// Evaluate one line of cells, given by the indices of its cells.
    pub fn evaluate_sequence(&self, sequence: &[usize]) -> (eval: Eval)
        requires
            forall|j: int| 0 <= j < sequence@.len() ==> #[trigger] sequence@[j] < self@.len(),
            (sequence@.len() + 1) * WIN_SCORE <= i64::MAX,
        ensures
            eval@ == line_tally(cells_along(self@, as_ints(sequence@))),
    {
        let ghost cells = cells_along(self@, as_ints(sequence@));
        let mut eval = Eval::new();
        let mut current = Player::X;
        let mut consecutive: usize = 0;
        let mut open_ends: u8 = 0;
        let mut has_hole = false;
        let mut i: usize = 0;
        while i < sequence.len()
            invariant
                i <= sequence@.len(),
                forall|j: int| 0 <= j < sequence@.len() ==> #[trigger] sequence@[j] < self@.len(),
                (sequence@.len() + 1) * WIN_SCORE <= i64::MAX,
                cells == cells_along(self@, as_ints(sequence@)),
                (Scan {
                    current,
                    run: consecutive as int,
                    open_ends: open_ends as int,
                    has_hole,
                    tally: eval@,
                }) == scan_prefix(cells, i as int),
            decreases sequence@.len() - i,
        {
            proof {
                lemma_scan_bounds(cells, i as int);
                lemma_scan_bounds(cells, i as int + 1);
                lemma_shape_range(consecutive as int, open_ends as int, has_hole);
                lemma_shape_range(consecutive as int, open_ends as int + 1, has_hole);
                assert((i + 1) * WIN_SCORE <= (sequence@.len() + 1) * WIN_SCORE) by (nonlinear_arith)
                    requires
                        i < sequence@.len(),
                ;
                assert(cells[i as int] == self@[sequence@[i as int] as int]);
            }
            let tile = self.data[sequence[i]];
            match tile {
                Some(player) => {
                    if consecutive == 0 {
                        current = player;
                        consecutive = 1;
                    } else if player == current {
                        consecutive += 1;
                    } else {
                        let shape = shape_score(Board::run_class(consecutive), open_ends, has_hole);
                        eval = eval.credit(current, shape);
                        open_ends = 0;
                        has_hole = false;
                        consecutive = 1;
                        current = player;
                    }
                },
                None => {
                    if consecutive == 0 {
                        open_ends = 1;
                        has_hole = false;
                    } else {
                        let mut absorbs = false;
                        if !has_hole && consecutive < 5 && i + 1 < sequence.len() {
                            proof {
                                assert(cells[i as int + 1] == self@[sequence@[i as int + 1] as int]);
                            }
                            match self.data[sequence[i + 1]] {
                                Some(next) => {
                                    absorbs = next == current;
                                },
                                None => {},
                            }
                        }
                        if absorbs {
                            has_hole = true;
                            consecutive += 1;
                        } else {
                            open_ends += 1;
                            let shape = shape_score(Board::run_class(consecutive), open_ends, has_hole);
                            eval = eval.credit(current, shape);
                            consecutive = 0;
                            open_ends = 1;
                            has_hole = false;
                        }
                    }
                },
            }
            i += 1;
        }
        if consecutive > 0 {
            proof {
                lemma_scan_bounds(cells, i as int);
                lemma_shape_range(consecutive as int, open_ends as int, has_hole);
                assert((i + 1) * WIN_SCORE == i * WIN_SCORE + WIN_SCORE) by (nonlinear_arith);
            }
            let shape = shape_score(Board::run_class(consecutive), open_ends, has_hole);
            eval = eval.credit(current, shape);
        }
        eval
    }

    /// The length of a run as the shape scorer takes it: runs of five and more score alike.
    fn run_class(run: usize) -> (class: u8)
        ensures
            forall|open_ends: int, has_hole: bool|
                #[trigger] crate::evaluation::shape(class as int, open_ends, has_hole)
                    == crate::evaluation::shape(run as int, open_ends, has_hole),
    {
        if run > 5 {
            5
        } else {
            run as u8
        }
    }

    /// Evaluate the `k`-th line of the index.
    fn evaluate_line(&self, k: usize) -> (eval: Eval)
        requires
            self.wf(),
            k < line_count(self.side()),
        ensures
            eval@ == nth_line_tally(self@, self.side(), k as int),
            eval@.within(LINE_LIMIT as int),
    {
        proof {
            lemma_line_in_board(self.side(), k as int);
            lemma_nth_line_bound(self@, self.side(), k as int);
            assert(as_ints(self.table()[k as int]@) =~= line(self.side(), k as int));
        }
        let sequences = self.sequences();
        self.evaluate_sequence(sequences[k].as_slice())
    }

    /// Evaluate sequences relevant to given tile
    ///
    /// Relevant means the row, the column and both diagonals that include the tile.
    pub fn evaluate_sequences_relevant_to(&self, tile: TilePointer) -> (eval: Eval)
        requires
            self.wf(),
            self.holds(tile),
        ensures
            eval@ == tile_tally(self@, self.side(), tile.x as int, tile.y as int),
            eval@.within(4 * LINE_LIMIT),
    {
        let n: usize = self.size as usize;
        let x: usize = tile.x as usize;
        let y: usize = tile.y as usize;
        let row = self.evaluate_line(y);
        let column = self.evaluate_line(n + x);
        let left = self.evaluate_line(2 * n + x + y);
        let right = self.evaluate_line((4 * n - 2) + n + y - x);
        Eval::new() + row + column + left + right
    }

    /// Evaluate the whole board and return summary for both players
    pub fn evaluate(&self) -> (eval: Eval)
        requires
            self.wf(),
        ensures
            eval@ == board_tally(self@, self.side()),
            eval@.within(BOARD_LIMIT as int),
    {
        let count: usize = 6 * (self.size as usize) - 2;
        let mut eval = Eval::new();
        let mut k: usize = 0;
        while k < count
            invariant
                self.wf(),
                count == line_count(self.side()),
                k <= count,
                eval@ == lines_tally(self@, self.side(), k as int),
            decreases count - k,
        {
            proof {
                lemma_lines_tally_bound(self@, self.side(), k as int);
                lemma_lines_tally_bound(self@, self.side(), k as int + 1);
            }
            let line_eval = self.evaluate_line(k);
            eval = eval + line_eval;
            k += 1;
        }
        proof {
            lemma_lines_tally_bound(self@, self.side(), count as int);
        }
        eval
    }

    /// Evaluate the whole board and return result for target player: the target's score less
    /// the opponent's, and `Win` if the target has five in a row.
    pub fn evaluate_for(&self, target: Player) -> (r: (Score, State))
        requires
            self.wf(),
        ensures
            r.0 == board_tally(self@, self.side()).balance(target),
            r.1 == (if board_tally(self@, self.side()).win_of(target) {
                State::Win
            } else {
                State::NotEnd
            }),
            -BOARD_LIMIT <= r.0 <= BOARD_LIMIT,
    {
        let eval = self.evaluate();
        let score = eval.score.get(target) - eval.score.get(target.next());
        let state = if eval.win.get(target) {
            State::Win
        } else {
            State::NotEnd
        };
        (score, state)
    }
}

/// The first uneven row among some rows stays the first when more rows follow.
proof fn lemma_uneven_row_stays(rows: Seq<Seq<Tile>>, from: int, upto: int)
    requires
        0 <= from <= upto,
        first_uneven_row(rows, from) is Some,
    ensures
        first_uneven_row(rows, upto) == first_uneven_row(rows, from),
    decreases upto,
{
    if upto > from {
        lemma_uneven_row_stays(rows, from, upto - 1);
    }
}

/// Where no row is uneven, every row is as wide as the grid is high.
proof fn lemma_even_rows(rows: Seq<Seq<Tile>>, upto: int)
    requires
        0 <= upto <= rows.len(),
        first_uneven_row(rows, upto) is None,
    ensures
        forall|i: int| 0 <= i < upto ==> (#[trigger] rows[i]).len() == rows.len(),
    decreases upto,
{
    if upto > 0 {
        lemma_even_rows(rows, upto - 1);
    }
}

impl Clone for Board {
    /// A copy with cells of its own, sharing the line index.
    fn clone(&self) -> (copy: Board)
        ensures
            copy@ == self@,
            copy.side() == self.side(),
            copy.table() == self.table(),
            self.wf() ==> copy.wf(),
    {
        let mut data: Vec<Tile> = Vec::with_capacity(self.data.len());
        let mut i: usize = 0;
        while i < self.data.len()
            invariant
                i <= self.data.len(),
                data@.len() == i,
                forall|k: int| 0 <= k < i ==> data@[k] == self.data@[k],
            decreases self.data.len() - i,
        {
            data.push(self.data[i]);
            i += 1;
        }
        assert(data@ =~= self.data@);
        Board { size: self.size, data, lines: share_lines(&self.lines) }
    }
}

/// Whether two tiles are the same.
pub fn same_tile(a: Tile, b: Tile) -> (same: bool)
    ensures
        same == (a == b),
{
    match (a, b) {
        (None, None) => true,
        (Some(p), Some(q)) => p == q,
        _ => false,
    }
}

impl PartialEq for Board {
    /// Two boards are equal if they have the same size and the same cells.
    fn eq(&self, other: &Board) -> (same: bool) {
        if self.size != other.size || self.data.len() != other.data.len() {
            return false;
        }
        let mut i: usize = 0;
        while i < self.data.len()
            invariant
                i <= self.data@.len(),
                self.data@.len() == other.data@.len(),
                forall|k: int| 0 <= k < i ==> self.data@[k] == other.data@[k],
            decreases self.data@.len() - i,
        {
            if !same_tile(self.data[i], other.data[i]) {
                return false;
            }
            i += 1;
        }
        assert(self.data@ =~= other.data@);
        true
    }
}

impl PartialEqSpecImpl for Board {
    open spec fn obeys_eq_spec() -> bool {
        true
    }

    open spec fn eq_spec(&self, other: &Board) -> bool {
        self.side() == other.side() && self@ == other@
    }
}

impl Eq for Board {

}

/// Set/undo round trip: a stone placed on an empty cell and taken off again leaves the
/// cells as they were.
pub proof fn lemma_set_undo(cells: Seq<Tile>, index: int, player: Player)
    requires
        0 <= index < cells.len(),
        cells[index] is None,
    ensures
        cells.update(index, Some(player)).update(index, None) == cells,
{
    assert(cells.update(index, Some(player)).update(index, None) =~= cells);
}

} // verus!
