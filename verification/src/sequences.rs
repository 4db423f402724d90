//! The line index: every row, column and diagonal of a square board, as lists of cell indices.
//!
//! A cell `(x, y)` of a board of size `n` has the index `y * n + x`. The lines come in a fixed
//! order: the `n` rows from top to bottom, the `n` columns from left to right, the `2n - 1`
//! diagonals that fall to the left, and the `2n - 1` diagonals that fall to the right.

use vstd::prelude::*;

verus! {

/// Direction of a diagonal, always goes from top to bottom
#[derive(Clone, Copy, PartialEq, Eq, Structural, Debug)]
pub enum DiagonalDir {
    /// each cell lies one column to the right of the one before
    LeftToRight,
    /// each cell lies one column to the left of the one before
    RightToLeft,
}

/// Index of the cell `(x, y)` in the flat cell array of a board of size `n`.
pub open spec fn cell_index(n: int, x: int, y: int) -> int {
    y * n + x
}

/// Number of lines of a board of size `n`.
pub open spec fn line_count(n: int) -> int {
    if n <= 0 {
        0
    } else {
        6 * n - 2
    }
}

/// Number of cells of the `k`-th diagonal, `1 <= k < 2n`, counted from a top corner.
pub open spec fn diagonal_len(n: int, k: int) -> int {
    if k <= n {
        k
    } else {
        2 * n - k
    }
}

/// Index of the topmost cell of the `k`-th diagonal.
pub open spec fn diagonal_start(n: int, k: int, dir: DiagonalDir) -> int {
    match dir {
        DiagonalDir::LeftToRight => if k <= n {
            n - k
        } else {
            (k - n) * n
        },
        DiagonalDir::RightToLeft => if k <= n {
            k - 1
        } else {
            (k - n + 1) * n - 1
        },
    }
}

/// Distance in the cell array between two neighbours on a diagonal.
pub open spec fn diagonal_step(n: int, dir: DiagonalDir) -> int {
    match dir {
        DiagonalDir::LeftToRight => n + 1,
        DiagonalDir::RightToLeft => n - 1,
    }
}

/// Number of cells of the `k`-th line of the index.
pub open spec fn line_len(n: int, k: int) -> int {
    if k < 2 * n {
        n
    } else if k < 4 * n - 1 {
        diagonal_len(n, k - 2 * n + 1)
    } else {
        diagonal_len(n, k - (4 * n - 1) + 1)
    }
}

/// The `j`-th cell index of the `k`-th line of the index.
pub open spec fn line_cell(n: int, k: int, j: int) -> int {
    if k < n {
        j + k * n
    } else if k < 2 * n {
        (k - n) + j * n
    } else if k < 4 * n - 1 {
        diagonal_start(n, k - 2 * n + 1, DiagonalDir::RightToLeft) + j * diagonal_step(
            n,
            DiagonalDir::RightToLeft,
        )
    } else {
        diagonal_start(n, k - (4 * n - 1) + 1, DiagonalDir::LeftToRight) + j * diagonal_step(
            n,
            DiagonalDir::LeftToRight,
        )
    }
}

/// The `k`-th line of the index of a board of size `n`, `0 <= k < 6n - 2`.
pub open spec fn line(n: int, k: int) -> Seq<int> {
    Seq::new(line_len(n, k) as nat, |j: int| line_cell(n, k, j))
}

/// `cells` holds exactly the cell indices `wanted`.
pub open spec fn holds_line(cells: Seq<usize>, wanted: Seq<int>) -> bool {
    &&& cells.len() == wanted.len()
    &&& forall|j: int| 0 <= j < cells.len() ==> #[trigger] cells[j] as int == wanted[j]
}

/// `lines` is the line index of a board of size `n`.
pub open spec fn is_line_index(lines: Seq<Vec<usize>>, n: int) -> bool {
    &&& lines.len() == line_count(n)
    &&& forall|k: int| 0 <= k < lines.len() ==> holds_line(#[trigger] lines[k]@, line(n, k))
}

/// How many of the first `upto` lines of the index pass through the cell with index `cell`.
pub open spec fn lines_through(n: int, cell: int, upto: int) -> int
    decreases upto,
{
    if upto <= 0 {
        0
    } else {
        lines_through(n, cell, upto - 1) + if line(n, upto - 1).contains(cell) {
            1int
        } else {
            0int
        }
    }
}

/// The row of a cell.
pub open spec fn row_line(n: int, x: int, y: int) -> int {
    y
}

/// The column of a cell, as a position in the line index.
pub open spec fn column_line(n: int, x: int, y: int) -> int {
    n + x
}

/// The left-falling diagonal of a cell, as a position in the line index.
pub open spec fn falling_left_line(n: int, x: int, y: int) -> int {
    2 * n + x + y
}

/// The right-falling diagonal of a cell, as a position in the line index.
pub open spec fn falling_right_line(n: int, x: int, y: int) -> int {
    (5 * n - 2) + y - x
}

/// `k` is one of the four lines of the cell `(x, y)`.
pub open spec fn is_line_of(n: int, x: int, y: int, k: int) -> bool {
    k == row_line(n, x, y) || k == column_line(n, x, y) || k == falling_left_line(n, x, y) || k
        == falling_right_line(n, x, y)
}

/// A cell index belongs to one column and one row only.
pub proof fn lemma_coords_unique(n: int, x1: int, y1: int, x2: int, y2: int)
    requires
        0 <= x1 < n,
        0 <= x2 < n,
        y1 * n + x1 == y2 * n + x2,
    ensures
        x1 == x2,
        y1 == y2,
{
    assert(y1 == y2) by (nonlinear_arith)
        requires
            0 <= x1 < n,
            0 <= x2 < n,
            y1 * n + x1 == y2 * n + x2,
    {
        if y1 < y2 {
            assert((y2 - y1) * n >= n);
        } else if y2 < y1 {
            assert((y1 - y2) * n >= n);
        }
    }
    assert(y1 * n == y2 * n);
}

/// Column of the `j`-th cell of the `k`-th line.
pub open spec fn line_cell_x(n: int, k: int, j: int) -> int {
    if k < n {
        j
    } else if k < 2 * n {
        k - n
    } else if k < 4 * n - 1 {
        let d = k - 2 * n;
        if d < n {
            d - j
        } else {
            n - 1 - j
        }
    } else {
        let e = k - (4 * n - 1);
        if e < n {
            n - 1 - e + j
        } else {
            j
        }
    }
}

/// Row of the `j`-th cell of the `k`-th line.
pub open spec fn line_cell_y(n: int, k: int, j: int) -> int {
    if k < n {
        k
    } else if k < 2 * n {
        j
    } else if k < 4 * n - 1 {
        let d = k - 2 * n;
        if d < n {
            j
        } else {
            d - n + 1 + j
        }
    } else {
        let e = k - (4 * n - 1);
        if e < n {
            j
        } else {
            e + 1 - n + j
        }
    }
}

/// Every cell of a line lies on the board, at the column and row that the line's kind gives.
pub proof fn lemma_line_cell_coords(n: int, k: int, j: int)
    requires
        n >= 1,
        0 <= k < line_count(n),
        0 <= j < line_len(n, k),
    ensures
        0 <= line_cell_x(n, k, j) < n,
        0 <= line_cell_y(n, k, j) < n,
        line_cell(n, k, j) == cell_index(n, line_cell_x(n, k, j), line_cell_y(n, k, j)),
        0 <= line_cell(n, k, j) < n * n,
        is_line_of(n, line_cell_x(n, k, j), line_cell_y(n, k, j), k),
{
    let x = line_cell_x(n, k, j);
    let y = line_cell_y(n, k, j);
    if k < n {
    } else if k < 2 * n {
    } else if k < 4 * n - 1 {
        let d = k - 2 * n;
        if d < n {
            assert(d + j * (n - 1) == j * n + (d - j)) by (nonlinear_arith);
        } else {
            assert((d + 1 - n + 1) * n - 1 + j * (n - 1) == (d - n + 1 + j) * n + (n - 1 - j))
                by (nonlinear_arith);
        }
    } else {
        let e = k - (4 * n - 1);
        if e < n {
            assert(n - (e + 1) + j * (n + 1) == j * n + (n - 1 - e + j)) by (nonlinear_arith);
        } else {
            assert((e + 1 - n) * n + j * (n + 1) == (e + 1 - n + j) * n + j) by (nonlinear_arith);
        }
    }
    assert(line_cell(n, k, j) == y * n + x);
    assert(0 <= y * n + x < n * n) by (nonlinear_arith)
        requires
            0 <= x < n,
            0 <= y < n,
    {
        assert(y * n <= (n - 1) * n);
    }
}

/// A line has between one and `n` cells, all of them on the board.
pub proof fn lemma_line_in_board(n: int, k: int)
    requires
        n >= 1,
        0 <= k < line_count(n),
    ensures
        1 <= line(n, k).len() <= n,
        forall|j: int| 0 <= j < line(n, k).len() ==> 0 <= #[trigger] line(n, k)[j] < n * n,
{
    assert forall|j: int| 0 <= j < line(n, k).len() implies 0 <= #[trigger] line(n, k)[j] < n
        * n by {
        lemma_line_cell_coords(n, k, j);
    }
}

/// Position of the cell `(x, y)` within the `k`-th line, where `k` is one of its four lines.
pub open spec fn place_in_line(n: int, x: int, y: int, k: int) -> int {
    if k < n {
        x
    } else if k < 2 * n {
        y
    } else if k < 4 * n - 1 {
        if x + y < n {
            y
        } else {
            n - 1 - x
        }
    } else {
        if y <= x {
            y
        } else {
            x
        }
    }
}

/// A cell is found in each of its four lines, at a known place.
pub proof fn lemma_place_in_line(n: int, x: int, y: int, k: int)
    requires
        0 <= x < n,
        0 <= y < n,
        is_line_of(n, x, y, k),
    ensures
        0 <= k < line_count(n),
        0 <= place_in_line(n, x, y, k) < line_len(n, k),
        line_cell(n, k, place_in_line(n, x, y, k)) == cell_index(n, x, y),
        line(n, k).contains(cell_index(n, x, y)),
{
    let j = place_in_line(n, x, y, k);
    assert(0 <= k < line_count(n));
    assert(0 <= j < line_len(n, k));
    lemma_line_cell_coords(n, k, j);
    assert(line_cell_x(n, k, j) == x);
    assert(line_cell_y(n, k, j) == y);
    assert(line(n, k)[j] == cell_index(n, x, y));
}

/// A line of the index passes through a cell exactly if it is one of the cell's four lines.
pub proof fn lemma_line_contains(n: int, x: int, y: int, k: int)
    requires
        0 <= x < n,
        0 <= y < n,
        0 <= k < line_count(n),
    ensures
        line(n, k).contains(cell_index(n, x, y)) <==> is_line_of(n, x, y, k),
{
    if is_line_of(n, x, y, k) {
        lemma_place_in_line(n, x, y, k);
    }
    if line(n, k).contains(cell_index(n, x, y)) {
        let j = choose|j: int| 0 <= j < line(n, k).len() && line(n, k)[j] == cell_index(n, x, y);
        lemma_line_cell_coords(n, k, j);
        lemma_coords_unique(n, x, y, line_cell_x(n, k, j), line_cell_y(n, k, j));
    }
}

/// Number of the four lines of `(x, y)` that stand before position `upto` of the index.
pub open spec fn own_lines_before(n: int, x: int, y: int, upto: int) -> int {
    (if row_line(n, x, y) < upto {
        1int
    } else {
        0int
    }) + (if column_line(n, x, y) < upto {
        1int
    } else {
        0int
    }) + (if falling_left_line(n, x, y) < upto {
        1int
    } else {
        0int
    }) + (if falling_right_line(n, x, y) < upto {
        1int
    } else {
        0int
    })
}

/// Of the first lines of the index, those that pass through a cell are the cell's own.
proof fn lemma_lines_through_prefix(n: int, x: int, y: int, upto: int)
    requires
        0 <= x < n,
        0 <= y < n,
        0 <= upto <= line_count(n),
    ensures
        lines_through(n, cell_index(n, x, y), upto) == own_lines_before(n, x, y, upto),
    decreases upto,
{
    if upto > 0 {
        lemma_lines_through_prefix(n, x, y, upto - 1);
        lemma_line_contains(n, x, y, upto - 1);
    }
}

/// Line coverage: every cell of the board lies on exactly four lines of the index.
pub proof fn lemma_line_coverage(n: int, cell: int)
    requires
        n >= 1,
        0 <= cell < n * n,
    ensures
        lines_through(n, cell, line_count(n)) == 4,
{
    let x = cell % n;
    let y = cell / n;
    assert(cell == y * n + x && 0 <= x < n && 0 <= y < n) by (nonlinear_arith)
        requires
            n >= 1,
            0 <= cell < n * n,
            x == cell % n,
            y == cell / n,
    {
        assert(cell == n * (cell / n) + cell % n);
        if y >= n {
            assert(y * n >= n * n);
        }
    }
    lemma_lines_through_prefix(n, x, y, line_count(n));
}

/// Line index addressing: the row, the column and the two diagonals of a cell, found by
/// their closed-form positions in the index, all pass through the cell.
pub proof fn lemma_line_addressing(n: int, x: int, y: int)
    requires
        0 <= x < n,
        0 <= y < n,
    ensures
        line(n, y).contains(cell_index(n, x, y)),
        line(n, n + x).contains(cell_index(n, x, y)),
        line(n, 2 * n + x + y).contains(cell_index(n, x, y)),
        line(n, (5 * n - 2) + y - x).contains(cell_index(n, x, y)),
{
    lemma_place_in_line(n, x, y, row_line(n, x, y));
    lemma_place_in_line(n, x, y, column_line(n, x, y));
    lemma_place_in_line(n, x, y, falling_left_line(n, x, y));
    lemma_place_in_line(n, x, y, falling_right_line(n, x, y));
}

/// Create the list of cell indices of the given row
pub fn make_row(size: usize, y: usize) -> (row: Vec<usize>)
    requires
        y < size,
        size * size <= usize::MAX,
    ensures
        row@.len() == size,
        forall|x: int| 0 <= x < size ==> #[trigger] row@[x] as int == x + y * size,
{
    let mut row: Vec<usize> = Vec::new();
    let mut x: usize = 0;
    while x < size
        invariant
            y < size,
            size * size <= usize::MAX,
            x <= size,
            row@.len() == x,
            forall|i: int| 0 <= i < x ==> #[trigger] row@[i] as int == i + y * size,
        decreases size - x,
    {
        assert(x + y * size < size * size) by (nonlinear_arith)
            requires
                x < size,
                y < size,
        {
            assert(y * size <= (size - 1) * size);
        }
        row.push(x + y * size);
        x += 1;
    }
    row
}

/// Create the list of cell indices of the given column
pub fn make_col(size: usize, x: usize) -> (col: Vec<usize>)
    requires
        x < size,
        size * size <= usize::MAX,
    ensures
        col@.len() == size,
        forall|y: int| 0 <= y < size ==> #[trigger] col@[y] as int == x + y * size,
{
    let mut col: Vec<usize> = Vec::new();
    let mut y: usize = 0;
    while y < size
        invariant
            x < size,
            size * size <= usize::MAX,
            y <= size,
            col@.len() == y,
            forall|i: int| 0 <= i < y ==> #[trigger] col@[i] as int == x + i * size,
        decreases size - y,
    {
        assert(x + y * size < size * size) by (nonlinear_arith)
            requires
                x < size,
                y < size,
        {
            assert(y * size <= (size - 1) * size);
        }
        col.push(x + y * size);
        y += 1;
    }
    col
}

/// Every cell of a diagonal lies on the board.
proof fn lemma_diagonal_cell_bound(n: int, k: int, dir: DiagonalDir, j: int)
    requires
        n >= 1,
        1 <= k < 2 * n,
        0 <= j < diagonal_len(n, k),
    ensures
        0 <= diagonal_start(n, k, dir),
        0 <= diagonal_start(n, k, dir) + j * diagonal_step(n, dir) < n * n,
        0 <= j * diagonal_step(n, dir),
{
    let line_no = match dir {
        DiagonalDir::RightToLeft => 2 * n + k - 1,
        DiagonalDir::LeftToRight => (4 * n - 1) + k - 1,
    };
    lemma_line_cell_coords(n, line_no, j);
    lemma_line_cell_coords(n, line_no, 0);
    assert(0 * diagonal_step(n, dir) == 0);
    assert(0 <= j * diagonal_step(n, dir)) by (nonlinear_arith)
        requires
            0 <= j,
            0 <= diagonal_step(n, dir),
    ;
}

/// Create the list of cell indices of the given diagonal.
/// `k` is the index of the diagonal and lies in the range `1..2 * size`.
/// Note that the indexing starts at the respective top corner.
pub fn make_diagonal(size: usize, k: usize, direction: DiagonalDir) -> (diagonal: Vec<usize>)
    requires
        1 <= k < 2 * size,
        size * size <= usize::MAX,
    ensures
        diagonal@.len() == diagonal_len(size as int, k as int),
        forall|j: int|
            0 <= j < diagonal@.len() ==> #[trigger] diagonal@[j] as int == diagonal_start(
                size as int,
                k as int,
                direction,
            ) + j * diagonal_step(size as int, direction),
{
    assert(2 * size <= usize::MAX) by (nonlinear_arith)
        requires
            size >= 1,
            size * size <= usize::MAX,
            usize::MAX >= 2,
    {
        if size >= 2 {
            assert(2 * size <= size * size);
        }
    }
    let count: usize = if k <= size {
        k
    } else {
        2 * size - k
    };
    proof {
        lemma_diagonal_cell_bound(size as int, k as int, direction, 0);
    }
    let starting_idx: usize = match direction {
        DiagonalDir::LeftToRight => if k <= size {
            size - k
        } else {
            assert((k - size) * size < size * size) by (nonlinear_arith)
                requires
                    size < k < 2 * size,
            ;
            (k - size) * size
        },
        DiagonalDir::RightToLeft => if k <= size {
            k - 1
        } else {
            assert(0 < (k - size + 1) * size <= size * size) by (nonlinear_arith)
                requires
                    size < k < 2 * size,
            ;
            (k - size + 1) * size - 1
        },
    };
    let step: usize = match direction {
        DiagonalDir::LeftToRight => size + 1,
        DiagonalDir::RightToLeft => size - 1,
    };
    let mut diagonal: Vec<usize> = Vec::new();
    let mut i: usize = 0;
    while i < count
        invariant
            size >= 1,
            1 <= k < 2 * size,
            size * size <= usize::MAX,
            i <= count,
            count == diagonal_len(size as int, k as int),
            starting_idx == diagonal_start(size as int, k as int, direction),
            step == diagonal_step(size as int, direction),
            diagonal@.len() == i,
            forall|j: int|
                0 <= j < i ==> #[trigger] diagonal@[j] as int == starting_idx + j * step,
        decreases count - i,
    {
        proof {
            lemma_diagonal_cell_bound(size as int, k as int, direction, i as int);
        }
        diagonal.push(starting_idx + i * step);
        i += 1;
    }
    diagonal
}

/// Generate the line index for the given board size: rows, columns, left-falling diagonals and
/// right-falling diagonals, in this order.
pub fn generate(size: u8) -> (lines: Vec<Vec<usize>>)
    ensures
        is_line_index(lines@, size as int),
{
    let n: usize = size as usize;
    assert(n * n <= usize::MAX) by (nonlinear_arith)
        requires
            n <= 255,
            usize::MAX >= 0xffff_ffff,
    ;
    let mut lines: Vec<Vec<usize>> = Vec::new();
    let mut y: usize = 0;
    while y < n
        invariant
            n == size,
            n * n <= usize::MAX,
            y <= n,
            lines@.len() == y,
            forall|k: int| 0 <= k < y ==> holds_line(#[trigger] lines@[k]@, line(n as int, k)),
        decreases n - y,
    {
        let row = make_row(n, y);
        lines.push(row);
        y += 1;
    }
    let mut x: usize = 0;
    while x < n
        invariant
            n == size,
            n * n <= usize::MAX,
            x <= n,
            lines@.len() == n + x,
            forall|k: int|
                0 <= k < n + x ==> holds_line(#[trigger] lines@[k]@, line(n as int, k)),
        decreases n - x,
    {
        let col = make_col(n, x);
        lines.push(col);
        x += 1;
    }
    let mut k: usize = 1;
    while k < 2 * n
        invariant
            n == size,
            n * n <= usize::MAX,
            1 <= k,
            n >= 1 ==> k <= 2 * n,
            n == 0 ==> k == 1,
            lines@.len() == 2 * n + (k - 1),
            forall|i: int|
                0 <= i < 2 * n + (k - 1) ==> holds_line(#[trigger] lines@[i]@, line(n as int, i)),
        decreases 2 * n - k,
    {
        let diagonal = make_diagonal(n, k, DiagonalDir::RightToLeft);
        lines.push(diagonal);
        k += 1;
    }
    let mut k: usize = 1;
    while k < 2 * n
        invariant
            n == size,
            n * n <= usize::MAX,
            1 <= k,
            n >= 1 ==> k <= 2 * n,
            n >= 1 ==> lines@.len() == 4 * n - 1 + (k - 1),
            n == 0 ==> lines@.len() == 0,
            forall|i: int|
                0 <= i < lines@.len() ==> holds_line(#[trigger] lines@[i]@, line(n as int, i)),
        decreases 2 * n - k,
    {
        let diagonal = make_diagonal(n, k, DiagonalDir::LeftToRight);
        lines.push(diagonal);
        k += 1;
    }
    lines
}

} // verus!
