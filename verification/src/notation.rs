//! How a board and a tile pointer are written as text, and read back.
//!
//! A board of size `n` is written as a header line and `n` rows. The header is one space,
//! or two if `n >= 10`, and the first `n` lowercase letters. A row is its number, counted
//! from 1 and as wide as the header's spaces, and the `n` tiles of the row: `x`, `o` or `-`.
//! A tile pointer is written as the letter of its column and the number of its row, counted
//! from 1: `h8`.

use vstd::prelude::*;
use crate::board::{
    first_uneven_row, grid_cells, grid_verdict, rows_of, Board, Error, Tile, TilePointer,
};
use crate::error::GomokuError;
use crate::moves::Move;
use crate::state::State;
use crate::player::Player;
use crate::text::{
    all_digits, char_code, chars_of, decimal, digits_value, is_digit, join_lines, lemma_decimal,
    lemma_digits_grow, lemma_lines_of_joined, push_signed, signed_decimal, letter, letter_char, lines_of, lines_view, plain_line, push_decimal,
    split_lines, string_of,
};

verus! {

/// The character that a tile is written with.
pub open spec fn tile_glyph(t: Tile) -> char {
    match t {
        Some(p) => p.glyph(),
        None => '-',
    }
}

/// The tile that a character is read as: `x` and `X` are a stone of X, `o` and `O` a stone
/// of O, anything else is an empty tile.
pub open spec fn parse_tile(c: char) -> Tile {
    if c == 'x' || c == 'X' {
        Some(Player::X)
    } else if c == 'o' || c == 'O' {
        Some(Player::O)
    } else {
        None
    }
}

/// Width of the column of row numbers of a board of size `n`.
pub open spec fn label_width(n: int) -> int {
    if n >= 10 {
        2
    } else {
        1
    }
}

/// The header line of a board of size `n`.
pub open spec fn header_line(n: int) -> Seq<char> {
    Seq::new(label_width(n) as nat, |i: int| ' ') + Seq::new(n as nat, |i: int| letter(i))
}

/// The number of the row `y`, counted from 1, as wide as the header's spaces.
pub open spec fn row_label(n: int, y: int) -> Seq<char> {
    if n >= 10 && y + 1 < 10 {
        seq![' '] + decimal(y + 1)
    } else {
        decimal(y + 1)
    }
}

/// The tiles of the row `y` as characters.
pub open spec fn row_glyphs(cells: Seq<Tile>, n: int, y: int) -> Seq<char> {
    Seq::new(n as nat, |x: int| tile_glyph(cells[y * n + x]))
}

/// The line of the row `y`.
pub open spec fn row_text(cells: Seq<Tile>, n: int, y: int) -> Seq<char> {
    row_label(n, y) + row_glyphs(cells, n, y)
}

/// The lines of a board: the header and the rows from top to bottom.
pub open spec fn board_lines(cells: Seq<Tile>, n: int) -> Seq<Seq<char>> {
    Seq::new(
        (n + 1) as nat,
        |k: int|
            if k == 0 {
                header_line(n)
            } else {
                row_text(cells, n, k - 1)
            },
    )
}

/// The text of a board: its lines, each closed by a line feed.
pub open spec fn board_text(cells: Seq<Tile>, n: int) -> Seq<char> {
    join_lines(board_lines(cells, n))
}

/// The lines are those of a written board: the first is the header of a board with as many
/// rows as lines follow, and there are letters for all its columns.
pub open spec fn is_printed(lines: Seq<Seq<char>>) -> bool {
    &&& lines.len() >= 1
    &&& lines.len() - 1 <= 26
    &&& lines[0] == header_line(lines.len() - 1)
}

/// The tiles that a line is read as, after its first `skip` characters.
pub open spec fn parsed_row(line: Seq<char>, skip: int) -> Seq<Tile> {
    Seq::new(
        (if line.len() > skip {
            line.len() - skip
        } else {
            0
        }) as nat,
        |i: int| parse_tile(line[skip + i]),
    )
}

/// The grid of tiles that some lines are read as. Lines of a written board are read without
/// the header and without the column of row numbers; any other lines are read as rows of
/// tiles, character by character.
pub open spec fn parsed_grid(lines: Seq<Seq<char>>) -> Seq<Seq<Tile>> {
    if is_printed(lines) {
        Seq::new(
            (lines.len() - 1) as nat,
            |k: int| parsed_row(lines[k + 1], label_width(lines.len() - 1)),
        )
    } else {
        Seq::new(lines.len(), |k: int| parsed_row(lines[k], 0))
    }
}

/// The board that a text is read as: its size and its cells, or why it is none.
pub open spec fn read_board(text: Seq<char>) -> Result<(int, Seq<Tile>), Error> {
    grid_verdict(parsed_grid(lines_of(text)))
}

/// Why a text is no tile pointer.
#[derive(Clone, Copy, PartialEq, Eq, Structural, Debug)]
pub enum PointerError {
    /// the text is empty
    NoInput,
    /// the first character is no lowercase letter, nor one of the characters after `z`
    /// up to code 255
    BadColumn,
    /// what follows the first character is no number from 1 to 255 in decimal digits
    BadRow,
}

/// The text of a tile pointer: the letter of the column and the number of the row, counted
/// from 1.
pub open spec fn pointer_text(t: TilePointer) -> Seq<char> {
    seq![letter(t.x as int)] + decimal(t.y + 1)
}

/// The tile pointer that a text is read as, or why it is none.
pub open spec fn read_pointer(text: Seq<char>) -> Result<TilePointer, PointerError> {
    if text.len() == 0 {
        Err(PointerError::NoInput)
    } else if !(97 <= text[0] as int <= 255) {
        Err(PointerError::BadColumn)
    } else {
        let digits = text.drop_first();
        if digits.len() >= 1 && all_digits(digits) && 1 <= digits_value(digits) <= 255 {
            Ok(
                TilePointer {
                    x: (text[0] as int - 97) as u8,
                    y: (digits_value(digits) - 1) as u8,
                },
            )
        } else {
            Err(PointerError::BadRow)
        }
    }
}

/// Pointer round trip: a tile pointer that is written and read back is the same pointer.
pub proof fn lemma_pointer_round_trip(t: TilePointer)
    requires
        t.x <= 158,
        t.y <= 254,
    ensures
        read_pointer(pointer_text(t)) == Ok::<TilePointer, PointerError>(t),
{
    let text = pointer_text(t);
    lemma_decimal(t.y + 1);
    assert(text[0] == letter(t.x as int));
    assert(text.drop_first() =~= decimal(t.y + 1));
}

/// A tile that is written and read back is the same tile.
pub proof fn lemma_tile_round_trip(t: Tile)
    ensures
        parse_tile(tile_glyph(t)) == t,
        tile_glyph(t) != '\n',
        tile_glyph(t) != '\r',
{
}

/// The number of a row is as wide as the header's spaces, and holds digits and spaces only.
proof fn lemma_row_label(n: int, y: int)
    requires
        1 <= n <= 26,
        0 <= y < n,
    ensures
        row_label(n, y).len() == label_width(n),
        forall|i: int|
            0 <= i < row_label(n, y).len() ==> (#[trigger] row_label(n, y)[i]) != '\n',
{
    lemma_decimal(y + 1);
    let digits = decimal(y + 1);
    assert forall|i: int| 0 <= i < row_label(n, y).len() implies (#[trigger] row_label(n, y)[i])
        != '\n' by {
        if n >= 10 && y + 1 < 10 {
            if i >= 1 {
                assert(row_label(n, y)[i] == digits[i - 1]);
                assert(is_digit(digits[i - 1]));
            }
        } else {
            assert(is_digit(digits[i]));
        }
    }
}

/// Every line of a written board can be read back as it is.
proof fn lemma_board_lines_plain(cells: Seq<Tile>, n: int)
    requires
        1 <= n <= 26,
        cells.len() == n * n,
    ensures
        forall|k: int|
            0 <= k < board_lines(cells, n).len() ==> plain_line(#[trigger] board_lines(cells, n)[k]),
{
    let lines = board_lines(cells, n);
    assert forall|k: int| 0 <= k < lines.len() implies plain_line(#[trigger] lines[k]) by {
        let l = lines[k];
        if k == 0 {
            let w = label_width(n);
            assert forall|i: int| 0 <= i < l.len() implies #[trigger] l[i] != '\n' by {
                if i >= w {
                    assert(l[i] == letter(i - w));
                }
            }
            assert(l.last() == letter(n - 1));
        } else {
            let y = k - 1;
            lemma_row_label(n, y);
            let w = label_width(n);
            assert forall|i: int| 0 <= i < l.len() implies #[trigger] l[i] != '\n' by {
                if i >= w {
                    assert(l[i] == row_glyphs(cells, n, y)[i - w]);
                    lemma_tile_round_trip(cells[y * n + (i - w)]);
                } else {
                    assert(l[i] == row_label(n, y)[i]);
                }
            }
            assert(l.last() == row_glyphs(cells, n, y)[n - 1]);
            lemma_tile_round_trip(cells[y * n + (n - 1)]);
        }
    }
}

/// A grid whose rows are all as wide as the grid is high has no uneven row.
proof fn lemma_square_grid(rows: Seq<Seq<Tile>>, upto: int)
    requires
        0 <= upto <= rows.len(),
        forall|k: int| 0 <= k < rows.len() ==> (#[trigger] rows[k]).len() == rows.len(),
    ensures
        first_uneven_row(rows, upto) is None,
    decreases upto,
{
    if upto > 0 {
        lemma_square_grid(rows, upto - 1);
    }
}

/// Board round trip: a board that is written and read back is the same board.
pub proof fn lemma_board_round_trip(cells: Seq<Tile>, n: int)
    requires
        9 <= n <= 26,
        cells.len() == n * n,
    ensures
        read_board(board_text(cells, n)) == Ok::<(int, Seq<Tile>), Error>((n, cells)),
{
    let lines = board_lines(cells, n);
    lemma_board_lines_plain(cells, n);
    lemma_lines_of_joined(lines);
    assert(lines_of(board_text(cells, n)) == lines);
    assert(lines[0] == header_line(n));
    assert(is_printed(lines));
    let grid = parsed_grid(lines);
    let w = label_width(n);
    assert forall|y: int| 0 <= y < n implies (#[trigger] grid[y]).len() == n && (forall|x: int|
        0 <= x < n ==> grid[y][x] == cells[y * n + x]) by {
        lemma_row_label(n, y);
        let l = lines[y + 1];
        assert(l == row_text(cells, n, y));
        assert(l.len() == w + n);
        assert forall|x: int| 0 <= x < n implies grid[y][x] == cells[y * n + x] by {
            assert(l[w + x] == row_glyphs(cells, n, y)[x]);
            lemma_tile_round_trip(cells[y * n + x]);
        }
    }
    lemma_square_grid(grid, n);
    assert(grid_cells(grid, n) =~= cells) by {
        assert forall|i: int| 0 <= i < n * n implies grid_cells(grid, n)[i] == cells[i] by {
            let y = i / n;
            let x = i % n;
            assert(0 <= y < n && 0 <= x < n && i == y * n + x) by (nonlinear_arith)
                requires
                    0 <= i < n * n,
                    n > 0,
                    y == i / n,
                    x == i % n,
            {
                assert(i == n * (i / n) + i % n);
                if y >= n {
                    assert(y * n >= n * n);
                }
            }
            assert(grid[y][x] == cells[y * n + x]);
        }
    }
}

impl TilePointer {
    /// The pointer as text: the letter of the column and the number of the row, counted
    /// from 1.
    pub fn to_text(&self) -> (text: String)
        requires
            self.x <= 158,
            self.y <= 254,
        ensures
            text@ == pointer_text(*self),
    {
        let mut chars: Vec<char> = Vec::new();
        chars.push(letter_char(self.x));
        push_decimal(&mut chars, self.y as usize + 1);
        assert(chars@ =~= pointer_text(*self));
        string_of(&chars)
    }

    /// Reads a pointer from text: a lowercase letter, or a character after `z` up to code
    /// 255, and a row number from 1 to 255 in decimal digits.
    #[verifier::loop_isolation(false)]
    pub fn from_text(text: &str) -> (r: Result<TilePointer, PointerError>)
        ensures
            r == read_pointer(text@),
    {
        let chars = chars_of(text);
        if chars.len() == 0 {
            return Err(PointerError::NoInput);
        }
        let code: u32 = char_code(chars[0]);
        if code < 97 || code > 255 {
            return Err(PointerError::BadColumn);
        }
        let ghost digits = chars@.drop_first();
        if chars.len() == 1 {
            return Err(PointerError::BadRow);
        }
        let mut value: u32 = 0;
        let mut i: usize = 1;
        while i < chars.len()
            invariant
                1 <= i <= chars@.len(),
                digits == chars@.drop_first(),
                all_digits(digits.take(i - 1)),
                value == digits_value(digits.take(i - 1)),
                value <= 255,
            decreases chars@.len() - i,
        {
            let c: u32 = char_code(chars[i]);
            assert(digits[i - 1] == chars@[i as int]);
            if c < 48 || c > 57 {
                assert(!is_digit(digits[i - 1]));
                return Err(PointerError::BadRow);
            }
            assert(digits.take(i as int).drop_last() =~= digits.take(i - 1));
            assert(digits.take(i as int).last() == digits[i - 1]);
            assert forall|k: int| 0 <= k < digits.take(i as int).len() implies is_digit(
                #[trigger] digits.take(i as int)[k],
            ) by {
                if k < i - 1 {
                    assert(digits.take(i as int)[k] == digits.take(i - 1)[k]);
                }
            }
            value = value * 10 + (c - 48);
            if value > 255 {
                proof {
                    if all_digits(digits) {
                        lemma_digits_grow(digits, i as int);
                    }
                }
                return Err(PointerError::BadRow);
            }
            i += 1;
        }
        assert(digits.take(digits.len() as int) =~= digits);
        if value == 0 {
            return Err(PointerError::BadRow);
        }
        Ok(TilePointer { x: (code - 97) as u8, y: (value - 1) as u8 })
    }
}

/// The character that a tile is written with.
pub fn glyph_of(tile: Tile) -> (c: char)
    ensures
        c == tile_glyph(tile),
{
    match tile {
        Some(p) => p.char(),
        None => '-',
    }
}

/// The tile that a character is read as.
pub fn tile_of(c: char) -> (tile: Tile)
    ensures
        tile == parse_tile(c),
{
    if c == 'x' || c == 'X' {
        Some(Player::X)
    } else if c == 'o' || c == 'O' {
        Some(Player::O)
    } else {
        None
    }
}

/// The header line of a board of size `n`.
pub fn header_chars(n: usize) -> (line: Vec<char>)
    requires
        n <= 26,
    ensures
        line@ == header_line(n as int),
{
    let mut line: Vec<char> = Vec::new();
    line.push(' ');
    if n >= 10 {
        line.push(' ');
    }
    let ghost spaces = line@;
    assert(spaces =~= Seq::new(label_width(n as int) as nat, |i: int| ' '));
    let mut i: usize = 0;
    while i < n
        invariant
            i <= n <= 26,
            line@ == spaces + Seq::new(i as nat, |k: int| letter(k)),
        decreases n - i,
    {
        line.push(letter_char(i as u8));
        assert(line@ =~= spaces + Seq::new((i + 1) as nat, |k: int| letter(k)));
        i += 1;
    }
    line
}

/// Whether two lines hold the same characters.
pub fn same_chars(a: &Vec<char>, b: &Vec<char>) -> (same: bool)
    ensures
        same == (a@ == b@),
{
    if a.len() != b.len() {
        return false;
    }
    let mut i: usize = 0;
    while i < a.len()
        invariant
            i <= a@.len(),
            a@.len() == b@.len(),
            forall|k: int| 0 <= k < i ==> a@[k] == b@[k],
        decreases a@.len() - i,
    {
        if a[i] != b[i] {
            return false;
        }
        i += 1;
    }
    assert(a@ =~= b@);
    true
}

/// Whether the lines are those of a written board.
pub fn is_printed_form(lines: &Vec<Vec<char>>) -> (printed: bool)
    ensures
        printed == is_printed(lines_view(lines@)),
{
    if lines.len() < 1 || lines.len() - 1 > 26 {
        return false;
    }
    let header = header_chars(lines.len() - 1);
    assert(lines_view(lines@)[0] == lines@[0]@);
    same_chars(&lines[0], &header)
}

/// The tiles that a line is read as, after its first `skip` characters.
pub fn parse_row(line: &Vec<char>, skip: usize) -> (row: Vec<Tile>)
    ensures
        row@ == parsed_row(line@, skip as int),
{
    let mut row: Vec<Tile> = Vec::new();
    if line.len() <= skip {
        assert(row@ =~= parsed_row(line@, skip as int));
        return row;
    }
    let mut i: usize = skip;
    while i < line.len()
        invariant
            skip <= i <= line@.len(),
            row@.len() == i - skip,
            forall|k: int| 0 <= k < row@.len() ==> row@[k] == parse_tile(line@[skip + k]),
        decreases line@.len() - i,
    {
        row.push(tile_of(line[i]));
        i += 1;
    }
    assert(row@ =~= parsed_row(line@, skip as int));
    row
}

impl Board {
    /// The board as text: the header line and the rows, each closed by a line feed. There
    /// are letters for 26 columns, so the board is no larger.
    pub fn to_string(&self) -> (text: String)
        requires
            self.wf(),
            self.side() <= 26,
        ensures
            text@ == board_text(self@, self.side()),
    {
        let n: usize = self.size() as usize;
        let tiles = self.tiles();
        let ghost lines = board_lines(self@, n as int);
        let mut out: Vec<char> = Vec::new();
        let mut header = header_chars(n);
        out.append(&mut header);
        out.push('\n');
        proof {
            assert(lines.take(1).drop_last() =~= Seq::<Seq<char>>::empty());
            assert(lines.take(1).last() == header_line(n as int));
            assert(join_lines(Seq::<Seq<char>>::empty()) =~= Seq::<char>::empty());
            assert(out@ =~= join_lines(lines.take(1)));
        }
        assert(n * n <= 676) by (nonlinear_arith)
            requires
                n <= 26,
        ;
        let mut y: usize = 0;
        while y < n
            invariant
                9 <= n <= 26,
                n * n <= 676,
                n == self.side(),
                n * n == self@.len(),
                tiles@ == self@,
                lines == board_lines(self@, n as int),
                y <= n,
                out@ == join_lines(lines.take(y + 1)),
            decreases n - y,
        {
            let mut line: Vec<char> = Vec::new();
            if n >= 10 && y + 1 < 10 {
                line.push(' ');
            }
            push_decimal(&mut line, y + 1);
            assert(line@ =~= row_label(n as int, y as int));
            let mut x: usize = 0;
            while x < n
                invariant
                    n <= 26,
                    n * n <= 676,
                    n * n == self@.len(),
                    tiles@ == self@,
                    y < n,
                    x <= n,
                    line@ == row_label(n as int, y as int) + Seq::new(
                        x as nat,
                        |k: int| tile_glyph(self@[y * n + k]),
                    ),
                decreases n - x,
            {
                assert(y * n + x < n * n) by (nonlinear_arith)
                    requires
                        x < n,
                        y < n,
                {
                    assert(y * n <= (n - 1) * n);
                }
                line.push(glyph_of(tiles[y * n + x]));
                assert(line@ =~= row_label(n as int, y as int) + Seq::new(
                    (x + 1) as nat,
                    |k: int| tile_glyph(self@[y * n + k]),
                ));
                x += 1;
            }
            assert(line@ =~= row_text(self@, n as int, y as int));
            let ghost before = out@;
            let ghost written = line@;
            out.append(&mut line);
            out.push('\n');
            proof {
                assert(lines.take(y + 2).drop_last() =~= lines.take(y + 1));
                assert(lines.take(y + 2).last() == row_text(self@, n as int, y as int));
                assert(out@ =~= before + written + seq!['\n']);
            }
            y += 1;
        }
        assert(lines.take(n + 1) =~= lines);
        string_of(&out)
    }

    /// Reads a board from text.
    ///
    /// The text is that of a written board, with its header and row numbers, or the rows
    /// alone. A tile is read from `x` or `X`, `o` or `O`; any other character is an empty
    /// tile. The rows must make a square of 9 to 255 tiles a side.
    pub fn from_string(input_string: &str) -> (r: Result<Board, Error>)
        ensures
            match read_board(input_string@) {
                Ok((n, cells)) => r matches Ok(board) && board.wf() && board.side() == n && board@
                    == cells,
                Err(e) => r == Err::<Board, Error>(e),
            },
    {
        let chars = chars_of(input_string);
        let lines = split_lines(&chars);
        let printed = is_printed_form(&lines);
        let start: usize = if printed {
            1
        } else {
            0
        };
        let skip: usize = if printed {
            if lines.len() - 1 >= 10 {
                2
            } else {
                1
            }
        } else {
            0
        };
        let mut grid: Vec<Vec<Tile>> = Vec::new();
        let mut k: usize = start;
        while k < lines.len()
            invariant
                start <= k <= lines@.len(),
                grid@.len() == k - start,
                forall|j: int|
                    0 <= j < grid@.len() ==> (#[trigger] grid@[j])@ == parsed_row(
                        lines@[start + j]@,
                        skip as int,
                    ),
            decreases lines@.len() - k,
        {
            grid.push(parse_row(&lines[k], skip));
            k += 1;
        }
        proof {
            let read = lines_view(lines@);
            assert(rows_of(grid@) =~= parsed_grid(read)) by {
                assert forall|j: int| 0 <= j < grid@.len() implies rows_of(grid@)[j]
                    == parsed_grid(read)[j] by {
                    assert(read[start + j] == lines@[start + j]@);
                }
            }
        }
        Board::new(grid)
    }
}

impl std::str::FromStr for Board {
    type Err = Error;

    /// Reads a board from text, as `Board::from_string` does.
    fn from_str(input_string: &str) -> (r: Result<Board, Error>)
        ensures
            match read_board(input_string@) {
                Ok((n, cells)) => r matches Ok(board) && board.wf() && board.side() == n && board@
                    == cells,
                Err(e) => r == Err::<Board, Error>(e),
            },
    {
        Board::from_string(input_string)
    }
}

impl TryFrom<&str> for TilePointer {
    type Error = PointerError;

    /// Reads a pointer from text, as `TilePointer::from_text` does.
    fn try_from(value: &str) -> (r: Result<TilePointer, PointerError>) {
        TilePointer::from_text(value)
    }
}

impl vstd::std_specs::convert::TryFromSpecImpl<&str> for TilePointer {
    open spec fn obeys_try_from_spec() -> bool {
        true
    }

    open spec fn try_from_spec(value: &str) -> Result<TilePointer, PointerError> {
        read_pointer(value@)
    }
}

/// The name of an outcome.
pub open spec fn state_name(s: State) -> Seq<char> {
    match s {
        State::NotEnd => "Not an end"@,
        State::Draw => "Draw"@,
        State::Win => "Win"@,
        State::Lose => "Lose"@,
    }
}

/// The text of a move: the tile and the score, in brackets.
pub open spec fn move_text(m: Move) -> Seq<char> {
    "("@ + pointer_text(m.tile) + ", "@ + signed_decimal(m.score as int) + ")"@
}

impl Move {
    /// The move as text: the tile and the score, in brackets.
    pub fn to_text(&self) -> (text: String)
        requires
            self.tile.x <= 158,
            self.tile.y <= 254,
        ensures
            text@ == move_text(*self),
    {
        let mut out: Vec<char> = Vec::new();
        push_text(&mut out, "(");
        push_pointer(&mut out, self.tile);
        push_text(&mut out, ", ");
        push_signed(&mut out, self.score);
        push_text(&mut out, ")");
        assert(out@ =~= move_text(*self));
        string_of(&out)
    }
}

/// Appends the text of a tile pointer.
pub fn push_pointer(out: &mut Vec<char>, tile: TilePointer)
    requires
        tile.x <= 158,
        tile.y <= 254,
    ensures
        final(out)@ == old(out)@ + pointer_text(tile),
{
    out.push(letter_char(tile.x));
    push_decimal(out, tile.y as usize + 1);
    assert(out@ =~= old(out)@ + pointer_text(tile));
}

/// What is wrong with a grid that is no board, in words.
pub open spec fn board_error_text(e: Error) -> Seq<char> {
    match e {
        Error::TooSmall { size } => "board too small: "@ + decimal(size as int)
            + ", but minimum is 9"@,
        Error::NotSquare { height, line, width } => "board is not a square: line "@ + decimal(
            line as int,
        ) + " is "@ + decimal(width as int) + " tiles wide, but "@ + decimal(height as int)
            + " was expected"@,
        Error::TooLarge { size } => "board too large: "@ + decimal(size as int)
            + ", but maximum is 255"@,
    }
}

/// Why the engine gives no move, in words.
pub open spec fn engine_error_text(e: GomokuError) -> Seq<char> {
    match e {
        GomokuError::NoEmptyTiles => "no empty tiles left"@,
        GomokuError::GameEnd => "game already ended"@,
        GomokuError::MisshapedBoard(inner) => board_error_text(inner),
    }
}

/// Appends the characters of a text.
pub fn push_text(out: &mut Vec<char>, text: &str)
    ensures
        final(out)@ == old(out)@ + text@,
{
    let mut chars = chars_of(text);
    out.append(&mut chars);
}

impl Error {
    /// What is wrong with the grid, in words.
    pub fn to_text(&self) -> (text: String)
        ensures
            text@ == board_error_text(*self),
    {
        let mut out: Vec<char> = Vec::new();
        match self {
            Error::TooSmall { size } => {
                push_text(&mut out, "board too small: ");
                push_decimal(&mut out, *size);
                push_text(&mut out, ", but minimum is 9");
                assert(out@ =~= board_error_text(*self));
            },
            Error::NotSquare { height, line, width } => {
                push_text(&mut out, "board is not a square: line ");
                push_decimal(&mut out, *line);
                push_text(&mut out, " is ");
                push_decimal(&mut out, *width);
                push_text(&mut out, " tiles wide, but ");
                push_decimal(&mut out, *height);
                push_text(&mut out, " was expected");
                assert(out@ =~= board_error_text(*self));
            },
            Error::TooLarge { size } => {
                push_text(&mut out, "board too large: ");
                push_decimal(&mut out, *size);
                push_text(&mut out, ", but maximum is 255");
                assert(out@ =~= board_error_text(*self));
            },
        }
        string_of(&out)
    }
}

impl GomokuError {
    /// Why the engine gives no move, in words.
    pub fn to_text(&self) -> (text: String)
        ensures
            text@ == engine_error_text(*self),
    {
        match self {
            GomokuError::NoEmptyTiles => {
                let mut out: Vec<char> = Vec::new();
                push_text(&mut out, "no empty tiles left");
                assert(out@ =~= engine_error_text(*self));
                string_of(&out)
            },
            GomokuError::GameEnd => {
                let mut out: Vec<char> = Vec::new();
                push_text(&mut out, "game already ended");
                assert(out@ =~= engine_error_text(*self));
                string_of(&out)
            },
            GomokuError::MisshapedBoard(inner) => inner.to_text(),
        }
    }
}

} // verus!
