//! The short notation of a position: the size of the board, a bar, and the rows from top to
//! bottom, divided by slashes. In a row a number stands for so many empty tiles, and empty
//! tiles at the end of a row may be left out: `9|/x2o//////`.

use vstd::prelude::*;
use crate::board::{Board, Tile};
use crate::notation::{glyph_of, row_glyphs};
use crate::text::{
    all_digits, char_code, chars_of, decimal, digits_value, is_digit, lemma_digits_grow,
    push_decimal, string_of,
};

verus! {

/// Why a text is no position in the short notation.
#[derive(Clone, Copy, PartialEq, Eq, Structural, Debug)]
pub enum FenError {
    /// the text is not a size and the rows, divided by one bar
    IncorrectFormat,
    /// the size is no number in decimal digits that a `usize` can hold, with or without a
    /// plus sign before it
    BadSize,
    /// there are not as many rows as the size says
    IncorrectRowCount,
    /// a number in a row is larger than a `usize` can hold, or holds a decimal digit that
    /// is no ASCII digit
    BadNumber,
    /// a row is longer than the size says
    RowTooLong,
}

/// The pieces of a text between the occurrences of a dividing character. The pieces that are
/// closed, and the characters of the piece that is open.
pub struct Pieces {
    pub closed: Seq<Seq<char>>,
    pub open: Seq<char>,
}

/// The pieces after the first `upto` characters of a text.
pub open spec fn pieces_upto(text: Seq<char>, divider: char, upto: int) -> Pieces
    decreases upto,
{
    if upto <= 0 {
        Pieces { closed: Seq::empty(), open: Seq::empty() }
    } else {
        let before = pieces_upto(text, divider, upto - 1);
        if text[upto - 1] == divider {
            Pieces { closed: before.closed.push(before.open), open: Seq::empty() }
        } else {
            Pieces { closed: before.closed, open: before.open.push(text[upto - 1]) }
        }
    }
}

/// The pieces of a text between the occurrences of a dividing character: one more than
/// there are dividers.
pub open spec fn pieces_of(text: Seq<char>, divider: char) -> Seq<Seq<char>> {
    let all = pieces_upto(text, divider, text.len() as int);
    all.closed.push(all.open)
}

/// The number that a text of decimal digits stands for, if it is one that a `usize` holds.
pub open spec fn number_of(digits: Seq<char>) -> Option<int> {
    if digits.len() >= 1 && all_digits(digits) && digits_value(digits) <= usize::MAX {
        Some(digits_value(digits))
    } else {
        None
    }
}

/// The size that a text stands for: a number in decimal digits, which may follow a plus
/// sign.
pub open spec fn size_of(text: Seq<char>) -> Option<int> {
    if text.len() >= 1 && text[0] == '+' {
        number_of(text.drop_first())
    } else {
        number_of(text)
    }
}

/// What regex's class `\d` says of a character: whether it is a decimal digit of any
/// script.
pub uninterp spec fn decimal_digit(c: char) -> bool;

/// The character is a decimal digit of a script other than the ASCII digits. A number
/// cannot be read from such digits.
pub open spec fn foreign_digit(c: char) -> bool {
    (c as int) >= 128 && decimal_digit(c)
}

/// So many empty tiles, as characters.
pub open spec fn dashes(count: int) -> Seq<char> {
    Seq::new(count as nat, |i: int| '-')
}

/// Number of bytes that a character takes in a string.
pub open spec fn char_bytes(c: char) -> int {
    if (c as int) < 0x80 {
        1
    } else if (c as int) < 0x800 {
        2
    } else if (c as int) < 0x10000 {
        3
    } else {
        4
    }
}

/// Number of bytes that some characters take in a string.
pub open spec fn byte_len(text: Seq<char>) -> int
    decreases text.len(),
{
    if text.len() == 0 {
        0
    } else {
        byte_len(text.drop_last()) + char_bytes(text.last())
    }
}

/// State of the reading of a row: what is written out, the value of the number that is
/// being read, and whether a number was too large.
pub struct RowScan {
    pub out: Seq<char>,
    pub run: int,
    pub bad: bool,
}

/// The reading of a row after its first `upto` characters: a digit goes to the number that
/// is being read; a decimal digit of another script makes the number one that cannot be
/// read; any other character closes the number, which is written out as so many empty
/// tiles, and is written out itself.
pub open spec fn row_upto(row: Seq<char>, upto: int) -> RowScan
    decreases upto,
{
    if upto <= 0 {
        RowScan { out: Seq::empty(), run: 0, bad: false }
    } else {
        let before = row_upto(row, upto - 1);
        let c = row[upto - 1];
        if is_digit(c) {
            let run = before.run * 10 + (c as int - 48);
            RowScan { out: before.out, run, bad: before.bad || run > usize::MAX }
        } else if foreign_digit(c) {
            RowScan { out: before.out, run: before.run, bad: true }
        } else {
            RowScan { out: before.out + dashes(before.run) + seq![c], run: 0, bad: before.bad }
        }
    }
}

/// A row with its numbers written out as empty tiles.
pub open spec fn row_expanded(row: Seq<char>) -> Seq<char> {
    let all = row_upto(row, row.len() as int);
    all.out + dashes(all.run)
}

/// A row of the short notation as a full row of a board of the given size: the numbers are
/// written out, and the row is filled up with empty tiles. The length of a row counts in
/// bytes.
pub open spec fn full_row(row: Seq<char>, size: int) -> Result<Seq<char>, FenError> {
    if row_upto(row, row.len() as int).bad {
        Err(FenError::BadNumber)
    } else if byte_len(row_expanded(row)) > size {
        Err(FenError::RowTooLong)
    } else {
        Ok(row_expanded(row) + dashes(size - byte_len(row_expanded(row))))
    }
}

/// The first `upto` rows as full rows divided by slashes, or the first fault among them.
pub open spec fn full_rows(rows: Seq<Seq<char>>, size: int, upto: int) -> Result<
    Seq<char>,
    FenError,
>
    decreases upto,
{
    if upto <= 0 {
        Ok(Seq::empty())
    } else {
        match full_rows(rows, size, upto - 1) {
            Err(e) => Err(e),
            Ok(before) => match full_row(rows[upto - 1], size) {
                Err(e) => Err(e),
                Ok(row) => if upto == 1 {
                    Ok(row)
                } else {
                    Ok(before + seq!['/'] + row)
                },
            },
        }
    }
}

/// The full rows of a position in the short notation, divided by slashes.
pub open spec fn read_fen(text: Seq<char>) -> Result<Seq<char>, FenError> {
    let halves = pieces_of(text, '|');
    if halves.len() != 2 {
        Err(FenError::IncorrectFormat)
    } else {
        match size_of(halves[0]) {
            None => Err(FenError::BadSize),
            Some(size) => {
                let rows = pieces_of(halves[1], '/');
                if rows.len() != size {
                    Err(FenError::IncorrectRowCount)
                } else {
                    full_rows(rows, size, rows.len() as int)
                }
            },
        }
    }
}

/// The views of a list of pieces.
pub open spec fn pieces_view(pieces: Seq<Vec<char>>) -> Seq<Seq<char>> {
    Seq::new(pieces.len(), |k: int| pieces[k]@)
}

/// Divides a text at every occurrence of a character.
pub fn split_at(text: &Vec<char>, divider: char) -> (pieces: Vec<Vec<char>>)
    ensures
        pieces_view(pieces@) == pieces_of(text@, divider),
        pieces@.len() >= 1,
        pieces@.len() <= text@.len() + 1,
{
    let mut pieces: Vec<Vec<char>> = Vec::new();
    let mut open: Vec<char> = Vec::new();
    let mut i: usize = 0;
    assert(pieces_view(pieces@) =~= Seq::<Seq<char>>::empty());
    while i < text.len()
        invariant
            i <= text@.len(),
            pieces@.len() <= i,
            (Pieces { closed: pieces_view(pieces@), open: open@ }) == pieces_upto(
                text@,
                divider,
                i as int,
            ),
        decreases text@.len() - i,
    {
        let c = text[i];
        if c == divider {
            let ghost before = pieces_view(pieces@);
            let ghost closing = open@;
            pieces.push(open);
            open = Vec::new();
            assert(pieces_view(pieces@) =~= before.push(closing));
        } else {
            open.push(c);
        }
        i += 1;
    }
    let ghost before = pieces_view(pieces@);
    let ghost closing = open@;
    pieces.push(open);
    assert(pieces_view(pieces@) =~= before.push(closing));
    pieces
}

/// Reads a number in decimal digits, if it is one that a `usize` holds.
#[verifier::loop_isolation(false)]
pub fn read_number(digits: &Vec<char>) -> (number: Option<usize>)
    ensures
        match number_of(digits@) {
            Some(value) => number == Some(value as usize),
            None => number is None,
        },
        number matches Some(value) ==> number_of(digits@) == Some(value as int),
{
    if digits.len() == 0 {
        return None;
    }
    let mut value: usize = 0;
    let mut i: usize = 0;
    while i < digits.len()
        invariant
            i <= digits@.len(),
            all_digits(digits@.take(i as int)),
            value == digits_value(digits@.take(i as int)),
        decreases digits@.len() - i,
    {
        let c = char_code(digits[i]);
        let ghost upto = digits@.take(i as int + 1);
        assert(upto.drop_last() =~= digits@.take(i as int));
        assert(upto.last() == digits@[i as int]);
        if c < 48 || c > 57 {
            assert(!is_digit(digits@[i as int]));
            return None;
        }
        assert forall|k: int| 0 <= k < upto.len() implies is_digit(#[trigger] upto[k]) by {
            if k < i {
                assert(upto[k] == digits@.take(i as int)[k]);
            }
        }
        let d: usize = (c - 48) as usize;
        if value > (usize::MAX - d) / 10 {
            proof {
                if all_digits(digits@) {
                    lemma_digits_grow(digits@, i as int + 1);
                }
            }
            return None;
        }
        value = value * 10 + d;
        i += 1;
    }
    assert(digits@.take(digits@.len() as int) =~= digits@);
    Some(value)
}

/// Reads a size: a number in decimal digits, which may follow a plus sign.
pub fn read_size(text: &Vec<char>) -> (size: Option<usize>)
    ensures
        match size_of(text@) {
            Some(value) => size == Some(value as usize),
            None => size is None,
        },
        size matches Some(value) ==> size_of(text@) == Some(value as int),
{
    if text.len() >= 1 && text[0] == '+' {
        let mut digits: Vec<char> = Vec::new();
        let mut i: usize = 1;
        while i < text.len()
            invariant
                1 <= i <= text@.len(),
                digits@ == text@.subrange(1, i as int),
            decreases text@.len() - i,
        {
            digits.push(text[i]);
            assert(digits@ =~= text@.subrange(1, i as int + 1));
            i += 1;
        }
        assert(digits@ =~= text@.drop_first());
        read_number(&digits)
    } else {
        read_number(text)
    }
}

/// Characters take at least a byte each, and a text takes the bytes of its parts.
pub proof fn lemma_byte_len_append(a: Seq<char>, b: Seq<char>)
    ensures
        byte_len(a + b) == byte_len(a) + byte_len(b),
        byte_len(b) >= b.len(),
    decreases b.len(),
{
    if b.len() == 0 {
        assert(a + b =~= a);
    } else {
        lemma_byte_len_append(a, b.drop_last());
        assert((a + b).drop_last() =~= a + b.drop_last());
        assert((a + b).last() == b.last());
    }
}

/// A single character takes its own bytes.
pub proof fn lemma_byte_len_one(c: char)
    ensures
        byte_len(seq![c]) == char_bytes(c),
{
    let one = seq![c];
    assert(one.drop_last().len() == 0);
    assert(byte_len(one.drop_last()) == 0);
    assert(one.last() == c);
}

/// Empty tiles take a byte each.
pub proof fn lemma_byte_len_dashes(count: int)
    requires
        count >= 0,
    ensures
        byte_len(dashes(count)) == count,
    decreases count,
{
    if count > 0 {
        lemma_byte_len_dashes(count - 1);
        assert(dashes(count).drop_last() =~= dashes(count - 1));
    }
}

/// While a row is read, the numbers are not negative, and what is written out only grows.
pub proof fn lemma_row_upto(row: Seq<char>, upto: int)
    requires
        0 <= upto <= row.len(),
    ensures
        row_upto(row, upto).run >= 0,
        byte_len(row_upto(row, upto).out) >= 0,
        !row_upto(row, upto).bad ==> row_upto(row, upto).run <= usize::MAX,
        forall|later: int|
            upto <= later <= row.len() ==> {
                &&& byte_len(row_upto(row, upto).out) <= byte_len(
                    #[trigger] row_upto(row, later).out,
                )
                &&& row_upto(row, upto).bad ==> row_upto(row, later).bad
            },
    decreases row.len() - upto,
{
    lemma_row_start(row, upto);
    if upto < row.len() {
        lemma_row_upto(row, upto + 1);
        let now = row_upto(row, upto);
        let next = row_upto(row, upto + 1);
        if !is_digit(row[upto]) && !foreign_digit(row[upto]) {
            lemma_byte_len_append(now.out + dashes(now.run), seq![row[upto]]);
            lemma_byte_len_append(now.out, dashes(now.run));
        }
        assert forall|later: int| upto <= later <= row.len() implies {
            &&& byte_len(now.out) <= byte_len(#[trigger] row_upto(row, later).out)
            &&& now.bad ==> row_upto(row, later).bad
        } by {
            if later > upto {
                assert(byte_len(next.out) <= byte_len(row_upto(row, later).out));
            }
        }
    }
}

/// While a row is read, the number that is being read is not negative, and fits a `usize`
/// unless a number was too large.
proof fn lemma_row_start(row: Seq<char>, upto: int)
    requires
        0 <= upto <= row.len(),
    ensures
        row_upto(row, upto).run >= 0,
        byte_len(row_upto(row, upto).out) >= 0,
        !row_upto(row, upto).bad ==> row_upto(row, upto).run <= usize::MAX,
    decreases upto,
{
    if upto > 0 {
        lemma_row_start(row, upto - 1);
        let before = row_upto(row, upto - 1);
        if !is_digit(row[upto - 1]) && !foreign_digit(row[upto - 1]) {
            lemma_byte_len_append(before.out + dashes(before.run), seq![row[upto - 1]]);
            lemma_byte_len_append(before.out, dashes(before.run));
        }
    }
}

/// Whether regex's class `\d` matches the character: `Regex::is_match` on the text of the
/// one character, for the pattern of one decimal digit.
#[verifier::external_body]
fn matches_digit_class(c: char) -> (found: bool)
    ensures
        found == decimal_digit(c),
{
    let mut bytes = [0u8; 4];
    match regex::Regex::new(r"\d") {
        Ok(pattern) => pattern.is_match(c.encode_utf8(&mut bytes)),
        Err(_) => false,
    }
}

/// Whether the character is a decimal digit of a script other than the ASCII digits.
pub fn is_foreign_digit(c: char) -> (foreign: bool)
    ensures
        foreign == foreign_digit(c),
{
    if char_code(c) >= 128 {
        matches_digit_class(c)
    } else {
        false
    }
}

/// Number of bytes that a character takes in a string.
pub fn bytes_of_char(c: char) -> (count: usize)
    ensures
        count == char_bytes(c),
{
    let code = char_code(c);
    if code < 0x80 {
        1
    } else if code < 0x800 {
        2
    } else if code < 0x10000 {
        3
    } else {
        4
    }
}

/// Number of bytes of a row with its numbers written out, if no number is too large and
/// the row is not longer than `size`.
pub fn measure_row(row: &Vec<char>, size: usize) -> (r: Result<usize, FenError>)
    ensures
        match full_row(row@, size as int) {
            Ok(_) => r == Ok::<usize, FenError>(byte_len(row_expanded(row@)) as usize),
            Err(e) => r == Err::<usize, FenError>(e),
        },
        r matches Ok(len) ==> len == byte_len(row_expanded(row@)) && len <= size,
{
    let mut len: usize = 0;
    let mut too_long = false;
    let mut run: usize = 0;
    let mut i: usize = 0;
    while i < row.len()
        invariant
            i <= row@.len(),
            !row_upto(row@, i as int).bad,
            run == row_upto(row@, i as int).run,
            !too_long ==> len == byte_len(row_upto(row@, i as int).out) && len <= size,
            too_long ==> byte_len(row_upto(row@, i as int).out) > size,
        decreases row@.len() - i,
    {
        proof {
            lemma_row_upto(row@, i as int);
            lemma_row_upto(row@, i as int + 1);
        }
        let ghost before = row_upto(row@, i as int);
        let c = row[i];
        let code = char_code(c);
        if 48 <= code && code <= 57 {
            let d: usize = (code - 48) as usize;
            if run > (usize::MAX - d) / 10 {
                proof {
                    assert(row_upto(row@, i as int + 1).bad);
                    let all = row_upto(row@, row@.len() as int);
                    assert(byte_len(row_upto(row@, i as int + 1).out) <= byte_len(all.out));
                    assert(all.bad);
                }
                return Err(FenError::BadNumber);
            }
            run = run * 10 + d;
        } else if is_foreign_digit(c) {
            proof {
                assert(row_upto(row@, i as int + 1).bad);
                let all = row_upto(row@, row@.len() as int);
                assert(byte_len(row_upto(row@, i as int + 1).out) <= byte_len(all.out));
                assert(all.bad);
            }
            return Err(FenError::BadNumber);
        } else {
            proof {
                lemma_byte_len_append(before.out + dashes(before.run), seq![c]);
                lemma_byte_len_append(before.out, dashes(before.run));
                lemma_byte_len_dashes(before.run);
                lemma_byte_len_one(c);
            }
            if !too_long {
                let width = bytes_of_char(c);
                if run > size - len || width > size - len - run {
                    too_long = true;
                } else {
                    len = len + run + width;
                }
            }
            run = 0;
        }
        i += 1;
    }
    proof {
        let all = row_upto(row@, row@.len() as int);
        lemma_row_upto(row@, row@.len() as int);
        lemma_byte_len_append(all.out, dashes(all.run));
        lemma_byte_len_dashes(all.run);
    }
    if too_long || run > size - len {
        return Err(FenError::RowTooLong);
    }
    Ok(len + run)
}

/// Appends so many empty tiles.
pub fn push_dashes(out: &mut Vec<char>, count: usize)
    ensures
        final(out)@ == old(out)@ + dashes(count as int),
{
    let mut k: usize = 0;
    assert(out@ =~= old(out)@ + dashes(0));
    while k < count
        invariant
            k <= count,
            out@ == old(out)@ + dashes(k as int),
        decreases count - k,
    {
        out.push('-');
        assert(out@ =~= old(out)@ + dashes(k as int + 1));
        k += 1;
    }
}

/// Appends a row of the short notation as a full row of a board of the given size.
pub fn push_full_row(out: &mut Vec<char>, row: &Vec<char>, size: usize) -> (r: Result<
    (),
    FenError,
>)
    ensures
        match full_row(row@, size as int) {
            Ok(full) => r is Ok && final(out)@ == old(out)@ + full,
            Err(e) => r == Err::<(), FenError>(e) && final(out)@ == old(out)@,
        },
{
    let len = match measure_row(row, size) {
        Ok(len) => len,
        Err(e) => {
            return Err(e);
        },
    };
    let mut run: usize = 0;
    let mut i: usize = 0;
    assert(out@ =~= old(out)@ + row_upto(row@, 0).out);
    while i < row.len()
        invariant
            i <= row@.len(),
            !row_upto(row@, row@.len() as int).bad,
            !row_upto(row@, i as int).bad,
            len == byte_len(row_expanded(row@)),
            len <= size,
            run == row_upto(row@, i as int).run,
            out@ == old(out)@ + row_upto(row@, i as int).out,
        decreases row@.len() - i,
    {
        proof {
            lemma_row_upto(row@, i as int);
            lemma_row_upto(row@, i as int + 1);
            if row_upto(row@, i as int + 1).bad {
                let all = row_upto(row@, row@.len() as int);
                assert(byte_len(row_upto(row@, i as int + 1).out) <= byte_len(all.out));
                assert(all.bad);
            }
        }
        let ghost before = row_upto(row@, i as int);
        let c = row[i];
        let code = char_code(c);
        if 48 <= code && code <= 57 {
            run = run * 10 + (code - 48) as usize;
        } else {
            assert(!foreign_digit(c));
            push_dashes(out, run);
            out.push(c);
            assert(out@ =~= old(out)@ + (before.out + dashes(before.run) + seq![c]));
            run = 0;
        }
        i += 1;
    }
    push_dashes(out, run);
    push_dashes(out, size - len);
    proof {
        let all = row_upto(row@, row@.len() as int);
        assert(out@ =~= old(out)@ + (row_expanded(row@) + dashes(size - len)));
    }
    Ok(())
}

/// Turns a position in the short notation into its full rows, divided by slashes.
///
/// The text is a size, a bar, and as many rows as the size says, divided by slashes. In a
/// row a number in decimal digits stands for so many empty tiles; a row that is shorter
/// than the size is filled up with empty tiles.
#[verifier::loop_isolation(false)]
pub fn parse_fen_trimmed(text: &str) -> (r: Result<String, FenError>)
    ensures
        match read_fen(text@) {
            Ok(full) => r matches Ok(rows) && rows@ == full,
            Err(e) => r == Err::<String, FenError>(e),
        },
{
    let chars = chars_of(text);
    let halves = split_at(&chars, '|');
    if halves.len() != 2 {
        return Err(FenError::IncorrectFormat);
    }
    assert(pieces_view(halves@)[0] == halves@[0]@);
    assert(pieces_view(halves@)[1] == halves@[1]@);
    let size = match read_size(&halves[0]) {
        Some(size) => size,
        None => {
            return Err(FenError::BadSize);
        },
    };
    let rows = split_at(&halves[1], '/');
    if rows.len() != size {
        return Err(FenError::IncorrectRowCount);
    }
    let ghost wanted = pieces_view(rows@);
    let mut out: Vec<char> = Vec::new();
    let mut k: usize = 0;
    assert(read_fen(text@) == full_rows(wanted, size as int, wanted.len() as int));
    while k < rows.len()
        invariant
            k <= rows@.len(),
            wanted == pieces_view(rows@),
            full_rows(wanted, size as int, k as int) == Ok::<Seq<char>, FenError>(out@),
        decreases rows@.len() - k,
    {
        assert(wanted[k as int] == rows@[k as int]@);
        let ghost before = out@;
        if k > 0 {
            out.push('/');
        }
        match push_full_row(&mut out, &rows[k], size) {
            Ok(()) => {},
            Err(e) => {
                proof {
                    lemma_full_rows_fault(wanted, size as int, k as int + 1, rows@.len() as int);
                }
                return Err(e);
            },
        }
        proof {
            if k == 0 {
                assert(out@ =~= full_row(wanted[0], size as int)->Ok_0);
            } else {
                assert(out@ =~= before + seq!['/'] + full_row(wanted[k as int], size as int)->Ok_0);
            }
        }
        k += 1;
    }
    Ok(string_of(&out))
}

/// The first fault among some rows stays the first fault when more rows follow.
pub proof fn lemma_full_rows_fault(rows: Seq<Seq<char>>, size: int, upto: int, later: int)
    requires
        0 <= upto <= later,
        full_rows(rows, size, upto) is Err,
    ensures
        full_rows(rows, size, later) == full_rows(rows, size, upto),
    decreases later,
{
    if later > upto {
        lemma_full_rows_fault(rows, size, upto, later - 1);
    }
}

/// The character is white space: it has the Unicode property White_Space.
pub open spec fn is_space(c: char) -> bool {
    let code = c as int;
    ||| 0x09 <= code <= 0x0d
    ||| code == 0x20
    ||| code == 0x85
    ||| code == 0xa0
    ||| code == 0x1680
    ||| 0x2000 <= code <= 0x200a
    ||| code == 0x2028
    ||| code == 0x2029
    ||| code == 0x202f
    ||| code == 0x205f
    ||| code == 0x3000
}

/// A text without the white space at its beginning.
pub open spec fn trimmed_start(text: Seq<char>) -> Seq<char>
    decreases text.len(),
{
    if text.len() > 0 && is_space(text[0]) {
        trimmed_start(text.drop_first())
    } else {
        text
    }
}

/// A text without the white space at its end.
pub open spec fn trimmed_end(text: Seq<char>) -> Seq<char>
    decreases text.len(),
{
    if text.len() > 0 && is_space(text.last()) {
        trimmed_end(text.drop_last())
    } else {
        text
    }
}

/// A text without the white space at its beginning and at its end.
pub open spec fn trimmed(text: Seq<char>) -> Seq<char> {
    trimmed_end(trimmed_start(text))
}

/// Takes the white space off both ends of a text: `str::trim`, which takes off the
/// characters with the Unicode property White_Space.
#[verifier::external_body]
fn trim_text(text: &str) -> (inner: &str)
    ensures
        inner@ == trimmed(text@),
{
    text.trim()
}

/// Parses a position in the short notation into its full rows, divided by slashes. White
/// space around the text does not count.
pub fn parse_fen_string(input: &str) -> (r: Result<String, FenError>)
    ensures
        match read_fen(trimmed(input@)) {
            Ok(full) => r matches Ok(rows) && rows@ == full,
            Err(e) => r == Err::<String, FenError>(e),
        },
{
    parse_fen_trimmed(trim_text(input))
}

/// State of the writing of a row: what is written out, and the number of empty tiles that
/// are not written yet.
pub struct Shortening {
    pub out: Seq<char>,
    pub empty: int,
}

/// The writing of a row after its first `upto` characters: empty tiles are counted; any
/// other character is written out, after the number of the empty tiles before it, if there
/// are any.
pub open spec fn short_upto(row: Seq<char>, upto: int) -> Shortening
    decreases upto,
{
    if upto <= 0 {
        Shortening { out: Seq::empty(), empty: 0 }
    } else {
        let before = short_upto(row, upto - 1);
        let c = row[upto - 1];
        if c == '-' {
            Shortening { out: before.out, empty: before.empty + 1 }
        } else if before.empty > 0 {
            Shortening { out: before.out + decimal(before.empty) + seq![c], empty: 0 }
        } else {
            Shortening { out: before.out + seq![c], empty: 0 }
        }
    }
}

/// A row in the short notation: every run of empty tiles is written as its length, and
/// empty tiles at the end of the row are left out.
pub open spec fn short_row(row: Seq<char>) -> Seq<char> {
    short_upto(row, row.len() as int).out
}

/// The first `upto` rows of a board in the short notation, divided by slashes.
pub open spec fn short_rows(cells: Seq<Tile>, n: int, upto: int) -> Seq<char>
    decreases upto,
{
    if upto <= 0 {
        Seq::empty()
    } else if upto == 1 {
        short_row(row_glyphs(cells, n, 0))
    } else {
        short_rows(cells, n, upto - 1) + seq!['/'] + short_row(row_glyphs(cells, n, upto - 1))
    }
}

/// A board in the short notation: the size, a bar and the rows.
pub open spec fn fen_text(cells: Seq<Tile>, n: int) -> Seq<char> {
    decimal(n) + seq!['|'] + short_rows(cells, n, n)
}

/// Converts a board to the short notation.
pub fn to_fen_string(board: &Board) -> (text: String)
    requires
        board.wf(),
    ensures
        text@ == fen_text(board@, board.side()),
{
    let n: usize = board.size() as usize;
    let tiles = board.tiles();
    let mut out: Vec<char> = Vec::new();
    push_decimal(&mut out, n);
    out.push('|');
    let ghost head = out@;
    assert(head =~= decimal(n as int) + seq!['|']);
    assert(n * n <= 65025) by (nonlinear_arith)
        requires
            n <= 255,
    ;
    let mut y: usize = 0;
    assert(out@ =~= head + short_rows(board@, n as int, 0));
    while y < n
        invariant
            n <= 255,
            n * n <= 65025,
            n == board.side(),
            n * n == board@.len(),
            tiles@ == board@,
            y <= n,
            out@ == head + short_rows(board@, n as int, y as int),
        decreases n - y,
    {
        let ghost before = out@;
        if y > 0 {
            out.push('/');
        }
        let ghost start = out@;
        let ghost row = row_glyphs(board@, n as int, y as int);
        let mut empty: usize = 0;
        let mut x: usize = 0;
        assert(out@ =~= start + short_upto(row, 0).out);
        while x < n
            invariant
                n <= 255,
                n * n <= 65025,
                n * n == board@.len(),
                tiles@ == board@,
                y < n,
                x <= n,
                row == row_glyphs(board@, n as int, y as int),
                empty == short_upto(row, x as int).empty,
                empty <= x,
                out@ == start + short_upto(row, x as int).out,
            decreases n - x,
        {
            assert(y * n + x < n * n) by (nonlinear_arith)
                requires
                    x < n,
                    y < n,
            {
                assert(y * n <= (n - 1) * n);
            }
            let c = glyph_of(tiles[y * n + x]);
            assert(row[x as int] == c);
            let ghost so_far = short_upto(row, x as int);
            if c == '-' {
                empty += 1;
            } else {
                if empty > 0 {
                    push_decimal(&mut out, empty);
                }
                out.push(c);
                proof {
                    if so_far.empty > 0 {
                        assert(out@ =~= start + (so_far.out + decimal(so_far.empty) + seq![c]));
                    } else {
                        assert(out@ =~= start + (so_far.out + seq![c]));
                    }
                }
                empty = 0;
            }
            x += 1;
        }
        proof {
            if y == 0 {
                assert(out@ =~= head + short_row(row));
            } else {
                assert(out@ =~= head + (short_rows(board@, n as int, y as int) + seq!['/']
                    + short_row(row)));
            }
        }
        y += 1;
    }
    string_of(&out)
}

} // verus!
