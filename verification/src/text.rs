//! Text: characters, lines and decimal numbers, as the board and the tile pointer are
//! written and read.

use vstd::prelude::*;
use vstd::std_specs::iter::IteratorSpec;

verus! {

/// The digit `d`, `0 <= d < 10`, as a character.
pub open spec fn digit(d: int) -> char {
    ((48 + d) as u8) as char
}

/// The `i`-th lowercase letter, counted from 0, as a character; beyond `z` the characters
/// that follow it.
pub open spec fn letter(i: int) -> char {
    ((97 + i) as u8) as char
}

/// The decimal digits of a number that is not negative.
pub open spec fn decimal(n: int) -> Seq<char>
    decreases n,
{
    if n < 10 {
        seq![digit(n)]
    } else {
        decimal(n / 10).push(digit(n % 10))
    }
}

/// The character is a decimal digit.
pub open spec fn is_digit(c: char) -> bool {
    48 <= c as int <= 57
}

/// The number that a sequence of decimal digits stands for.
pub open spec fn digits_value(digits: Seq<char>) -> int
    decreases digits.len(),
{
    if digits.len() == 0 {
        0
    } else {
        digits_value(digits.drop_last()) * 10 + (digits.last() as int - 48)
    }
}

/// All characters of the sequence are decimal digits.
pub open spec fn all_digits(digits: Seq<char>) -> bool {
    forall|i: int| 0 <= i < digits.len() ==> is_digit(#[trigger] digits[i])
}

/// The decimal digits of a number are digits, and stand for the number.
pub proof fn lemma_decimal(n: int)
    requires
        n >= 0,
    ensures
        decimal(n).len() >= 1,
        all_digits(decimal(n)),
        digits_value(decimal(n)) == n,
        n < 10 ==> decimal(n).len() == 1,
        10 <= n < 100 ==> decimal(n).len() == 2,
    decreases n,
{
    if n < 10 {
        assert(decimal(n).drop_last() =~= Seq::<char>::empty());
        assert(digits_value(decimal(n).drop_last()) == 0);
    } else {
        lemma_decimal(n / 10);
        assert(decimal(n).drop_last() =~= decimal(n / 10));
    }
}

/// A number in decimal digits is no smaller than the number of its first digits.
pub proof fn lemma_digits_grow(digits: Seq<char>, k: int)
    requires
        all_digits(digits),
        0 <= k <= digits.len(),
    ensures
        0 <= digits_value(digits.take(k)) <= digits_value(digits),
    decreases digits.len(),
{
    if digits.len() == 0 {
        assert(digits.take(k) =~= digits);
    } else {
        let init = digits.drop_last();
        assert forall|i: int| 0 <= i < init.len() implies is_digit(#[trigger] init[i]) by {
            assert(init[i] == digits[i]);
        }
        assert(is_digit(digits[digits.len() - 1]));
        lemma_digits_grow(init, 0);
        if k == digits.len() {
            assert(digits.take(k) =~= digits);
        } else {
            lemma_digits_grow(init, k);
            assert(init.take(k) =~= digits.take(k));
        }
    }
}

/// A line with its closing carriage return taken off, if it has one.
pub open spec fn strip_cr(line: Seq<char>) -> Seq<char> {
    if line.len() > 0 && line.last() == '\r' {
        line.drop_last()
    } else {
        line
    }
}

/// State of the split of a text into lines: the lines that are closed, and the characters
/// of the line that is open.
pub struct Split {
    pub lines: Seq<Seq<char>>,
    pub current: Seq<char>,
}

/// The split after one more character: a line feed closes the open line, which loses a
/// closing carriage return; any other character goes to the open line.
pub open spec fn split_step(st: Split, c: char) -> Split {
    if c == '\n' {
        Split { lines: st.lines.push(strip_cr(st.current)), current: Seq::empty() }
    } else {
        Split { lines: st.lines, current: st.current.push(c) }
    }
}

/// The split after all characters of `text`, from the split `st`.
pub open spec fn split_from(text: Seq<char>, st: Split) -> Split
    decreases text.len(),
{
    if text.len() == 0 {
        st
    } else {
        split_from(text.drop_first(), split_step(st, text[0]))
    }
}

/// The lines of a finished split: an open line counts if it holds a character.
pub open spec fn split_end(st: Split) -> Seq<Seq<char>> {
    if st.current.len() > 0 {
        st.lines.push(st.current)
    } else {
        st.lines
    }
}

/// The lines of a text. Lines end with a line feed, or a carriage return and a line feed;
/// the last line need not end so.
pub open spec fn lines_of(text: Seq<char>) -> Seq<Seq<char>> {
    split_end(split_from(text, Split { lines: Seq::empty(), current: Seq::empty() }))
}

/// The text of some lines, each closed by a line feed.
pub open spec fn join_lines(lines: Seq<Seq<char>>) -> Seq<char>
    decreases lines.len(),
{
    if lines.len() == 0 {
        Seq::empty()
    } else {
        join_lines(lines.drop_last()) + lines.last() + seq!['\n']
    }
}

/// A line that can be written and read back: it holds no line feed and does not end with a
/// carriage return.
pub open spec fn plain_line(line: Seq<char>) -> bool {
    &&& forall|i: int| 0 <= i < line.len() ==> #[trigger] line[i] != '\n'
    &&& strip_cr(line) == line
}

/// A text can be split part by part.
proof fn lemma_split_append(a: Seq<char>, b: Seq<char>, st: Split)
    ensures
        split_from(a + b, st) == split_from(b, split_from(a, st)),
    decreases a.len(),
{
    if a.len() == 0 {
        assert(a + b =~= b);
    } else {
        assert((a + b).drop_first() =~= a.drop_first() + b);
        lemma_split_append(a.drop_first(), b, split_step(st, a[0]));
    }
}

/// Characters that are no line feeds all go to the open line.
proof fn lemma_split_plain(line: Seq<char>, st: Split)
    requires
        forall|i: int| 0 <= i < line.len() ==> #[trigger] line[i] != '\n',
    ensures
        split_from(line, st) == (Split { lines: st.lines, current: st.current + line }),
    decreases line.len(),
{
    if line.len() == 0 {
        assert(st.current + line =~= st.current);
    } else {
        let next = split_step(st, line[0]);
        assert forall|i: int| 0 <= i < line.drop_first().len() implies #[trigger] line.drop_first()[i]
            != '\n' by {
            assert(line.drop_first()[i] == line[i + 1]);
        }
        lemma_split_plain(line.drop_first(), next);
        assert(next.current + line.drop_first() =~= st.current + line);
    }
}

/// The split of joined lines closes each of them and leaves no line open.
proof fn lemma_split_joined(lines: Seq<Seq<char>>)
    requires
        forall|k: int| 0 <= k < lines.len() ==> plain_line(#[trigger] lines[k]),
    ensures
        split_from(join_lines(lines), Split { lines: Seq::empty(), current: Seq::empty() }) == (
        Split { lines, current: Seq::empty() }),
    decreases lines.len(),
{
    let start = Split { lines: Seq::empty(), current: Seq::empty() };
    if lines.len() > 0 {
        let init = lines.drop_last();
        let last = lines.last();
        assert forall|k: int| 0 <= k < init.len() implies plain_line(#[trigger] init[k]) by {
            assert(init[k] == lines[k]);
        }
        lemma_split_joined(init);
        assert(plain_line(lines[lines.len() - 1]));
        let closed = last + seq!['\n'];
        assert(join_lines(lines) =~= join_lines(init) + closed);
        lemma_split_append(join_lines(init), closed, start);
        let mid = Split { lines: init, current: Seq::empty() };
        lemma_split_append(last, seq!['\n'], mid);
        lemma_split_plain(last, mid);
        assert(Seq::<char>::empty() + last =~= last);
        let open = Split { lines: init, current: last };
        let one = seq!['\n'];
        assert(one.len() == 1 && one[0] == '\n');
        assert(one.drop_first().len() == 0);
        assert(split_from(one, open) == split_from(one.drop_first(), split_step(open, one[0])));
        assert(split_from(one.drop_first(), split_step(open, '\n')) == split_step(open, '\n'));
        assert(init.push(last) =~= lines);
    } else {
        assert(lines =~= Seq::<Seq<char>>::empty());
    }
}

/// Lines that are written one after the other, each closed by a line feed, are read back as
/// they were, if none of them holds a line feed or ends with a carriage return.
pub proof fn lemma_lines_of_joined(lines: Seq<Seq<char>>)
    requires
        forall|k: int| 0 <= k < lines.len() ==> plain_line(#[trigger] lines[k]),
    ensures
        lines_of(join_lines(lines)) == lines,
{
    lemma_split_joined(lines);
}

/// The views of a list of lines.
pub open spec fn lines_view(lines: Seq<Vec<char>>) -> Seq<Seq<char>> {
    Seq::new(lines.len(), |k: int| lines[k]@)
}

/// Appends a character to a string: `String::push`.
#[verifier::external_body]
fn push_char(text: &mut String, c: char)
    ensures
        final(text)@ == old(text)@.push(c),
{
    text.push(c);
}

/// The characters of a string.
pub fn chars_of(text: &str) -> (chars: Vec<char>)
    ensures
        chars@ == text@,
{
    let mut chars: Vec<char> = Vec::new();
    let mut rest = text.chars();
    loop
        invariant
            chars@ + rest.remaining() == text@,
            rest.obeys_prophetic_iter_laws(),
            rest.decrease() is Some,
        ensures
            chars@ == text@,
        decreases rest.decrease()->0,
    {
        let ghost before = rest;
        match rest.next() {
            Some(c) => {
                proof {
                    assert(chars@.push(c) + rest.remaining() =~= chars@ + before.remaining());
                }
                chars.push(c);
            },
            None => {
                proof {
                    assert(chars@ + rest.remaining() =~= chars@);
                }
                break ;
            },
        }
    }
    chars
}

/// The string of some characters.
pub fn string_of(chars: &Vec<char>) -> (text: String)
    ensures
        text@ == chars@,
{
    let mut text = String::new();
    let mut i: usize = 0;
    while i < chars.len()
        invariant
            i <= chars@.len(),
            text@ == chars@.take(i as int),
        decreases chars@.len() - i,
    {
        push_char(&mut text, chars[i]);
        assert(chars@.take(i as int).push(chars@[i as int]) =~= chars@.take(i as int + 1));
        i += 1;
    }
    assert(chars@.take(chars@.len() as int) =~= chars@);
    text
}

/// The code of a character.
pub fn char_code(c: char) -> (code: u32)
    ensures
        code == c as int,
{
    c as u32
}

/// The digit `d` as a character.
pub fn digit_char(d: u8) -> (c: char)
    requires
        d < 10,
    ensures
        c == digit(d as int),
{
    (48 + d) as char
}

/// The `i`-th lowercase letter, counted from 0, as a character.
pub fn letter_char(i: u8) -> (c: char)
    requires
        i <= 158,
    ensures
        c == letter(i as int),
{
    (97 + i) as char
}

/// Appends the decimal digits of a number.
pub fn push_decimal(out: &mut Vec<char>, n: usize)
    ensures
        final(out)@ == old(out)@ + decimal(n as int),
    decreases n,
{
    if n >= 10 {
        push_decimal(out, n / 10);
    }
    let ghost before = out@;
    out.push(digit_char((n % 10) as u8));
    proof {
        if n >= 10 {
            assert(out@ =~= old(out)@ + decimal(n as int));
        } else {
            assert(out@ =~= old(out)@ + decimal(n as int));
        }
    }
}

/// The decimal digits of a number, after a minus sign if the number is negative.
pub open spec fn signed_decimal(n: int) -> Seq<char> {
    if n < 0 {
        seq!['-'] + decimal(-n)
    } else {
        decimal(n)
    }
}

/// Appends the decimal digits of a number of 64 bits.
pub fn push_decimal_wide(out: &mut Vec<char>, n: u64)
    ensures
        final(out)@ == old(out)@ + decimal(n as int),
    decreases n,
{
    if n >= 10 {
        push_decimal_wide(out, n / 10);
    }
    out.push(digit_char((n % 10) as u8));
    assert(out@ =~= old(out)@ + decimal(n as int));
}

/// Appends the decimal digits of a number, after a minus sign if the number is negative.
pub fn push_signed(out: &mut Vec<char>, n: i64)
    ensures
        final(out)@ == old(out)@ + signed_decimal(n as int),
{
    if n < 0 {
        out.push('-');
        let size: u64 = if n == i64::MIN {
            9_223_372_036_854_775_808
        } else {
            (-n) as u64
        };
        push_decimal_wide(out, size);
        assert(out@ =~= old(out)@ + signed_decimal(n as int));
    } else {
        push_decimal_wide(out, n as u64);
    }
}

/// Splits a text into its lines.
pub fn split_lines(chars: &Vec<char>) -> (lines: Vec<Vec<char>>)
    ensures
        lines_view(lines@) == lines_of(chars@),
{
    let ghost start = Split { lines: Seq::empty(), current: Seq::empty() };
    let mut lines: Vec<Vec<char>> = Vec::new();
    let mut current: Vec<char> = Vec::new();
    let mut i: usize = 0;
    assert(chars@.subrange(0, chars@.len() as int) =~= chars@);
    assert(lines_view(lines@) =~= Seq::<Seq<char>>::empty());
    while i < chars.len()
        invariant
            i <= chars@.len(),
            split_from(
                chars@.subrange(i as int, chars@.len() as int),
                Split { lines: lines_view(lines@), current: current@ },
            ) == split_from(chars@, start),
        decreases chars@.len() - i,
    {
        let ghost rest = chars@.subrange(i as int, chars@.len() as int);
        let ghost st = Split { lines: lines_view(lines@), current: current@ };
        assert(rest.drop_first() =~= chars@.subrange(i as int + 1, chars@.len() as int));
        let c = chars[i];
        if c == '\n' {
            if current.len() > 0 && current[current.len() - 1] == '\r' {
                current.pop();
            }
            let ghost before = lines_view(lines@);
            lines.push(current);
            current = Vec::new();
            assert(lines_view(lines@) =~= before.push(strip_cr(st.current)));
        } else {
            current.push(c);
        }
        i += 1;
    }
    if current.len() > 0 {
        let ghost before = lines_view(lines@);
        lines.push(current);
        assert(lines_view(lines@) =~= before.push(current@));
    }
    lines
}

} // verus!
