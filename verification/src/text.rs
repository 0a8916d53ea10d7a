//! Text with numbers in it.

use crate::binary32::Binary32;
use crate::binary64::Binary64;
use vstd::prelude::*;
use vstd::string::*;

verus! {

/// A part of a text. The caller writes floating-point numbers out, and [`join`] puts the text
/// together.
#[derive(Clone, Copy, Debug)]
pub enum Piece {
    /// Words that stand as they are.
    Text(&'static str),
    /// A binary32 number.
    Number(Binary32),
    /// An integer.
    Count(u64),
    /// An integer, flush right in a column.
    Column { count: u64, width: usize },
    /// A share in percent with two decimals, flush right in a column.
    Share { percent: Binary64, width: usize },
}

/// The character of a decimal digit.
pub open spec fn digit(d: nat) -> char {
    if d == 0 {
        '0'
    } else if d == 1 {
        '1'
    } else if d == 2 {
        '2'
    } else if d == 3 {
        '3'
    } else if d == 4 {
        '4'
    } else if d == 5 {
        '5'
    } else if d == 6 {
        '6'
    } else if d == 7 {
        '7'
    } else if d == 8 {
        '8'
    } else {
        '9'
    }
}

/// An integer in decimal.
pub open spec fn decimal(n: nat) -> Seq<char>
    decreases n,
{
    if n < 10 {
        seq![digit(n)]
    } else {
        decimal(n / 10).push(digit(n % 10))
    }
}

/// Appends a decimal digit.
fn write_digit(out: &mut String, d: u64)
    requires
        d < 10,
    ensures
        final(out)@ == old(out)@.push(digit(d as nat)),
{
    let digits = "0123456789";
    proof {
        reveal_strlit("0123456789");
    }
    out.append(digits.substring_char(d as usize, d as usize + 1));
    assert(out@ =~= old(out)@.push(digit(d as nat)));
}

/// Appends an integer in decimal.
pub fn write_decimal(out: &mut String, n: u64)
    ensures
        final(out)@ == old(out)@ + decimal(n as nat),
    decreases n,
{
    if n >= 10 {
        write_decimal(out, n / 10);
    }
    let ghost before = out@;
    write_digit(out, n % 10);
    assert(out@ =~= old(out)@ + decimal(n as nat));
}

/// The characters of each string.
pub open spec fn texts(strings: Seq<String>) -> Seq<Seq<char>> {
    Seq::new(strings.len(), |i: int| strings[i]@)
}

/// `count` spaces.
pub open spec fn spaces(count: nat) -> Seq<char> {
    Seq::new(count, |i: int| ' ')
}

/// The text with spaces before it, so that it is at least `width` characters long.
pub open spec fn flush_right(text: Seq<char>, width: usize) -> Seq<char> {
    if text.len() < width {
        spaces((width - text.len()) as nat) + text
    } else {
        text
    }
}

/// Appends a text, flush right in a column.
fn write_flush_right(out: &mut String, text: &str, width: usize)
    ensures
        final(out)@ == old(out)@ + flush_right(text@, width),
{
    let len: usize = text.unicode_len();
    let mut column: usize = len;
    proof {
        reveal_strlit(" ");
        assert(out@ =~= old(out)@ + spaces(0));
    }
    while column < width
        invariant
            len <= column,
            column <= width || column == len,
            out@ == old(out)@ + spaces((column - len) as nat),
            " "@ == seq![' '],
        decreases width - column,
    {
        out.append(" ");
        column = column + 1;
        assert(out@ =~= old(out)@ + spaces((column - len) as nat));
    }
    out.append(text);
    assert(out@ =~= old(out)@ + flush_right(text@, width));
}

/// The caller writes this part out.
pub open spec fn is_float(piece: Piece) -> bool {
    piece is Number || piece is Share
}

/// How many floating-point numbers are among the parts.
pub open spec fn number_count(pieces: Seq<Piece>) -> nat
    decreases pieces.len(),
{
    if pieces.len() == 0 {
        0
    } else {
        number_count(pieces.drop_last()) + if is_float(pieces.last()) {
            1nat
        } else {
            0
        }
    }
}

/// The parts in order: words as they are, integers in decimal, and for each floating-point number
/// the next of `numbers`; what stands in a column is set flush right.
pub open spec fn joined(pieces: Seq<Piece>, numbers: Seq<Seq<char>>) -> Seq<char>
    decreases pieces.len(),
{
    if pieces.len() == 0 {
        seq![]
    } else {
        let head = pieces.drop_last();
        joined(head, numbers) + match pieces.last() {
            Piece::Text(text) => text@,
            Piece::Number(_) => numbers[number_count(head) as int],
            Piece::Count(n) => decimal(n as nat),
            Piece::Column { count, width } => flush_right(decimal(count as nat), width),
            Piece::Share { width, .. } => flush_right(numbers[number_count(head) as int], width),
        }
    }
}

/// The first parts have no more numbers than all of them.
proof fn lemma_number_count(pieces: Seq<Piece>, i: int)
    requires
        0 <= i <= pieces.len(),
    ensures
        number_count(pieces.take(i)) <= number_count(pieces),
    decreases pieces.len() - i,
{
    if i < pieces.len() {
        lemma_number_count(pieces, i + 1);
        assert(pieces.take(i + 1).drop_last() =~= pieces.take(i));
    } else {
        assert(pieces.take(i) =~= pieces);
    }
}

/// Puts a text together; `numbers` are its floating-point numbers, written out.
pub fn join(pieces: &[Piece], numbers: &[String]) -> (r: String)
    requires
        numbers@.len() == number_count(pieces@),
    ensures
        r@ == joined(pieces@, texts(numbers@)),
{
    let mut r = String::new();
    let mut used: usize = 0;
    let mut i: usize = 0;
    assert(pieces@.take(0) =~= seq![]);
    while i < pieces.len()
        invariant
            i <= pieces@.len(),
            numbers@.len() == number_count(pieces@),
            used == number_count(pieces@.take(i as int)),
            r@ == joined(pieces@.take(i as int), texts(numbers@)),
        decreases pieces@.len() - i,
    {
        proof {
            lemma_number_count(pieces@, i + 1);
            assert(pieces@.take(i + 1).drop_last() =~= pieces@.take(i as int));
            assert(pieces@.take(i + 1).last() == pieces@[i as int]);
        }
        match pieces[i] {
            Piece::Text(text) => r.append(text),
            Piece::Number(_) => {
                r.append(numbers[used].as_str());
                used = used + 1;
            },
            Piece::Count(n) => write_decimal(&mut r, n),
            Piece::Column { count, width } => {
                let mut digits = String::new();
                write_decimal(&mut digits, count);
                assert(digits@ =~= decimal(count as nat));
                write_flush_right(&mut r, digits.as_str(), width);
            },
            Piece::Share { percent: _, width } => {
                write_flush_right(&mut r, numbers[used].as_str(), width);
                used = used + 1;
            },
        }
        i = i + 1;
    }
    assert(pieces@.take(i as int) =~= pieces@);
    r
}

} // verus!
