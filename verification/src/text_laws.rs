//! What holds of texts with numbers in them.

use crate::binary32::Binary32;
use crate::binary64::Binary64;
use crate::text::{decimal, digit, flush_right, joined, number_count, spaces, texts, Piece};
use vstd::prelude::*;

verus! {

/// The number that a row of decimal digits stands for.
pub open spec fn denoted(digits: Seq<char>) -> int
    decreases digits.len(),
{
    if digits.len() == 0 {
        0
    } else {
        10 * denoted(digits.drop_last()) + (digits.last() as int - '0' as int)
    }
}

/// A decimal stands for its integer, is made of digits, and starts with a zero only where it is
/// zero.
pub proof fn law_decimal_stands_for_its_integer(n: nat)
    ensures
        denoted(decimal(n)) == n,
        decimal(n).len() > 0,
        forall|i: int|
            0 <= i < decimal(n).len() ==> '0' as int <= (#[trigger] decimal(n)[i]) as int
                <= '9' as int,
        n > 0 ==> decimal(n)[0] != '0',
        n == 0 ==> decimal(n) == seq!['0'],
    decreases n,
{
    if n < 10 {
        let one = seq![digit(n)];
        assert(one.drop_last() =~= Seq::<char>::empty());
        assert(denoted(one.drop_last()) == 0);
        assert(one.last() == digit(n));
    } else {
        law_decimal_stands_for_its_integer(n / 10);
        let head = decimal(n / 10);
        let all = head.push(digit(n % 10));
        assert(all.drop_last() =~= head);
        assert(all[0] == head[0]);
        assert forall|i: int| 0 <= i < all.len() implies '0' as int <= (
        #[trigger] all[i]) as int <= '9' as int by {
            if i < head.len() {
                assert(all[i] == head[i]);
            }
        }
    }
}

/// Different integers have different decimals.
pub proof fn law_decimals_tell_integers_apart(a: nat, b: nat)
    ensures
        decimal(a) == decimal(b) ==> a == b,
{
    law_decimal_stands_for_its_integer(a);
    law_decimal_stands_for_its_integer(b);
}

/// A text that is set flush right ends with the text, starts with spaces, and fills its column or
/// is as long as the text.
pub proof fn law_flush_right_fills_its_column(text: Seq<char>, width: usize)
    ensures
        ({
            let r = flush_right(text, width);
            let start = r.len() - text.len();
            &&& r.len() == if text.len() < width {
                width as nat
            } else {
                text.len()
            }
            &&& r.subrange(start, r.len() as int) == text
            &&& forall|i: int| 0 <= i < start ==> #[trigger] r[i] == ' '
        }),
{
    let r = flush_right(text, width);
    let start = r.len() - text.len();
    assert(r.subrange(start, r.len() as int) =~= text);
    assert(spaces(start as nat).len() == start);
}

/// Parts in a row have the numbers of both.
proof fn lemma_counts_add(a: Seq<Piece>, b: Seq<Piece>)
    ensures
        number_count(a + b) == number_count(a) + number_count(b),
    decreases b.len(),
{
    if b.len() == 0 {
        assert(a + b =~= a);
    } else {
        lemma_counts_add(a, b.drop_last());
        assert((a + b).drop_last() =~= a + b.drop_last());
    }
}

/// The text of parts in a row is that of the first and then that of the rest, each with its own
/// numbers.
pub proof fn law_text_of_parts_in_a_row(
    a: Seq<Piece>,
    b: Seq<Piece>,
    x: Seq<Seq<char>>,
    y: Seq<Seq<char>>,
)
    requires
        x.len() == number_count(a),
        y.len() == number_count(b),
    ensures
        number_count(a + b) == x.len() + y.len(),
        joined(a + b, x + y) == joined(a, x) + joined(b, y),
{
    lemma_counts_add(a, b);
    lemma_joined(a, b, x, y);
}

/// Numbers behind those that are used do not matter.
proof fn lemma_spare_numbers(a: Seq<Piece>, x: Seq<Seq<char>>, y: Seq<Seq<char>>)
    requires
        number_count(a) <= x.len(),
    ensures
        joined(a, x + y) == joined(a, x),
    decreases a.len(),
{
    if a.len() > 0 {
        lemma_spare_numbers(a.drop_last(), x, y);
    }
}

/// The text of parts in a row, where there may be more numbers.
proof fn lemma_joined(a: Seq<Piece>, b: Seq<Piece>, x: Seq<Seq<char>>, y: Seq<Seq<char>>)
    requires
        x.len() == number_count(a),
        number_count(b) <= y.len(),
    ensures
        joined(a + b, x + y) == joined(a, x) + joined(b, y),
    decreases b.len(),
{
    if b.len() == 0 {
        assert(a + b =~= a);
        lemma_spare_numbers(a, x, y);
        assert(joined(a, x) + joined(b, y) =~= joined(a, x));
    } else {
        let head = b.drop_last();
        lemma_joined(a, head, x, y);
        lemma_counts_add(a, head);
        assert((a + b).drop_last() =~= a + head);
        assert((a + b).last() == b.last());
        if crate::text::is_float(b.last()) {
            assert((x + y)[(x.len() + number_count(head)) as int] == y[number_count(head) as int]);
        }
        assert(joined(a + b, x + y) =~= joined(a, x) + joined(b, y));
    }
}

/// The text of one part: words stand as they are, integers in decimal, numbers as they are written
/// out, and what has a column flush right.
pub proof fn law_text_of_one_part(
    words: &'static str,
    number: Binary32,
    count: u64,
    width: usize,
    percent: Binary64,
    written: Seq<char>,
)
    ensures
        joined(seq![Piece::Text(words)], seq![]) == words@,
        joined(seq![Piece::Count(count)], seq![]) == decimal(count as nat),
        joined(seq![Piece::Column { count, width }], seq![]) == flush_right(
            decimal(count as nat),
            width,
        ),
        number_count(seq![Piece::Number(number)]) == 1,
        joined(seq![Piece::Number(number)], seq![written]) == written,
        number_count(seq![Piece::Share { percent, width }]) == 1,
        joined(seq![Piece::Share { percent, width }], seq![written]) == flush_right(written, width),
{
    let none = Seq::<Piece>::empty();
    assert(joined(none, seq![]) == Seq::<char>::empty());
    assert(joined(none, seq![written]) == Seq::<char>::empty());
    assert(number_count(none) == 0);
    assert(seq![Piece::Text(words)].drop_last() =~= none);
    assert(seq![Piece::Count(count)].drop_last() =~= none);
    assert(seq![Piece::Column { count, width }].drop_last() =~= none);
    assert(seq![Piece::Number(number)].drop_last() =~= none);
    assert(seq![Piece::Share { percent, width }].drop_last() =~= none);
    assert(joined(seq![Piece::Text(words)], seq![]) =~= words@);
    assert(joined(seq![Piece::Count(count)], seq![]) =~= decimal(count as nat));
    assert(joined(seq![Piece::Column { count, width }], seq![]) =~= flush_right(
        decimal(count as nat),
        width,
    ));
    assert(joined(seq![Piece::Number(number)], seq![written]) =~= written);
    assert(joined(seq![Piece::Share { percent, width }], seq![written]) =~= flush_right(
        written,
        width,
    ));
}

/// The characters of strings are those of each, in order.
pub proof fn law_texts_are_those_of_the_strings(strings: Seq<String>, i: int)
    requires
        0 <= i < strings.len(),
    ensures
        texts(strings).len() == strings.len(),
        texts(strings)[i] == strings[i]@,
{
}

} // verus!
