//! Histograms over buckets.

use crate::binary64::Binary64;
use crate::text::Piece;
use crate::wide_arithmetic::{wide_from_integer, wide_product, wide_quotient};
use vstd::prelude::*;
use vstd::string::*;

verus! {

/// The pattern of one hundred.
pub const HUNDRED_BITS: u64 = 0x4059_0000_0000_0000;

/// The number of positions in a histogram.
pub open spec fn total(hist: Seq<u64>) -> nat
    decreases hist.len(),
{
    if hist.len() == 0 {
        0
    } else {
        total(hist.drop_last()) + hist.last() as nat
    }
}

/// How many of the positions are in the bucket `b`.
pub open spec fn tally(buckets: Seq<u8>, b: int) -> nat
    decreases buckets.len(),
{
    if buckets.len() == 0 {
        0
    } else {
        tally(buckets.drop_last(), b) + if buckets.last() == b {
            1nat
        } else {
            0
        }
    }
}

/// `hist` counts the positions in each of its buckets.
pub open spec fn counts(hist: Seq<u64>, buckets: Seq<u8>) -> bool {
    forall|b: int| 0 <= b < hist.len() ==> #[trigger] hist[b] == tally(buckets, b)
}

/// Every position is in one of `num_buckets` buckets.
pub open spec fn in_range(buckets: Seq<u8>, num_buckets: int) -> bool {
    forall|i: int| 0 <= i < buckets.len() ==> (#[trigger] buckets[i]) < num_buckets
}

/// The first part of a histogram holds no more than the whole.
pub proof fn lemma_total_take(hist: Seq<u64>, i: int)
    requires
        0 <= i <= hist.len(),
    ensures
        total(hist.take(i)) <= total(hist),
    decreases hist.len() - i,
{
    if i < hist.len() {
        lemma_total_take(hist, i + 1);
        assert(hist.take(i + 1).drop_last() =~= hist.take(i));
    } else {
        assert(hist.take(i) =~= hist);
    }
}

/// One bucket holds no more than the histogram.
pub proof fn lemma_bucket_in_total(hist: Seq<u64>, b: int)
    requires
        0 <= b < hist.len(),
    ensures
        hist[b] <= total(hist),
{
    lemma_total_take(hist, b + 1);
    assert(hist.take(b + 1).last() == hist[b]);
}

/// One position more in a bucket is one more in the histogram.
pub proof fn lemma_total_update(hist: Seq<u64>, b: int, n: u64)
    requires
        0 <= b < hist.len(),
    ensures
        total(hist.update(b, n)) == total(hist) - hist[b] + n,
    decreases hist.len(),
{
    let next = hist.update(b, n);
    if b == hist.len() - 1 {
        assert(next.drop_last() =~= hist.drop_last());
    } else {
        assert(next.drop_last() =~= hist.drop_last().update(b, n));
        lemma_total_update(hist.drop_last(), b, n);
        assert(hist.drop_last()[b] == hist[b]);
    }
}

/// An empty histogram holds nothing.
pub proof fn lemma_total_zero(hist: Seq<u64>)
    requires
        forall|b: int| 0 <= b < hist.len() ==> #[trigger] hist[b] == 0,
    ensures
        total(hist) == 0,
    decreases hist.len(),
{
    if hist.len() > 0 {
        assert forall|b: int| 0 <= b < hist.drop_last().len() implies #[trigger] hist.drop_last()[b]
            == 0 by {
            assert(hist.drop_last()[b] == hist[b]);
        }
        lemma_total_zero(hist.drop_last());
    }
}

/// A histogram over empty buckets.
pub fn empty_hist(num_buckets: usize) -> (hist: Vec<u64>)
    ensures
        hist@.len() == num_buckets,
        forall|b: int| 0 <= b < num_buckets ==> #[trigger] hist@[b] == 0,
        total(hist@) == 0,
        counts(hist@, seq![]),
{
    let mut hist: Vec<u64> = Vec::new();
    while hist.len() < num_buckets
        invariant
            hist@.len() <= num_buckets,
            forall|b: int| 0 <= b < hist@.len() ==> #[trigger] hist@[b] == 0,
        decreases num_buckets - hist@.len(),
    {
        hist.push(0);
    }
    proof {
        lemma_total_zero(hist@);
    }
    hist
}

/// Counts one position more in the bucket `b`.
pub fn count_one(hist: &mut Vec<u64>, b: u8)
    requires
        b < old(hist)@.len(),
        total(old(hist)@) < u64::MAX,
    ensures
        final(hist)@ == old(hist)@.update(b as int, (old(hist)@[b as int] + 1) as u64),
        total(final(hist)@) == total(old(hist)@) + 1,
{
    proof {
        lemma_bucket_in_total(hist@, b as int);
        lemma_total_update(hist@, b as int, (hist@[b as int] + 1) as u64);
    }
    let i: usize = b as usize;
    let n: u64 = hist[i];
    hist.set(i, n + 1);
}

/// Counts the positions in each of `num_buckets` buckets.
pub fn count_buckets(buckets: &[u8], num_buckets: usize) -> (hist: Vec<u64>)
    requires
        in_range(buckets@, num_buckets as int),
    ensures
        hist@.len() == num_buckets,
        counts(hist@, buckets@),
        total(hist@) == buckets@.len(),
{
    let mut hist: Vec<u64> = empty_hist(num_buckets);
    let mut i: usize = 0;
    assert(buckets@.take(0) =~= seq![]);
    while i < buckets.len()
        invariant
            i <= buckets@.len(),
            in_range(buckets@, num_buckets as int),
            hist@.len() == num_buckets,
            counts(hist@, buckets@.take(i as int)),
            total(hist@) == i,
        decreases buckets@.len() - i,
    {
        assert(buckets@.take(i + 1).drop_last() =~= buckets@.take(i as int));
        assert(buckets@.take(i + 1).last() == buckets@[i as int]);
        let ghost before = hist@;
        let b: u8 = buckets[i];
        count_one(&mut hist, b);
        i = i + 1;
        proof {
            lemma_bucket_in_total(before, b as int);
            assert forall|k: int| 0 <= k < hist@.len() implies #[trigger] hist@[k] == tally(
                buckets@.take(i as int),
                k,
            ) by {
                assert(before[k] == tally(buckets@.take(i - 1), k));
            }
        }
    }
    assert(buckets@.take(i as int) =~= buckets@);
    hist
}

/// The sum of two histograms, bucket by bucket.
pub open spec fn added(a: Seq<u64>, b: Seq<u64>) -> Seq<u64> {
    Seq::new(a.len(), |i: int| (a[i] + b[i]) as u64)
}

/// The sum of two histograms holds what both hold.
pub proof fn lemma_total_added(a: Seq<u64>, b: Seq<u64>)
    requires
        a.len() == b.len(),
        total(a) + total(b) <= u64::MAX,
    ensures
        total(added(a, b)) == total(a) + total(b),
    decreases a.len(),
{
    if a.len() > 0 {
        let c = added(a, b);
        lemma_total_added(a.drop_last(), b.drop_last());
        assert(c.drop_last() =~= added(a.drop_last(), b.drop_last()));
    }
}

/// Adds a histogram to another one.
pub fn add_hist(hist: &mut Vec<u64>, more: &[u64])
    requires
        old(hist)@.len() == more@.len(),
        total(old(hist)@) + total(more@) <= u64::MAX,
    ensures
        final(hist)@ == added(old(hist)@, more@),
        total(final(hist)@) == total(old(hist)@) + total(more@),
{
    let ghost before = hist@;
    let mut b: usize = 0;
    while b < more.len()
        invariant
            b <= more@.len(),
            hist@.len() == more@.len(),
            before.len() == more@.len(),
            total(before) + total(more@) <= u64::MAX,
            forall|i: int| 0 <= i < b ==> #[trigger] hist@[i] == (before[i] + more@[i]) as u64,
            forall|i: int| b <= i < hist@.len() ==> #[trigger] hist@[i] == before[i],
        decreases more@.len() - b,
    {
        proof {
            lemma_bucket_in_total(before, b as int);
            lemma_bucket_in_total(more@, b as int);
        }
        let n: u64 = hist[b] + more[b];
        hist.set(b, n);
        b = b + 1;
    }
    proof {
        lemma_total_added(before, more@);
        assert(hist@ =~= added(before, more@));
    }
}

/// Every position is counted once.
pub proof fn law_histogram_counts_every_position(hist: Seq<u64>, buckets: Seq<u8>)
    requires
        counts(hist, buckets),
        in_range(buckets, hist.len() as int),
    ensures
        total(hist) == buckets.len(),
    decreases buckets.len(),
{
    if buckets.len() == 0 {
        lemma_total_zero(hist);
    } else {
        let b = buckets.last() as int;
        let rest = buckets.drop_last();
        assert(buckets[buckets.len() - 1] < hist.len());
        assert(hist[b] == tally(buckets, b));
        let before = hist.update(b, (hist[b] - 1) as u64);
        assert forall|i: int| 0 <= i < before.len() implies #[trigger] before[i] == tally(
            rest,
            i,
        ) by {
            assert(hist[i] == tally(buckets, i));
        }
        assert forall|i: int| 0 <= i < rest.len() implies (#[trigger] rest[i]) < before.len() by {
            assert(rest[i] == buckets[i]);
        }
        law_histogram_counts_every_position(before, rest);
        lemma_total_update(hist, b, (hist[b] - 1) as u64);
    }
}

/// Two lots of positions together fill the sum of their histograms.
pub proof fn law_histograms_add_up(a: Seq<u64>, b: Seq<u64>, first: Seq<u8>, second: Seq<u8>)
    requires
        a.len() == b.len(),
        counts(a, first),
        counts(b, second),
        first.len() + second.len() <= u64::MAX,
    ensures
        counts(added(a, b), first + second),
{
    let c = added(a, b);
    assert forall|i: int| 0 <= i < c.len() implies #[trigger] c[i] == tally(first + second, i) by {
        lemma_tally_joined(first, second, i);
        lemma_tally_bound(first, i);
        lemma_tally_bound(second, i);
        assert(a[i] == tally(first, i));
        assert(b[i] == tally(second, i));
    }
}

/// Two lots of positions count for both.
pub proof fn lemma_tally_joined(first: Seq<u8>, second: Seq<u8>, b: int)
    ensures
        tally(first + second, b) == tally(first, b) + tally(second, b),
    decreases second.len(),
{
    if second.len() == 0 {
        assert(first + second =~= first);
    } else {
        lemma_tally_joined(first, second.drop_last(), b);
        assert((first + second).drop_last() =~= first + second.drop_last());
    }
}

/// No bucket holds more positions than there are.
proof fn lemma_tally_bound(buckets: Seq<u8>, b: int)
    ensures
        tally(buckets, b) <= buckets.len(),
    decreases buckets.len(),
{
    if buckets.len() > 0 {
        lemma_tally_bound(buckets.drop_last(), b);
    }
}

/// The number of positions in a histogram.
pub fn total_of(hist: &[u64]) -> (r: u64)
    requires
        total(hist@) <= u64::MAX,
    ensures
        r == total(hist@),
{
    let mut sum: u64 = 0;
    let mut i: usize = 0;
    while i < hist.len()
        invariant
            i <= hist@.len(),
            total(hist@) <= u64::MAX,
            sum == total(hist@.take(i as int)),
        decreases hist@.len() - i,
    {
        proof {
            lemma_total_take(hist@, i + 1);
            assert(hist@.take(i + 1).drop_last() =~= hist@.take(i as int));
        }
        sum = sum + hist[i];
        i = i + 1;
    }
    assert(hist@.take(i as int) =~= hist@);
    sum
}

/// What `count` positions are of `total`, in percent.
pub open spec fn percent(count: u64, total: nat) -> Binary64 {
    wide_quotient(
        wide_product(Binary64 { bits: HUNDRED_BITS }, wide_from_integer(count as nat)),
        wide_from_integer(total),
    )
}

/// What `count` positions are of `total`, in percent.
fn percent_of(count: u64, total: u64) -> (r: Binary64)
    ensures
        r == percent(count, total as nat),
{
    let hundred: Binary64 = Binary64 { bits: HUNDRED_BITS };
    hundred.times(Binary64::from_count(count)).over(Binary64::from_count(total))
}

/// `top` is the first of the fullest buckets, with its share in percent; an empty histogram has
/// the first bucket, with none.
pub open spec fn is_top(top: (usize, Binary64), hist: Seq<u64>) -> bool {
    if total(hist) == 0 {
        top.0 == 0 && top.1 == (Binary64 { bits: 0 })
    } else {
        &&& top.0 < hist.len()
        &&& top.1 == percent(hist[top.0 as int], total(hist))
        &&& forall|i: int| 0 <= i < hist.len() ==> #[trigger] hist[i] <= hist[top.0 as int]
        &&& forall|i: int| 0 <= i < top.0 ==> #[trigger] hist[i] < hist[top.0 as int]
    }
}

/// Finds the fullest bucket and its share in percent; of equally full ones, the first.
pub fn top_bucket(hist: &[u64]) -> (top: (usize, Binary64))
    requires
        total(hist@) <= u64::MAX,
    ensures
        is_top(top, hist@),
{
    let total: u64 = total_of(hist);
    if total == 0 {
        return (0, Binary64 { bits: 0 });
    }
    let mut top: usize = 0;
    let mut i: usize = 0;
    while i < hist.len()
        invariant
            i <= hist@.len(),
            hist@.len() > 0,
            top < hist@.len(),
            top <= i,
            forall|k: int| 0 <= k < i ==> #[trigger] hist@[k] <= hist@[top as int],
            forall|k: int| 0 <= k < top ==> #[trigger] hist@[k] < hist@[top as int],
        decreases hist@.len() - i,
    {
        if hist[i] > hist[top] {
            top = i;
        }
        i = i + 1;
    }
    (top, percent_of(hist[top], total))
}

/// A line of a printed histogram, below its heading.
#[derive(Clone, Copy, Debug, PartialEq)]
pub enum HistLine {
    /// There are no positions.
    NoPositions,
    /// What a bucket holds, and its share in percent.
    Bucket { index: usize, count: u64, share: Binary64 },
    /// The whole, and the fullest bucket with its share in percent.
    Summary { total: u64, top: usize, share: Binary64 },
}

impl HistLine {
    /// The text of the line.
    pub open spec fn text(&self) -> Seq<Piece> {
        match self {
            HistLine::NoPositions => seq![Piece::Text("(no positions)")],
            HistLine::Bucket { index, count, share } => seq![
                Piece::Text("bucket "),
                Piece::Count(*index as u64),
                Piece::Text(": "),
                Piece::Column { count: *count, width: 10 },
                Piece::Text("  ("),
                Piece::Share { percent: *share, width: 6 },
                Piece::Text("%)"),
            ],
            HistLine::Summary { total, top, share } => seq![
                Piece::Text("total "),
                Piece::Count(*total),
                Piece::Text(", top bucket "),
                Piece::Count(*top as u64),
                Piece::Text(" ("),
                Piece::Share { percent: *share, width: 0 },
                Piece::Text("%)"),
            ],
        }
    }

    /// The text of the line.
    pub fn describe(&self) -> (r: Vec<Piece>)
        ensures
            r@ == self.text(),
    {
        let r = match self {
            HistLine::NoPositions => vec![Piece::Text("(no positions)")],
            HistLine::Bucket { index, count, share } => vec![
                Piece::Text("bucket "),
                Piece::Count(*index as u64),
                Piece::Text(": "),
                Piece::Column { count: *count, width: 10 },
                Piece::Text("  ("),
                Piece::Share { percent: *share, width: 6 },
                Piece::Text("%)"),
            ],
            HistLine::Summary { total, top, share } => vec![
                Piece::Text("total "),
                Piece::Count(*total),
                Piece::Text(", top bucket "),
                Piece::Count(*top as u64),
                Piece::Text(" ("),
                Piece::Share { percent: *share, width: 0 },
                Piece::Text("%)"),
            ],
        };
        assert(r@ =~= self.text());
        r
    }
}

/// What stands above a histogram with the given label: an empty line and the heading.
pub open spec fn heading_text(label: Seq<char>) -> Seq<char> {
    "\n== "@ + label + " =="@
}

/// What stands above a histogram with the given label: an empty line and the heading.
pub fn heading(label: &str) -> (r: String)
    ensures
        r@ == heading_text(label@),
{
    let mut r = String::new();
    r.append("\n== ");
    r.append(label);
    r.append(" ==");
    assert(r@ =~= heading_text(label@));
    r
}

/// `lines` print the histogram: a line for each bucket in order, and the summary.
pub open spec fn prints(lines: Seq<HistLine>, hist: Seq<u64>) -> bool {
    if total(hist) == 0 {
        lines == seq![HistLine::NoPositions]
    } else {
        &&& lines.len() == hist.len() + 1
        &&& forall|i: int|
            0 <= i < hist.len() ==> #[trigger] lines[i] == (HistLine::Bucket {
                index: i as usize,
                count: hist[i],
                share: percent(hist[i], total(hist)),
            })
        &&& lines.last() matches HistLine::Summary { total: whole, top, share } && whole == total(
            hist,
        ) && is_top((top, share), hist)
    }
}

/// The lines that print a histogram.
pub fn print_hist(hist: &[u64]) -> (lines: Vec<HistLine>)
    requires
        total(hist@) <= u64::MAX,
    ensures
        prints(lines@, hist@),
{
    let total: u64 = total_of(hist);
    let mut lines: Vec<HistLine> = Vec::new();
    if total == 0 {
        lines.push(HistLine::NoPositions);
        assert(lines@ =~= seq![HistLine::NoPositions]);
        return lines;
    }
    let mut i: usize = 0;
    while i < hist.len()
        invariant
            i <= hist@.len(),
            lines@.len() == i,
            total == self::total(hist@),
            forall|k: int|
                0 <= k < i ==> #[trigger] lines@[k] == (HistLine::Bucket {
                    index: k as usize,
                    count: hist@[k],
                    share: percent(hist@[k], self::total(hist@)),
                }),
        decreases hist@.len() - i,
    {
        let share: Binary64 = percent_of(hist[i], total);
        lines.push(HistLine::Bucket { index: i, count: hist[i], share });
        i = i + 1;
    }
    let (top, share) = top_bucket(hist);
    lines.push(HistLine::Summary { total, top, share });
    lines
}

} // verus!
