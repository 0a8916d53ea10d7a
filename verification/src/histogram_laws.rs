//! What holds of histograms and of their shares.

use crate::binary64::{wide_shift, wide_significand, Binary64};
use crate::histogram::{
    added, counts, is_top, percent, prints, tally, total, HistLine, HUNDRED_BITS,
};
use crate::rounding_laws::distance;
use crate::wide_arithmetic::{wide_from_integer, wide_product};
use crate::wide_laws::{
    law_wide_count_is_nearest, law_wide_product_rounds, law_wide_quotient_rounds,
    lemma_wide_at_most_twice, wide_nearest_to,
};
use vstd::arithmetic::power2::{lemma_pow2_adds, lemma_pow2_pos, pow2};
use vstd::prelude::*;

verus! {

/// The positions in a bucket are those whose bucket it is.
pub proof fn law_tally_counts_the_positions_of_its_bucket(buckets: Seq<u8>, b: int)
    ensures
        tally(buckets, b) == buckets.filter(|bucket: u8| bucket == b).len(),
    decreases buckets.len(),
{
    reveal(Seq::filter);
    if buckets.len() > 0 {
        law_tally_counts_the_positions_of_its_bucket(buckets.drop_last(), b);
    }
}

/// A histogram holds what its parts hold, and a bucket alone what it counts.
pub proof fn law_histogram_holds_what_its_parts_hold(a: Seq<u64>, b: Seq<u64>, n: u64)
    ensures
        total(a + b) == total(a) + total(b),
        total(seq![n]) == n,
        total(Seq::<u64>::empty()) == 0,
    decreases b.len(),
{
    assert(seq![n].drop_last() =~= Seq::<u64>::empty());
    assert(total(seq![n].drop_last()) == 0);
    if b.len() == 0 {
        assert(a + b =~= a);
    } else {
        law_histogram_holds_what_its_parts_hold(a, b.drop_last(), n);
        assert((a + b).drop_last() =~= a + b.drop_last());
    }
}

/// In the sum of two histograms each bucket holds what it holds in both.
pub proof fn law_histograms_are_added_bucket_by_bucket(a: Seq<u64>, b: Seq<u64>, i: int)
    requires
        a.len() == b.len(),
        0 <= i < a.len(),
        a[i] + b[i] <= u64::MAX,
    ensures
        added(a, b).len() == a.len(),
        added(a, b)[i] == a[i] + b[i],
        added(a, b)[i] == added(b, a)[i],
{
}

/// What a share is made of.
pub struct ShareParts {
    /// The number of positions in the bucket.
    pub count: Binary64,
    /// The number of all positions.
    pub whole: Binary64,
    /// A hundred times the number of positions in the bucket.
    pub hundredfold: Binary64,
}

/// The pattern of one hundred is that of `100 * 2^1074` quanta.
proof fn lemma_hundred()
    ensures
        (Binary64 { bits: HUNDRED_BITS }).finite(),
        !(Binary64 { bits: HUNDRED_BITS }).negative(),
        (Binary64 { bits: HUNDRED_BITS }).quanta() == 100 * pow2(1074),
{
    let magnitude: nat = 0x4059_0000_0000_0000;
    assert(magnitude / 0x10_0000_0000_0000 == 1029);
    assert(wide_shift(magnitude) == 1028);
    assert(wide_significand(magnitude) == 0x19_0000_0000_0000);
    vstd::arithmetic::power2::lemma2_to64();
    lemma_pow2_adds(46, 1028);
    vstd::arithmetic::power2::lemma2_to64_rest();
    let high = pow2(1028);
    assert(0x19_0000_0000_0000 * high == 100 * pow2(1074)) by (nonlinear_arith)
        requires
            pow2(1074) == pow2(46) * high,
            pow2(46) == 0x4000_0000_0000,
    ;
}

/// A share in percent is a hundred times the positions in the bucket over all positions, with each
/// step rounded to the nearest number.
pub proof fn law_share_is_a_hundredfold_quotient(count: u64, whole: u64) -> (p: ShareParts)
    requires
        whole > 0,
    ensures
        wide_nearest_to(p.count, count as nat * pow2(1074), 1),
        wide_nearest_to(p.whole, whole as nat * pow2(1074), 1),
        wide_nearest_to(p.hundredfold, 100 * p.count.quanta(), 1),
        wide_nearest_to(
            percent(count, whole as nat),
            p.hundredfold.quanta() * pow2(1074),
            p.whole.quanta(),
        ),
        !percent(count, whole as nat).negative(),
{
    let unit = pow2(1074);
    let hundred = Binary64 { bits: HUNDRED_BITS };
    let n = wide_from_integer(count as nat);
    let m = wide_from_integer(whole as nat);
    let h = wide_product(hundred, n);
    let bound = 0x20_0000_0000_0000 * pow2(1200);
    lemma_pow2_pos(1074);
    lemma_hundred();
    law_wide_count_is_nearest(count as nat);
    law_wide_count_is_nearest(whole as nat);
    lemma_pow2_adds(126, 1074);
    lemma_pow2_adds(63, 63);
    vstd::arithmetic::power2::lemma2_to64_rest();
    vstd::arithmetic::power2::lemma2_to64();
    let q = n.quanta();
    assert(400 * (count as nat * unit) < bound) by (nonlinear_arith)
        requires
            count <= 0xFFFF_FFFF_FFFF_FFFF,
            bound == 0x20_0000_0000_0000 * pow2(1200),
            pow2(1200) == pow2(126) * unit,
            pow2(126) == pow2(63) * pow2(63),
            pow2(63) == 0x8000_0000_0000_0000,
            unit > 0,
    ;
    assert(hundred.quanta() * q == (100 * q) * unit) by (nonlinear_arith)
        requires
            hundred.quanta() == 100 * unit,
    ;
    assert((100 * q) * unit < bound * unit) by (nonlinear_arith)
        requires
            100 * q < bound,
            unit > 0,
    ;
    law_wide_product_rounds(hundred, n);
    lemma_wide_reduced(h, 100 * q, unit);
    lemma_wide_at_most_twice(h, 100 * q, 1);
    assert(h.quanta() * unit < bound * m.quanta()) by (nonlinear_arith)
        requires
            h.quanta() < bound,
            unit <= m.quanta(),
            unit > 0,
    ;
    assert(!m.zero()) by {
        assert(wide_significand(0) == 0);
        assert(0 * pow2(0) == 0) by (nonlinear_arith);
    }
    law_wide_quotient_rounds(h, m);
    ShareParts { count: n, whole: m, hundredfold: h }
}

/// The summary names a bucket that no other one exceeds, the first of them, with its share; each
/// line before it has the bucket of its place, what the bucket holds and its share.
pub proof fn law_printed_histogram_shows_every_bucket(
    lines: Seq<HistLine>,
    hist: Seq<u64>,
    i: int,
)
    requires
        prints(lines, hist),
        hist.len() <= usize::MAX,
        0 <= i < hist.len(),
        hist[i] > 0,
    ensures
        lines.len() == hist.len() + 1,
        lines[i] == (HistLine::Bucket {
            index: i as usize,
            count: hist[i],
            share: percent(hist[i], total(hist)),
        }),
        lines[hist.len() as int] matches HistLine::Summary { total: whole, top, share } && {
            &&& whole == total(hist)
            &&& top < hist.len()
            &&& hist[i] <= hist[top as int]
            &&& i < top ==> hist[i] < hist[top as int]
            &&& share == percent(hist[top as int], total(hist))
        },
{
    crate::histogram::lemma_bucket_in_total(hist, i);
}

/// A histogram without positions prints one line that says so.
pub proof fn law_empty_histogram_says_so(lines: Seq<HistLine>, hist: Seq<u64>)
    requires
        prints(lines, hist),
        forall|i: int| 0 <= i < hist.len() ==> #[trigger] hist[i] == 0,
    ensures
        lines == seq![HistLine::NoPositions],
{
    crate::histogram::lemma_total_zero(hist);
}

/// The fullest bucket is unique: it is the first one that no other exceeds.
pub proof fn law_top_bucket_is_unique(
    a: (usize, Binary64),
    b: (usize, Binary64),
    hist: Seq<u64>,
)
    requires
        is_top(a, hist),
        is_top(b, hist),
    ensures
        a == b,
{
    if total(hist) > 0 {
        if a.0 < b.0 {
            assert(hist[a.0 as int] < hist[b.0 as int]);
        }
        if b.0 < a.0 {
            assert(hist[b.0 as int] < hist[a.0 as int]);
        }
    }
}

/// Two lots of positions fill the same histogram in either order.
pub proof fn law_two_lots_may_come_in_either_order(
    hist: Seq<u64>,
    first: Seq<u8>,
    second: Seq<u8>,
)
    requires
        counts(hist, first + second),
    ensures
        counts(hist, second + first),
{
    assert forall|b: int| 0 <= b < hist.len() implies #[trigger] hist[b] == tally(
        second + first,
        b,
    ) by {
        assert(hist[b] == tally(first + second, b));
        crate::histogram::lemma_tally_joined(first, second, b);
        crate::histogram::lemma_tally_joined(second, first, b);
    }
}

/// What is nearest to an amount is so whatever the amount is a fraction of.
proof fn lemma_wide_reduced(r: Binary64, num: nat, den: nat)
    requires
        den > 0,
        wide_nearest_to(r, num * den, den),
    ensures
        wide_nearest_to(r, num, 1),
{
    assert forall|x: Binary64| #[trigger] x.finite() implies {
        let here = distance((r.quanta() * 1) as int, num as int);
        let there = distance((x.quanta() * 1) as int, num as int);
        &&& here <= there
        &&& here == there && x.quanta() != r.quanta() ==> r.magnitude() % 2 == 0
    } by {
        lemma_distance_scaled(r.quanta(), num, den);
        lemma_distance_scaled(x.quanta(), num, den);
        let a = distance(r.quanta() as int, num as int);
        let b = distance(x.quanta() as int, num as int);
        assert(a * den <= b * den ==> a <= b) by (nonlinear_arith)
            requires
                den > 0,
        ;
    }
}

/// Distances scale with what they are taken of.
proof fn lemma_distance_scaled(a: nat, b: nat, d: nat)
    requires
        d > 0,
    ensures
        distance((a * d) as int, (b * d) as int) == distance(a as int, b as int) * d,
{
    assert(a < b ==> a * d < b * d && b * d - a * d == (b - a) * d) by (nonlinear_arith)
        requires
            d > 0,
    ;
    assert(a >= b ==> a * d >= b * d && a * d - b * d == (a - b) * d) by (nonlinear_arith)
        requires
            d > 0,
    ;
}

} // verus!
