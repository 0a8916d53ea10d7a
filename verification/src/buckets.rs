//! Progress buckets: assigning progress values to them, and calibrating them on a sample.

use crate::arithmetic::{from_integer, product};
use crate::binary32::Binary32;
use crate::integers::floor_i32;
use crate::progress_bin_format::{
    inside_unit, threshold_fault, validate_thresholds, well_spaced, ProgressBinError,
    MAX_NUM_BUCKETS,
};
use vstd::prelude::*;

verus! {

/// The number of thresholds that `p` has reached.
pub open spec fn reached(p: Binary32, thresholds: Seq<Binary32>) -> nat
    decreases thresholds.len(),
{
    if thresholds.len() == 0 {
        0
    } else {
        reached(p, thresholds.drop_last()) + if thresholds.last().at_most(p) {
            1nat
        } else {
            0
        }
    }
}

/// No more thresholds are reached than there are.
pub proof fn lemma_reached_bound(p: Binary32, thresholds: Seq<Binary32>)
    ensures
        reached(p, thresholds) <= thresholds.len(),
    decreases thresholds.len(),
{
    if thresholds.len() > 0 {
        lemma_reached_bound(p, thresholds.drop_last());
    }
}

/// The bucket of `p` in `num_buckets` buckets of equal width: the integer part of `p` times the
/// number of buckets, held to the buckets there are and to a byte.
pub open spec fn equal_width(p: Binary32, num_buckets: usize) -> int {
    let raw = floor_i32(product(p, from_integer(num_buckets as nat)));
    let last = (num_buckets as i32) - 1;
    (if raw < 0 {
        0
    } else if raw > last {
        last
    } else {
        raw
    }) % 256
}

/// Assigns `p` to one of `num_buckets` buckets of equal width.
pub fn equal_width_bucket(p: Binary32, num_buckets: usize) -> (r: u8)
    requires
        (num_buckets as i32) >= 1,
    ensures
        r == equal_width(p, num_buckets),
{
    let n: i32 = num_buckets as i32;
    let raw: i32 = p.times(Binary32::from_count(num_buckets as u64)).to_floor_i32();
    let held: i32 = if raw < 0 {
        0
    } else if raw > n - 1 {
        n - 1
    } else {
        raw
    };
    (held % 256) as u8
}

/// Assigns `p` to a bucket by the number of thresholds that it has reached.
pub fn quantile_bucket(p: Binary32, num_buckets: usize, thresholds: &[Binary32]) -> (r: u8)
    requires
        thresholds@.len() + 1 == num_buckets,
    ensures
        r == reached(p, thresholds@) % 256,
        num_buckets <= MAX_NUM_BUCKETS ==> r == reached(p, thresholds@) && r < num_buckets,
{
    let mut bucket: usize = 0;
    let mut i: usize = 0;
    while i < thresholds.len()
        invariant
            i <= thresholds@.len(),
            bucket <= i,
            bucket == reached(p, thresholds@.take(i as int)),
        decreases thresholds@.len() - i,
    {
        if thresholds[i].is_at_most(p) {
            bucket = bucket + 1;
        }
        i = i + 1;
        assert(thresholds@.take(i as int).drop_last() =~= thresholds@.take(i - 1));
    }
    assert(thresholds@.take(i as int) =~= thresholds@);
    (bucket % 256) as u8
}

/// With increasing thresholds, the bucket is where `p` falls between them: exactly the thresholds
/// below the bucket's number are reached.
pub proof fn law_bucket_lies_between_thresholds(p: Binary32, thresholds: Seq<Binary32>, i: int)
    requires
        well_spaced(thresholds),
        0 <= i < thresholds.len(),
    ensures
        thresholds[i].at_most(p) <==> i < reached(p, thresholds),
    decreases thresholds.len(),
{
    let head = thresholds.drop_last();
    lemma_reached_bound(p, head);
    assert(well_spaced(head)) by {
        assert forall|a: int| 0 <= a < head.len() implies inside_unit(#[trigger] head[a]) by {
            assert(head[a] == thresholds[a]);
        }
        assert forall|a: int, b: int| 0 <= a < b < head.len() implies (#[trigger] head[a]).below(
            #[trigger] head[b],
        ) by {
            assert(head[a] == thresholds[a] && head[b] == thresholds[b]);
        }
    }
    if i < head.len() {
        assert(head[i] == thresholds[i]);
        law_bucket_lies_between_thresholds(p, head, i);
        assert(thresholds[i].below(thresholds.last()));
        if thresholds.last().at_most(p) {
            law_bucket_lies_between_thresholds(p, head, head.len() - 1);
            assert(head.last().below(thresholds.last()));
        }
    } else if head.len() > 0 && thresholds.last().at_most(p) {
        law_bucket_lies_between_thresholds(p, head, head.len() - 1);
        assert(thresholds[head.len() - 1].below(thresholds.last()));
    }
}

/// The place in a sorted sample of `len` values where the share `k / num_buckets` of it ends.
pub open spec fn cut(k: nat, len: nat, num_buckets: nat) -> nat {
    (k * len) / num_buckets
}

/// The values of a sorted sample at its `num_buckets - 1` inner cuts.
pub open spec fn quantiles(sorted_ps: Seq<Binary32>, num_buckets: nat) -> Seq<Binary32> {
    Seq::new(
        (num_buckets - 1) as nat,
        |k: int| sorted_ps[cut((k + 1) as nat, sorted_ps.len(), num_buckets) as int],
    )
}

/// An inner cut lies inside the sample.
pub proof fn lemma_cut_inside(k: nat, len: nat, num_buckets: nat)
    requires
        k < num_buckets,
        len > 0,
    ensures
        cut(k, len, num_buckets) < len,
{
    assert((k * len) / num_buckets < len) by (nonlinear_arith)
        requires
            k < num_buckets,
            len > 0,
    ;
}

/// All values of a sample are the same.
pub open spec fn degenerate(ps: Seq<Binary32>) -> bool {
    forall|i: int| 0 <= i < ps.len() ==> (#[trigger] ps[i]).rank() == ps[0].rank()
}

/// Why a sorted sample gives no thresholds for `num_buckets` buckets: there are too few or too many
/// buckets, the sample is empty, its quantiles are not usable thresholds, or it is a sample of one
/// value.
pub open spec fn quantile_fault(sorted_ps: Seq<Binary32>, num_buckets: usize) -> Option<
    ProgressBinError,
> {
    let thresholds = quantiles(sorted_ps, num_buckets as nat);
    if !(2 <= num_buckets <= MAX_NUM_BUCKETS) {
        Some(ProgressBinError::NumBuckets { num_buckets })
    } else if sorted_ps.len() == 0 {
        Some(ProgressBinError::EmptySample)
    } else if threshold_fault(thresholds, num_buckets as nat) is Some {
        threshold_fault(thresholds, num_buckets as nat)
    } else if degenerate(sorted_ps) {
        Some(ProgressBinError::DegenerateSample { value: sorted_ps[0] })
    } else {
        None
    }
}

/// Whether all values of a sample are the same.
fn is_degenerate(ps: &[Binary32]) -> (r: bool)
    requires
        ps@.len() > 0,
    ensures
        r == degenerate(ps@),
{
    let first: i64 = ps[0].to_rank();
    let mut i: usize = 1;
    while i < ps.len()
        invariant
            1 <= i <= ps@.len(),
            first == ps@[0].rank(),
            forall|k: int| 0 <= k < i ==> (#[trigger] ps@[k]).rank() == first,
        decreases ps@.len() - i,
    {
        if ps[i].to_rank() != first {
            assert(ps@[i as int].rank() != ps@[0].rank());
            return false;
        }
        i = i + 1;
    }
    true
}

/// Derives the thresholds that split a sorted sample into `num_buckets` equal shares.
pub fn compute_quantile_thresholds(sorted_ps: &[Binary32], num_buckets: usize) -> (r: Result<
    Vec<Binary32>,
    ProgressBinError,
>)
    ensures
        match r {
            Ok(thresholds) => {
                &&& quantile_fault(sorted_ps@, num_buckets) is None
                &&& thresholds@ == quantiles(sorted_ps@, num_buckets as nat)
            },
            Err(e) => quantile_fault(sorted_ps@, num_buckets) == Some(e),
        },
{
    if num_buckets < 2 || num_buckets > MAX_NUM_BUCKETS {
        return Err(ProgressBinError::NumBuckets { num_buckets });
    }
    let len: usize = sorted_ps.len();
    if len == 0 {
        return Err(ProgressBinError::EmptySample);
    }
    let mut thresholds: Vec<Binary32> = Vec::new();
    let ghost all = quantiles(sorted_ps@, num_buckets as nat);
    let mut k: usize = 0;
    while k < num_buckets - 1
        invariant
            2 <= num_buckets <= MAX_NUM_BUCKETS,
            len == sorted_ps@.len(),
            len > 0,
            k <= num_buckets - 1,
            all == quantiles(sorted_ps@, num_buckets as nat),
            thresholds@ == all.take(k as int),
        decreases num_buckets - 1 - k,
    {
        proof {
            lemma_cut_inside((k + 1) as nat, len as nat, num_buckets as nat);
            assert((k + 1) * len <= 256 * 0xFFFF_FFFF_FFFF_FFFF) by (nonlinear_arith)
                requires
                    k + 1 <= 256,
                    len <= 0xFFFF_FFFF_FFFF_FFFF,
            ;
        }
        let at: usize = ((k as u128 + 1) * len as u128 / num_buckets as u128) as usize;
        thresholds.push(sorted_ps[at]);
        k = k + 1;
        assert(thresholds@ =~= all.take(k as int));
    }
    assert(thresholds@ =~= all);
    match validate_thresholds(thresholds.as_slice(), num_buckets) {
        Err(e) => Err(e),
        Ok(()) => if is_degenerate(sorted_ps) {
            Err(ProgressBinError::DegenerateSample { value: sorted_ps[0] })
        } else {
            Ok(thresholds)
        },
    }
}

/// The values never fall.
pub open spec fn sorted(ps: Seq<Binary32>) -> bool {
    forall|i: int, j: int|
        0 <= i <= j < ps.len() ==> (#[trigger] ps[i]).at_most(#[trigger] ps[j])
}

/// Later cuts do not come before earlier ones.
proof fn lemma_cuts_ordered(a: nat, b: nat, len: nat, num_buckets: nat)
    requires
        a <= b,
        num_buckets > 0,
    ensures
        cut(a, len, num_buckets) <= cut(b, len, num_buckets),
{
    assert(a * len <= b * len) by (nonlinear_arith)
        requires
            a <= b,
    ;
    vstd::arithmetic::div_mod::lemma_div_is_ordered(
        (a * len) as int,
        (b * len) as int,
        num_buckets as int,
    );
}

/// A share between two neighbouring cuts is the sample's size over the number of buckets, rounded
/// down or up.
pub proof fn lemma_share_size(b: nat, len: nat, num_buckets: nat)
    requires
        num_buckets > 0,
    ensures
        cut(b + 1, len, num_buckets) - cut(b, len, num_buckets) == len / num_buckets || cut(
            b + 1,
            len,
            num_buckets,
        ) - cut(b, len, num_buckets) == len / num_buckets + 1,
        len % num_buckets == 0 ==> cut(b + 1, len, num_buckets) - cut(b, len, num_buckets) == len
            / num_buckets,
{
    let n = num_buckets as int;
    let low = (b * len) as int;
    let high = ((b + 1) * len) as int;
    assert(high == low + len) by (nonlinear_arith)
        requires
            low == b * len,
            high == (b + 1) * len,
    ;
    let q = len as int / n;
    let r = len as int % n;
    let ql = low / n;
    let rl = low % n;
    vstd::arithmetic::div_mod::lemma_fundamental_div_mod(len as int, n);
    vstd::arithmetic::div_mod::lemma_fundamental_div_mod(low, n);
    if rl + r < n {
        assert(high == (ql + q) * n + (rl + r)) by (nonlinear_arith)
            requires
                high == low + len,
                low == n * ql + rl,
                len == n * q + r,
        ;
        vstd::arithmetic::div_mod::lemma_fundamental_div_mod_converse(high, n, ql + q, rl + r);
    } else {
        assert(high == (ql + q + 1) * n + (rl + r - n)) by (nonlinear_arith)
            requires
                high == low + len,
                low == n * ql + rl,
                len == n * q + r,
        ;
        vstd::arithmetic::div_mod::lemma_fundamental_div_mod_converse(
            high,
            n,
            ql + q + 1,
            rl + r - n,
        );
    }
}

/// The share that the place `i` of a sample belongs to.
proof fn lemma_share_of(i: nat, len: nat, num_buckets: nat, top: nat) -> (b: nat)
    requires
        num_buckets > 0,
        i < cut(top, len, num_buckets),
    ensures
        b < top,
        cut(b, len, num_buckets) <= i < cut(b + 1, len, num_buckets),
    decreases top,
{
    if top == 0 {
        assert(0 * len == 0) by (nonlinear_arith);
        assert(0nat / num_buckets == 0) by (nonlinear_arith)
            requires
                num_buckets > 0,
        ;
        0
    } else if cut((top - 1) as nat, len, num_buckets) <= i {
        (top - 1) as nat
    } else {
        lemma_share_of(i, len, num_buckets, (top - 1) as nat)
    }
}

/// Of the first `m` quantiles, the value at place `i` in the share `b` has reached those that end
/// earlier shares.
proof fn lemma_reached_in_share(ps: Seq<Binary32>, num_buckets: nat, i: nat, b: nat, m: nat)
    requires
        num_buckets > 0,
        sorted(ps),
        steps_at_cuts(ps, num_buckets),
        i < ps.len(),
        b < num_buckets,
        cut(b, ps.len(), num_buckets) <= i < cut(b + 1, ps.len(), num_buckets),
        m < num_buckets,
    ensures
        reached(ps[i as int], quantiles(ps, num_buckets).take(m as int)) == if b < m {
            b
        } else {
            m
        },
    decreases m,
{
    let all = quantiles(ps, num_buckets);
    let head = all.take(m as int);
    if m > 0 {
        lemma_reached_in_share(ps, num_buckets, i, b, (m - 1) as nat);
        assert(head.drop_last() =~= all.take(m - 1));
        let at = cut(m, ps.len(), num_buckets);
        lemma_cut_inside(m, ps.len(), num_buckets);
        assert(head.last() == ps[at as int]);
        if m <= b {
            lemma_cuts_ordered(m, b, ps.len(), num_buckets);
            assert(ps[at as int].at_most(ps[i as int]));
        } else {
            lemma_cuts_ordered(b + 1, m, ps.len(), num_buckets);
            assert(at > i);
            assert(ps[i as int].at_most(ps[at - 1]));
            assert(ps[at - 1].below(ps[at as int]));
        }
    }
}

/// The shares lie in order inside the sample.
pub proof fn lemma_shares_inside(len: nat, num_buckets: nat, b: nat)
    requires
        b < num_buckets,
    ensures
        cut(b, len, num_buckets) <= cut(b + 1, len, num_buckets) <= len,
{
    lemma_cuts_ordered(b, b + 1, len, num_buckets);
    lemma_cuts_ordered(b + 1, num_buckets, len, num_buckets);
    assert((num_buckets * len) / num_buckets == len) by (nonlinear_arith)
        requires
            num_buckets > 0,
    ;
}

/// The sample rises at each inner cut, so that no value stands on both sides of one.
pub open spec fn steps_at_cuts(ps: Seq<Binary32>, num_buckets: nat) -> bool {
    forall|k: nat|
        #![trigger cut(k, ps.len(), num_buckets)]
        0 < k < num_buckets && cut(k, ps.len(), num_buckets) > 0 ==> ps[cut(
            k,
            ps.len(),
            num_buckets,
        ) - 1].below(ps[cut(k, ps.len(), num_buckets) as int])
}

/// Calibration evens the buckets out: on the sample that the thresholds come from, bucket `b`
/// holds exactly the values from the cut `b` up to the next one, which are one `num_buckets`-th of
/// the sample, rounded down or up. A value that stands on both sides of a cut cannot be split, so
/// the sample has to rise there.
pub proof fn law_calibrated_buckets_are_even(
    ps: Seq<Binary32>,
    num_buckets: nat,
    i: nat,
    b: nat,
)
    requires
        num_buckets > 0,
        sorted(ps),
        steps_at_cuts(ps, num_buckets),
        i < ps.len(),
        b < num_buckets,
    ensures
        reached(ps[i as int], quantiles(ps, num_buckets)) == b <==> cut(b, ps.len(), num_buckets)
            <= i < cut(b + 1, ps.len(), num_buckets),
        ps.len() / num_buckets <= cut(b + 1, ps.len(), num_buckets) - cut(
            b,
            ps.len(),
            num_buckets,
        ) <= ps.len() / num_buckets + 1,
        ps.len() % num_buckets == 0 ==> cut(b + 1, ps.len(), num_buckets) - cut(
            b,
            ps.len(),
            num_buckets,
        ) == ps.len() / num_buckets,
{
    lemma_share_size(b, ps.len(), num_buckets);
    assert((num_buckets * ps.len()) / num_buckets == ps.len()) by (nonlinear_arith)
        requires
            num_buckets > 0,
    ;
    let share = lemma_share_of(i, ps.len(), num_buckets, num_buckets);
    let all = quantiles(ps, num_buckets);
    lemma_reached_in_share(ps, num_buckets, i, share, (num_buckets - 1) as nat);
    assert(all.take(num_buckets - 1) =~= all);
    if b < share {
        lemma_cuts_ordered(b + 1, share, ps.len(), num_buckets);
    }
    if share < b {
        lemma_cuts_ordered(share + 1, b, ps.len(), num_buckets);
    }
}

} // verus!
