//! What holds of a survey and of a calibration as a whole.

use crate::binary32::Binary32;
use crate::binary64::{narrowed, Binary64};
use crate::bucket_laws::{
    law_degenerate_sample_has_no_thresholds, law_thresholds_come_from_spaced_quantiles,
};
use crate::buckets::{
    cut, degenerate, law_bucket_lies_between_thresholds, law_calibrated_buckets_are_even,
    lemma_reached_bound, lemma_share_size, lemma_shares_inside, quantiles, reached, sorted,
    steps_at_cuts,
};
use crate::histogram::{law_histogram_counts_every_position, tally, total};
use crate::little_endian::u64_at;
use crate::path_list::{
    in_a_row, law_nothing_of_a_list_is_lost, law_paths_are_clean, lemma_letters_joined, letters,
    listed,
};
use crate::progress_bin_format::{
    law_file_comes_back, parsed, signalling, weights_of, well_spaced,
    BinningView, ProgressBinError, MAX_NUM_BUCKETS, SHOGI_PROGRESS_KP_ABS_NUM_WEIGHTS,
};
use crate::survey::{
    args_fault, calibrated_buckets, calibrates, Args, Calibration, SurveyError,
};
use vstd::prelude::*;

verus! {

/// A weight that was read is not a signalling not-a-number.
proof fn lemma_read_weights_are_quiet(bytes: Seq<u8>)
    requires
        parsed(bytes) is Ok,
    ensures
        ({
            let weights = (parsed(bytes)->Ok_0).0;
            &&& weights.len() == SHOGI_PROGRESS_KP_ABS_NUM_WEIGHTS
            &&& forall|i: int| 0 <= i < weights.len() ==> !signalling(#[trigger] weights[i])
        }),
{
    let weights = weights_of(bytes);
    assert forall|i: int| 0 <= i < weights.len() implies !signalling(#[trigger] weights[i]) by {
        let wide = Binary64 { bits: u64_at(bytes, i * 8) };
        assert(weights[i] == narrowed(wide));
    }
}

/// A calibrated `progress.bin` holds the weights of the one that it was made from, bit for bit, and
/// the thresholds of the calibration.
pub proof fn law_calibration_keeps_the_weights(
    bytes: Seq<u8>,
    ps: Seq<Binary32>,
    num_buckets: usize,
    calibration: Calibration,
)
    requires
        parsed(bytes) is Ok,
        2 <= num_buckets <= MAX_NUM_BUCKETS,
        calibrates(Ok(calibration), (parsed(bytes)->Ok_0).0, ps, num_buckets),
    ensures
        parsed(calibration.bytes@) == Ok::<(Seq<Binary32>, BinningView), ProgressBinError>(
            (
                (parsed(bytes)->Ok_0).0,
                BinningView::Quantile {
                    num_buckets: num_buckets as nat,
                    thresholds: calibration.thresholds@,
                },
            ),
        ),
{
    let weights = (parsed(bytes)->Ok_0).0;
    let thresholds = quantiles(ps, num_buckets as nat);
    lemma_read_weights_are_quiet(bytes);
    law_file_comes_back(
        weights,
        BinningView::Quantile { num_buckets: num_buckets as nat, thresholds },
    );
}

/// A calibration succeeds exactly where the quantiles of the sample lie strictly between zero and
/// one and increase, and the sample has two different values.
pub proof fn law_calibration_succeeds_on_spaced_quantiles(
    r: Result<Calibration, SurveyError>,
    weights: Seq<Binary32>,
    ps: Seq<Binary32>,
    num_buckets: usize,
)
    requires
        2 <= num_buckets <= MAX_NUM_BUCKETS,
        ps.len() > 0,
        calibrates(r, weights, ps, num_buckets),
    ensures
        r is Ok <==> well_spaced(quantiles(ps, num_buckets as nat)) && !degenerate(ps),
{
    law_thresholds_come_from_spaced_quantiles(ps, num_buckets);
}

/// A sample of one value is refused, for any number of buckets.
pub proof fn law_degenerate_sample_is_refused(
    r: Result<Calibration, SurveyError>,
    weights: Seq<Binary32>,
    ps: Seq<Binary32>,
    num_buckets: usize,
)
    requires
        degenerate(ps),
        calibrates(r, weights, ps, num_buckets),
    ensures
        r is Err,
{
    law_degenerate_sample_has_no_thresholds(ps, num_buckets);
}

/// How many of the first `i` values are in a bucket that holds the places from `low` up to `high`.
proof fn lemma_tally_of_places(buckets: Seq<u8>, b: int, low: int, high: int, i: int)
    requires
        0 <= low <= high <= buckets.len(),
        0 <= i <= buckets.len(),
        forall|k: int|
            0 <= k < buckets.len() ==> (#[trigger] buckets[k] == b <==> low <= k < high),
    ensures
        tally(buckets.take(i), b) == if i <= low {
            0
        } else if i <= high {
            i - low
        } else {
            high - low
        },
    decreases i,
{
    if i > 0 {
        lemma_tally_of_places(buckets, b, low, high, i - 1);
        assert(buckets.take(i).drop_last() =~= buckets.take(i - 1));
        assert(buckets.take(i).last() == buckets[i - 1]);
    }
}

/// The value at place `k` is in the bucket `b` if the place is in that share.
proof fn lemma_bucket_of_place(ps: Seq<Binary32>, num_buckets: nat, k: int, b: int)
    requires
        2 <= num_buckets <= MAX_NUM_BUCKETS,
        sorted(ps),
        steps_at_cuts(ps, num_buckets),
        0 <= k < ps.len(),
        0 <= b < num_buckets,
    ensures
        calibrated_buckets(ps, quantiles(ps, num_buckets))[k] == b <==> cut(
            b as nat,
            ps.len(),
            num_buckets,
        ) <= k < cut((b + 1) as nat, ps.len(), num_buckets),
{
    let thresholds = quantiles(ps, num_buckets);
    lemma_reached_bound(ps[k], thresholds);
    law_calibrated_buckets_are_even(ps, num_buckets, k as nat, b as nat);
}

/// After a calibration each bucket holds one `num_buckets`-th of the sample, rounded down or up, if
/// the sorted sample rises wherever it is cut.
pub proof fn law_calibrated_histogram_is_even(
    weights: Seq<Binary32>,
    ps: Seq<Binary32>,
    num_buckets: usize,
    calibration: Calibration,
    b: int,
)
    requires
        2 <= num_buckets <= MAX_NUM_BUCKETS,
        calibrates(Ok(calibration), weights, ps, num_buckets),
        sorted(ps),
        steps_at_cuts(ps, num_buckets as nat),
        0 <= b < num_buckets,
    ensures
        ps.len() / (num_buckets as nat) <= calibration.hist@[b] <= ps.len() / (num_buckets as nat)
            + 1,
        ps.len() % (num_buckets as nat) == 0 ==> calibration.hist@[b] == ps.len() / (
        num_buckets as nat),
{
    let n = num_buckets as nat;
    let thresholds = quantiles(ps, n);
    let buckets = calibrated_buckets(ps, thresholds);
    let low = cut(b as nat, ps.len(), n);
    let high = cut((b + 1) as nat, ps.len(), n);
    lemma_shares_inside(ps.len(), n, b as nat);
    lemma_share_size(b as nat, ps.len(), n);
    assert forall|k: int| 0 <= k < buckets.len() implies (#[trigger] buckets[k] == b <==> low <= k
        < high) by {
        lemma_bucket_of_place(ps, n, k, b);
    }
    lemma_tally_of_places(buckets, b, low as int, high as int, ps.len() as int);
    assert(buckets.take(ps.len() as int) =~= buckets);
    assert(calibration.hist@[b] == tally(buckets, b));
}

/// A calibration's histogram counts every value of the sample once.
pub proof fn law_calibrated_histogram_is_complete(
    weights: Seq<Binary32>,
    ps: Seq<Binary32>,
    num_buckets: usize,
    calibration: Calibration,
)
    requires
        2 <= num_buckets <= MAX_NUM_BUCKETS,
        calibrates(Ok(calibration), weights, ps, num_buckets),
    ensures
        total(calibration.hist@) == ps.len(),
{
    let thresholds = quantiles(ps, num_buckets as nat);
    let buckets = calibrated_buckets(ps, thresholds);
    assert forall|k: int| 0 <= k < buckets.len() implies (#[trigger] buckets[k])
        < num_buckets by {
        lemma_reached_bound(ps[k], thresholds);
    }
    law_histogram_counts_every_position(calibration.hist@, buckets);
}

/// What arguments are refused for: a stride of zero, a number of buckets that is not from one to
/// 256, or for a calibration from two to 256, or no file, in this order.
pub proof fn law_why_arguments_are_refused(args: Args)
    ensures
        ({
            let least = if args.calibrating {
                2usize
            } else {
                1usize
            };
            let buckets = least <= args.num_buckets <= 256;
            &&& args.stride == 0 ==> args_fault(args) == Some(SurveyError::ZeroStride)
            &&& args.stride > 0 && !buckets ==> args_fault(args) == Some(
                SurveyError::NumBuckets { min: least, got: args.num_buckets },
            )
            &&& args.stride > 0 && buckets && listed(args.data@).len() == 0 ==> args_fault(args)
                == Some(SurveyError::NoData)
            &&& args_fault(args) is None <==> args.stride > 0 && buckets && listed(
                args.data@,
            ).len() > 0
        }),
{
}

/// Arguments name no file exactly where their list holds nothing but white space and commas.
pub proof fn law_no_file_is_an_empty_list(args: Args)
    ensures
        listed(args.data@).len() == 0 <==> letters(args.data@).len() == 0,
{
    let paths = listed(args.data@);
    law_nothing_of_a_list_is_lost(args.data@);
    if paths.len() == 0 {
        assert(in_a_row(paths) =~= Seq::<char>::empty());
        assert(letters(Seq::<char>::empty()).len() == 0);
    } else {
        law_paths_are_clean(args.data@, paths.len() - 1);
        lemma_letters_joined(in_a_row(paths.drop_last()), paths.last());
        assert(paths.last()[paths.last().len() - 1] == paths.last().last());
        assert(letters(paths.last()).len() > 0);
    }
}

/// The value lies in the bucket `b` of `num_buckets`: it has reached the threshold below the bucket
/// and not the one above.
pub open spec fn falls_between(
    p: Binary32,
    thresholds: Seq<Binary32>,
    b: int,
) -> bool {
    &&& b > 0 ==> thresholds[b - 1].at_most(p)
    &&& b < thresholds.len() ==> !thresholds[b].at_most(p)
}

/// A value is in a bucket exactly where it falls between the bucket's thresholds.
proof fn lemma_reached_between(p: Binary32, thresholds: Seq<Binary32>, b: int)
    requires
        well_spaced(thresholds),
        0 <= b <= thresholds.len(),
    ensures
        reached(p, thresholds) == b <==> falls_between(p, thresholds, b),
{
    lemma_reached_bound(p, thresholds);
    if b > 0 {
        law_bucket_lies_between_thresholds(p, thresholds, b - 1);
    }
    if b < thresholds.len() {
        law_bucket_lies_between_thresholds(p, thresholds, b);
    }
}

/// The tally of a bucket counts the values that fall between its thresholds.
proof fn lemma_tally_of_values(ps: Seq<Binary32>, thresholds: Seq<Binary32>, b: int)
    requires
        well_spaced(thresholds),
        thresholds.len() < MAX_NUM_BUCKETS,
        0 <= b <= thresholds.len(),
    ensures
        tally(calibrated_buckets(ps, thresholds), b) == ps.filter(
            |p: Binary32| falls_between(p, thresholds, b),
        ).len(),
    decreases ps.len(),
{
    reveal(Seq::filter);
    let all = calibrated_buckets(ps, thresholds);
    if ps.len() > 0 {
        let head = ps.drop_last();
        lemma_tally_of_values(head, thresholds, b);
        lemma_reached_bound(ps.last(), thresholds);
        lemma_reached_between(ps.last(), thresholds, b);
        assert(all.drop_last() =~= calibrated_buckets(head, thresholds));
        assert(all.last() == reached(ps.last(), thresholds));
    }
}

/// After a calibration each bucket holds the values of the sample that fall between its thresholds,
/// whatever the sample.
pub proof fn law_calibrated_bucket_holds_what_falls_between(
    weights: Seq<Binary32>,
    ps: Seq<Binary32>,
    num_buckets: usize,
    calibration: Calibration,
    b: int,
)
    requires
        2 <= num_buckets <= MAX_NUM_BUCKETS,
        ps.len() > 0,
        calibrates(Ok(calibration), weights, ps, num_buckets),
        0 <= b < num_buckets,
    ensures
        calibration.thresholds@.len() == num_buckets - 1,
        calibration.hist@.len() == num_buckets,
        calibration.hist@[b] == ps.filter(
            |p: Binary32| falls_between(p, calibration.thresholds@, b),
        ).len(),
{
    let thresholds = quantiles(ps, num_buckets as nat);
    law_thresholds_come_from_spaced_quantiles(ps, num_buckets);
    lemma_tally_of_values(ps, thresholds, b);
}

} // verus!
