//! Surveying how a `progress.bin` spreads positions over buckets, and calibrating it.
//!
//! [`run`] checks the arguments. [`Plan::begin`] takes in the bytes of the `progress.bin`. Then the
//! caller reads what [`Survey::next_pack`] asks for and hands it to [`Survey::take_pack`] until
//! nothing more is asked for, and [`Survey::finish`] gives the result.

use crate::binary32::Binary32;
use crate::buckets::{
    compute_quantile_thresholds, quantile_bucket, quantile_fault, quantiles, reached,
};
use crate::histogram::{
    add_hist, added, count_buckets, counts, empty_hist, in_range, law_histograms_add_up,
    print_hist, prints, total, HistLine,
};
use crate::path_list::{listed, split_paths};
use crate::progress_bin_format::{
    encoded, parse_progress_bin, parsed, write_progress_bin_bytes, BinningView,
    ProgressBinError, ProgressBinning, MAX_NUM_BUCKETS, SHOGI_PROGRESS_KP_ABS_NUM_WEIGHTS,
};
use crate::sorting::{sort_ascending, sorts};
use crate::survey_text::{
    calibrated_label, calibrated_text, distribution_label, distribution_text, loaded_message,
    loaded_text, pack_label, pack_text,
};
use crate::text::{texts, Piece};
use vstd::prelude::*;

verus! {

/// What to survey.
#[derive(Clone, Debug)]
pub struct Args {
    /// The files with positions, with commas between them.
    pub data: String,
    /// The number of positions to sample from all files together.
    pub samples: usize,
    /// One in so many records is read.
    pub stride: u64,
    /// The record of each file to start with.
    pub offset: u64,
    /// A histogram is printed for each file as well.
    pub per_pack: bool,
    /// The number of buckets.
    pub num_buckets: usize,
    /// A calibrated `progress.bin` is to be written.
    pub calibrating: bool,
}

/// Why a survey fails.
#[derive(Clone, Copy, Debug)]
pub enum SurveyError {
    /// The stride is zero.
    ZeroStride,
    /// There are too few or too many buckets.
    NumBuckets { min: usize, got: usize },
    /// No file is named.
    NoData,
    /// The `progress.bin` cannot be parsed, calibrated or written.
    Format { error: ProgressBinError },
    /// The files hold no position.
    NoPositions,
}

impl SurveyError {
    /// The message of the error.
    pub open spec fn text(&self) -> Seq<Piece> {
        match self {
            SurveyError::ZeroStride => seq![Piece::Text("--stride must be >= 1")],
            SurveyError::NumBuckets { min, got } => seq![
                Piece::Text("--num-buckets must be in ["),
                Piece::Count(*min as u64),
                Piece::Text(", 256] (got "),
                Piece::Count(*got as u64),
                Piece::Text(")"),
            ],
            SurveyError::NoData => seq![
                Piece::Text("--data is required (comma-separated PSV files)"),
            ],
            SurveyError::Format { error } => error.text(),
            SurveyError::NoPositions => seq![Piece::Text("no positions read from --data files")],
        }
    }

    /// The message of the error.
    pub fn describe(&self) -> (r: Vec<Piece>)
        ensures
            r@ == self.text(),
    {
        let r = match self {
            SurveyError::ZeroStride => vec![Piece::Text("--stride must be >= 1")],
            SurveyError::NumBuckets { min, got } => vec![
                Piece::Text("--num-buckets must be in ["),
                Piece::Count(*min as u64),
                Piece::Text(", 256] (got "),
                Piece::Count(*got as u64),
                Piece::Text(")"),
            ],
            SurveyError::NoData => vec![
                Piece::Text("--data is required (comma-separated PSV files)"),
            ],
            SurveyError::Format { error } => error.describe(),
            SurveyError::NoPositions => vec![Piece::Text("no positions read from --data files")],
        };
        assert(r@ =~= self.text());
        r
    }
}

/// The smallest number of buckets: one bucket cannot be calibrated.
pub open spec fn min_buckets(calibrating: bool) -> usize {
    if calibrating {
        2
    } else {
        1
    }
}

/// What is wrong with the arguments.
pub open spec fn args_fault(args: Args) -> Option<SurveyError> {
    let min = min_buckets(args.calibrating);
    if args.stride == 0 {
        Some(SurveyError::ZeroStride)
    } else if !(min <= args.num_buckets <= MAX_NUM_BUCKETS) {
        Some(SurveyError::NumBuckets { min, got: args.num_buckets })
    } else if listed(args.data@).len() == 0 {
        Some(SurveyError::NoData)
    } else {
        None
    }
}

/// A survey whose arguments are right.
#[derive(Debug)]
pub struct Plan {
    pub args: Args,
    pub paths: Vec<String>,
}

impl Plan {
    /// The arguments are right, and the paths are those that they name.
    pub open spec fn wf(&self) -> bool {
        &&& args_fault(self.args) is None
        &&& texts(self.paths@) == listed(self.args.data@)
    }
}

/// Checks the arguments of a survey, and finds the files that it reads.
pub fn run(args: Args) -> (r: Result<Plan, SurveyError>)
    ensures
        match r {
            Ok(plan) => plan.wf() && plan.args == args,
            Err(e) => args_fault(args) == Some(e),
        },
{
    if args.stride == 0 {
        return Err(SurveyError::ZeroStride);
    }
    let min: usize = if args.calibrating {
        2
    } else {
        1
    };
    if args.num_buckets < min || args.num_buckets > MAX_NUM_BUCKETS {
        return Err(SurveyError::NumBuckets { min, got: args.num_buckets });
    }
    let paths: Vec<String> = split_paths(args.data.as_str());
    assert(texts(paths@).len() == paths@.len());
    if paths.len() == 0 {
        return Err(SurveyError::NoData);
    }
    Ok(Plan { args, paths })
}

/// A survey in progress.
#[derive(Debug)]
pub struct Survey {
    pub args: Args,
    pub paths: Vec<String>,
    /// The weights of the `progress.bin`.
    pub weights: Vec<Binary32>,
    /// The number of files that were read.
    pub next: usize,
    /// The histogram over all files.
    pub total_hist: Vec<u64>,
    /// The number of positions that were read.
    pub grand_total: usize,
    /// The number of positions that are still wanted.
    pub remaining: usize,
    /// The progress values of the positions, for a calibration.
    pub progress_values: Vec<Binary32>,
}

impl Survey {
    /// Every position that was read is counted once, and none beyond those that are wanted.
    pub open spec fn wf(&self) -> bool {
        &&& args_fault(self.args) is None
        &&& texts(self.paths@) == listed(self.args.data@)
        &&& self.weights@.len() == SHOGI_PROGRESS_KP_ABS_NUM_WEIGHTS
        &&& self.next <= self.paths@.len()
        &&& self.total_hist@.len() == self.args.num_buckets
        &&& total(self.total_hist@) == self.grand_total
        &&& self.grand_total + self.remaining == self.args.samples
        &&& self.progress_values@.len() == if self.args.calibrating {
            self.grand_total as nat
        } else {
            0
        }
    }
}

impl Plan {
    /// The number of buckets that the `progress.bin` has to be made for, if it has thresholds: a
    /// calibration replaces them.
    pub fn num_buckets_to_match(&self) -> (r: Option<usize>)
        ensures
            r == if self.args.calibrating {
                None
            } else {
                Some(self.args.num_buckets)
            },
    {
        if self.args.calibrating {
            None
        } else {
            Some(self.args.num_buckets)
        }
    }

    /// Takes in the bytes of the `progress.bin`.
    pub fn begin(self, progress_bytes: &[u8]) -> (r: Result<Survey, SurveyError>)
        requires
            self.wf(),
        ensures
            match (r, parsed(progress_bytes@)) {
                (Ok(survey), Ok(file)) => {
                    &&& survey.wf()
                    &&& survey.args == self.args
                    &&& survey.paths == self.paths
                    &&& survey.weights@ == file.0
                    &&& survey.next == 0
                    &&& counts(survey.total_hist@, seq![])
                    &&& survey.grand_total == 0
                    &&& survey.progress_values@ == Seq::<Binary32>::empty()
                },
                (Err(e), Err(error)) => e == (SurveyError::Format { error }),
                _ => false,
            },
    {
        match parse_progress_bin(progress_bytes) {
            Err(error) => Err(SurveyError::Format { error }),
            Ok((weights, _)) => {
                let total_hist: Vec<u64> = empty_hist(self.args.num_buckets);
                let remaining: usize = self.args.samples;
                Ok(
                    Survey {
                        args: self.args,
                        paths: self.paths,
                        weights,
                        next: 0,
                        total_hist,
                        grand_total: 0,
                        remaining,
                        progress_values: Vec::new(),
                    },
                )
            },
        }
    }
}

/// The positions to read next: at most `max` of the file at `index` of the paths, one in `stride`
/// from the record `offset` on.
#[derive(Clone, Copy, Debug, PartialEq, Eq, Structural)]
pub struct PackRequest {
    pub index: usize,
    pub offset: u64,
    pub stride: u64,
    pub max: usize,
}

/// What to print of a file that was read.
#[derive(Debug)]
pub struct PackReport {
    /// The number of positions that were read from the file.
    pub loaded: usize,
    /// That the file was read.
    pub message: String,
    /// The histogram of the file.
    pub hist: Vec<u64>,
    /// The histogram's label.
    pub label: String,
    /// The histogram's lines, if it is to be printed.
    pub lines: Option<Vec<HistLine>>,
}

/// The bucket of a position: by calibrated thresholds where there are some, and otherwise the one
/// that the loaded `progress.bin` gives.
pub fn bucket_for_survey(
    loaded_bucket: u8,
    num_buckets: usize,
    calibrated: Option<(Binary32, &[Binary32])>,
) -> (r: u8)
    requires
        calibrated matches Some((_, thresholds)) ==> thresholds@.len() + 1 == num_buckets,
    ensures
        match calibrated {
            Some((p, thresholds)) => {
                &&& r == reached(p, thresholds@) % 256
                &&& num_buckets <= MAX_NUM_BUCKETS ==> r == reached(p, thresholds@) && r
                    < num_buckets
            },
            None => r == loaded_bucket,
        },
{
    match calibrated {
        Some((p, thresholds)) => quantile_bucket(p, num_buckets, thresholds),
        None => loaded_bucket,
    }
}

/// The bucket of each value of a calibration sample.
pub open spec fn calibrated_buckets(ps: Seq<Binary32>, thresholds: Seq<Binary32>) -> Seq<u8> {
    Seq::new(ps.len(), |i: int| reached(ps[i], thresholds) as u8)
}

/// A calibrated `progress.bin`, and how it spreads the sample.
#[derive(Debug)]
pub struct Calibration {
    /// The thresholds between the buckets.
    pub thresholds: Vec<Binary32>,
    /// The bytes of the `progress.bin`.
    pub bytes: Vec<u8>,
    /// The sample's histogram.
    pub hist: Vec<u64>,
    /// The histogram's label.
    pub label: String,
    /// The histogram's lines.
    pub lines: Vec<HistLine>,
}

/// What a calibration on a sorted sample gives.
pub open spec fn calibrates(
    r: Result<Calibration, SurveyError>,
    weights: Seq<Binary32>,
    ps: Seq<Binary32>,
    num_buckets: usize,
) -> bool {
    let thresholds = quantiles(ps, num_buckets as nat);
    let binning = BinningView::Quantile { num_buckets: num_buckets as nat, thresholds };
    match quantile_fault(ps, num_buckets) {
        Some(error) => r == Err::<Calibration, SurveyError>(SurveyError::Format { error }),
        None => r matches Ok(calibration) && {
            &&& calibration.thresholds@ == thresholds
            &&& Ok::<Seq<u8>, ProgressBinError>(calibration.bytes@) == encoded(weights, binning)
            &&& calibration.hist@.len() == num_buckets
            &&& counts(calibration.hist@, calibrated_buckets(ps, thresholds))
            &&& calibration.label@ == calibrated_text(num_buckets)
            &&& prints(calibration.lines@, calibration.hist@)
        },
    }
}

/// Calibrates a `progress.bin` on a sorted sample.
pub fn calibrate(weights: &[Binary32], sorted_ps: &[Binary32], num_buckets: usize) -> (r: Result<
    Calibration,
    SurveyError,
>)
    requires
        2 <= num_buckets <= MAX_NUM_BUCKETS,
        weights@.len() == SHOGI_PROGRESS_KP_ABS_NUM_WEIGHTS,
        sorted_ps@.len() > 0,
    ensures
        calibrates(r, weights@, sorted_ps@, num_buckets),
{
    let thresholds: Vec<Binary32> = match compute_quantile_thresholds(sorted_ps, num_buckets) {
        Err(error) => {
            return Err(SurveyError::Format { error });
        },
        Ok(thresholds) => thresholds,
    };
    let mut buckets: Vec<u8> = Vec::new();
    let ghost all = calibrated_buckets(sorted_ps@, thresholds@);
    let mut i: usize = 0;
    while i < sorted_ps.len()
        invariant
            i <= sorted_ps@.len(),
            thresholds@.len() + 1 == num_buckets <= MAX_NUM_BUCKETS,
            all == calibrated_buckets(sorted_ps@, thresholds@),
            buckets@ == all.take(i as int),
            in_range(buckets@, num_buckets as int),
        decreases sorted_ps@.len() - i,
    {
        let bucket: u8 = bucket_for_survey(
            0,
            num_buckets,
            Some((sorted_ps[i], thresholds.as_slice())),
        );
        buckets.push(bucket);
        i = i + 1;
        assert(buckets@ =~= all.take(i as int));
    }
    assert(all.take(i as int) =~= all);
    let hist: Vec<u64> = count_buckets(buckets.as_slice(), num_buckets);
    let lines: Vec<HistLine> = print_hist(hist.as_slice());
    let binning: ProgressBinning = ProgressBinning::Quantile {
        num_buckets,
        thresholds: thresholds.clone(),
    };
    assert(binning@->thresholds =~= thresholds@);
    match write_progress_bin_bytes(weights, &binning) {
        Err(error) => Err(SurveyError::Format { error }),
        Ok(bytes) => Ok(
            Calibration { thresholds, bytes, hist, label: calibrated_label(num_buckets), lines },
        ),
    }
}

/// The result of a survey.
#[derive(Debug)]
pub enum Finding {
    /// How the `progress.bin` spreads the positions, by quantile thresholds or by equal width.
    Distribution { quantile: bool, label: String, lines: Vec<HistLine> },
    /// A calibrated `progress.bin` to write.
    Calibrated { calibration: Calibration },
}

impl Survey {
    /// The next positions to read, if any are wanted and a file is left.
    pub fn next_pack(&self) -> (r: Option<PackRequest>)
        requires
            self.wf(),
        ensures
            r == if self.next < self.paths@.len() && self.remaining > 0 {
                Some(
                    PackRequest {
                        index: self.next,
                        offset: self.args.offset,
                        stride: self.args.stride,
                        max: self.remaining,
                    },
                )
            } else {
                None
            },
    {
        if self.next < self.paths.len() && self.remaining > 0 {
            Some(
                PackRequest {
                    index: self.next,
                    offset: self.args.offset,
                    stride: self.args.stride,
                    max: self.remaining,
                },
            )
        } else {
            None
        }
    }

    /// Takes in the positions of a file: the bucket of each, and for a calibration its progress.
    pub fn take_pack(&mut self, buckets: &[u8], progress: &[Binary32]) -> (r: PackReport)
        requires
            old(self).wf(),
            old(self).next < old(self).paths@.len(),
            buckets@.len() <= old(self).remaining,
            in_range(buckets@, old(self).args.num_buckets as int),
            progress@.len() == if old(self).args.calibrating {
                buckets@.len()
            } else {
                0
            },
        ensures
            final(self).wf(),
            final(self).args == old(self).args,
            final(self).paths == old(self).paths,
            final(self).weights == old(self).weights,
            final(self).next == old(self).next + 1,
            final(self).grand_total == old(self).grand_total + buckets@.len(),
            final(self).total_hist@ == added(old(self).total_hist@, r.hist@),
            forall|seen: Seq<u8>|
                seen.len() == old(self).grand_total && #[trigger] counts(
                    old(self).total_hist@,
                    seen,
                ) ==> counts(final(self).total_hist@, seen + buckets@),
            final(self).progress_values@ == old(self).progress_values@ + progress@,
            r.loaded == buckets@.len(),
            r.message@ == loaded_text(r.loaded, old(self).paths@[old(self).next as int]@),
            r.label@ == pack_text(old(self).paths@[old(self).next as int]@),
            r.hist@.len() == old(self).args.num_buckets,
            counts(r.hist@, buckets@),
            r.lines is Some <==> old(self).args.per_pack,
            r.lines matches Some(lines) ==> prints(lines@, r.hist@),
    {
        let loaded: usize = buckets.len();
        let mut assigned: Vec<u8> = Vec::new();
        let mut i: usize = 0;
        while i < buckets.len()
            invariant
                i <= buckets@.len(),
                assigned@ == buckets@.take(i as int),
            decreases buckets@.len() - i,
        {
            assigned.push(bucket_for_survey(buckets[i], self.args.num_buckets, None));
            i = i + 1;
            assert(assigned@ =~= buckets@.take(i as int));
        }
        assert(assigned@ =~= buckets@);
        let hist: Vec<u64> = count_buckets(assigned.as_slice(), self.args.num_buckets);
        add_hist(&mut self.total_hist, hist.as_slice());
        self.remaining = self.remaining - loaded;
        self.grand_total = self.grand_total + loaded;
        self.progress_values.extend_from_slice(progress);
        assert(self.progress_values@ =~= old(self).progress_values@ + progress@);
        assert(self.next < self.paths.len());
        let message: String = loaded_message(loaded, self.paths[self.next].as_str());
        let label: String = pack_label(self.paths[self.next].as_str());
        self.next = self.next + 1;
        let lines: Option<Vec<HistLine>> = if self.args.per_pack {
            Some(print_hist(hist.as_slice()))
        } else {
            None
        };
        proof {
            assert forall|seen: Seq<u8>|
                seen.len() == old(self).grand_total && #[trigger] counts(
                    old(self).total_hist@,
                    seen,
                ) implies counts(self.total_hist@, seen + buckets@) by {
                law_histograms_add_up(old(self).total_hist@, hist@, seen, buckets@);
            }
        }
        PackReport { loaded, message, hist, label, lines }
    }

    /// The result, once all positions are read; `loaded_is_quantile` says whether the loaded
    /// `progress.bin` has thresholds.
    pub fn finish(&self, loaded_is_quantile: bool) -> (r: Result<Finding, SurveyError>)
        requires
            self.wf(),
        ensures
            if self.grand_total == 0 {
                r == Err::<Finding, SurveyError>(SurveyError::NoPositions)
            } else if self.args.calibrating {
                exists|ps: Seq<Binary32>, c: Result<Calibration, SurveyError>|
                    #![trigger sorts(ps, self.progress_values@), calibrates(
                        c,
                        self.weights@,
                        ps,
                        self.args.num_buckets,
                    )]
                    {
                        &&& sorts(ps, self.progress_values@)
                        &&& calibrates(c, self.weights@, ps, self.args.num_buckets)
                        &&& match c {
                            Ok(calibration) => r == Ok::<Finding, SurveyError>(
                                Finding::Calibrated { calibration },
                            ),
                            Err(e) => r == Err::<Finding, SurveyError>(e),
                        }
                    }
            } else {
                r matches Ok(Finding::Distribution { quantile, label, lines }) && {
                    &&& quantile == loaded_is_quantile
                    &&& label@ == distribution_text(quantile, self.args.num_buckets)
                    &&& prints(lines@, self.total_hist@)
                }
            },
    {
        if self.grand_total == 0 {
            return Err(SurveyError::NoPositions);
        }
        if self.args.calibrating {
            let sorted_ps: Vec<Binary32> = sort_ascending(self.progress_values.as_slice());
            let c: Result<Calibration, SurveyError> = calibrate(
                self.weights.as_slice(),
                sorted_ps.as_slice(),
                self.args.num_buckets,
            );
            let ghost model = c;
            assert(sorts(sorted_ps@, self.progress_values@));
            assert(calibrates(model, self.weights@, sorted_ps@, self.args.num_buckets));
            match c {
                Ok(calibration) => Ok(Finding::Calibrated { calibration }),
                Err(e) => Err(e),
            }
        } else {
            let lines: Vec<HistLine> = print_hist(self.total_hist.as_slice());
            let label: String = distribution_label(loaded_is_quantile, self.args.num_buckets);
            Ok(Finding::Distribution { quantile: loaded_is_quantile, label, lines })
        }
    }
}

} // verus!
