//! The `progress.bin` format: a block of weights, and optionally a trailer of quantile thresholds.
//!
//! The weights are binary64 words, lowest byte first. A file that ends after them is the first
//! version of the format and stands for buckets of equal width. The second version continues with
//! the magic `PRGQ`, a version word, the number of buckets `N` and `N - 1` binary32 thresholds,
//! strictly increasing and each strictly between zero and one.

use crate::binary32::{Binary32, ONE_BITS, QUIET_NAN_BITS};
use crate::binary64::{law_narrowing_undoes_widening, narrowed, widened, Binary64};
use crate::little_endian::{
    bytes_of_u32, bytes_of_u64, lemma_u32_rewritten, lemma_u32_round_trip, lemma_u64_round_trip,
    push_u32, push_u64, read_u32, read_u64, u32_at, u64_at,
};
use crate::text::Piece;
use vstd::prelude::*;

verus! {

/// The number of weights in the block.
pub const SHOGI_PROGRESS_KP_ABS_NUM_WEIGHTS: usize = 125_388;

/// The largest number of buckets.
pub const MAX_NUM_BUCKETS: usize = 256;

/// The length of the block of weights in bytes.
pub const PROGRESS_BIN_WEIGHT_BYTES: usize = 1_003_104;

/// The version of the trailer.
pub const TRAILER_VERSION: u32 = 1;

/// The length of the trailer before its thresholds.
pub const TRAILER_HEADER_BYTES: usize = 12;

/// How progress values are assigned to buckets.
#[derive(Clone, Debug, PartialEq)]
pub enum ProgressBinning {
    /// The range from zero to one is cut into buckets of equal width.
    EqualWidth,
    /// The thresholds are quantiles of a calibration sample.
    Quantile { num_buckets: usize, thresholds: Vec<Binary32> },
}

/// What a binning holds.
pub enum BinningView {
    EqualWidth,
    Quantile { num_buckets: nat, thresholds: Seq<Binary32> },
}

impl View for ProgressBinning {
    type V = BinningView;

    open spec fn view(&self) -> BinningView {
        match self {
            ProgressBinning::EqualWidth => BinningView::EqualWidth,
            ProgressBinning::Quantile { num_buckets, thresholds } => BinningView::Quantile {
                num_buckets: *num_buckets as nat,
                thresholds: thresholds@,
            },
        }
    }
}

impl Default for ProgressBinning {
    fn default() -> (r: ProgressBinning)
        ensures
            r@ == BinningView::EqualWidth,
    {
        ProgressBinning::EqualWidth
    }
}

impl ProgressBinning {
    /// Whether the binning goes by quantile thresholds.
    pub fn is_quantile(&self) -> (r: bool)
        ensures
            r == (self@ is Quantile),
    {
        match self {
            ProgressBinning::EqualWidth => false,
            ProgressBinning::Quantile { .. } => true,
        }
    }

    /// The number of buckets that the thresholds were made for.
    pub fn quantile_num_buckets(&self) -> (r: Option<usize>)
        ensures
            match self@ {
                BinningView::EqualWidth => r is None,
                BinningView::Quantile { num_buckets, .. } => r matches Some(n) && n == num_buckets,
            },
    {
        match self {
            ProgressBinning::EqualWidth => None,
            ProgressBinning::Quantile { num_buckets, .. } => Some(*num_buckets),
        }
    }
}

/// Why bytes are not a `progress.bin`, or values cannot be written as one.
#[derive(Clone, Copy, Debug)]
pub enum ProgressBinError {
    /// The bytes end before the block of weights does.
    TooShort { len: usize },
    /// The trailer ends before its thresholds start.
    TrailerTooShort { len: usize },
    /// The trailer does not start with its magic.
    TrailerMagic { got: (u8, u8, u8, u8) },
    /// The trailer has an unknown version.
    TrailerVersion { version: u32 },
    /// The trailer has too few or too many buckets.
    TrailerNumBuckets { num_buckets: usize },
    /// The trailer does not have the length that its number of buckets asks for.
    TrailerLength { len: usize, expected: usize, num_buckets: usize },
    /// There is not one threshold less than buckets.
    ThresholdCount { count: usize, num_buckets: usize },
    /// A threshold is not strictly between zero and one.
    ThresholdRange { index: usize, value: Binary32 },
    /// A threshold is not above the one before it.
    ThresholdOrder { index: usize, value: Binary32, previous: Binary32 },
    /// Thresholds are asked for, or to be written, for too few or too many buckets.
    NumBuckets { num_buckets: usize },
    /// Thresholds are asked for from no sample.
    EmptySample,
    /// There are too few or too many weights.
    WeightCount { len: usize },
    /// All values of a calibration sample are the same.
    DegenerateSample { value: Binary32 },
}

/// The place before `index`; nothing stands before the first place.
pub open spec fn place_before(index: usize) -> usize {
    if index == 0 {
        0
    } else {
        (index - 1) as usize
    }
}

impl ProgressBinError {
    /// The message of the error.
    pub open spec fn text(&self) -> Seq<Piece> {
        match self {
            ProgressBinError::TooShort { len } => seq![
                Piece::Text("progress.bin too short: got "),
                Piece::Count(*len as u64),
                Piece::Text(" bytes, need at least 1003104"),
            ],
            ProgressBinError::TrailerTooShort { len } => seq![
                Piece::Text("progress.bin v2 trailer too short: got "),
                Piece::Count(*len as u64),
                Piece::Text(" bytes, need at least 12"),
            ],
            ProgressBinError::TrailerMagic { got } => seq![
                Piece::Text("progress.bin v2 trailer magic mismatch: got ["),
                Piece::Count(got.0 as u64),
                Piece::Text(", "),
                Piece::Count(got.1 as u64),
                Piece::Text(", "),
                Piece::Count(got.2 as u64),
                Piece::Text(", "),
                Piece::Count(got.3 as u64),
                Piece::Text("], expected [80, 82, 71, 81]"),
            ],
            ProgressBinError::TrailerVersion { version } => seq![
                Piece::Text("progress.bin v2 trailer version "),
                Piece::Count(*version as u64),
                Piece::Text(" is unsupported (expected 1)"),
            ],
            ProgressBinError::TrailerNumBuckets { num_buckets } => seq![
                Piece::Text("progress.bin v2 num_buckets must be in [2, 256] (got "),
                Piece::Count(*num_buckets as u64),
                Piece::Text(")"),
            ],
            ProgressBinError::TrailerLength { len, expected, num_buckets } => seq![
                Piece::Text("progress.bin v2 trailer length mismatch: got "),
                Piece::Count(*len as u64),
                Piece::Text(" bytes, expected "),
                Piece::Count(*expected as u64),
                Piece::Text(" for num_buckets="),
                Piece::Count(*num_buckets as u64),
            ],
            ProgressBinError::ThresholdCount { count, num_buckets } => seq![
                Piece::Text("threshold count "),
                Piece::Count(*count as u64),
                Piece::Text(" does not match num_buckets "),
                Piece::Count(*num_buckets as u64),
            ],
            ProgressBinError::ThresholdRange { index, value } => seq![
                Piece::Text("threshold["),
                Piece::Count(*index as u64),
                Piece::Text("] = "),
                Piece::Number(*value),
                Piece::Text(" is not in (0, 1)"),
            ],
            ProgressBinError::ThresholdOrder { index, value, previous } => seq![
                Piece::Text("thresholds must be strictly increasing (threshold["),
                Piece::Count(*index as u64),
                Piece::Text("] = "),
                Piece::Number(*value),
                Piece::Text(" <= threshold["),
                Piece::Count(place_before(*index) as u64),
                Piece::Text("] = "),
                Piece::Number(*previous),
                Piece::Text(")"),
            ],
            ProgressBinError::NumBuckets { num_buckets } => seq![
                Piece::Text("num_buckets must be in [2, 256] (got "),
                Piece::Count(*num_buckets as u64),
                Piece::Text(")"),
            ],
            ProgressBinError::EmptySample => seq![
                Piece::Text("cannot compute quantile thresholds from empty sample"),
            ],
            ProgressBinError::WeightCount { len } => seq![
                Piece::Text("weight slice length "),
                Piece::Count(*len as u64),
                Piece::Text(" != expected 125388"),
            ],
            ProgressBinError::DegenerateSample { value } => seq![
                Piece::Text("cannot compute quantile thresholds from identical values ("),
                Piece::Number(*value),
                Piece::Text(")"),
            ],
        }
    }

    /// The message of the error.
    pub fn describe(&self) -> (r: Vec<Piece>)
        ensures
            r@ == self.text(),
    {
        let r = match self {
            ProgressBinError::TooShort { len } => vec![
                Piece::Text("progress.bin too short: got "),
                Piece::Count(*len as u64),
                Piece::Text(" bytes, need at least 1003104"),
            ],
            ProgressBinError::TrailerTooShort { len } => vec![
                Piece::Text("progress.bin v2 trailer too short: got "),
                Piece::Count(*len as u64),
                Piece::Text(" bytes, need at least 12"),
            ],
            ProgressBinError::TrailerMagic { got } => vec![
                Piece::Text("progress.bin v2 trailer magic mismatch: got ["),
                Piece::Count(got.0 as u64),
                Piece::Text(", "),
                Piece::Count(got.1 as u64),
                Piece::Text(", "),
                Piece::Count(got.2 as u64),
                Piece::Text(", "),
                Piece::Count(got.3 as u64),
                Piece::Text("], expected [80, 82, 71, 81]"),
            ],
            ProgressBinError::TrailerVersion { version } => vec![
                Piece::Text("progress.bin v2 trailer version "),
                Piece::Count(*version as u64),
                Piece::Text(" is unsupported (expected 1)"),
            ],
            ProgressBinError::TrailerNumBuckets { num_buckets } => vec![
                Piece::Text("progress.bin v2 num_buckets must be in [2, 256] (got "),
                Piece::Count(*num_buckets as u64),
                Piece::Text(")"),
            ],
            ProgressBinError::TrailerLength { len, expected, num_buckets } => vec![
                Piece::Text("progress.bin v2 trailer length mismatch: got "),
                Piece::Count(*len as u64),
                Piece::Text(" bytes, expected "),
                Piece::Count(*expected as u64),
                Piece::Text(" for num_buckets="),
                Piece::Count(*num_buckets as u64),
            ],
            ProgressBinError::ThresholdCount { count, num_buckets } => vec![
                Piece::Text("threshold count "),
                Piece::Count(*count as u64),
                Piece::Text(" does not match num_buckets "),
                Piece::Count(*num_buckets as u64),
            ],
            ProgressBinError::ThresholdRange { index, value } => vec![
                Piece::Text("threshold["),
                Piece::Count(*index as u64),
                Piece::Text("] = "),
                Piece::Number(*value),
                Piece::Text(" is not in (0, 1)"),
            ],
            ProgressBinError::ThresholdOrder { index, value, previous } => vec![
                Piece::Text("thresholds must be strictly increasing (threshold["),
                Piece::Count(*index as u64),
                Piece::Text("] = "),
                Piece::Number(*value),
                Piece::Text(" <= threshold["),
                Piece::Count(index.saturating_sub(1) as u64),
                Piece::Text("] = "),
                Piece::Number(*previous),
                Piece::Text(")"),
            ],
            ProgressBinError::NumBuckets { num_buckets } => vec![
                Piece::Text("num_buckets must be in [2, 256] (got "),
                Piece::Count(*num_buckets as u64),
                Piece::Text(")"),
            ],
            ProgressBinError::EmptySample => vec![
                Piece::Text("cannot compute quantile thresholds from empty sample"),
            ],
            ProgressBinError::WeightCount { len } => vec![
                Piece::Text("weight slice length "),
                Piece::Count(*len as u64),
                Piece::Text(" != expected 125388"),
            ],
            ProgressBinError::DegenerateSample { value } => vec![
                Piece::Text("cannot compute quantile thresholds from identical values ("),
                Piece::Number(*value),
                Piece::Text(")"),
            ],
        };
        assert(r@ =~= self.text());
        r
    }
}

/// The number is strictly between zero and one.
pub open spec fn inside_unit(t: Binary32) -> bool {
    0 < t.bits < ONE_BITS
}

/// What is wrong with the threshold at `i`, given that those before it are right.
pub open spec fn fault_at(thresholds: Seq<Binary32>, i: int) -> Option<ProgressBinError> {
    if !inside_unit(thresholds[i]) {
        Some(ProgressBinError::ThresholdRange { index: i as usize, value: thresholds[i] })
    } else if i > 0 && thresholds[i].at_most(thresholds[i - 1]) {
        Some(
            ProgressBinError::ThresholdOrder {
                index: i as usize,
                value: thresholds[i],
                previous: thresholds[i - 1],
            },
        )
    } else {
        None
    }
}

/// What is wrong with the first threshold from `i` on that is wrong.
pub open spec fn first_fault(thresholds: Seq<Binary32>, i: int) -> Option<ProgressBinError>
    decreases thresholds.len() - i,
{
    if i >= thresholds.len() {
        None
    } else if fault_at(thresholds, i) is Some {
        fault_at(thresholds, i)
    } else {
        first_fault(thresholds, i + 1)
    }
}

/// What is wrong with `thresholds` for `num_buckets` buckets.
pub open spec fn threshold_fault(thresholds: Seq<Binary32>, num_buckets: nat) -> Option<
    ProgressBinError,
> {
    if thresholds.len() + 1 != num_buckets {
        Some(
            ProgressBinError::ThresholdCount {
                count: thresholds.len() as usize,
                num_buckets: num_buckets as usize,
            },
        )
    } else {
        first_fault(thresholds, 0)
    }
}

/// The thresholds are strictly increasing and each is strictly between zero and one.
pub open spec fn well_spaced(thresholds: Seq<Binary32>) -> bool {
    &&& forall|i: int| 0 <= i < thresholds.len() ==> inside_unit(#[trigger] thresholds[i])
    &&& forall|i: int, j: int|
        0 <= i < j < thresholds.len() ==> (#[trigger] thresholds[i]).below(#[trigger] thresholds[j])
}

/// No fault from `i` on, after thresholds that are right.
proof fn lemma_no_fault(thresholds: Seq<Binary32>, i: int)
    requires
        0 <= i <= thresholds.len(),
        well_spaced(thresholds.take(i)),
    ensures
        first_fault(thresholds, i) is None <==> well_spaced(thresholds),
    decreases thresholds.len() - i,
{
    let head = thresholds.take(i);
    if i < thresholds.len() {
        let next = thresholds.take(i + 1);
        if fault_at(thresholds, i) is Some {
            if well_spaced(thresholds) {
                assert(inside_unit(thresholds[i]));
                if i > 0 {
                    assert(thresholds[i - 1].below(thresholds[i]));
                }
            }
        } else {
            assert forall|a: int| 0 <= a < next.len() implies inside_unit(#[trigger] next[a]) by {
                if a < i {
                    assert(next[a] == head[a]);
                }
            }
            assert forall|a: int, b: int| 0 <= a < b < next.len() implies (
            #[trigger] next[a]).below(#[trigger] next[b]) by {
                if b < i {
                    assert(next[a] == head[a] && next[b] == head[b]);
                } else {
                    assert(inside_unit(thresholds[i]));
                    assert(head[i - 1] == thresholds[i - 1]);
                    assert(inside_unit(head[i - 1]));
                    assert(inside_unit(head[a]));
                    assert(head[a] == next[a]);
                    if a < i - 1 {
                        assert(head[a].below(head[i - 1]));
                    }
                }
            }
            lemma_no_fault(thresholds, i + 1);
        }
    } else {
        assert(head =~= thresholds);
    }
}

/// Thresholds pass validation exactly when they are one less than the buckets, strictly
/// increasing, and each strictly between zero and one.
pub proof fn law_validation_is_spacing(thresholds: Seq<Binary32>, num_buckets: nat)
    ensures
        threshold_fault(thresholds, num_buckets) is None <==> thresholds.len() + 1 == num_buckets
            && well_spaced(thresholds),
{
    lemma_no_fault(thresholds, 0);
}

/// Checks the thresholds for `num_buckets` buckets.
pub fn validate_thresholds(thresholds: &[Binary32], num_buckets: usize) -> (r: Result<
    (),
    ProgressBinError,
>)
    ensures
        match threshold_fault(thresholds@, num_buckets as nat) {
            None => r is Ok,
            Some(fault) => r matches Err(e) && e == fault,
        },
{
    let count: usize = thresholds.len();
    if num_buckets == 0 || count != num_buckets - 1 {
        return Err(ProgressBinError::ThresholdCount { count, num_buckets });
    }
    let mut i: usize = 0;
    while i < count
        invariant
            count == thresholds@.len(),
            i <= count,
            first_fault(thresholds@, 0) == first_fault(thresholds@, i as int),
            thresholds@.len() + 1 == num_buckets,
        decreases count - i,
    {
        let t: Binary32 = thresholds[i];
        if t.bits == 0 || t.bits >= ONE_BITS {
            return Err(ProgressBinError::ThresholdRange { index: i, value: t });
        }
        if i > 0 && t.is_at_most(thresholds[i - 1]) {
            return Err(
                ProgressBinError::ThresholdOrder {
                    index: i,
                    value: t,
                    previous: thresholds[i - 1],
                },
            );
        }
        i = i + 1;
    }
    Ok(())
}

/// The length in bytes of a trailer for `num_buckets` buckets.
pub open spec fn trailer_len(num_buckets: nat) -> int {
    TRAILER_HEADER_BYTES + (num_buckets - 1) * 4
}

/// The length in bytes of a trailer for `num_buckets` buckets.
pub fn trailer_byte_len(num_buckets: usize) -> (r: usize)
    requires
        num_buckets >= 1,
        trailer_len(num_buckets as nat) <= usize::MAX,
    ensures
        r == trailer_len(num_buckets as nat),
{
    TRAILER_HEADER_BYTES + (num_buckets - 1) * 4
}

/// The weights that a block of bytes holds.
pub open spec fn weights_of(bytes: Seq<u8>) -> Seq<Binary32> {
    Seq::new(
        SHOGI_PROGRESS_KP_ABS_NUM_WEIGHTS as nat,
        |i: int| narrowed(Binary64 { bits: u64_at(bytes, i * 8) }),
    )
}

/// Decodes the block of weights at the start of `bytes`.
pub fn decode_weights(bytes: &[u8]) -> (r: Result<Vec<Binary32>, ProgressBinError>)
    ensures
        match r {
            Ok(weights) => bytes@.len() >= PROGRESS_BIN_WEIGHT_BYTES && weights@ == weights_of(
                bytes@,
            ),
            Err(e) => bytes@.len() < PROGRESS_BIN_WEIGHT_BYTES && e == (
            ProgressBinError::TooShort { len: bytes@.len() as usize }),
        },
{
    let len: usize = bytes.len();
    if len < PROGRESS_BIN_WEIGHT_BYTES {
        return Err(ProgressBinError::TooShort { len });
    }
    let mut weights: Vec<Binary32> = Vec::new();
    let mut i: usize = 0;
    while i < SHOGI_PROGRESS_KP_ABS_NUM_WEIGHTS
        invariant
            i <= SHOGI_PROGRESS_KP_ABS_NUM_WEIGHTS,
            bytes@.len() >= PROGRESS_BIN_WEIGHT_BYTES,
            weights@ == weights_of(bytes@).take(i as int),
        decreases SHOGI_PROGRESS_KP_ABS_NUM_WEIGHTS - i,
    {
        let word: u64 = read_u64(bytes, i * 8);
        weights.push(Binary64::from_bits(word).narrow());
        i = i + 1;
        assert(weights@ =~= weights_of(bytes@).take(i as int));
    }
    assert(weights@ =~= weights_of(bytes@));
    Ok(weights)
}

/// The thresholds of a trailer for `num_buckets` buckets.
pub open spec fn thresholds_of(trailer: Seq<u8>, num_buckets: nat) -> Seq<Binary32> {
    Seq::new(
        (num_buckets - 1) as nat,
        |i: int| Binary32 { bits: u32_at(trailer, TRAILER_HEADER_BYTES + i * 4) },
    )
}

/// The four bytes `PRGQ` that start a trailer.
pub open spec fn trailer_magic() -> Seq<u8> {
    seq![0x50u8, 0x52u8, 0x47u8, 0x51u8]
}

/// What a trailer stands for.
pub open spec fn trailer_of(trailer: Seq<u8>) -> Result<BinningView, ProgressBinError> {
    let len = trailer.len() as usize;
    let num_buckets = u32_at(trailer, 8) as nat;
    if trailer.len() < TRAILER_HEADER_BYTES {
        Err(ProgressBinError::TrailerTooShort { len })
    } else if trailer.take(4) != trailer_magic() {
        Err(
            ProgressBinError::TrailerMagic {
                got: (trailer[0], trailer[1], trailer[2], trailer[3]),
            },
        )
    } else if u32_at(trailer, 4) != TRAILER_VERSION {
        Err(ProgressBinError::TrailerVersion { version: u32_at(trailer, 4) })
    } else if !(2 <= num_buckets <= MAX_NUM_BUCKETS) {
        Err(ProgressBinError::TrailerNumBuckets { num_buckets: num_buckets as usize })
    } else if trailer.len() != trailer_len(num_buckets) {
        Err(
            ProgressBinError::TrailerLength {
                len,
                expected: trailer_len(num_buckets) as usize,
                num_buckets: num_buckets as usize,
            },
        )
    } else {
        let thresholds = thresholds_of(trailer, num_buckets);
        match threshold_fault(thresholds, num_buckets) {
            Some(fault) => Err(fault),
            None => Ok(BinningView::Quantile { num_buckets, thresholds }),
        }
    }
}

/// Reads the trailer that follows the block of weights.
pub fn parse_trailer(trailer: &[u8]) -> (r: Result<ProgressBinning, ProgressBinError>)
    ensures
        match (r, trailer_of(trailer@)) {
            (Ok(binning), Ok(model)) => binning@ == model,
            (Err(e), Err(fault)) => e == fault,
            _ => false,
        },
{
    let len: usize = trailer.len();
    if len < TRAILER_HEADER_BYTES {
        return Err(ProgressBinError::TrailerTooShort { len });
    }
    proof {
        let head = trailer@.take(4);
        assert(head[0] == trailer@[0] && head[1] == trailer@[1] && head[2] == trailer@[2]
            && head[3] == trailer@[3]);
        assert((trailer@[0] == 0x50 && trailer@[1] == 0x52 && trailer@[2] == 0x47 && trailer@[3]
            == 0x51) ==> head =~= trailer_magic());
    }
    if !(trailer[0] == 0x50 && trailer[1] == 0x52 && trailer[2] == 0x47 && trailer[3] == 0x51) {
        return Err(
            ProgressBinError::TrailerMagic {
                got: (trailer[0], trailer[1], trailer[2], trailer[3]),
            },
        );
    }
    let version: u32 = read_u32(trailer, 4);
    if version != TRAILER_VERSION {
        return Err(ProgressBinError::TrailerVersion { version });
    }
    let num_buckets: usize = read_u32(trailer, 8) as usize;
    if num_buckets < 2 || num_buckets > MAX_NUM_BUCKETS {
        return Err(ProgressBinError::TrailerNumBuckets { num_buckets });
    }
    let expected: usize = trailer_byte_len(num_buckets);
    if len != expected {
        return Err(ProgressBinError::TrailerLength { len, expected, num_buckets });
    }
    let mut thresholds: Vec<Binary32> = Vec::new();
    let ghost all = thresholds_of(trailer@, num_buckets as nat);
    let mut i: usize = 0;
    while i < num_buckets - 1
        invariant
            2 <= num_buckets <= MAX_NUM_BUCKETS,
            i <= num_buckets - 1,
            trailer@.len() == trailer_len(num_buckets as nat),
            all == thresholds_of(trailer@, num_buckets as nat),
            thresholds@ == all.take(i as int),
        decreases num_buckets - 1 - i,
    {
        let bits: u32 = read_u32(trailer, TRAILER_HEADER_BYTES + i * 4);
        thresholds.push(Binary32 { bits });
        i = i + 1;
        assert(thresholds@ =~= all.take(i as int));
    }
    assert(thresholds@ =~= all);
    match validate_thresholds(thresholds.as_slice(), num_buckets) {
        Err(e) => Err(e),
        Ok(()) => Ok(ProgressBinning::Quantile { num_buckets, thresholds }),
    }
}

/// What the bytes of a `progress.bin` stand for.
pub open spec fn parsed(bytes: Seq<u8>) -> Result<(Seq<Binary32>, BinningView), ProgressBinError> {
    let block = PROGRESS_BIN_WEIGHT_BYTES as int;
    if bytes.len() < block {
        Err(ProgressBinError::TooShort { len: bytes.len() as usize })
    } else if bytes.len() == block {
        Ok((weights_of(bytes), BinningView::EqualWidth))
    } else {
        match trailer_of(bytes.subrange(block, bytes.len() as int)) {
            Err(fault) => Err(fault),
            Ok(binning) => Ok((weights_of(bytes), binning)),
        }
    }
}

/// Splits the bytes of a `progress.bin` into weights and binning.
pub fn parse_progress_bin(bytes: &[u8]) -> (r: Result<
    (Vec<Binary32>, ProgressBinning),
    ProgressBinError,
>)
    ensures
        match (r, parsed(bytes@)) {
            (Ok(file), Ok(model)) => file.0@ == model.0 && file.1@ == model.1,
            (Err(e), Err(fault)) => e == fault,
            _ => false,
        },
{
    let weights: Vec<Binary32> = match decode_weights(bytes) {
        Err(e) => {
            return Err(e);
        },
        Ok(weights) => weights,
    };
    if bytes.len() == PROGRESS_BIN_WEIGHT_BYTES {
        return Ok((weights, ProgressBinning::EqualWidth));
    }
    let trailer: &[u8] = vstd::slice::slice_subrange(
        bytes,
        PROGRESS_BIN_WEIGHT_BYTES,
        bytes.len(),
    );
    match parse_trailer(trailer) {
        Err(e) => Err(e),
        Ok(binning) => Ok((weights, binning)),
    }
}

/// The bytes of a block of weights.
pub open spec fn weight_bytes(weights: Seq<Binary32>) -> Seq<u8>
    decreases weights.len(),
{
    if weights.len() == 0 {
        Seq::empty()
    } else {
        weight_bytes(weights.drop_last()) + bytes_of_u64(widened(weights.last()).bits)
    }
}

/// The bytes of the thresholds of a trailer.
pub open spec fn threshold_bytes(thresholds: Seq<Binary32>) -> Seq<u8>
    decreases thresholds.len(),
{
    if thresholds.len() == 0 {
        Seq::empty()
    } else {
        threshold_bytes(thresholds.drop_last()) + bytes_of_u32(thresholds.last().bits)
    }
}

/// The bytes of a trailer.
pub open spec fn trailer_bytes(num_buckets: nat, thresholds: Seq<Binary32>) -> Seq<u8> {
    trailer_magic() + bytes_of_u32(TRAILER_VERSION) + bytes_of_u32(num_buckets as u32)
        + threshold_bytes(thresholds)
}

/// The bytes of a `progress.bin`.
pub open spec fn encoded(weights: Seq<Binary32>, binning: BinningView) -> Result<
    Seq<u8>,
    ProgressBinError,
> {
    if weights.len() != SHOGI_PROGRESS_KP_ABS_NUM_WEIGHTS {
        Err(ProgressBinError::WeightCount { len: weights.len() as usize })
    } else {
        match binning {
            BinningView::EqualWidth => Ok(weight_bytes(weights)),
            BinningView::Quantile { num_buckets, thresholds } => {
                match threshold_fault(thresholds, num_buckets) {
                    Some(fault) => Err(fault),
                    None => if !(2 <= num_buckets <= MAX_NUM_BUCKETS) {
                        Err(ProgressBinError::NumBuckets { num_buckets: num_buckets as usize })
                    } else {
                        Ok(weight_bytes(weights) + trailer_bytes(num_buckets, thresholds))
                    },
                }
            },
        }
    }
}

/// Appends a block of weights.
pub(crate) fn push_weights(out: &mut Vec<u8>, weights: &[Binary32])
    requires
        old(out)@.len() == 0,
    ensures
        final(out)@ == weight_bytes(weights@),
{
    let mut i: usize = 0;
    assert(out@ =~= weight_bytes(weights@.take(0)));
    while i < weights.len()
        invariant
            i <= weights@.len(),
            out@ == weight_bytes(weights@.take(i as int)),
        decreases weights@.len() - i,
    {
        push_u64(out, weights[i].widen().to_bits());
        i = i + 1;
        assert(weights@.take(i as int).drop_last() =~= weights@.take(i - 1));
    }
    assert(weights@.take(i as int) =~= weights@);
}

/// Writes weights and binning as the bytes of a `progress.bin`.
pub fn write_progress_bin_bytes(weights: &[Binary32], binning: &ProgressBinning) -> (r: Result<
    Vec<u8>,
    ProgressBinError,
>)
    ensures
        match (r, encoded(weights@, binning@)) {
            (Ok(bytes), Ok(model)) => bytes@ == model,
            (Err(e), Err(fault)) => e == fault,
            _ => false,
        },
{
    let len: usize = weights.len();
    if len != SHOGI_PROGRESS_KP_ABS_NUM_WEIGHTS {
        return Err(ProgressBinError::WeightCount { len });
    }
    let mut out: Vec<u8> = Vec::new();
    push_weights(&mut out, weights);
    match binning {
        ProgressBinning::EqualWidth => {},
        ProgressBinning::Quantile { num_buckets, thresholds } => {
            match validate_thresholds(thresholds.as_slice(), *num_buckets) {
                Err(e) => {
                    return Err(e);
                },
                Ok(()) => {},
            }
            if *num_buckets < 2 || *num_buckets > MAX_NUM_BUCKETS {
                return Err(ProgressBinError::NumBuckets { num_buckets: *num_buckets });
            }
            let ghost block = out@;
            out.push(0x50);
            out.push(0x52);
            out.push(0x47);
            out.push(0x51);
            assert(out@ =~= block + trailer_magic());
            push_u32(&mut out, TRAILER_VERSION);
            push_u32(&mut out, *num_buckets as u32);
            let ghost head = out@;
            let mut i: usize = 0;
            assert(out@ =~= head + threshold_bytes(thresholds@.take(0)));
            while i < thresholds.len()
                invariant
                    i <= thresholds@.len(),
                    out@ == head + threshold_bytes(thresholds@.take(i as int)),
                decreases thresholds@.len() - i,
            {
                push_u32(&mut out, thresholds[i].bits);
                i = i + 1;
                assert(thresholds@.take(i as int).drop_last() =~= thresholds@.take(i - 1));
                assert(out@ =~= head + threshold_bytes(thresholds@.take(i as int)));
            }
            assert(thresholds@.take(i as int) =~= thresholds@);
            assert(out@ =~= block + trailer_bytes(*num_buckets as nat, thresholds@));
        },
    }
    Ok(out)
}

/// Where the bytes of each weight stand in the block.
pub proof fn lemma_weight_bytes(weights: Seq<Binary32>)
    ensures
        weight_bytes(weights).len() == weights.len() * 8,
        forall|i: int|
            0 <= i < weights.len() ==> weight_bytes(weights).subrange(i * 8, i * 8 + 8)
                == bytes_of_u64(widened(#[trigger] weights[i]).bits),
    decreases weights.len(),
{
    if weights.len() > 0 {
        let head = weights.drop_last();
        let last = bytes_of_u64(widened(weights.last()).bits);
        lemma_weight_bytes(head);
        let all = weight_bytes(weights);
        assert forall|i: int| 0 <= i < weights.len() implies all.subrange(i * 8, i * 8 + 8)
            == bytes_of_u64(widened(#[trigger] weights[i]).bits) by {
            if i < head.len() {
                assert(head[i] == weights[i]);
                assert(all.subrange(i * 8, i * 8 + 8) =~= weight_bytes(head).subrange(
                    i * 8,
                    i * 8 + 8,
                ));
            } else {
                assert(all.subrange(i * 8, i * 8 + 8) =~= last);
            }
        }
    }
}

/// Where the bytes of each threshold stand among the bytes of all.
pub proof fn lemma_threshold_bytes(thresholds: Seq<Binary32>)
    ensures
        threshold_bytes(thresholds).len() == thresholds.len() * 4,
        forall|i: int|
            0 <= i < thresholds.len() ==> threshold_bytes(thresholds).subrange(i * 4, i * 4 + 4)
                == bytes_of_u32((#[trigger] thresholds[i]).bits),
    decreases thresholds.len(),
{
    if thresholds.len() > 0 {
        let head = thresholds.drop_last();
        let last = bytes_of_u32(thresholds.last().bits);
        lemma_threshold_bytes(head);
        let all = threshold_bytes(thresholds);
        assert forall|i: int| 0 <= i < thresholds.len() implies all.subrange(i * 4, i * 4 + 4)
            == bytes_of_u32((#[trigger] thresholds[i]).bits) by {
            if i < head.len() {
                assert(head[i] == thresholds[i]);
                assert(all.subrange(i * 4, i * 4 + 4) =~= threshold_bytes(head).subrange(
                    i * 4,
                    i * 4 + 4,
                ));
            } else {
                assert(all.subrange(i * 4, i * 4 + 4) =~= last);
            }
        }
    }
}

/// A not-a-number that is not marked as quiet: converting it marks it, so it does not come back
/// unchanged.
pub open spec fn signalling(a: Binary32) -> bool {
    a.nan() && a.magnitude() < QUIET_NAN_BITS
}

/// Weights that are written come back from the start of the bytes, whatever follows them.
pub proof fn law_weights_come_back(weights: Seq<Binary32>, rest: Seq<u8>)
    requires
        weights.len() == SHOGI_PROGRESS_KP_ABS_NUM_WEIGHTS,
        forall|i: int| 0 <= i < weights.len() ==> !signalling(#[trigger] weights[i]),
    ensures
        weight_bytes(weights).len() == PROGRESS_BIN_WEIGHT_BYTES,
        weights_of(weight_bytes(weights) + rest) == weights,
{
    lemma_weight_bytes(weights);
    let block = weight_bytes(weights);
    let bytes = block + rest;
    assert forall|i: int| 0 <= i < weights.len() implies weights_of(bytes)[i]
        == #[trigger] weights[i] by {
        let wide = widened(weights[i]);
        assert(bytes.subrange(i * 8, i * 8 + 8) =~= block.subrange(i * 8, i * 8 + 8));
        lemma_u64_round_trip(bytes, i * 8, wide.bits);
        assert(Binary64 { bits: u64_at(bytes, i * 8) } == wide);
        law_narrowing_undoes_widening(weights[i]);
    }
    assert(weights_of(bytes) =~= weights);
}

/// A trailer that is written is read back.
pub proof fn law_trailer_comes_back(num_buckets: nat, thresholds: Seq<Binary32>)
    requires
        2 <= num_buckets <= MAX_NUM_BUCKETS,
        thresholds.len() + 1 == num_buckets,
        well_spaced(thresholds),
    ensures
        trailer_bytes(num_buckets, thresholds).len() == trailer_len(num_buckets),
        trailer_of(trailer_bytes(num_buckets, thresholds)) == Ok::<BinningView, ProgressBinError>(
            BinningView::Quantile { num_buckets, thresholds },
        ),
{
    lemma_threshold_bytes(thresholds);
    law_validation_is_spacing(thresholds, num_buckets);
    let trailer = trailer_bytes(num_buckets, thresholds);
    let tail = threshold_bytes(thresholds);
    assert(trailer.take(4) =~= trailer_magic());
    assert(trailer.subrange(4, 8) =~= bytes_of_u32(TRAILER_VERSION));
    lemma_u32_round_trip(trailer, 4, TRAILER_VERSION);
    assert(trailer.subrange(8, 12) =~= bytes_of_u32(num_buckets as u32));
    lemma_u32_round_trip(trailer, 8, num_buckets as u32);
    assert forall|i: int| 0 <= i < thresholds.len() implies thresholds_of(trailer, num_buckets)[i]
        == #[trigger] thresholds[i] by {
        let at = TRAILER_HEADER_BYTES + i * 4;
        assert(trailer.subrange(at, at + 4) =~= tail.subrange(i * 4, i * 4 + 4));
        lemma_u32_round_trip(trailer, at, thresholds[i].bits);
    }
    assert(thresholds_of(trailer, num_buckets) =~= thresholds);
}

/// Weights and binning are written exactly when there is the right number of weights and, for a
/// trailer, two to 256 buckets with usable thresholds.
pub proof fn law_what_can_be_written(weights: Seq<Binary32>, binning: BinningView)
    ensures
        encoded(weights, binning) is Ok <==> {
            &&& weights.len() == SHOGI_PROGRESS_KP_ABS_NUM_WEIGHTS
            &&& binning matches BinningView::Quantile { num_buckets, thresholds } ==> 2
                <= num_buckets <= MAX_NUM_BUCKETS && thresholds.len() + 1 == num_buckets
                && well_spaced(thresholds)
        },
{
    match binning {
        BinningView::EqualWidth => {},
        BinningView::Quantile { num_buckets, thresholds } => {
            law_validation_is_spacing(thresholds, num_buckets);
        },
    }
}

/// What is written is read back: the same weights, bit for bit, and the same binning. A file of
/// the first version comes back as buckets of equal width, a file of the second version with its
/// thresholds.
pub proof fn law_file_comes_back(weights: Seq<Binary32>, binning: BinningView)
    requires
        forall|i: int| 0 <= i < weights.len() ==> !signalling(#[trigger] weights[i]),
    ensures
        encoded(weights, binning) matches Ok(bytes) ==> parsed(bytes) == Ok::<
            (Seq<Binary32>, BinningView),
            ProgressBinError,
        >((weights, binning)),
{
    law_what_can_be_written(weights, binning);
    if encoded(weights, binning) is Ok {
        let block = weight_bytes(weights);
        match binning {
            BinningView::EqualWidth => {
                law_weights_come_back(weights, Seq::empty());
                assert(block + Seq::<u8>::empty() =~= block);
            },
            BinningView::Quantile { num_buckets, thresholds } => {
                let trailer = trailer_bytes(num_buckets, thresholds);
                law_weights_come_back(weights, trailer);
                law_trailer_comes_back(num_buckets, thresholds);
                let bytes = block + trailer;
                assert(bytes.subrange(PROGRESS_BIN_WEIGHT_BYTES as int, bytes.len() as int)
                    =~= trailer);
            },
        }
    }
}

/// What is written can be parsed, whatever the weights.
pub proof fn law_written_file_is_readable(weights: Seq<Binary32>, binning: BinningView)
    requires
        encoded(weights, binning) is Ok,
    ensures
        parsed(encoded(weights, binning)->Ok_0) matches Ok(file) && file.1 == binning,
{
    law_what_can_be_written(weights, binning);
    lemma_weight_bytes(weights);
    match binning {
        BinningView::EqualWidth => {},
        BinningView::Quantile { num_buckets, thresholds } => {
            law_trailer_comes_back(num_buckets, thresholds);
            let bytes = encoded(weights, binning)->Ok_0;
            assert(bytes.subrange(PROGRESS_BIN_WEIGHT_BYTES as int, bytes.len() as int)
                =~= trailer_bytes(num_buckets, thresholds));
        },
    }
}

/// What is parsed has usable thresholds or none: two to 256 buckets, and one threshold less than
/// buckets, strictly increasing and strictly between zero and one.
pub proof fn law_parsed_thresholds_are_usable(bytes: Seq<u8>)
    requires
        parsed(bytes) is Ok,
    ensures
        (parsed(bytes)->Ok_0).0.len() == SHOGI_PROGRESS_KP_ABS_NUM_WEIGHTS,
        (parsed(bytes)->Ok_0).1 matches BinningView::Quantile { num_buckets, thresholds } ==> 2
            <= num_buckets <= MAX_NUM_BUCKETS && thresholds.len() + 1 == num_buckets
            && well_spaced(thresholds),
{
    match (parsed(bytes)->Ok_0).1 {
        BinningView::EqualWidth => {},
        BinningView::Quantile { num_buckets, thresholds } => {
            law_validation_is_spacing(thresholds, num_buckets);
        },
    }
}

/// The first `count` thresholds of a trailer are written back as they were read.
proof fn lemma_thresholds_rewritten(trailer: Seq<u8>, num_buckets: nat, count: nat)
    requires
        count < num_buckets,
        trailer.len() == trailer_len(num_buckets),
    ensures
        threshold_bytes(thresholds_of(trailer, num_buckets).take(count as int))
            == trailer.subrange(TRAILER_HEADER_BYTES as int, TRAILER_HEADER_BYTES + count * 4),
    decreases count,
{
    let all = thresholds_of(trailer, num_buckets);
    let head = all.take(count as int);
    let start = TRAILER_HEADER_BYTES as int;
    if count > 0 {
        lemma_thresholds_rewritten(trailer, num_buckets, (count - 1) as nat);
        assert(head.drop_last() =~= all.take(count - 1));
        let at = start + (count - 1) * 4;
        lemma_u32_rewritten(trailer, at);
        assert(head.last().bits == u32_at(trailer, at));
        assert(trailer.subrange(start, start + count * 4) =~= trailer.subrange(start, at)
            + trailer.subrange(at, at + 4));
    } else {
        assert(trailer.subrange(start, start) =~= Seq::empty());
    }
}

/// A trailer that is read is written back byte for byte.
pub proof fn law_trailer_is_written_back(trailer: Seq<u8>)
    requires
        trailer_of(trailer) is Ok,
    ensures
        trailer_of(trailer)->Ok_0 matches BinningView::Quantile { num_buckets, thresholds }
            && trailer_bytes(num_buckets, thresholds) == trailer,
{
    let num_buckets = u32_at(trailer, 8) as nat;
    let thresholds = thresholds_of(trailer, num_buckets);
    lemma_u32_rewritten(trailer, 4);
    lemma_u32_rewritten(trailer, 8);
    lemma_thresholds_rewritten(trailer, num_buckets, (num_buckets - 1) as nat);
    assert(thresholds.take(num_buckets - 1) =~= thresholds);
    assert(trailer =~= trailer.take(4) + trailer.subrange(4, 8) + trailer.subrange(8, 12)
        + trailer.subrange(12, trailer.len() as int));
}

} // verus!
