//! Files of progress weights.
//!
//! A file is written in the first version of the format. Reading takes the block of weights alone,
//! so that files of both versions can be read.

use crate::binary32::Binary32;
use crate::format_laws::law_each_weight_stands_at_its_place;
use crate::progress_bin_format::{
    decode_weights, encoded, law_weights_come_back, lemma_weight_bytes, parsed, push_weights,
    signalling,
    trailer_bytes, weight_bytes, weights_of, BinningView, PROGRESS_BIN_WEIGHT_BYTES,
    SHOGI_PROGRESS_KP_ABS_NUM_WEIGHTS,
};
use crate::text::Piece;
use vstd::prelude::*;

verus! {

/// What is wrong with a file of weights.
#[derive(Clone, Copy, Debug)]
pub enum WeightFileError {
    /// There are too few or too many weights to write.
    WeightCount { len: usize },
    /// The file ends before the block of weights does.
    FileTooSmall { size: u64 },
}

impl WeightFileError {
    /// The message of the error.
    pub open spec fn text(&self) -> Seq<Piece> {
        match self {
            WeightFileError::WeightCount { len } => seq![
                Piece::Text("weight slice length "),
                Piece::Count(*len as u64),
                Piece::Text(" != expected 125388"),
            ],
            WeightFileError::FileTooSmall { size } => seq![
                Piece::Text("progress.bin size "),
                Piece::Count(*size),
                Piece::Text(" < expected weight block 1003104 bytes"),
            ],
        }
    }

    /// The message of the error.
    pub fn describe(&self) -> (r: Vec<Piece>)
        ensures
            r@ == self.text(),
    {
        let r = match self {
            WeightFileError::WeightCount { len } => vec![
                Piece::Text("weight slice length "),
                Piece::Count(*len as u64),
                Piece::Text(" != expected 125388"),
            ],
            WeightFileError::FileTooSmall { size } => vec![
                Piece::Text("progress.bin size "),
                Piece::Count(*size),
                Piece::Text(" < expected weight block 1003104 bytes"),
            ],
        };
        assert(r@ =~= self.text());
        r
    }
}

/// What a file for `weights` holds.
pub open spec fn file_of(weights: Seq<Binary32>) -> Result<Seq<u8>, WeightFileError> {
    if weights.len() != SHOGI_PROGRESS_KP_ABS_NUM_WEIGHTS {
        Err(WeightFileError::WeightCount { len: weights.len() as usize })
    } else {
        Ok(weight_bytes(weights))
    }
}

/// The bytes of the file for `weights`.
pub fn write_progress_bin(weights: &[Binary32]) -> (r: Result<Vec<u8>, WeightFileError>)
    ensures
        match r {
            Ok(bytes) => file_of(weights@) == Ok::<Seq<u8>, WeightFileError>(bytes@),
            Err(e) => file_of(weights@) == Err::<Seq<u8>, WeightFileError>(e),
        },
{
    if weights.len() != SHOGI_PROGRESS_KP_ABS_NUM_WEIGHTS {
        return Err(WeightFileError::WeightCount { len: weights.len() });
    }
    let mut out: Vec<u8> = Vec::new();
    push_weights(&mut out, weights);
    assert(out@ =~= weight_bytes(weights@));
    Ok(out)
}

/// How many bytes to read of a file of `size` bytes: its block of weights, if it is all there.
pub fn weight_block_len(size: u64) -> (r: Result<usize, WeightFileError>)
    ensures
        r == if (size as usize) < PROGRESS_BIN_WEIGHT_BYTES {
            Err::<usize, WeightFileError>(WeightFileError::FileTooSmall { size })
        } else {
            Ok(PROGRESS_BIN_WEIGHT_BYTES)
        },
{
    if (size as usize) < PROGRESS_BIN_WEIGHT_BYTES {
        Err(WeightFileError::FileTooSmall { size })
    } else {
        Ok(PROGRESS_BIN_WEIGHT_BYTES)
    }
}

/// The weights in a file that starts with `bytes`.
pub open spec fn weights_in(bytes: Seq<u8>) -> Result<Seq<Binary32>, WeightFileError> {
    if bytes.len() < PROGRESS_BIN_WEIGHT_BYTES {
        Err(WeightFileError::FileTooSmall { size: bytes.len() as u64 })
    } else {
        Ok(weights_of(bytes))
    }
}

/// The weights in a file that starts with `bytes`; what follows the block of weights is ignored.
pub fn read_progress_bin(bytes: &[u8]) -> (r: Result<Vec<Binary32>, WeightFileError>)
    ensures
        match r {
            Ok(weights) => weights_in(bytes@) == Ok::<Seq<Binary32>, WeightFileError>(weights@),
            Err(e) => weights_in(bytes@) == Err::<Seq<Binary32>, WeightFileError>(e),
        },
{
    match decode_weights(bytes) {
        Ok(weights) => Ok(weights),
        Err(_) => Err(WeightFileError::FileTooSmall { size: bytes.len() as u64 }),
    }
}

/// What is written is read back, whatever follows it in the file. A signalling not-a-number does
/// not keep its pattern.
pub proof fn law_written_weights_are_read(weights: Seq<Binary32>, rest: Seq<u8>)
    requires
        weights.len() == SHOGI_PROGRESS_KP_ABS_NUM_WEIGHTS,
        forall|i: int| 0 <= i < weights.len() ==> !signalling(#[trigger] weights[i]),
    ensures
        file_of(weights) is Ok,
        weights_in(file_of(weights)->Ok_0 + rest) == Ok::<Seq<Binary32>, WeightFileError>(weights),
{
    law_weights_come_back(weights, rest);
}

/// The file is that of the first version of the format, for buckets of equal width.
pub proof fn law_file_is_of_the_first_version(weights: Seq<Binary32>)
    ensures
        file_of(weights) is Ok <==> encoded(weights, BinningView::EqualWidth) is Ok,
        file_of(weights) is Ok ==> file_of(weights)->Ok_0 == encoded(
            weights,
            BinningView::EqualWidth,
        )->Ok_0,
{
}

/// A file of either version gives its weights.
pub proof fn law_both_versions_are_read(weights: Seq<Binary32>, binning: BinningView)
    requires
        encoded(weights, binning) is Ok,
        forall|i: int| 0 <= i < weights.len() ==> !signalling(#[trigger] weights[i]),
    ensures
        weights_in(encoded(weights, binning)->Ok_0) == Ok::<Seq<Binary32>, WeightFileError>(
            weights,
        ),
{
    match binning {
        BinningView::EqualWidth => {
            law_weights_come_back(weights, seq![]);
            assert(weight_bytes(weights) + Seq::<u8>::empty() =~= weight_bytes(weights));
        },
        BinningView::Quantile { num_buckets, thresholds } => {
            law_weights_come_back(weights, trailer_bytes(num_buckets, thresholds));
        },
    }
}

/// Where a file can be parsed whole, reading its weights alone gives the same weights.
pub proof fn law_reading_agrees_with_parsing(bytes: Seq<u8>)
    requires
        parsed(bytes) is Ok,
    ensures
        weights_in(bytes) == Ok::<Seq<Binary32>, WeightFileError>((parsed(bytes)->Ok_0).0),
{
}

/// A file holds its weights alone, and is refused for any other number of them; reading refuses
/// what is shorter than the block of weights, and looks at nothing behind it.
pub proof fn law_which_weight_files_are_taken(weights: Seq<Binary32>, bytes: Seq<u8>)
    requires
        weights.len() <= usize::MAX,
        bytes.len() <= usize::MAX,
    ensures
        weights.len() == 125388 ==> file_of(weights) is Ok && file_of(weights)->Ok_0.len()
            == 1003104,
        weights.len() != 125388 ==> file_of(weights) == Err::<Seq<u8>, WeightFileError>(
            WeightFileError::WeightCount { len: weights.len() as usize },
        ),
        bytes.len() < 1003104 ==> weights_in(bytes) == Err::<Seq<Binary32>, WeightFileError>(
            WeightFileError::FileTooSmall { size: bytes.len() as u64 },
        ),
        bytes.len() >= 1003104 ==> weights_in(bytes) is Ok && weights_in(bytes) == weights_in(
            bytes.take(1003104),
        ),
{
    lemma_weight_bytes(weights);
    if bytes.len() >= 1003104 {
        let block = bytes.take(1003104);
        assert forall|i: int| 0 <= i < 125388 implies #[trigger] weights_of(bytes)[i]
            == weights_of(block)[i] by {
            law_each_weight_stands_at_its_place(bytes, block, i);
        }
        assert(weights_of(bytes) =~= weights_of(block));
    }
}

} // verus!
