//! What a survey prints besides its histograms.

use crate::text::{decimal, write_decimal};
use vstd::prelude::*;
use vstd::string::*;

verus! {

/// That a file was read.
pub open spec fn loaded_text(loaded: usize, path: Seq<char>) -> Seq<char> {
    "loaded "@ + decimal(loaded as nat) + " positions from "@ + path
}

/// That a file was read.
pub fn loaded_message(loaded: usize, path: &str) -> (r: String)
    ensures
        r@ == loaded_text(loaded, path@),
{
    let mut r = String::new();
    r.append("loaded ");
    write_decimal(&mut r, loaded as u64);
    r.append(" positions from ");
    r.append(path);
    assert(r@ =~= loaded_text(loaded, path@));
    r
}

/// The label of a file's histogram.
pub open spec fn pack_text(path: Seq<char>) -> Seq<char> {
    "per-pack: "@ + path
}

/// The label of a file's histogram.
pub fn pack_label(path: &str) -> (r: String)
    ensures
        r@ == pack_text(path@),
{
    let mut r = String::new();
    r.append("per-pack: ");
    r.append(path);
    assert(r@ =~= pack_text(path@));
    r
}

/// The label of the histogram over all files.
pub open spec fn distribution_text(quantile: bool, num_buckets: usize) -> Seq<char> {
    "progress-kpabs bucket distribution ("@ + (if quantile {
        "quantile"@
    } else {
        "equal-width"@
    }) + ", N="@ + decimal(num_buckets as nat) + ")"@
}

/// The label of the histogram over all files.
pub fn distribution_label(quantile: bool, num_buckets: usize) -> (r: String)
    ensures
        r@ == distribution_text(quantile, num_buckets),
{
    let mut r = String::new();
    r.append("progress-kpabs bucket distribution (");
    if quantile {
        r.append("quantile");
    } else {
        r.append("equal-width");
    }
    r.append(", N=");
    write_decimal(&mut r, num_buckets as u64);
    r.append(")");
    assert(r@ =~= distribution_text(quantile, num_buckets));
    r
}

/// The label of the histogram after a calibration.
pub open spec fn calibrated_text(num_buckets: usize) -> Seq<char> {
    "post-calibration quantile distribution (same sample, N="@ + decimal(num_buckets as nat) + ")"@
}

/// The label of the histogram after a calibration.
pub fn calibrated_label(num_buckets: usize) -> (r: String)
    ensures
        r@ == calibrated_text(num_buckets),
{
    let mut r = String::new();
    r.append("post-calibration quantile distribution (same sample, N=");
    write_decimal(&mut r, num_buckets as u64);
    r.append(")");
    assert(r@ =~= calibrated_text(num_buckets));
    r
}

/// That a calibrated `progress.bin` was written.
pub open spec fn wrote_text(path: Seq<char>, num_buckets: usize) -> Seq<char> {
    "wrote calibrated progress.bin: "@ + path + " (num_buckets="@ + decimal(num_buckets as nat)
        + ", "@ + decimal((num_buckets - 1) as nat) + " thresholds)"@
}

/// That a calibrated `progress.bin` was written.
pub fn wrote_message(path: &str, num_buckets: usize) -> (r: String)
    requires
        num_buckets >= 1,
    ensures
        r@ == wrote_text(path@, num_buckets),
{
    let mut r = String::new();
    r.append("wrote calibrated progress.bin: ");
    r.append(path);
    r.append(" (num_buckets=");
    write_decimal(&mut r, num_buckets as u64);
    r.append(", ");
    write_decimal(&mut r, num_buckets as u64 - 1);
    r.append(" thresholds)");
    assert(r@ =~= wrote_text(path@, num_buckets));
    r
}

} // verus!
