use tatara::binary32::Binary32;
use tatara::buckets::{compute_quantile_thresholds, equal_width_bucket, quantile_bucket};
use tatara::progress_bin::{
    read_progress_bin, weight_block_len, write_progress_bin, WeightFileError,
};
use tatara::progress_bin_format::{
    decode_weights, parse_progress_bin, parse_trailer, trailer_byte_len, validate_thresholds,
    write_progress_bin_bytes, ProgressBinError, ProgressBinning, PROGRESS_BIN_WEIGHT_BYTES,
    SHOGI_PROGRESS_KP_ABS_NUM_WEIGHTS,
};
use tatara::text::{join, Piece};

fn num(x: f32) -> Binary32 {
    Binary32::from_bits(x.to_bits())
}

fn float(x: Binary32) -> f32 {
    f32::from_bits(x.to_bits())
}

fn nums(xs: &[f32]) -> Vec<Binary32> {
    xs.iter().map(|&x| num(x)).collect()
}

fn bits(xs: &[Binary32]) -> Vec<u32> {
    xs.iter().map(|x| x.to_bits()).collect()
}

fn dummy_weights() -> Vec<Binary32> {
    vec![num(0.0); SHOGI_PROGRESS_KP_ABS_NUM_WEIGHTS]
}

/// Weights of many sizes and both signs.
fn mixed_weights() -> Vec<Binary32> {
    (0..SHOGI_PROGRESS_KP_ABS_NUM_WEIGHTS as u32)
        .map(|i| {
            let p = i.wrapping_mul(2_654_435_761);
            // Leave out the patterns that are not numbers.
            if p & 0x7F80_0000 == 0x7F80_0000 {
                num(i as f32)
            } else {
                Binary32::from_bits(p)
            }
        })
        .collect()
}

fn written(pieces: &[Piece]) -> String {
    let numbers: Vec<String> = pieces
        .iter()
        .filter_map(|piece| match piece {
            Piece::Number(n) => Some(format!("{}", float(*n))),
            _ => None,
        })
        .collect();
    join(pieces, &numbers)
}

fn message<T>(r: Result<T, ProgressBinError>) -> String {
    match r {
        Ok(_) => String::from("no error"),
        Err(e) => written(&e.describe()),
    }
}

fn quantile(num_buckets: usize, thresholds: &[f32]) -> ProgressBinning {
    ProgressBinning::Quantile { num_buckets, thresholds: nums(thresholds) }
}

fn trailer(version: u32, num_buckets: u32, thresholds: &[f32]) -> Vec<u8> {
    let mut out = b"PRGQ".to_vec();
    out.extend_from_slice(&version.to_le_bytes());
    out.extend_from_slice(&num_buckets.to_le_bytes());
    for t in thresholds {
        out.extend_from_slice(&t.to_le_bytes());
    }
    out
}

#[test]
fn v1_round_trip_is_equal_width() {
    let weights = dummy_weights();
    let bytes = write_progress_bin_bytes(&weights, &ProgressBinning::EqualWidth).unwrap();
    assert_eq!(bytes.len(), PROGRESS_BIN_WEIGHT_BYTES);
    let (read_weights, binning) = parse_progress_bin(&bytes).unwrap();
    assert_eq!(read_weights, weights);
    assert_eq!(binning, ProgressBinning::EqualWidth);
}

#[test]
fn v2_round_trip_preserves_thresholds() {
    let weights = dummy_weights();
    let binning = quantile(4, &[0.25, 0.5, 0.75]);
    let bytes = write_progress_bin_bytes(&weights, &binning).unwrap();
    assert_eq!(bytes.len(), PROGRESS_BIN_WEIGHT_BYTES + trailer_byte_len(4));
    let (read_weights, read_binning) = parse_progress_bin(&bytes).unwrap();
    assert_eq!(read_weights, weights);
    assert_eq!(read_binning, binning);
}

#[test]
fn quantile_bucket_assigns_by_threshold_count() {
    let thresholds = nums(&[0.25, 0.5, 0.75]);
    assert_eq!(quantile_bucket(num(0.1), 4, &thresholds), 0);
    assert_eq!(quantile_bucket(num(0.25), 4, &thresholds), 1);
    assert_eq!(quantile_bucket(num(0.5), 4, &thresholds), 2);
    assert_eq!(quantile_bucket(num(0.49), 4, &thresholds), 1);
    assert_eq!(quantile_bucket(num(0.75), 4, &thresholds), 3);
    assert_eq!(quantile_bucket(num(1.0), 4, &thresholds), 3);
}

#[test]
fn compute_quantile_thresholds_even_split() {
    let ps: Vec<f32> = (0..100).map(|i| i as f32 / 99.0).collect();
    let thresholds = compute_quantile_thresholds(&nums(&ps), 4).unwrap();
    assert_eq!(thresholds.len(), 3);
    assert!((float(thresholds[0]) - ps[25]).abs() < 1e-5);
    assert!((float(thresholds[1]) - ps[50]).abs() < 1e-5);
    assert!((float(thresholds[2]) - ps[75]).abs() < 1e-5);
}

#[test]
fn rejects_non_monotonic_trailer() {
    let weights = dummy_weights();
    let binning = quantile(3, &[0.5, 0.4]);
    assert!(write_progress_bin_bytes(&weights, &binning).is_err());
}

#[test]
fn weights_come_back_bit_for_bit() {
    let weights = mixed_weights();
    let bytes = write_progress_bin_bytes(&weights, &ProgressBinning::EqualWidth).unwrap();
    let expected: Vec<u8> =
        weights.iter().flat_map(|w| (float(*w) as f64).to_le_bytes()).collect();
    assert_eq!(bytes, expected);
    let (read, _) = parse_progress_bin(&bytes).unwrap();
    assert_eq!(bits(&read), bits(&weights));
}

#[test]
fn a_signalling_weight_comes_back_quiet() {
    let mut weights = dummy_weights();
    weights[7] = Binary32::from_bits(0x7F80_0001);
    let bytes = write_progress_bin_bytes(&weights, &ProgressBinning::EqualWidth).unwrap();
    let (read, _) = parse_progress_bin(&bytes).unwrap();
    assert_eq!(read[7].to_bits(), 0x7FC0_0001);
}

#[test]
fn the_trailer_has_the_documented_layout() {
    let bytes = write_progress_bin_bytes(&dummy_weights(), &quantile(3, &[0.25, 0.5])).unwrap();
    assert_eq!(bytes[PROGRESS_BIN_WEIGHT_BYTES..], trailer(1, 3, &[0.25, 0.5])[..]);
    assert_eq!(PROGRESS_BIN_WEIGHT_BYTES, 1_003_104);
    assert_eq!(trailer_byte_len(2), 16);
    assert_eq!(trailer_byte_len(256), 12 + 255 * 4);
}

#[test]
fn a_trailer_is_written_back_byte_for_byte() {
    let given = trailer(1, 4, &[0.1, 0.2, 0.9]);
    let binning = parse_trailer(&given).unwrap();
    assert!(binning.is_quantile());
    assert_eq!(binning.quantile_num_buckets(), Some(4));
    let bytes = write_progress_bin_bytes(&dummy_weights(), &binning).unwrap();
    assert_eq!(bytes[PROGRESS_BIN_WEIGHT_BYTES..], given[..]);
}

#[test]
fn equal_width_is_the_default() {
    let binning = ProgressBinning::default();
    assert_eq!(binning, ProgressBinning::EqualWidth);
    assert!(!binning.is_quantile());
    assert_eq!(binning.quantile_num_buckets(), None);
}

#[test]
fn every_fault_of_a_file_is_named() {
    assert_eq!(
        message(parse_progress_bin(&[0; 5])),
        "progress.bin too short: got 5 bytes, need at least 1003104"
    );
    assert_eq!(
        message(decode_weights(&[])),
        "progress.bin too short: got 0 bytes, need at least 1003104"
    );
    let file = |t: &[u8]| {
        let mut bytes = vec![0u8; PROGRESS_BIN_WEIGHT_BYTES];
        bytes.extend_from_slice(t);
        message(parse_progress_bin(&bytes))
    };
    assert_eq!(
        file(&[1, 2, 3]),
        "progress.bin v2 trailer too short: got 3 bytes, need at least 12"
    );
    let mut wrong = trailer(1, 2, &[0.5]);
    wrong[3] = b'X';
    assert_eq!(
        file(&wrong),
        "progress.bin v2 trailer magic mismatch: got [80, 82, 71, 88], expected [80, 82, 71, 81]"
    );
    assert_eq!(
        file(&trailer(2, 2, &[0.5])),
        "progress.bin v2 trailer version 2 is unsupported (expected 1)"
    );
    assert_eq!(
        file(&trailer(1, 1, &[])),
        "progress.bin v2 num_buckets must be in [2, 256] (got 1)"
    );
    assert_eq!(
        file(&trailer(1, 257, &[])),
        "progress.bin v2 num_buckets must be in [2, 256] (got 257)"
    );
    assert_eq!(
        file(&trailer(1, 3, &[0.5])),
        "progress.bin v2 trailer length mismatch: got 16 bytes, expected 20 for num_buckets=3"
    );
    assert_eq!(file(&trailer(1, 2, &[1.0])), "threshold[0] = 1 is not in (0, 1)");
    assert_eq!(file(&trailer(1, 2, &[0.5])), "no error");
}

#[test]
fn every_fault_of_thresholds_is_named() {
    let check = |n: usize, ts: &[f32]| message(validate_thresholds(&nums(ts), n));
    assert_eq!(check(4, &[0.5]), "threshold count 1 does not match num_buckets 4");
    assert_eq!(check(2, &[0.0]), "threshold[0] = 0 is not in (0, 1)");
    assert_eq!(check(2, &[-0.0]), "threshold[0] = -0 is not in (0, 1)");
    assert_eq!(check(2, &[-0.5]), "threshold[0] = -0.5 is not in (0, 1)");
    assert_eq!(check(2, &[f32::NAN]), "threshold[0] = NaN is not in (0, 1)");
    assert_eq!(check(2, &[f32::INFINITY]), "threshold[0] = inf is not in (0, 1)");
    assert_eq!(
        check(4, &[0.25, 0.5, 0.5]),
        "thresholds must be strictly increasing (threshold[2] = 0.5 <= threshold[1] = 0.5)"
    );
    assert_eq!(check(1, &[]), "no error");
    assert_eq!(check(2, &[f32::MIN_POSITIVE]), "no error");
    assert_eq!(check(2, &[f32::from_bits(0x3F7F_FFFF)]), "no error");
}

#[test]
fn every_fault_of_writing_and_calibrating_is_named() {
    assert_eq!(
        message(write_progress_bin_bytes(&nums(&[1.0, 2.0]), &ProgressBinning::EqualWidth)),
        "weight slice length 2 != expected 125388"
    );
    for n in [1usize, 257, 300] {
        let thresholds: Vec<f32> = (1..n).map(|i| i as f32 / n as f32).collect();
        assert_eq!(
            message(write_progress_bin_bytes(&dummy_weights(), &quantile(n, &thresholds))),
            format!("num_buckets must be in [2, 256] (got {n})")
        );
    }
    for (n, count) in [(0usize, 0usize), (0, 1), (300, 2), (1, 1)] {
        assert_eq!(
            message(write_progress_bin_bytes(&dummy_weights(), &quantile(n, &vec![0.5; count]))),
            format!("threshold count {count} does not match num_buckets {n}")
        );
    }
    assert_eq!(
        message(write_progress_bin_bytes(&dummy_weights(), &quantile(300, &vec![0.5; 299]))),
        "thresholds must be strictly increasing (threshold[1] = 0.5 <= threshold[0] = 0.5)"
    );
    assert_eq!(
        message(compute_quantile_thresholds(&nums(&[0.5]), 1)),
        "num_buckets must be in [2, 256] (got 1)"
    );
    assert_eq!(
        message(compute_quantile_thresholds(&nums(&[0.5]), 257)),
        "num_buckets must be in [2, 256] (got 257)"
    );
    assert_eq!(
        message(compute_quantile_thresholds(&[], 2)),
        "cannot compute quantile thresholds from empty sample"
    );
    assert_eq!(
        message(compute_quantile_thresholds(&nums(&[0.5; 10]), 3)),
        "thresholds must be strictly increasing (threshold[1] = 0.5 <= threshold[0] = 0.5)"
    );
    for sample in [vec![0.5f32; 4], vec![0.5]] {
        assert_eq!(
            message(compute_quantile_thresholds(&nums(&sample), 2)),
            "cannot compute quantile thresholds from identical values (0.5)"
        );
    }
    assert_eq!(message(compute_quantile_thresholds(&nums(&[0.25, 0.5]), 2)), "no error");
}

#[test]
fn equal_width_buckets_agree_with_the_machine() {
    let ps = [
        0.0f32, -0.0, 0.1, 0.25, 0.333, 0.5, 0.9999, 1.0, 1.5, -0.1, 1e-45, 1e30, -1e30,
        f32::INFINITY, f32::NEG_INFINITY, f32::NAN,
    ];
    for n in [1usize, 2, 9, 32, 255, 256] {
        for p in ps {
            let raw = (p * n as f32).floor() as i32;
            let expected = raw.clamp(0, n as i32 - 1) as u8;
            assert_eq!(equal_width_bucket(num(p), n), expected, "{p} {n}");
        }
        let mut last = 0;
        for i in 0..=1000 {
            let bucket = equal_width_bucket(num(i as f32 / 1000.0), n);
            assert!(bucket >= last && (bucket as usize) < n);
            last = bucket;
        }
    }
    assert_eq!(equal_width_bucket(num(0.5), 9), 4);
}

#[test]
fn quantile_buckets_lie_between_their_thresholds() {
    let thresholds = nums(&[0.1, 0.4, 0.45, 0.9]);
    let mut last = 0;
    for i in 0..=100 {
        let p = i as f32 / 100.0;
        let bucket = quantile_bucket(num(p), 5, &thresholds);
        let index = bucket as usize;
        assert!(index == 0 || p >= float(thresholds[index - 1]));
        assert!(index == 4 || p < float(thresholds[index]));
        assert!(bucket >= last);
        last = bucket;
    }
    assert_eq!(quantile_bucket(num(f32::NAN), 5, &thresholds), 0);
}

#[test]
fn weight_files_are_of_the_first_version() {
    let weights = mixed_weights();
    let file = write_progress_bin(&weights).unwrap();
    let v1 = write_progress_bin_bytes(&weights, &ProgressBinning::EqualWidth).unwrap();
    assert_eq!(file, v1);
    assert_eq!(bits(&read_progress_bin(&file).unwrap()), bits(&weights));
}

#[test]
fn weight_files_of_both_versions_are_read() {
    let weights = mixed_weights();
    let v2 = write_progress_bin_bytes(&weights, &quantile(2, &[0.5])).unwrap();
    assert_eq!(bits(&read_progress_bin(&v2).unwrap()), bits(&weights));
    assert_eq!(weight_block_len(v2.len() as u64).unwrap(), PROGRESS_BIN_WEIGHT_BYTES);
    let (parsed, _) = parse_progress_bin(&v2).unwrap();
    assert_eq!(bits(&read_progress_bin(&v2).unwrap()), bits(&parsed));
    let mut tail = write_progress_bin(&weights).unwrap();
    tail.extend_from_slice(b"anything");
    assert_eq!(bits(&read_progress_bin(&tail).unwrap()), bits(&weights));
}

#[test]
fn every_fault_of_a_weight_file_is_named() {
    let e = write_progress_bin(&nums(&[1.0; 3])).unwrap_err();
    assert!(matches!(e, WeightFileError::WeightCount { len: 3 }));
    assert_eq!(written(&e.describe()), "weight slice length 3 != expected 125388");
    let e = read_progress_bin(&[0; 9]).unwrap_err();
    assert!(matches!(e, WeightFileError::FileTooSmall { size: 9 }));
    assert_eq!(
        written(&e.describe()),
        "progress.bin size 9 < expected weight block 1003104 bytes"
    );
    let e = weight_block_len(1_003_103).unwrap_err();
    assert!(matches!(e, WeightFileError::FileTooSmall { size: 1_003_103 }));
    assert!(weight_block_len(1_003_104).is_ok());
}
