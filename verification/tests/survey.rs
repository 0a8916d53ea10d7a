use tatara::binary32::Binary32;
use tatara::buckets::{compute_quantile_thresholds, quantile_bucket};
use tatara::binary64::Binary64;
use tatara::histogram::{add_hist, count_buckets, heading, print_hist, top_bucket, HistLine};
use tatara::path_list::{is_white, split_paths};
use tatara::progress_bin_format::{
    parse_progress_bin, write_progress_bin_bytes, ProgressBinning,
    SHOGI_PROGRESS_KP_ABS_NUM_WEIGHTS,
};
use tatara::sampling::{read_samples, ReadAction, ReadEvent};
use tatara::sorting::sort_ascending;
use tatara::survey::{bucket_for_survey, run, Args, Finding, PackRequest, Survey, SurveyError};
use tatara::survey_text::wrote_message;
use tatara::text::{join, Piece};

fn num(x: f32) -> Binary32 {
    Binary32::from_bits(x.to_bits())
}

fn float(x: Binary32) -> f32 {
    f32::from_bits(x.to_bits())
}

fn nums(xs: &[f32]) -> Vec<Binary32> {
    xs.iter().map(|&x| num(x)).collect()
}

fn wide(x: f64) -> Binary64 {
    Binary64::from_bits(x.to_bits())
}

/// The fullest bucket and its share.
fn top(hist: &[u64]) -> (usize, f64) {
    let (index, share) = top_bucket(hist);
    (index, f64::from_bits(share.to_bits()))
}

fn written(pieces: &[Piece]) -> String {
    let numbers: Vec<String> = pieces
        .iter()
        .filter_map(|piece| match piece {
            Piece::Number(n) => Some(format!("{}", float(*n))),
            Piece::Share { percent, .. } => {
                Some(format!("{:.2}", f64::from_bits(percent.to_bits())))
            }
            _ => None,
        })
        .collect();
    join(pieces, &numbers)
}

#[test]
fn top_bucket_picks_the_largest_with_share() {
    let (idx, share) = top(&[10, 70, 20]);
    assert_eq!(idx, 1);
    assert!((share - 70.0).abs() < 1e-9);
}

#[test]
fn top_bucket_empty_histogram_is_zero() {
    assert_eq!(top(&[0, 0, 0]), (0, 0.0));
}

#[test]
fn top_bucket_ties_keep_the_first() {
    let (idx, _) = top(&[50, 50, 0]);
    assert_eq!(idx, 0);
}

#[test]
fn shares_agree_with_the_machine_bit_for_bit() {
    let mut state: u64 = 99;
    for round in 0..500u32 {
        let hist: Vec<u64> = (0..9)
            .map(|_| {
                state = state.wrapping_mul(6_364_136_223_846_793_005).wrapping_add(1);
                state >> (8 + round % 50)
            })
            .collect();
        let total: u64 = hist.iter().sum();
        if total == 0 {
            continue;
        }
        let (index, share) = top(&hist);
        assert_eq!(hist[index], *hist.iter().max().unwrap());
        let expected = 100.0 * hist[index] as f64 / total as f64;
        assert_eq!(share.to_bits(), expected.to_bits());
    }
}

#[test]
fn calibration_produces_near_equal_histogram() {
    let ps: Vec<f32> = (0..10_000).map(|i| i as f32 / 9_999.0).collect();
    let sorted = sort_ascending(&nums(&ps));
    let num_buckets = 32usize;
    let thresholds = compute_quantile_thresholds(&sorted, num_buckets).unwrap();
    let mut hist = vec![0u64; num_buckets];
    for &p in &ps {
        hist[quantile_bucket(num(p), num_buckets, &thresholds) as usize] += 1;
    }
    let target = ps.len() as f64 / num_buckets as f64;
    for (i, &count) in hist.iter().enumerate() {
        let diff = (count as f64 - target).abs() / target;
        assert!(
            diff < 0.02,
            "bucket {i}: count {count} deviates more than 2% from target {target}"
        );
    }
}

#[test]
fn write_calibrated_bytes_round_trip() {
    let weights = vec![num(0.0); SHOGI_PROGRESS_KP_ABS_NUM_WEIGHTS];
    let ps: Vec<f32> = (0..1000).map(|i| i as f32 / 999.0).collect();
    let thresholds = compute_quantile_thresholds(&nums(&ps), 8).unwrap();
    let binning = ProgressBinning::Quantile { num_buckets: 8, thresholds };
    let bytes = write_progress_bin_bytes(&weights, &binning).unwrap();
    let (_, parsed) = parse_progress_bin(&bytes).unwrap();
    assert_eq!(parsed, binning);
}

/// Does with a file in memory what the reader asks for; gives where the records start.
fn sample(len: u64, record: u64, offset: u64, stride: u64, max: usize) -> Vec<u64> {
    let (mut reader, mut action) = read_samples(len, record, offset, stride, max);
    let mut position: u64 = 0;
    let mut places = Vec::new();
    loop {
        let event = match action {
            ReadAction::SeekTo { position: to } => {
                position = to;
                ReadEvent::Moved
            }
            ReadAction::SkipForward { bytes } => {
                position = position.saturating_add(bytes as u64);
                ReadEvent::Moved
            }
            ReadAction::ReadRecord => {
                if position.saturating_add(record) <= len {
                    places.push(position);
                    position += record;
                    ReadEvent::Record
                } else {
                    ReadEvent::EndOfFile
                }
            }
            ReadAction::Finish => return places,
        };
        action = reader.advance(event);
    }
}

#[test]
fn every_nth_record_is_read() {
    for len in [0u64, 39, 40, 41, 399, 400, 415] {
        for offset in 0..12u64 {
            for stride in 1..6u64 {
                for max in 0..12usize {
                    let expected: Vec<u64> = (offset..len / 40)
                        .step_by(stride as usize)
                        .take(max)
                        .map(|i| i * 40)
                        .collect();
                    assert_eq!(sample(len, 40, offset, stride, max), expected);
                }
            }
        }
    }
}

#[test]
fn a_skip_is_held_to_what_one_step_covers() {
    let (mut reader, action) = read_samples(4000, 40, 0, u64::MAX, 9);
    assert_eq!(action, ReadAction::SeekTo { position: 0 });
    assert_eq!(reader.advance(ReadEvent::Moved), ReadAction::ReadRecord);
    assert_eq!(
        reader.advance(ReadEvent::Record),
        ReadAction::SkipForward { bytes: i64::MAX }
    );
    assert_eq!(reader.advance(ReadEvent::Moved), ReadAction::ReadRecord);
    assert_eq!(reader.advance(ReadEvent::EndOfFile), ReadAction::Finish);
    assert_eq!(sample(4000, 40, 3, u64::MAX, 9), vec![120]);
}

#[test]
fn numbers_are_sorted_and_equal_ones_stay_in_place() {
    let given = nums(&[0.5, -0.0, 3.0, 0.0, -1.5, 0.5, f32::INFINITY, -0.0, f32::NEG_INFINITY]);
    let sorted: Vec<u32> = sort_ascending(&given).iter().map(|x| x.to_bits()).collect();
    let mut expected: Vec<f32> = given.iter().map(|x| float(*x)).collect();
    expected.sort_by(|a, b| a.partial_cmp(b).unwrap());
    let expected: Vec<u32> = expected.iter().map(|x| x.to_bits()).collect();
    assert_eq!(sorted, expected);
    assert!(sort_ascending(&[]).is_empty());
    let mut state: u32 = 7;
    let many: Vec<f32> = (0..5000)
        .map(|_| {
            state = state.wrapping_mul(1_664_525).wrapping_add(1_013_904_223);
            (state >> 20) as f32 / 4096.0
        })
        .collect();
    let mut expected = many.clone();
    expected.sort_by(|a, b| a.partial_cmp(b).unwrap());
    let sorted: Vec<f32> = sort_ascending(&nums(&many)).iter().map(|x| float(*x)).collect();
    assert_eq!(sorted, expected);
}

#[test]
fn sorting_keeps_what_cannot_be_compared() {
    let sorted = sort_ascending(&nums(&[2.0, f32::NAN, 1.0]));
    assert_eq!(sorted.len(), 3);
    assert_eq!(sorted.iter().filter(|x| x.is_nan()).count(), 1);
}

#[test]
fn paths_are_split_as_by_std() {
    for data in [
        "a.bin",
        "a.bin,b.bin",
        " a.bin , b c.bin ,, ,\t",
        "",
        ",",
        " , ",
        "\u{3000}a\u{2003},\u{85}",
        "あ い,\u{a0}う\n",
    ] {
        let expected: Vec<String> = data
            .split(',')
            .map(str::trim)
            .filter(|s| !s.is_empty())
            .map(String::from)
            .collect();
        assert_eq!(split_paths(data), expected, "{data:?}");
    }
    for code in 0..=0x10FFFFu32 {
        if let Some(c) = char::from_u32(code) {
            assert_eq!(is_white(c), c.is_whitespace(), "{code:x}");
        }
    }
}

#[test]
fn histograms_count_and_add_up() {
    let mut hist = count_buckets(&[0, 2, 2, 1, 2], 4);
    assert_eq!(hist, vec![1, 1, 3, 0]);
    add_hist(&mut hist, &count_buckets(&[3, 2], 4));
    assert_eq!(hist, vec![1, 1, 4, 1]);
    assert_eq!(hist, count_buckets(&[0, 2, 2, 1, 2, 3, 2], 4));
}

#[test]
fn histograms_are_printed_by_bucket() {
    assert_eq!(print_hist(&[0, 0]), vec![HistLine::NoPositions]);
    assert_eq!(print_hist(&[]), vec![HistLine::NoPositions]);
    assert_eq!(
        print_hist(&[1, 3]),
        vec![
            HistLine::Bucket { index: 0, count: 1, share: wide(25.0) },
            HistLine::Bucket { index: 1, count: 3, share: wide(75.0) },
            HistLine::Summary { total: 4, top: 1, share: wide(75.0) },
        ]
    );
}

#[test]
fn printed_lines_have_their_text() {
    let text = |hist: &[u64]| -> Vec<String> {
        print_hist(hist).iter().map(|line| written(&line.describe())).collect()
    };
    assert_eq!(text(&[0, 0]), vec!["(no positions)"]);
    let hist = [1u64, 123_456_789_012, 7, 0];
    let total: u64 = hist.iter().sum();
    let mut expected: Vec<String> = Vec::new();
    for (i, &count) in hist.iter().enumerate() {
        let pct = 100.0 * count as f64 / total as f64;
        expected.push(format!("bucket {i}: {count:>10}  ({pct:>6.2}%)"));
    }
    let share = 100.0 * hist[1] as f64 / total as f64;
    expected.push(format!("total {total}, top bucket 1 ({share:.2}%)"));
    assert_eq!(text(&hist), expected);
    assert_eq!(heading("a label"), "\n== a label ==");
    assert_eq!(
        wrote_message("out/q32.bin", 32),
        "wrote calibrated progress.bin: out/q32.bin (num_buckets=32, 31 thresholds)"
    );
}

fn args(data: &str) -> Args {
    Args {
        data: String::from(data),
        samples: 5,
        stride: 2,
        offset: 1,
        per_pack: true,
        num_buckets: 3,
        calibrating: false,
    }
}

fn refused(args: Args) -> String {
    match run(args) {
        Ok(_) => String::from("accepted"),
        Err(e) => written(&e.describe()),
    }
}

#[test]
fn wrong_arguments_are_refused() {
    assert_eq!(refused(Args { stride: 0, num_buckets: 0, ..args("") }), "--stride must be >= 1");
    assert_eq!(
        refused(Args { num_buckets: 0, ..args("") }),
        "--num-buckets must be in [1, 256] (got 0)"
    );
    assert_eq!(
        refused(Args { num_buckets: 257, ..args("a") }),
        "--num-buckets must be in [1, 256] (got 257)"
    );
    assert_eq!(
        refused(Args { num_buckets: 1, calibrating: true, ..args("a") }),
        "--num-buckets must be in [2, 256] (got 1)"
    );
    assert_eq!(refused(Args { num_buckets: 1, ..args("a") }), "accepted");
    assert_eq!(refused(Args { num_buckets: 256, ..args("a") }), "accepted");
    assert_eq!(refused(args(" , ")), "--data is required (comma-separated PSV files)");
}

fn weights() -> Vec<Binary32> {
    (0..SHOGI_PROGRESS_KP_ABS_NUM_WEIGHTS).map(|i| num(i as f32 * 0.25 - 7.0)).collect()
}

fn begun(args: Args) -> Survey {
    let bytes = write_progress_bin_bytes(&weights(), &ProgressBinning::EqualWidth).unwrap();
    run(args).unwrap().begin(&bytes).unwrap()
}

#[test]
fn a_survey_counts_the_positions_of_all_files() {
    let mut survey = begun(args("x,y,z"));
    assert_eq!(survey.paths, vec!["x", "y", "z"]);
    assert_eq!(
        survey.next_pack(),
        Some(PackRequest { index: 0, offset: 1, stride: 2, max: 5 })
    );
    let report = survey.take_pack(&[0, 2, 2], &[]);
    assert_eq!(report.loaded, 3);
    assert_eq!(report.message, "loaded 3 positions from x");
    assert_eq!(report.label, "per-pack: x");
    assert_eq!(report.hist, vec![1, 0, 2]);
    assert_eq!(report.lines.unwrap().len(), 4);
    assert_eq!(
        survey.next_pack(),
        Some(PackRequest { index: 1, offset: 1, stride: 2, max: 2 })
    );
    let report = survey.take_pack(&[1, 1], &[]);
    assert_eq!(report.hist, vec![0, 2, 0]);
    assert_eq!(survey.next_pack(), None);
    assert_eq!(survey.grand_total, 5);
    match survey.finish(false).unwrap() {
        Finding::Distribution { quantile, label, lines } => {
            assert!(!quantile);
            assert_eq!(label, "progress-kpabs bucket distribution (equal-width, N=3)");
            assert_eq!(lines, print_hist(&[1, 2, 2]));
        }
        _ => unreachable!(),
    }
    match survey.finish(true).unwrap() {
        Finding::Distribution { quantile, label, .. } => {
            assert!(quantile);
            assert_eq!(label, "progress-kpabs bucket distribution (quantile, N=3)");
        }
        _ => unreachable!(),
    }
}

#[test]
fn a_survey_ends_with_its_files() {
    let mut survey = begun(Args { per_pack: false, ..args("x") });
    let report = survey.take_pack(&[1], &[]);
    assert!(report.lines.is_none());
    assert_eq!(survey.remaining, 4);
    assert_eq!(survey.next_pack(), None);
}

#[test]
fn a_survey_without_positions_fails() {
    let mut survey = begun(args("x"));
    survey.take_pack(&[], &[]);
    let e = survey.finish(false).unwrap_err();
    assert!(matches!(e, SurveyError::NoPositions));
    assert_eq!(written(&e.describe()), "no positions read from --data files");
    let none = begun(Args { samples: 0, ..args("x") });
    assert_eq!(none.next_pack(), None);
    assert!(matches!(none.finish(false), Err(SurveyError::NoPositions)));
}

#[test]
fn a_survey_needs_a_progress_bin() {
    let plan = run(args("x")).unwrap();
    assert_eq!(plan.num_buckets_to_match(), Some(3));
    let e = plan.begin(&[1, 2, 3]).unwrap_err();
    assert_eq!(
        written(&e.describe()),
        "progress.bin too short: got 3 bytes, need at least 1003104"
    );
    let plan = run(Args { calibrating: true, ..args("x") }).unwrap();
    assert_eq!(plan.num_buckets_to_match(), None);
}

#[test]
fn a_calibration_evens_the_buckets_out() {
    let mut survey = begun(Args {
        calibrating: true,
        samples: 1000,
        num_buckets: 7,
        ..args("x,y")
    });
    let ps: Vec<f32> = (0..1000).map(|i| ((i * 617) % 1000) as f32 / 2000.0 + 0.1).collect();
    let progress = nums(&ps);
    survey.take_pack(&[0; 400], &progress[..400]);
    survey.take_pack(&[6; 600], &progress[400..]);
    match survey.finish(false).unwrap() {
        Finding::Calibrated { calibration } => {
            assert_eq!(calibration.hist.len(), 7);
            assert_eq!(calibration.hist.iter().sum::<u64>(), 1000);
            assert!(calibration.hist.iter().all(|&n| n == 142 || n == 143));
            assert_eq!(calibration.lines, print_hist(&calibration.hist));
            assert_eq!(
                calibration.label,
                "post-calibration quantile distribution (same sample, N=7)"
            );
            let (read, binning) = parse_progress_bin(&calibration.bytes).unwrap();
            let expected = weights();
            assert!(read.iter().zip(&expected).all(|(a, b)| a.to_bits() == b.to_bits()));
            assert_eq!(read.len(), expected.len());
            assert_eq!(
                binning,
                ProgressBinning::Quantile { num_buckets: 7, thresholds: calibration.thresholds }
            );
        }
        _ => unreachable!(),
    }
}

#[test]
fn a_calibration_on_one_value_fails() {
    let mut survey = begun(Args { calibrating: true, ..args("x") });
    survey.take_pack(&[1, 1, 1], &nums(&[0.5, 0.5, 0.5]));
    let e = survey.finish(false).unwrap_err();
    assert_eq!(
        written(&e.describe()),
        "thresholds must be strictly increasing (threshold[1] = 0.5 <= threshold[0] = 0.5)"
    );
}

#[test]
fn a_calibration_on_one_value_fails_for_two_buckets() {
    let mut survey = begun(Args { calibrating: true, num_buckets: 2, ..args("x") });
    survey.take_pack(&[1, 1, 1], &nums(&[0.5, 0.5, 0.5]));
    let e = survey.finish(false).unwrap_err();
    assert_eq!(
        written(&e.describe()),
        "cannot compute quantile thresholds from identical values (0.5)"
    );
}

#[test]
fn a_calibrated_bucket_goes_by_the_thresholds() {
    let thresholds = nums(&[0.25, 0.5]);
    assert_eq!(bucket_for_survey(2, 3, None), 2);
    assert_eq!(bucket_for_survey(2, 3, Some((num(0.1), &thresholds[..]))), 0);
    assert_eq!(bucket_for_survey(2, 3, Some((num(0.3), &thresholds[..]))), 1);
    let many: Vec<Binary32> = (1..300).map(|i| num(i as f32 / 300.0)).collect();
    assert_eq!(bucket_for_survey(0, 300, Some((num(1.0), &many[..]))), (299 % 256) as u8);
}
