//! What holds of the bytes of a `progress.bin`, of what they stand for, and of what is wrong with
//! them.

use crate::binary32::Binary32;
use crate::binary64::{
    law_widening_is_exact, narrowed, widened, Binary64, WIDE_INFINITY_BITS,
};
use crate::bucket_laws::law_accepted_thresholds_are_inside_the_unit;
use crate::identities::{lemma_one, lemma_signed};
use crate::integers::law_rank_orders_values;
use crate::little_endian::{bytes_of_u32, bytes_of_u64, u32_at, u64_at};
use crate::nearest_laws::{lemma_rounds_to, rounds_to};
use crate::progress_bin_format::{
    encoded, fault_at, first_fault, inside_unit, lemma_threshold_bytes, lemma_weight_bytes,
    parsed, threshold_bytes, threshold_fault, thresholds_of, trailer_bytes, trailer_len,
    trailer_of, weight_bytes, weights_of, BinningView, ProgressBinError,
};
use vstd::arithmetic::power2::{lemma_pow2_pos, pow2};
use vstd::prelude::*;

verus! {

/// The bytes of a word of four bytes are its digits to the base 256, lowest first.
pub proof fn law_short_words_are_written_lowest_byte_first(v: u32)
    ensures
        bytes_of_u32(v).len() == 4,
        bytes_of_u32(v)[0] + bytes_of_u32(v)[1] * 0x100 + bytes_of_u32(v)[2] * 0x1_0000
            + bytes_of_u32(v)[3] * 0x100_0000 == v,
{
}

/// The bytes of a word of eight bytes are its digits to the base 256, lowest first.
pub proof fn law_long_words_are_written_lowest_byte_first(v: u64)
    ensures
        bytes_of_u64(v).len() == 8,
        bytes_of_u64(v)[0] + bytes_of_u64(v)[1] * 0x100 + bytes_of_u64(v)[2] * 0x1_0000
            + bytes_of_u64(v)[3] * 0x100_0000 + bytes_of_u64(v)[4] * 0x1_0000_0000
            + bytes_of_u64(v)[5] * 0x100_0000_0000 + bytes_of_u64(v)[6] * 0x1_0000_0000_0000
            + bytes_of_u64(v)[7] * 0x100_0000_0000_0000 == v,
{
    law_short_words_are_written_lowest_byte_first((v % 0x1_0000_0000) as u32);
    law_short_words_are_written_lowest_byte_first((v / 0x1_0000_0000) as u32);
}

/// A word is read from its digits to the base 256, lowest first.
pub proof fn law_words_are_read_lowest_byte_first(bytes: Seq<u8>, at: int)
    ensures
        u32_at(bytes, at) == bytes[at] + bytes[at + 1] * 0x100 + bytes[at + 2] * 0x1_0000
            + bytes[at + 3] * 0x100_0000,
        u64_at(bytes, at) == bytes[at] + bytes[at + 1] * 0x100 + bytes[at + 2] * 0x1_0000
            + bytes[at + 3] * 0x100_0000 + bytes[at + 4] * 0x1_0000_0000 + bytes[at + 5]
            * 0x100_0000_0000 + bytes[at + 6] * 0x1_0000_0000_0000 + bytes[at + 7]
            * 0x100_0000_0000_0000,
{
}

/// Narrowing rounds a finite number to the nearest binary32 number, keeps the infinities, and makes
/// a not-a-number of a not-a-number. The sign stays.
pub proof fn law_narrowing_rounds(a: Binary64)
    ensures
        narrowed(a).negative() == a.negative(),
        a.finite() ==> rounds_to(
            narrowed(a),
            if a.negative() {
                -(a.quanta() as int)
            } else {
                a.quanta() as int
            },
            pow2(925),
        ),
        a.magnitude() == WIDE_INFINITY_BITS ==> narrowed(a).infinite(),
        a.magnitude() > WIDE_INFINITY_BITS ==> narrowed(a).nan(),
{
    lemma_pow2_pos(925);
    if a.finite() {
        let num = if a.negative() {
            -(a.quanta() as int)
        } else {
            a.quanta() as int
        };
        crate::rounding::lemma_nearest_none(pow2(925));
        lemma_signed(
            a.negative(),
            crate::rounding::nearest_magnitude(a.quanta(), pow2(925)),
        );
        lemma_rounds_to(narrowed(a), num, pow2(925));
    }
}

/// Widening keeps the value of every finite number, the infinities, and what a not-a-number is.
pub proof fn law_widening_keeps_what_a_number_is(a: Binary32)
    ensures
        widened(a).negative() == a.negative(),
        a.finite() ==> widened(a).finite() && widened(a).quanta() == a.quanta() * pow2(925),
        a.infinite() ==> widened(a).magnitude() == WIDE_INFINITY_BITS,
        a.nan() ==> widened(a).magnitude() > WIDE_INFINITY_BITS,
{
    if a.finite() {
        law_widening_is_exact(a);
    }
}

/// The block holds 125388 words of eight bytes. Each weight stands at its place, is the binary64
/// number that its word holds, narrowed, and depends on no other byte.
pub proof fn law_each_weight_stands_at_its_place(bytes: Seq<u8>, other: Seq<u8>, i: int)
    requires
        0 <= i < 125388,
        bytes.len() >= 1003104,
        other.len() >= 1003104,
        forall|k: int| i * 8 <= k < i * 8 + 8 ==> #[trigger] bytes[k] == other[k],
    ensures
        weights_of(bytes).len() == 125388,
        weights_of(bytes)[i] == narrowed(Binary64 { bits: u64_at(bytes, i * 8) }),
        weights_of(bytes)[i] == weights_of(other)[i],
{
    assert(bytes[i * 8] == other[i * 8]);
    assert(bytes[i * 8 + 1] == other[i * 8 + 1]);
    assert(bytes[i * 8 + 2] == other[i * 8 + 2]);
    assert(bytes[i * 8 + 3] == other[i * 8 + 3]);
    assert(bytes[i * 8 + 4] == other[i * 8 + 4]);
    assert(bytes[i * 8 + 5] == other[i * 8 + 5]);
    assert(bytes[i * 8 + 6] == other[i * 8 + 6]);
    assert(bytes[i * 8 + 7] == other[i * 8 + 7]);
}

/// Each weight is written at its place, as the word of the binary64 number with its value.
pub proof fn law_each_weight_is_written_at_its_place(weights: Seq<Binary32>, i: int, k: int)
    requires
        0 <= i < weights.len(),
        0 <= k < 8,
    ensures
        weight_bytes(weights).len() == weights.len() * 8,
        weight_bytes(weights)[i * 8 + k] == bytes_of_u64(widened(weights[i]).bits)[k],
{
    lemma_weight_bytes(weights);
    assert(weight_bytes(weights).subrange(i * 8, i * 8 + 8)[k] == weight_bytes(weights)[i * 8 + k]);
}

/// A trailer starts with the letters `PRGQ`, the version one and the number of buckets; the
/// thresholds follow, each in four bytes.
pub proof fn law_trailer_has_its_layout(num_buckets: nat, thresholds: Seq<Binary32>, i: int, k: int)
    requires
        num_buckets <= u32::MAX,
        0 <= i < thresholds.len(),
        0 <= k < 4,
    ensures
        ({
            let t = trailer_bytes(num_buckets, thresholds);
            &&& t.len() == 12 + thresholds.len() * 4
            &&& t[0] as int == 'P' as int
            &&& t[1] as int == 'R' as int
            &&& t[2] as int == 'G' as int
            &&& t[3] as int == 'Q' as int
            &&& u32_at(t, 4) == 1
            &&& u32_at(t, 8) == num_buckets
            &&& t[12 + i * 4 + k] == bytes_of_u32(thresholds[i].bits)[k]
        }),
{
    let t = trailer_bytes(num_buckets, thresholds);
    let tail = threshold_bytes(thresholds);
    lemma_threshold_bytes(thresholds);
    assert(tail.subrange(i * 4, i * 4 + 4)[k] == tail[i * 4 + k]);
    assert(t[12 + i * 4 + k] == tail[i * 4 + k]);
    law_short_words_are_written_lowest_byte_first(1);
    law_short_words_are_written_lowest_byte_first(num_buckets as u32);
    assert(t.subrange(4, 8) =~= bytes_of_u32(1));
    assert(t.subrange(8, 12) =~= bytes_of_u32(num_buckets as u32));
    crate::little_endian::lemma_u32_round_trip(t, 4, 1);
    crate::little_endian::lemma_u32_round_trip(t, 8, num_buckets as u32);
}

/// The thresholds from `i` on are named wrong at the first place where one is: `at`.
proof fn lemma_first_fault(thresholds: Seq<Binary32>, i: int, at: int)
    requires
        0 <= i <= at < thresholds.len(),
        fault_at(thresholds, at) is Some,
        forall|k: int| i <= k < at ==> fault_at(thresholds, k) is None,
    ensures
        first_fault(thresholds, i) == fault_at(thresholds, at),
    decreases at - i,
{
    if i < at {
        assert(fault_at(thresholds, i) is None);
        lemma_first_fault(thresholds, i + 1, at);
    }
}

/// The value of a threshold lies strictly between zero and one.
pub open spec fn between_zero_and_one(t: Binary32) -> bool {
    t.finite() && 0 < t.value() < pow2(149)
}

/// The threshold at `k` lies strictly between zero and one, above the one before it.
pub open spec fn right_at(thresholds: Seq<Binary32>, k: int) -> bool {
    between_zero_and_one(thresholds[k]) && (k > 0 ==> thresholds[k - 1].value()
        < thresholds[k].value())
}

/// The thresholds before the place `at` lie strictly between zero and one, each above the one
/// before it.
pub open spec fn rising_up_to(thresholds: Seq<Binary32>, at: int) -> bool {
    forall|k: int| 0 <= k < at ==> #[trigger] right_at(thresholds, k)
}

/// Where those before it are right, a threshold is right exactly where it lies strictly between
/// zero and one, above the one before it.
proof fn lemma_fault_at(thresholds: Seq<Binary32>, at: int)
    requires
        0 <= at < thresholds.len(),
        rising_up_to(thresholds, at),
    ensures
        fault_at(thresholds, at) is None <==> rising_up_to(thresholds, at + 1),
        !between_zero_and_one(thresholds[at]) ==> fault_at(thresholds, at) == Some(
            ProgressBinError::ThresholdRange { index: at as usize, value: thresholds[at] },
        ),
        between_zero_and_one(thresholds[at]) && at > 0 && thresholds[at].value() <= thresholds[at
            - 1].value() ==> fault_at(thresholds, at) == Some(
            ProgressBinError::ThresholdOrder {
                index: at as usize,
                value: thresholds[at],
                previous: thresholds[at - 1],
            },
        ),
{
    let t = thresholds[at];
    law_accepted_thresholds_are_inside_the_unit(t);
    lemma_one();
    assert(inside_unit(t) <==> between_zero_and_one(t));
    if at > 0 {
        assert(right_at(thresholds, at - 1));
        if t.finite() {
            law_rank_orders_values(t, thresholds[at - 1]);
        }
    }
    assert(fault_at(thresholds, at) is None <==> right_at(thresholds, at));
}

/// Where the thresholds before it are right, none of them is named.
proof fn lemma_no_fault_before(thresholds: Seq<Binary32>, at: int, k: int)
    requires
        0 <= k < at <= thresholds.len(),
        rising_up_to(thresholds, at),
    ensures
        fault_at(thresholds, k) is None,
{
    assert(rising_up_to(thresholds, k));
    lemma_fault_at(thresholds, k);
    assert(rising_up_to(thresholds, k + 1));
}

/// The first threshold that is wrong is named, with its place and its value: one that does not lie
/// strictly between zero and one, or one that is not above the threshold before it, with that one.
pub proof fn law_first_wrong_threshold_is_named(
    thresholds: Seq<Binary32>,
    num_buckets: nat,
    at: int,
)
    requires
        thresholds.len() + 1 == num_buckets,
        0 <= at < thresholds.len(),
        rising_up_to(thresholds, at),
    ensures
        !between_zero_and_one(thresholds[at]) ==> threshold_fault(thresholds, num_buckets) == Some(
            ProgressBinError::ThresholdRange { index: at as usize, value: thresholds[at] },
        ),
        between_zero_and_one(thresholds[at]) && at > 0 && thresholds[at].value() <= thresholds[at
            - 1].value() ==> threshold_fault(thresholds, num_buckets) == Some(
            ProgressBinError::ThresholdOrder {
                index: at as usize,
                value: thresholds[at],
                previous: thresholds[at - 1],
            },
        ),
{
    lemma_fault_at(thresholds, at);
    assert forall|k: int| 0 <= k < at implies fault_at(thresholds, k) is None by {
        lemma_no_fault_before(thresholds, at, k);
    }
    if fault_at(thresholds, at) is Some {
        lemma_first_fault(thresholds, 0, at);
    }
}

/// From a place up to which the thresholds are right, they are faultless exactly where they go on
/// so to the end.
proof fn lemma_faultless(thresholds: Seq<Binary32>, i: int)
    requires
        0 <= i <= thresholds.len(),
        rising_up_to(thresholds, i),
    ensures
        first_fault(thresholds, i) is None <==> rising_up_to(thresholds, thresholds.len() as int),
    decreases thresholds.len() - i,
{
    if i < thresholds.len() {
        lemma_fault_at(thresholds, i);
        if fault_at(thresholds, i) is None {
            lemma_faultless(thresholds, i + 1);
        } else if rising_up_to(thresholds, thresholds.len() as int) {
            lemma_no_fault_before(thresholds, thresholds.len() as int, i);
        }
    }
}

/// Thresholds are right exactly where there is one fewer than there are buckets and they rise
/// strictly between zero and one; otherwise a wrong count is named first.
pub proof fn law_which_thresholds_are_right(thresholds: Seq<Binary32>, num_buckets: nat)
    ensures
        thresholds.len() + 1 != num_buckets ==> threshold_fault(thresholds, num_buckets) == Some(
            ProgressBinError::ThresholdCount {
                count: thresholds.len() as usize,
                num_buckets: num_buckets as usize,
            },
        ),
        threshold_fault(thresholds, num_buckets) is None <==> thresholds.len() + 1 == num_buckets
            && rising_up_to(thresholds, thresholds.len() as int),
{
    lemma_faultless(thresholds, 0);
}

/// What a trailer is refused for: fewer bytes than its header has, other letters, another version,
/// too few or too many buckets, a length that is not that of its thresholds, or its thresholds, in
/// this order.
pub proof fn law_why_a_trailer_is_refused(t: Seq<u8>)
    requires
        t.len() <= usize::MAX,
    ensures
        t.len() < 12 ==> trailer_of(t) == Err::<BinningView, ProgressBinError>(
            ProgressBinError::TrailerTooShort { len: t.len() as usize },
        ),
        t.len() >= 12 ==> {
            let version = u32_at(t, 4);
            let n = u32_at(t, 8) as nat;
            let letters = t[0] as int == 'P' as int && t[1] as int == 'R' as int && t[2] as int
                == 'G' as int && t[3] as int == 'Q' as int;
            &&& !letters ==> trailer_of(t) == Err::<BinningView, ProgressBinError>(
                ProgressBinError::TrailerMagic { got: (t[0], t[1], t[2], t[3]) },
            )
            &&& letters && version != 1 ==> trailer_of(t) == Err::<BinningView, ProgressBinError>(
                ProgressBinError::TrailerVersion { version },
            )
            &&& letters && version == 1 && !(2 <= n <= 256) ==> trailer_of(t) == Err::<
                BinningView,
                ProgressBinError,
            >(ProgressBinError::TrailerNumBuckets { num_buckets: n as usize })
            &&& letters && version == 1 && 2 <= n <= 256 && t.len() != 8 + 4 * n ==> trailer_of(t)
                == Err::<BinningView, ProgressBinError>(
                ProgressBinError::TrailerLength {
                    len: t.len() as usize,
                    expected: (8 + 4 * n) as usize,
                    num_buckets: n as usize,
                },
            )
            &&& letters && version == 1 && 2 <= n <= 256 && t.len() == 8 + 4 * n ==> {
                let thresholds = thresholds_of(t, n);
                &&& threshold_fault(thresholds, n) matches Some(fault) ==> trailer_of(t) == Err::<
                    BinningView,
                    ProgressBinError,
                >(fault)
                &&& threshold_fault(thresholds, n) is None ==> trailer_of(t) == Ok::<
                    BinningView,
                    ProgressBinError,
                >(BinningView::Quantile { num_buckets: n, thresholds })
            }
        },
{
    if t.len() >= 12 {
        let head = t.take(4);
        let magic = crate::progress_bin_format::trailer_magic();
        assert(head[0] == t[0] && head[1] == t[1] && head[2] == t[2] && head[3] == t[3]);
        assert(magic[0] == 0x50 && magic[1] == 0x52 && magic[2] == 0x47 && magic[3] == 0x51);
        if t[0] == 0x50 && t[1] == 0x52 && t[2] == 0x47 && t[3] == 0x51 {
            assert(head =~= magic);
        }
    }
}

/// The thresholds of a trailer stand behind its header, four bytes each.
pub proof fn law_each_threshold_stands_at_its_place(t: Seq<u8>, num_buckets: nat, i: int)
    requires
        0 <= i < num_buckets - 1,
    ensures
        thresholds_of(t, num_buckets).len() == num_buckets - 1,
        thresholds_of(t, num_buckets)[i].bits == u32_at(t, 12 + i * 4),
{
}

/// A file is refused where it ends before its block of weights does, and otherwise for its trailer
/// if it has one. The weights come from the block alone, and a file without a trailer has buckets
/// of equal width.
pub proof fn law_what_a_file_stands_for(bytes: Seq<u8>)
    requires
        bytes.len() <= usize::MAX,
    ensures
        bytes.len() < 1003104 ==> parsed(bytes) == Err::<
            (Seq<Binary32>, BinningView),
            ProgressBinError,
        >(ProgressBinError::TooShort { len: bytes.len() as usize }),
        bytes.len() == 1003104 ==> parsed(bytes) == Ok::<
            (Seq<Binary32>, BinningView),
            ProgressBinError,
        >((weights_of(bytes), BinningView::EqualWidth)),
        bytes.len() > 1003104 ==> {
            let trailer = bytes.skip(1003104);
            &&& trailer_of(trailer) matches Ok(binning) ==> parsed(bytes) == Ok::<
                (Seq<Binary32>, BinningView),
                ProgressBinError,
            >((weights_of(bytes.take(1003104)), binning))
            &&& trailer_of(trailer) matches Err(fault) ==> parsed(bytes) == Err::<
                (Seq<Binary32>, BinningView),
                ProgressBinError,
            >(fault)
        },
{
    if bytes.len() > 1003104 {
        let block = bytes.take(1003104);
        assert(bytes.skip(1003104) =~= bytes.subrange(1003104, bytes.len() as int));
        assert forall|i: int| 0 <= i < 125388 implies #[trigger] weights_of(bytes)[i] == weights_of(
            block,
        )[i] by {
            law_each_weight_stands_at_its_place(bytes, block, i);
        }
        assert(weights_of(bytes) =~= weights_of(block));
    }
}

/// What is written is the block of weights, and behind it the trailer if there are thresholds. A
/// wrong number of weights is named before wrong thresholds, and these before a number of buckets
/// that is out of range.
pub proof fn law_what_a_file_is_written_as(weights: Seq<Binary32>, n: nat, ts: Seq<Binary32>)
    requires
        weights.len() <= usize::MAX,
        n <= usize::MAX,
    ensures
        ({
            let plain = encoded(weights, BinningView::EqualWidth);
            let binned = encoded(
                weights,
                BinningView::Quantile { num_buckets: n, thresholds: ts },
            );
            let wrong_count = Err::<Seq<u8>, ProgressBinError>(
                ProgressBinError::WeightCount { len: weights.len() as usize },
            );
            &&& weights.len() != 125388 ==> plain == wrong_count && binned == wrong_count
            &&& weights.len() == 125388 ==> {
                &&& plain matches Ok(bytes) && bytes.len() == 1003104 && bytes == weight_bytes(
                    weights,
                )
                &&& threshold_fault(ts, n) matches Some(fault) ==> binned == Err::<
                    Seq<u8>,
                    ProgressBinError,
                >(fault)
                &&& threshold_fault(ts, n) is None && !(2 <= n <= 256) ==> binned == Err::<
                    Seq<u8>,
                    ProgressBinError,
                >(ProgressBinError::NumBuckets { num_buckets: n as usize })
                &&& threshold_fault(ts, n) is None && 2 <= n <= 256 ==> {
                    let bytes = binned->Ok_0;
                    &&& binned is Ok
                    &&& bytes.len() == 1003104 + 8 + 4 * n
                    &&& bytes.take(1003104) == plain->Ok_0
                    &&& bytes.skip(1003104) == trailer_bytes(n, ts)
                }
            }
        }),
{
    if weights.len() == 125388 {
        lemma_weight_bytes(weights);
        lemma_threshold_bytes(ts);
        let block = weight_bytes(weights);
        let bytes = block + trailer_bytes(n, ts);
        assert(bytes.take(1003104) =~= block);
        assert(bytes.skip(1003104) =~= trailer_bytes(n, ts));
        law_which_thresholds_are_right(ts, n);
    }
}

/// A trailer for `num_buckets` buckets has twelve bytes and four for each threshold.
pub proof fn law_trailer_length(num_buckets: nat)
    requires
        num_buckets >= 1,
    ensures
        trailer_len(num_buckets) == 8 + 4 * num_buckets,
{
}

} // verus!
