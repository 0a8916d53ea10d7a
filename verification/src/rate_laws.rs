//! What the schedules compute, step by step: each number on the way to a rate is the one nearest to
//! an exact result.

use crate::arithmetic::{
    difference, from_integer, lemma_quanta_zero, negation, product, quotient, sum,
};
use crate::binary32::{magnitude_shift, Binary32, INFINITY_BITS};
use crate::curve_laws::{law_way_grows, lemma_angle_grows, lemma_times_one};
use crate::identities::{half, lemma_count, lemma_one, lemma_signed, one};
use crate::integer_laws::{
    law_integer_part_is_the_integer_below, law_rounded_is_the_nearest_integer,
};
use crate::integers::{clamped, law_rank_orders_values, rounded, whole_usize};
use crate::lr_schedule::{
    blended, cycle_from, half_cosine, pi, warmed_up, way, ConstantLR, CosineDecayLR, DropLR,
    ExponentialDecayLR, LinearDecayLR, LrScheduler, MathCall, OneCycleLR, StepLR,
};
use crate::nearest_laws::{
    law_arithmetic_rounds_the_exact_result, law_count_is_nearest,
    law_division_rounds_the_exact_result, law_product_is_nearest, law_quotient_is_nearest,
    law_signs_of_products_and_quotients, law_small_counts_are_exact, law_sum_of_infinities,
    lemma_nearest_scaled, lemma_share_of_a_count, lemma_within_half_a_grain, nearest_to,
    rounds_to,
};
use crate::order::{law_counts_keep_order, lemma_half_and_two, lemma_negation};
use crate::rounding::{lemma_nearest_exact, nearest_magnitude};
use crate::rounding_laws::{distance, law_rounding_keeps_order};
use vstd::arithmetic::power2::{lemma_pow2_pos, lemma_pow2_unfold, pow2};
use vstd::prelude::*;

verus! {

/// Multiplying by one changes no number.
proof fn lemma_one_is_neutral(a: Binary32)
    ensures
        !a.nan() ==> product(a, one()) == a,
{
    if a.finite() {
        lemma_times_one(a);
    } else if a.infinite() {
        lemma_one();
        lemma_signed(a.negative(), INFINITY_BITS as nat);
    }
}

/// `share` is the share `part / whole` in binary32 numbers: the quotient of the numbers nearest to
/// the two counts.
pub open spec fn share_of(share: Binary32, part: nat, whole: nat) -> bool {
    exists|n: Binary32, m: Binary32|
        #![trigger nearest_to(n, (part * pow2(149)) as int, 1), nearest_to(
            m,
            (whole * pow2(149)) as int,
            1,
        )]
        nearest_to(n, (part * pow2(149)) as int, 1) && nearest_to(
            m,
            (whole * pow2(149)) as int,
            1,
        ) && nearest_to(share, n.value() * pow2(149), m.quanta())
}

/// A constant rate is its value at every point.
pub proof fn law_constant_rate_is_its_value(
    s: ConstantLR,
    batch: usize,
    superbatch: usize,
    math: Binary32,
)
    ensures
        s.usable(batch, superbatch),
        s.call_at(batch, superbatch) == MathCall::Nothing,
        s.rate_at(batch, superbatch, math) == s.value,
        s.terminal() is None,
{
}

/// A dropping rate is the start up to the superbatch of the drop, and after it the start times the
/// factor, rounded.
pub proof fn law_drop_multiplies_the_start(
    s: DropLR,
    batch: usize,
    superbatch: usize,
    math: Binary32,
)
    ensures
        s.usable(batch, superbatch),
        s.call_at(batch, superbatch) == MathCall::Nothing,
        s.terminal() is None,
        superbatch <= s.drop ==> s.rate_at(batch, superbatch, math) == s.start,
        superbatch > s.drop && s.start.finite() && s.gamma.finite() ==> rounds_to(
            s.rate_at(batch, superbatch, math),
            s.start.value() * s.gamma.value(),
            pow2(149),
        ),
        superbatch > s.drop && s.gamma == one() && !s.start.nan() ==> s.rate_at(
            batch,
            superbatch,
            math,
        ) == s.start,
{
    if s.start.finite() && s.gamma.finite() {
        law_arithmetic_rounds_the_exact_result(s.start, s.gamma);
    }
    lemma_one_is_neutral(s.start);
}

/// A stepping rate is the start times the power, rounded; where the power is one it is the start.
pub proof fn law_step_rate_is_the_start_times_the_power(
    s: StepLR,
    batch: usize,
    superbatch: usize,
    power: Binary32,
)
    ensures
        !s.start.nan() ==> s.rate_at(batch, superbatch, one()) == s.start,
        s.start.finite() && power.finite() ==> rounds_to(
            s.rate_at(batch, superbatch, power),
            s.start.value() * power.value(),
            pow2(149),
        ),
        s.terminal() is None,
{
    if s.start.finite() && power.finite() {
        law_arithmetic_rounds_the_exact_result(s.start, power);
    }
    lemma_one_is_neutral(s.start);
}

/// A stepping rate asks for the factor to the power of zero in the first `step` superbatches, of
/// one in the next `step`, and so on.
pub proof fn law_step_rate_asks_for_one_more_power_per_step(
    s: StepLR,
    batch: usize,
    superbatch: usize,
    k: nat,
    j: nat,
)
    requires
        s.step > 0,
        1 <= j <= s.step,
        superbatch == k * s.step + j,
        k <= 0x7FFF_FFFF,
    ensures
        s.usable(batch, superbatch),
        s.call_at(batch, 0) == (MathCall::Powi { base: s.gamma, power: 0 }),
        s.call_at(batch, superbatch) == (MathCall::Powi { base: s.gamma, power: k as i32 }),
{
    crate::schedule_laws::law_steps_are_even(s, k, j, superbatch);
    assert(0usize / s.step == 0) by (nonlinear_arith)
        requires
            s.step > 0,
    ;
}

/// The share of the way is the quotient of the two counts.
proof fn lemma_way(superbatch: usize, end: usize)
    requires
        0 < end,
        superbatch <= end,
    ensures
        share_of(way(superbatch, end), superbatch as nat, end as nat),
{
    let n = from_integer(superbatch as nat);
    let m = from_integer(end as nat);
    law_count_is_nearest(superbatch as nat);
    law_count_is_nearest(end as nat);
    lemma_count(end as nat);
    law_way_grows(superbatch, end, end);
    law_quotient_is_nearest(n, m);
    assert(nearest_to(n, (superbatch as nat * pow2(149)) as int, 1));
    assert(nearest_to(m, (end as nat * pow2(149)) as int, 1));
}

/// Half of a number is nearest to the number over two.
proof fn lemma_half_of(a: Binary32)
    requires
        a.finite(),
    ensures
        nearest_to(product(half(), a), a.value(), 2),
{
    let r = product(half(), a);
    let h = pow2(148);
    let v = a.value();
    lemma_half_and_two();
    law_arithmetic_rounds_the_exact_result(half(), a);
    lemma_pow2_pos(148);
    lemma_pow2_unfold(149);
    lemma_negation(a);
    assert(half().value() * v == v * h) by (nonlinear_arith)
        requires
            half().value() == h,
    ;
    assert(v * pow2(149) == 2 * (v * h)) by (nonlinear_arith)
        requires
            pow2(149) == 2 * h,
    ;
    assert(-v * pow2(149) == -(2 * (v * h))) by (nonlinear_arith)
        requires
            pow2(149) == 2 * h,
    ;
    if r.infinite() {
        let opposite = negation(a);
        let zero = Binary32 { bits: 0 };
        lemma_quanta_zero(0);
        assert(a.finite() && opposite.finite() && zero.finite());
        assert(false);
    }
    lemma_nearest_scaled(r, v, 2, h);
}

/// What a number on a line from `start` to `end` is made of.
pub struct LinePoint {
    /// How far on the line it lies, from zero to one.
    pub lambda: Binary32,
    /// The way from the start to the end.
    pub gap: Binary32,
    /// The part of the way that is gone.
    pub part: Binary32,
}

/// `r` is at the share `lambda` of the way from `start` to `end`, with each step rounded.
pub open spec fn on_the_line(r: Binary32, start: Binary32, end: Binary32, p: LinePoint) -> bool {
    &&& rounds_to(p.gap, end.value() - start.value(), 1)
    &&& p.gap.infinite() ==> !r.finite()
    &&& p.gap.finite() ==> {
        &&& rounds_to(p.part, p.lambda.value() * p.gap.value(), pow2(149))
        &&& p.part.infinite() ==> r == p.part
        &&& p.part.finite() ==> rounds_to(r, start.value() + p.part.value(), 1)
    }
}

/// A blend lies on the line between its ends.
proof fn lemma_blended(start: Binary32, end: Binary32, lambda: Binary32) -> (p: LinePoint)
    requires
        start.finite(),
        end.finite(),
        lambda.finite(),
    ensures
        p.lambda == lambda,
        on_the_line(blended(start, end, lambda), start, end, p),
{
    let gap = difference(end, start);
    let part = product(lambda, gap);
    law_arithmetic_rounds_the_exact_result(end, start);
    law_sum_of_infinities(part, start);
    law_sum_of_infinities(start, part);
    law_signs_of_products_and_quotients(lambda, gap);
    if gap.finite() {
        law_arithmetic_rounds_the_exact_result(lambda, gap);
        if part.finite() {
            law_arithmetic_rounds_the_exact_result(start, part);
        }
    }
    LinePoint { lambda, gap, part }
}

/// Before its final superbatch a linear decay lies on the line from its initial to its final rate,
/// at the share of the superbatches that are gone; from there on it is the final rate. It needs no
/// elementary function.
pub proof fn law_linear_decay_is_a_line(
    s: LinearDecayLR,
    batch: usize,
    superbatch: usize,
    math: Binary32,
) -> (p: LinePoint)
    ensures
        s.usable(batch, superbatch),
        s.call_at(batch, superbatch) == MathCall::Nothing,
        s.terminal() == Some(s.final_superbatch),
        superbatch >= s.final_superbatch ==> s.rate_at(batch, superbatch, math) == s.final_lr,
        superbatch < s.final_superbatch && s.initial_lr.finite() && s.final_lr.finite() ==> {
            &&& share_of(p.lambda, superbatch as nat, s.final_superbatch as nat)
            &&& on_the_line(s.rate_at(batch, superbatch, math), s.initial_lr, s.final_lr, p)
        },
{
    let lambda = way(superbatch, s.final_superbatch);
    if superbatch < s.final_superbatch && s.initial_lr.finite() && s.final_lr.finite() {
        lemma_way(superbatch, s.final_superbatch);
        law_way_grows(superbatch, superbatch, s.final_superbatch);
        lemma_blended(s.initial_lr, s.final_lr, lambda)
    } else {
        LinePoint { lambda, gap: lambda, part: lambda }
    }
}

/// The angle whose cosine is asked for is pi times the share of the way.
pub open spec fn angle_of(x: Binary32, part: nat, whole: nat) -> bool {
    exists|share: Binary32|
        #![trigger share_of(share, part, whole)]
        share_of(share, part, whole) && nearest_to(
            x,
            Binary32 { bits: 0x4049_0FDB }.value() * share.value(),
            pow2(149),
        )
}

/// The angle of a way is pi times its share.
proof fn lemma_angle(superbatch: usize, end: usize)
    requires
        0 < end,
        superbatch <= end,
    ensures
        angle_of(product(pi(), way(superbatch, end)), superbatch as nat, end as nat),
{
    let share = way(superbatch, end);
    lemma_way(superbatch, end);
    law_way_grows(superbatch, end, end);
    lemma_one();
    lemma_angle_grows(share, share);
    law_product_is_nearest(pi(), share);
    assert(share_of(share, superbatch as nat, end as nat));
}

/// The number for pi is the one nearest to pi.
pub proof fn law_pi_is_nearest()
    ensures
        nearest_to(
            pi(),
            314_159_265_358_979_323_846int * pow2(149),
            100_000_000_000_000_000_000,
        ),
{
    let unit = pow2(127);
    lemma_pow2_pos(127);
    vstd::arithmetic::power2::lemma2_to64();
    vstd::arithmetic::power2::lemma_pow2_adds(127, 22);
    assert(magnitude_shift(0x4049_0FDB) == 127);
    assert(pi().value() == 13176795 * unit);
    assert(pow2(149) == 0x40_0000 * unit) by (nonlinear_arith)
        requires
            pow2(149) == unit * pow2(22),
            pow2(22) == 0x40_0000,
    ;
    lemma_within_half_a_grain(
        pi(),
        314_159_265_358_979_323_846 * pow2(149),
        100_000_000_000_000_000_000,
    );
}

/// What the share on a cosine curve is made of.
pub struct CosinePoint {
    /// One and the cosine.
    pub above: Binary32,
    /// Half of that.
    pub left: Binary32,
    /// The point on the line.
    pub point: LinePoint,
}

/// The share of the way at a cosine.
spec fn cosine_share(cosine: Binary32) -> Binary32 {
    difference(one(), product(half(), sum(one(), cosine)))
}

/// The share of the way at a cosine, step by step.
proof fn lemma_cosine_share(cosine: Binary32) -> (r: (Binary32, Binary32))
    ensures
        cosine.finite() ==> rounds_to(r.0, pow2(149) + cosine.value(), 1),
        cosine.finite() && r.0.finite() ==> {
            &&& nearest_to(r.1, r.0.value(), 2)
            &&& rounds_to(cosine_share(cosine), pow2(149) - r.1.value(), 1)
        },
{
    let above = sum(one(), cosine);
    let left = product(half(), above);
    lemma_one();
    if cosine.finite() {
        law_arithmetic_rounds_the_exact_result(one(), cosine);
        if above.finite() {
            lemma_half_of(above);
            law_arithmetic_rounds_the_exact_result(one(), left);
        }
    }
    (above, left)
}

/// Before its final superbatch a cosine decay asks for the cosine of pi times the share of the
/// superbatches that are gone, and lies on the line from its initial to its final rate at the share
/// `1 - (1 + cosine) / 2`; from there on it is the final rate.
pub proof fn law_cosine_decay_is_half_a_cosine(
    s: CosineDecayLR,
    batch: usize,
    superbatch: usize,
    cosine: Binary32,
) -> (p: CosinePoint)
    ensures
        s.usable(batch, superbatch),
        s.terminal() == Some(s.final_superbatch),
        superbatch >= s.final_superbatch ==> s.call_at(batch, superbatch) == MathCall::Nothing
            && s.rate_at(batch, superbatch, cosine) == s.final_lr,
        superbatch < s.final_superbatch ==> s.call_at(batch, superbatch) is Cos && angle_of(
            s.call_at(batch, superbatch)->x,
            superbatch as nat,
            s.final_superbatch as nat,
        ),
        superbatch < s.final_superbatch && s.initial_lr.finite() && s.final_lr.finite()
            && cosine.finite() ==> {
            let r = s.rate_at(batch, superbatch, cosine);
            &&& rounds_to(p.above, pow2(149) + cosine.value(), 1)
            &&& p.above.finite() ==> {
                &&& nearest_to(p.left, p.above.value(), 2)
                &&& rounds_to(p.point.lambda, pow2(149) - p.left.value(), 1)
                &&& p.point.lambda.finite() ==> on_the_line(
                    r,
                    s.initial_lr,
                    s.final_lr,
                    p.point,
                )
            }
        },
{
    let lambda = cosine_share(cosine);
    let given = s.initial_lr.finite() && s.final_lr.finite() && cosine.finite();
    if superbatch < s.final_superbatch {
        lemma_angle(superbatch, s.final_superbatch);
    }
    let (above, left) = lemma_cosine_share(cosine);
    let point = if superbatch < s.final_superbatch && given && lambda.finite() {
        lemma_blended(s.initial_lr, s.final_lr, lambda)
    } else {
        LinePoint { lambda, gap: lambda, part: lambda }
    };
    CosinePoint { above, left, point }
}

/// Before its final superbatch an exponential decay asks for the final over the initial rate to the
/// power of the share of the superbatches that are gone, and is the initial rate times that power;
/// from there on it is the final rate.
pub proof fn law_exponential_decay_is_a_power(
    s: ExponentialDecayLR,
    batch: usize,
    superbatch: usize,
    power: Binary32,
)
    ensures
        s.usable(batch, superbatch),
        s.terminal() == Some(s.final_superbatch),
        superbatch >= s.final_superbatch ==> s.call_at(batch, superbatch) == MathCall::Nothing
            && s.rate_at(batch, superbatch, power) == s.final_lr,
        superbatch < s.final_superbatch ==> s.call_at(batch, superbatch) is Powf && share_of(
            s.call_at(batch, superbatch)->exponent,
            superbatch as nat,
            s.final_superbatch as nat,
        ),
        superbatch < s.final_superbatch && s.initial_lr.finite() && !s.initial_lr.zero()
            && s.final_lr.finite() ==> rounds_to(
            s.call_at(batch, superbatch)->Powf_base,
            if s.initial_lr.negative() {
                -(s.final_lr.value() * pow2(149))
            } else {
                s.final_lr.value() * pow2(149)
            },
            s.initial_lr.quanta(),
        ),
        superbatch < s.final_superbatch && s.initial_lr.finite() && power.finite() ==> rounds_to(
            s.rate_at(batch, superbatch, power),
            s.initial_lr.value() * power.value(),
            pow2(149),
        ),
        superbatch < s.final_superbatch && !s.initial_lr.nan() ==> s.rate_at(
            batch,
            superbatch,
            one(),
        ) == s.initial_lr,
{
    lemma_one_is_neutral(s.initial_lr);
    if superbatch < s.final_superbatch {
        lemma_way(superbatch, s.final_superbatch);
        if s.initial_lr.finite() && power.finite() {
            law_arithmetic_rounds_the_exact_result(s.initial_lr, power);
        }
        if s.initial_lr.finite() && !s.initial_lr.zero() && s.final_lr.finite() {
            law_division_rounds_the_exact_result(s.final_lr, s.initial_lr);
        }
    }
}

/// What a number on half a cosine is made of.
pub struct HalfCosinePoint {
    /// The way back from the end to the start.
    pub gap: Binary32,
    /// Half of that.
    pub half_gap: Binary32,
    /// One and the cosine.
    pub above: Binary32,
    /// The part of the way that is left.
    pub part: Binary32,
}

/// `r` lies on half a cosine from `start` to `end`, with each step rounded: it is the end and half
/// the way back, times one and the cosine.
pub open spec fn on_half_a_cosine(
    r: Binary32,
    start: Binary32,
    end: Binary32,
    cosine: Binary32,
    p: HalfCosinePoint,
) -> bool {
    &&& rounds_to(p.gap, start.value() - end.value(), 1)
    &&& rounds_to(p.above, pow2(149) + cosine.value(), 1)
    &&& p.gap.infinite() ==> !r.finite()
    &&& p.gap.finite() && p.above.finite() ==> {
        &&& nearest_to(p.half_gap, p.gap.value(), 2)
        &&& rounds_to(p.part, p.half_gap.value() * p.above.value(), pow2(149))
        &&& p.part.infinite() ==> r == p.part
        &&& p.part.finite() ==> rounds_to(r, end.value() + p.part.value(), 1)
    }
}

/// Where the way back is beyond all numbers, so is the interpolation, or it is no number.
proof fn lemma_endless_way_back(start: Binary32, end: Binary32, cosine: Binary32)
    requires
        end.finite(),
        difference(start, end).infinite(),
    ensures
        !half_cosine(start, end, cosine).finite(),
{
    let gap = difference(start, end);
    let half_gap = product(half(), gap);
    let above = sum(one(), cosine);
    let part = product(half_gap, above);
    law_signs_of_products_and_quotients(half(), gap);
    law_signs_of_products_and_quotients(half_gap, above);
    law_sum_of_infinities(part, end);
    law_sum_of_infinities(end, part);
}

/// Of a finite way back, the part that is left.
proof fn lemma_part_left(start: Binary32, end: Binary32, cosine: Binary32)
    requires
        end.finite(),
        difference(start, end).finite(),
        sum(one(), cosine).finite(),
    ensures
        ({
            let gap = difference(start, end);
            let half_gap = product(half(), gap);
            let above = sum(one(), cosine);
            let part = product(half_gap, above);
            let r = half_cosine(start, end, cosine);
            &&& nearest_to(half_gap, gap.value(), 2)
            &&& rounds_to(part, half_gap.value() * above.value(), pow2(149))
            &&& part.infinite() ==> r == part
            &&& part.finite() ==> rounds_to(r, end.value() + part.value(), 1)
        }),
{
    let gap = difference(start, end);
    let half_gap = product(half(), gap);
    let above = sum(one(), cosine);
    let part = product(half_gap, above);
    lemma_half_of(gap);
    law_arithmetic_rounds_the_exact_result(half_gap, above);
    law_sum_of_infinities(part, end);
    if part.finite() {
        law_arithmetic_rounds_the_exact_result(end, part);
    }
}

/// An interpolation along a cosine lies on half a cosine between its ends.
#[verifier::rlimit(40)]
pub proof fn law_interpolation_is_half_a_cosine(
    start: Binary32,
    end: Binary32,
    cosine: Binary32,
) -> (p: HalfCosinePoint)
    requires
        start.finite(),
        end.finite(),
        cosine.finite(),
    ensures
        on_half_a_cosine(half_cosine(start, end, cosine), start, end, cosine, p),
{
    let gap = difference(start, end);
    let half_gap = product(half(), gap);
    let above = sum(one(), cosine);
    let part = product(half_gap, above);
    lemma_one();
    law_arithmetic_rounds_the_exact_result(start, end);
    law_arithmetic_rounds_the_exact_result(one(), cosine);
    if gap.infinite() {
        lemma_endless_way_back(start, end, cosine);
    } else if above.finite() {
        lemma_part_left(start, end, cosine);
    }
    HalfCosinePoint { gap, half_gap, above, part }
}

/// A one-cycle schedule goes along half a cosine from its initial to its highest rate up to the
/// turning point, then along half a cosine to its final rate, and stays there.
#[verifier::rlimit(40)]
pub proof fn law_one_cycle_is_two_half_cosines(
    s: OneCycleLR,
    batch: usize,
    superbatch: usize,
    cosine: Binary32,
) -> (p: HalfCosinePoint)
    ensures
        s.usable(batch, superbatch),
        s.terminal() == Some(s.total_superbatch),
        superbatch <= s.warmup_superbatch ==> {
            let call = s.call_at(batch, superbatch);
            let whole = if s.warmup_superbatch == 0 {
                1nat
            } else {
                s.warmup_superbatch as nat
            };
            let r = s.rate_at(batch, superbatch, cosine);
            &&& call is Cos && angle_of(call->x, superbatch as nat, whole)
            &&& s.initial_lr.finite() && s.max_lr.finite() && cosine.finite() ==> on_half_a_cosine(
                r,
                s.initial_lr,
                s.max_lr,
                cosine,
                p,
            )
        },
        s.warmup_superbatch < superbatch < s.total_superbatch ==> {
            let call = s.call_at(batch, superbatch);
            let r = s.rate_at(batch, superbatch, cosine);
            &&& call is Cos && angle_of(
                call->x,
                (superbatch - s.warmup_superbatch) as nat,
                (s.total_superbatch - s.warmup_superbatch) as nat,
            )
            &&& s.max_lr.finite() && s.final_lr.finite() && cosine.finite() ==> on_half_a_cosine(
                r,
                s.max_lr,
                s.final_lr,
                cosine,
                p,
            )
        },
        superbatch > s.warmup_superbatch && superbatch >= s.total_superbatch ==> s.call_at(
            batch,
            superbatch,
        ) == MathCall::Nothing && s.rate_at(batch, superbatch, cosine) == s.final_lr,
{
    let w = s.warmup_superbatch;
    let t = s.total_superbatch;
    if superbatch <= w {
        let whole = if w == 0 {
            1usize
        } else {
            w
        };
        lemma_angle(superbatch, whole);
    } else if superbatch < t {
        lemma_angle((superbatch - w) as usize, (t - w) as usize);
    }
    let none = HalfCosinePoint { gap: cosine, half_gap: cosine, above: cosine, part: cosine };
    if superbatch <= w && s.initial_lr.finite() && s.max_lr.finite() && cosine.finite() {
        law_interpolation_is_half_a_cosine(s.initial_lr, s.max_lr, cosine)
    } else if w < superbatch < t && s.max_lr.finite() && s.final_lr.finite()
        && cosine.finite() {
        law_interpolation_is_half_a_cosine(s.max_lr, s.final_lr, cosine)
    } else {
        none
    }
}

/// A finite number over a count is finite.
pub proof fn lemma_shared_out(a: Binary32, count: nat)
    requires
        a.finite(),
        0 < count < 0x1_0000_0000_0000_0000,
    ensures
        quotient(a, from_integer(count)).finite(),
{
    let c = from_integer(count);
    let p = pow2(149);
    lemma_one();
    lemma_count(count);
    law_counts_keep_order(1, count);
    law_rank_orders_values(one(), c);
    let q = a.quanta();
    assert(q * p * 1 <= q * c.quanta()) by (nonlinear_arith)
        requires
            p <= c.quanta(),
    ;
    lemma_pow2_pos(149);
    law_rounding_keeps_order(q * p, c.quanta(), q, 1);
    lemma_nearest_exact(a.magnitude(), 1);
    lemma_signed(a.negative(), nearest_magnitude(q * p, c.quanta()));
}

/// During a warmup a rate or a blend is the number nearest to the plain one over the number of
/// warmup batches that are left, and otherwise it is the plain one.
pub proof fn law_warmup_divides_by_the_batches_left(
    base: Binary32,
    batch: usize,
    superbatch: usize,
    warmup_batches: usize,
) -> (left: Binary32)
    ensures
        superbatch != 1 || batch >= warmup_batches ==> warmed_up(
            base,
            batch,
            superbatch,
            warmup_batches,
        ) == base,
        superbatch == 1 && batch < warmup_batches && base.finite() ==> {
            let r = warmed_up(base, batch, superbatch, warmup_batches);
            &&& nearest_to(left, (warmup_batches - batch) * pow2(149), 1)
            &&& nearest_to(r, base.value() * pow2(149), left.quanta())
        },
        superbatch == 1 && batch < warmup_batches && !base.finite() ==> {
            let r = warmed_up(base, batch, superbatch, warmup_batches);
            &&& base.nan() ==> r.nan()
            &&& base.infinite() ==> r == base
        },
{
    if superbatch == 1 && batch < warmup_batches {
        let count = (warmup_batches - batch) as nat;
        let left = from_integer(count);
        lemma_count(count);
        law_count_is_nearest(count);
        if base.finite() {
            lemma_shared_out(base, count);
            law_quotient_is_nearest(base, left);
        } else {
            law_signs_of_products_and_quotients(base, left);
            lemma_signed(base.negative(), INFINITY_BITS as nat);
        }
        left
    } else {
        base
    }
}

/// A one-cycle schedule is derived from its highest rate: it starts at that rate over the first
/// factor, and ends at the start over the second one.
pub proof fn law_one_cycle_is_derived_from_its_highest_rate(
    max_lr: Binary32,
    warmup_pct: Binary32,
    div_factor: Binary32,
    final_div_factor: Binary32,
    total_superbatch: usize,
)
    ensures
        ({
            let s = cycle_from(
                max_lr,
                warmup_pct,
                div_factor,
                final_div_factor,
                total_superbatch,
            );
            &&& s.max_lr == max_lr
            &&& s.total_superbatch == total_superbatch
            &&& max_lr.finite() && div_factor.finite() && !div_factor.zero() ==> rounds_to(
                s.initial_lr,
                if div_factor.negative() {
                    -(max_lr.value() * pow2(149))
                } else {
                    max_lr.value() * pow2(149)
                },
                div_factor.quanta(),
            )
            &&& s.initial_lr.finite() && final_div_factor.finite() && !final_div_factor.zero()
                ==> rounds_to(
                s.final_lr,
                if final_div_factor.negative() {
                    -(s.initial_lr.value() * pow2(149))
                } else {
                    s.initial_lr.value() * pow2(149)
                },
                final_div_factor.quanta(),
            )
        }),
{
    let initial_lr = quotient(max_lr, div_factor);
    if max_lr.finite() && div_factor.finite() && !div_factor.zero() {
        law_division_rounds_the_exact_result(max_lr, div_factor);
    }
    if initial_lr.finite() && final_div_factor.finite() && !final_div_factor.zero() {
        law_division_rounds_the_exact_result(initial_lr, final_div_factor);
    }
}

/// A one-cycle schedule turns at the superbatch nearest to its share of the training, halves
/// upwards, and not outside the training. Counts of more than twenty-four bits may be rounded
/// themselves.
#[verifier::rlimit(40)]
pub proof fn law_one_cycle_turns_after_its_share(
    max_lr: Binary32,
    warmup_pct: Binary32,
    div_factor: Binary32,
    final_div_factor: Binary32,
    total_superbatch: usize,
) -> (share: Binary32)
    requires
        total_superbatch < 0x100_0000,
        warmup_pct.finite(),
        -pow2(149) <= warmup_pct.value() <= pow2(149),
    ensures
        nearest_to(share, warmup_pct.value() * total_superbatch, 1),
        ({
            let turn = cycle_from(
                max_lr,
                warmup_pct,
                div_factor,
                final_div_factor,
                total_superbatch,
            ).warmup_superbatch;
            &&& turn <= total_superbatch
            &&& 0 < turn ==> (2 * turn - 1) * pow2(149) <= 2 * share.value()
            &&& turn < total_superbatch ==> 2 * share.value() < (2 * turn + 1) * pow2(149)
        }),
{
    let d = pow2(149);
    let total = from_integer(total_superbatch as nat);
    let share = product(warmup_pct, total);
    let whole = rounded(share);
    let zero = Binary32 { bits: 0 };
    let held = clamped(whole, zero, total);
    let turn = whole_usize(held) as int;
    lemma_share_of_a_count(warmup_pct, total_superbatch as nat);
    law_small_counts_are_exact(total_superbatch as nat);
    lemma_pow2_pos(149);
    lemma_quanta_zero(0);
    law_rounded_is_the_nearest_integer(share);
    law_rank_orders_values(whole, zero);
    law_rank_orders_values(total, whole);
    law_rank_orders_values(zero, total);
    law_integer_part_is_the_integer_below(held);
    assert(total_superbatch * d >= 0) by (nonlinear_arith);
    assert(held.finite());
    let v = held.value();
    assert(v >= 0);
    let n = v / d as int;
    assert(v == n * d) by {
        vstd::arithmetic::div_mod::lemma_fundamental_div_mod(v, d as int);
        vstd::arithmetic::div_mod::lemma_mod_multiples_basic(
            total_superbatch as int,
            d as int,
        );
        assert(d * n == n * d) by (nonlinear_arith);
        if whole.negative() {
            assert(v == 0 || held == total);
            assert(0int % d as int == 0);
        }
    }
    assert(n <= total_superbatch) by (nonlinear_arith)
        requires
            n * d <= total_superbatch * d,
            d > 0,
    ;
    assert(turn == n) by {
        if held.negative() {
            assert(n == 0) by (nonlinear_arith)
                requires
                    n * d == 0,
                    d > 0,
            ;
        } else {
            assert(turn == n) by (nonlinear_arith)
                requires
                    turn * d <= n * d,
                    n * d < (turn + 1) * d,
                    d > 0,
            ;
        }
    }
    assert((2 * turn - 1) * d == 2 * v - d) by (nonlinear_arith)
        requires
            v == turn * d,
    ;
    assert((2 * turn + 1) * d == 2 * v + d) by (nonlinear_arith)
        requires
            v == turn * d,
    ;
    assert(turn < total_superbatch ==> v < total_superbatch * d) by (nonlinear_arith)
        requires
            v == turn * d,
            d > 0,
    ;
    assert(0 < turn ==> 0 < v) by (nonlinear_arith)
        requires
            v == turn * d,
            d > 0,
    ;
    share
}

} // verus!
