//! How the curves of the schedules move: which way, and between which bounds.
//!
//! A cosine or a power is evaluated by the caller. Where a law speaks of two points of a curve, it
//! asks of these values what holds of the functions: that the cosine falls between zero and pi and
//! stays between minus one and one.

use crate::arithmetic::{
    difference, from_integer, lemma_quanta_zero, magnitude_of, negation, product, quotient, sum,
};
use crate::binary32::{magnitude_significand, Binary32};
use crate::identities::{
    half, lemma_count, lemma_one, lemma_signed, lemma_times_zero, lemma_zero_over, one,
};
use crate::integers::law_rank_orders_values;
use crate::lr_schedule::{
    at_least_one, blended, half_cosine, pi, way, CosineDecayLR, ExponentialDecayLR, LinearDecayLR,
    LrScheduler, MathCall, OneCycleLR,
};
use crate::order::{
    law_counts_keep_order, law_difference_has_the_sign_of_the_order, law_difference_turns_order,
    law_product_has_the_sign_of_its_factors, law_product_keeps_order, law_quotient_keeps_order,
    law_sum_errs_by_half_a_grain, law_sum_goes_the_way_of_its_sign, law_sum_keeps_order,
    lemma_half_and_two, lemma_half_is_finite, lemma_halved_and_doubled_nearly, lemma_negation,
    lemma_one_and_cosine, lemma_over_itself, lemma_quotient_rank, lemma_rank_exact,
    lemma_rank_rises, lemma_sum_rank, nearest_rank,
};
use crate::rounding::{
    lemma_nearest_exact, lemma_nearest_none, lemma_pow2_zero, nearest_magnitude,
};
use crate::rounding_laws::{distance, grain, law_rounding_keeps_order};
use crate::schedule_laws::law_one_cycle_turns_at_the_maximum;
use crate::wdl_schedule::{LinearWDL, WdlScheduler};
use vstd::arithmetic::power2::{lemma_pow2_adds, lemma_pow2_pos, pow2};
use vstd::prelude::*;

verus! {

/// The number is one that a cosine can be.
pub open spec fn is_cosine(c: Binary32) -> bool {
    negation(one()).at_most(c) && c.at_most(one())
}

/// As the cosine falls from `c` to `d`, half a cosine moves from `start` towards `end`, does not
/// pass `end`, and does not go back behind where it is for a cosine of one.
pub proof fn law_half_cosine_moves_towards_its_end(
    start: Binary32,
    end: Binary32,
    c: Binary32,
    d: Binary32,
)
    requires
        start.finite(),
        end.finite(),
        difference(start, end).finite(),
        is_cosine(c),
        is_cosine(d),
        d.at_most(c),
    ensures
        start.at_most(end) ==> {
            &&& half_cosine(start, end, one()).at_most(half_cosine(start, end, c))
            &&& half_cosine(start, end, c).at_most(half_cosine(start, end, d))
            &&& half_cosine(start, end, d).at_most(end)
        },
        end.at_most(start) ==> {
            &&& end.at_most(half_cosine(start, end, d))
            &&& half_cosine(start, end, d).at_most(half_cosine(start, end, c))
            &&& half_cosine(start, end, c).at_most(half_cosine(start, end, one()))
        },
{
    let gap = difference(start, end);
    let scaled = product(half(), gap);
    let whole = sum(one(), one());
    let x = sum(one(), c);
    let y = sum(one(), d);
    law_difference_has_the_sign_of_the_order(start, end);
    lemma_half_and_two();
    lemma_half_is_finite(gap);
    law_product_has_the_sign_of_its_factors(gap, half());
    lemma_one_and_cosine(c);
    lemma_one_and_cosine(d);
    law_sum_keeps_order(one(), d, c);
    law_product_keeps_order(scaled, y, x);
    law_product_keeps_order(scaled, x, whole);
    law_product_has_the_sign_of_its_factors(scaled, y);
    law_sum_goes_the_way_of_its_sign(end, product(scaled, y));
    if start.at_most(end) {
        law_sum_keeps_order(end, product(scaled, whole), product(scaled, x));
        law_sum_keeps_order(end, product(scaled, x), product(scaled, y));
    }
    if end.at_most(start) {
        law_sum_keeps_order(end, product(scaled, y), product(scaled, x));
        law_sum_keeps_order(end, product(scaled, x), product(scaled, whole));
    }
}

/// The gap from `end` back to `start`, halved and doubled.
pub open spec fn returned(start: Binary32, end: Binary32) -> Binary32 {
    product(product(half(), difference(start, end)), sum(one(), one()))
}

/// Twice what half a cosine can be away from its start, in quanta: half a grain for rounding the
/// gap, half a grain for rounding the sum, and one quantum where the gap cannot be halved.
pub open spec fn slack(start: Binary32, end: Binary32) -> int {
    grain(magnitude_of(start.value() - end.value())) + grain(
        magnitude_of(end.value() + returned(start, end).value()),
    ) + if difference(start, end).quanta() % 2 == 0 {
        0int
    } else {
        2
    }
}

/// Where the cosine is one, half a cosine is at its start but for rounding.
pub proof fn law_half_cosine_departs_from_its_start(start: Binary32, end: Binary32)
    requires
        start.finite(),
        end.finite(),
        difference(start, end).finite(),
        half_cosine(start, end, one()).finite(),
    ensures
        half_cosine(start, end, one()) == sum(end, returned(start, end)),
        distance(returned(start, end).value(), difference(start, end).value()) <= 1,
        difference(start, end).quanta() % 2 == 0 ==> returned(start, end) == difference(start, end),
        2 * distance(half_cosine(start, end, one()).value(), start.value()) <= slack(start, end),
{
    let gap = difference(start, end);
    lemma_half_and_two();
    lemma_halved_and_doubled_nearly(gap);
    lemma_negation(end);
    law_sum_errs_by_half_a_grain(start, negation(end));
    law_sum_errs_by_half_a_grain(end, returned(start, end));
}

/// The way to a superbatch grows with the superbatch, from zero to one.
pub proof fn law_way_grows(a: usize, b: usize, end: usize)
    requires
        a <= b <= end,
        end > 0,
    ensures
        (Binary32 { bits: 0 }).at_most(way(a, end)),
        way(a, end).at_most(way(b, end)),
        way(b, end).at_most(one()),
        way(a, end).finite(),
        way(b, end).finite(),
{
    let e = from_integer(end as nat);
    lemma_count(end as nat);
    law_counts_keep_order(0, a as nat);
    law_counts_keep_order(a as nat, b as nat);
    law_counts_keep_order(b as nat, end as nat);
    lemma_one();
    lemma_zero_over(e);
    law_quotient_keeps_order(Binary32 { bits: 0 }, from_integer(a as nat), e);
    law_quotient_keeps_order(from_integer(a as nat), from_integer(b as nat), e);
    law_quotient_keeps_order(from_integer(b as nat), e, e);
    lemma_over_itself(e);
}

/// Pi times a way grows with the way, from zero to pi.
pub proof fn lemma_angle_grows(p: Binary32, q: Binary32)
    requires
        (Binary32 { bits: 0 }).at_most(p),
        p.at_most(q),
        q.at_most(one()),
    ensures
        (Binary32 { bits: 0 }).at_most(product(pi(), p)),
        product(pi(), p).at_most(product(pi(), q)),
        product(pi(), q).at_most(pi()),
{
    lemma_one();
    law_product_has_the_sign_of_its_factors(pi(), p);
    law_product_keeps_order(pi(), p, q);
    law_product_keeps_order(pi(), q, one());
    lemma_times_one(pi());
}

/// Multiplying by one changes nothing.
pub proof fn lemma_times_one(a: Binary32)
    requires
        a.finite(),
    ensures
        product(a, one()) == a,
{
    lemma_one();
    let q = a.quanta();
    let d = pow2(149);
    lemma_pow2_pos(149);
    assert(q * d == d * q) by (nonlinear_arith);
    lemma_nearest_exact(a.magnitude(), d);
}

impl OneCycleLR {
    /// Both superbatches are on the way up, or both on the way down.
    pub open spec fn same_phase(&self, a: usize, b: usize) -> bool {
        ||| a <= self.warmup_superbatch && b <= self.warmup_superbatch
        ||| self.warmup_superbatch < a < self.total_superbatch && self.warmup_superbatch < b
            < self.total_superbatch
    }
}

/// In each phase of a one-cycle schedule the angle of the cosine grows with the superbatch, from
/// zero to pi, so that the cosine falls.
pub proof fn law_one_cycle_angle_grows(s: OneCycleLR, batch: usize, a: usize, b: usize)
    requires
        a <= b,
        s.same_phase(a, b),
    ensures
        match (s.call_at(batch, a), s.call_at(batch, b)) {
            (MathCall::Cos { x }, MathCall::Cos { x: y }) => {
                &&& (Binary32 { bits: 0 }).at_most(x)
                &&& x.at_most(y)
                &&& y.at_most(pi())
            },
            _ => false,
        },
{
    let w = s.warmup_superbatch;
    let t = s.total_superbatch;
    if b <= w {
        let end = if w == 0 {
            1usize
        } else {
            w
        };
        law_way_grows(a, b, end);
        lemma_angle_grows(way(a, end), way(b, end));
    } else {
        let end = (t - w) as usize;
        law_way_grows((a - w) as usize, (b - w) as usize, end);
        lemma_angle_grows(way((a - w) as usize, end), way((b - w) as usize, end));
    }
}

/// Up to its turning point a one-cycle schedule rises with the superbatch and does not pass its
/// highest rate.
pub proof fn law_one_cycle_rises(
    s: OneCycleLR,
    batch: usize,
    a: usize,
    b: usize,
    c: Binary32,
    d: Binary32,
)
    requires
        s.initial_lr.finite(),
        s.max_lr.finite(),
        difference(s.initial_lr, s.max_lr).finite(),
        s.initial_lr.at_most(s.max_lr),
        a <= b <= s.warmup_superbatch,
        is_cosine(c),
        is_cosine(d),
        d.at_most(c),
    ensures
        s.rate_at(batch, a, c).at_most(s.rate_at(batch, b, d)),
        s.rate_at(batch, b, d).at_most(s.max_lr),
{
    law_half_cosine_moves_towards_its_end(s.initial_lr, s.max_lr, c, d);
}

/// After its turning point a one-cycle schedule falls with the superbatch, down to its final rate,
/// which it does not pass.
pub proof fn law_one_cycle_falls(
    s: OneCycleLR,
    batch: usize,
    a: usize,
    b: usize,
    c: Binary32,
    d: Binary32,
)
    requires
        s.max_lr.finite(),
        s.final_lr.finite(),
        difference(s.max_lr, s.final_lr).finite(),
        s.final_lr.at_most(s.max_lr),
        s.warmup_superbatch < a <= b,
        is_cosine(c),
        is_cosine(d),
        d.at_most(c),
    ensures
        s.rate_at(batch, b, d).at_most(s.rate_at(batch, a, c)),
        s.final_lr.at_most(s.rate_at(batch, b, d)),
        b >= s.total_superbatch ==> s.rate_at(batch, b, d) == s.final_lr,
{
    law_half_cosine_moves_towards_its_end(s.max_lr, s.final_lr, c, d);
    law_half_cosine_moves_towards_its_end(s.max_lr, s.final_lr, c, c);
}

/// A one-cycle schedule stays between its rates: up to the turning point between the rate at a
/// cosine of one, which is the initial one but for rounding, and the highest; after it between the
/// final one and the rate at a cosine of one, which is the highest but for rounding. The batch does
/// not matter.
pub proof fn law_one_cycle_stays_between_its_rates(
    s: OneCycleLR,
    batch: usize,
    other: usize,
    superbatch: usize,
    c: Binary32,
)
    requires
        s.initial_lr.finite(),
        s.max_lr.finite(),
        s.final_lr.finite(),
        difference(s.initial_lr, s.max_lr).finite(),
        difference(s.max_lr, s.final_lr).finite(),
        s.initial_lr.at_most(s.max_lr),
        s.final_lr.at_most(s.max_lr),
        is_cosine(c),
    ensures
        s.rate_at(batch, superbatch, c) == s.rate_at(other, superbatch, c),
        superbatch <= s.warmup_superbatch ==> {
            &&& half_cosine(s.initial_lr, s.max_lr, one()).at_most(s.rate_at(batch, superbatch, c))
            &&& s.rate_at(batch, superbatch, c).at_most(s.max_lr)
        },
        superbatch > s.warmup_superbatch ==> {
            &&& s.final_lr.at_most(s.rate_at(batch, superbatch, c))
            &&& s.rate_at(batch, superbatch, c).at_most(half_cosine(s.max_lr, s.final_lr, one()))
        },
{
    law_half_cosine_moves_towards_its_end(s.initial_lr, s.max_lr, c, c);
    law_half_cosine_moves_towards_its_end(s.max_lr, s.final_lr, c, c);
}

/// No rate of a one-cycle schedule between rates that are not negative is negative, but for one
/// quantum where the initial gap cannot be halved.
pub proof fn law_one_cycle_is_not_negative(
    s: OneCycleLR,
    batch: usize,
    superbatch: usize,
    c: Binary32,
)
    requires
        s.initial_lr.finite(),
        s.max_lr.finite(),
        s.final_lr.finite(),
        (Binary32 { bits: 0 }).at_most(s.initial_lr),
        (Binary32 { bits: 0 }).at_most(s.final_lr),
        s.initial_lr.at_most(s.max_lr),
        s.final_lr.at_most(s.max_lr),
        is_cosine(c),
    ensures
        minus_quantum().at_most(s.rate_at(batch, superbatch, c)),
        difference(s.initial_lr, s.max_lr).quanta() % 2 == 0 || superbatch > s.warmup_superbatch
            ==> (Binary32 { bits: 0 }).at_most(s.rate_at(batch, superbatch, c)),
{
    lemma_gap_of_rates(s.initial_lr, s.max_lr);
    lemma_gap_of_rates(s.final_lr, s.max_lr);
    law_one_cycle_stays_between_its_rates(s, batch, batch, superbatch, c);
}

/// The negative number next to zero.
pub open spec fn minus_quantum() -> Binary32 {
    Binary32 { bits: 0x8000_0001 }
}

/// Between two rates that are not negative the gap is finite, and half a cosine that rises from the
/// lower to the higher one does not start below zero, but for one quantum.
proof fn lemma_gap_of_rates(low: Binary32, high: Binary32)
    requires
        low.finite(),
        high.finite(),
        (Binary32 { bits: 0 }).at_most(low),
        low.at_most(high),
    ensures
        difference(low, high).finite(),
        difference(high, low).finite(),
        minus_quantum().at_most(half_cosine(low, high, one())),
        difference(low, high).quanta() % 2 == 0 ==> (Binary32 { bits: 0 }).at_most(
            half_cosine(low, high, one()),
        ),
{
    let zero = Binary32 { bits: 0 };
    let gap = difference(low, high);
    let back = returned(low, high);
    lemma_negation(high);
    lemma_negation(low);
    lemma_quanta_zero(0);
    // The gap lies between minus the higher rate and zero.
    lemma_rank_exact(negation(high));
    law_rank_orders_values(zero, low);
    law_rank_orders_values(low, high);
    lemma_sum_rank(low, negation(high));
    lemma_rank_rises(-high.value(), low.value() - high.value(), 1);
    law_difference_has_the_sign_of_the_order(low, high);
    // So does the other one, turned.
    lemma_sum_rank(high, negation(low));
    lemma_rank_exact(high);
    lemma_rank_rises(high.value() - low.value(), high.value(), 1);
    law_difference_has_the_sign_of_the_order(high, low);
    // Halving and doubling leads at most one quantum further.
    lemma_half_and_two();
    lemma_halved_and_doubled_nearly(gap);
    law_rank_orders_values(negation(high), gap);
    lemma_sum_rank(high, back);
    lemma_minus_quantum();
    lemma_rank_rises(-1, high.value() + back.value(), 1);
    if gap.quanta() % 2 == 0 {
        lemma_rank_rises(0, high.value() + back.value(), 1);
    }
}

/// The negative number next to zero is minus one quantum.
proof fn lemma_minus_quantum()
    ensures
        nearest_rank(-1, 1) == -1,
{
    let tiny = minus_quantum();
    lemma_pow2_zero();
    assert(tiny.magnitude() == 1);
    assert(magnitude_significand(1) == 1);
    assert(tiny.value() == -1);
    lemma_rank_exact(tiny);
}

/// The smaller of two values.
pub open spec fn lower(a: int, b: int) -> int {
    if a < b {
        a
    } else {
        b
    }
}

/// The angle of the cosine is zero at the start of a one-cycle schedule, and pi where it turns.
pub proof fn law_one_cycle_angles_span_half_a_turn(s: OneCycleLR, batch: usize)
    ensures
        s.call_at(batch, 0) matches MathCall::Cos { x } && x.zero(),
        s.warmup_superbatch >= 1 ==> s.call_at(batch, s.warmup_superbatch) == (MathCall::Cos {
            x: pi(),
        }),
{
    let w = s.warmup_superbatch;
    let end = at_least_one(w);
    lemma_one();
    lemma_count(end as nat);
    assert(way(0, end).zero()) by {
        lemma_zero_over(from_integer(end as nat));
    }
    lemma_times_zero(pi(), way(0, end));
    if w >= 1 {
        lemma_over_itself(from_integer(w as nat));
        lemma_times_one(pi());
    }
}

/// Every rate of a one-cycle schedule lies between the smaller of the initial and the final rate
/// and the highest one, but for rounding.
pub proof fn law_one_cycle_keeps_its_range(
    s: OneCycleLR,
    batch: usize,
    other: usize,
    superbatch: usize,
    c: Binary32,
)
    requires
        s.initial_lr.finite(),
        s.max_lr.finite(),
        s.final_lr.finite(),
        difference(s.initial_lr, s.max_lr).finite(),
        difference(s.max_lr, s.final_lr).finite(),
        half_cosine(s.initial_lr, s.max_lr, one()).finite(),
        half_cosine(s.max_lr, s.final_lr, one()).finite(),
        s.initial_lr.at_most(s.max_lr),
        s.final_lr.at_most(s.max_lr),
        is_cosine(c),
    ensures
        s.rate_at(batch, superbatch, c) == s.rate_at(other, superbatch, c),
        s.rate_at(batch, superbatch, c).finite(),
        2 * lower(s.initial_lr.value(), s.final_lr.value()) - slack(s.initial_lr, s.max_lr) <= 2
            * s.rate_at(batch, superbatch, c).value() <= 2 * s.max_lr.value() + slack(
            s.max_lr,
            s.final_lr,
        ),
{
    let rate = s.rate_at(batch, superbatch, c);
    let first = half_cosine(s.initial_lr, s.max_lr, one());
    let top = half_cosine(s.max_lr, s.final_lr, one());
    law_one_cycle_stays_between_its_rates(s, batch, other, superbatch, c);
    law_half_cosine_departs_from_its_start(s.initial_lr, s.max_lr);
    law_half_cosine_departs_from_its_start(s.max_lr, s.final_lr);
    lemma_between(s.final_lr, s.max_lr, s.max_lr);
    lemma_between(s.initial_lr, s.max_lr, s.max_lr);
    if superbatch <= s.warmup_superbatch {
        lemma_between(first, rate, s.max_lr);
    } else {
        lemma_between(s.final_lr, rate, top);
    }
}

/// A number between two finite ones is finite, and lies between them by value.
proof fn lemma_between(low: Binary32, a: Binary32, high: Binary32)
    requires
        low.finite(),
        high.finite(),
        low.at_most(a),
        a.at_most(high),
    ensures
        a.finite(),
        low.value() <= a.value() <= high.value(),
{
    law_rank_orders_values(low, a);
    law_rank_orders_values(a, high);
}

/// A one-cycle schedule is a hill. It starts at the initial rate, but for rounding, and rises with
/// the superbatch to the highest rate, which it has where it turns. Then it falls with the
/// superbatch to the final rate, which it has from its end on. It stays between the smaller of
/// the initial and the final rate and the highest one, but for rounding, and the batch does not
/// matter. The gaps between the rates, and the rates at a cosine of one, have to be finite; between
/// numbers near the largest one they may not be.
pub proof fn law_one_cycle_is_a_hill(
    s: OneCycleLR,
    batch: usize,
    other: usize,
    a: usize,
    b: usize,
    c: Binary32,
    d: Binary32,
)
    requires
        s.initial_lr.finite(),
        s.max_lr.finite(),
        s.final_lr.finite(),
        difference(s.initial_lr, s.max_lr).finite(),
        difference(s.max_lr, s.final_lr).finite(),
        half_cosine(s.initial_lr, s.max_lr, one()).finite(),
        half_cosine(s.max_lr, s.final_lr, one()).finite(),
        s.initial_lr.at_most(s.max_lr),
        s.final_lr.at_most(s.max_lr),
        s.warmup_superbatch < s.total_superbatch,
        a <= b,
        is_cosine(c),
        is_cosine(d),
        s.same_phase(a, b) ==> d.at_most(c),
    ensures
        s.rate_at(batch, a, c) == s.rate_at(other, a, c),
        s.call_at(batch, 0) matches MathCall::Cos { x } && x.zero(),
        2 * distance(s.rate_at(batch, 0, one()).value(), s.initial_lr.value()) <= slack(
            s.initial_lr,
            s.max_lr,
        ),
        b <= s.warmup_superbatch ==> s.rate_at(batch, a, c).at_most(s.rate_at(batch, b, d)),
        s.warmup_superbatch >= 1 ==> s.call_at(batch, s.warmup_superbatch) == (MathCall::Cos {
            x: pi(),
        }),
        s.rate_at(batch, s.warmup_superbatch, negation(one())).value() == s.max_lr.value(),
        a > s.warmup_superbatch ==> s.rate_at(batch, b, d).at_most(s.rate_at(batch, a, c)),
        a >= s.total_superbatch ==> s.rate_at(batch, a, c) == s.final_lr,
        s.rate_at(batch, a, c).finite(),
        2 * lower(s.initial_lr.value(), s.final_lr.value()) - slack(s.initial_lr, s.max_lr) <= 2
            * s.rate_at(batch, a, c).value() <= 2 * s.max_lr.value() + slack(s.max_lr, s.final_lr),
{
    law_one_cycle_angles_span_half_a_turn(s, batch);
    law_one_cycle_keeps_its_range(s, batch, other, a, c);
    law_half_cosine_departs_from_its_start(s.initial_lr, s.max_lr);
    lemma_half_is_finite(difference(s.initial_lr, s.max_lr));
    law_one_cycle_turns_at_the_maximum(s, batch);
    if b <= s.warmup_superbatch {
        law_one_cycle_rises(s, batch, a, b, c, d);
    }
    if a > s.warmup_superbatch {
        if b < s.total_superbatch {
            law_one_cycle_falls(s, batch, a, b, c, d);
        } else {
            law_one_cycle_stays_between_its_rates(s, batch, other, a, c);
        }
    }
}

/// The number at a share of the way from `start` to `end` moves towards `end` with the share, and
/// does not go back behind `start`.
pub proof fn law_blend_moves_towards_its_end(
    start: Binary32,
    end: Binary32,
    p: Binary32,
    q: Binary32,
)
    requires
        start.finite(),
        end.finite(),
        difference(end, start).finite(),
        p.finite(),
        q.finite(),
        (Binary32 { bits: 0 }).at_most(p),
        p.at_most(q),
    ensures
        end.at_most(start) ==> blended(start, end, q).at_most(blended(start, end, p)) && blended(
            start,
            end,
            p,
        ).at_most(start),
        start.at_most(end) ==> start.at_most(blended(start, end, p)) && blended(
            start,
            end,
            p,
        ).at_most(blended(start, end, q)),
{
    let gap = difference(end, start);
    law_difference_has_the_sign_of_the_order(end, start);
    law_product_keeps_order(gap, p, q);
    law_product_has_the_sign_of_its_factors(gap, p);
    law_sum_goes_the_way_of_its_sign(start, product(p, gap));
    if end.at_most(start) {
        law_sum_keeps_order(start, product(q, gap), product(p, gap));
    }
    if start.at_most(end) {
        law_sum_keeps_order(start, product(p, gap), product(q, gap));
    }
}

/// Before its horizon a linear decay to a lower rate falls with the superbatch and stays at or
/// below its initial rate.
pub proof fn law_linear_decay_falls(
    s: LinearDecayLR,
    batch: usize,
    a: usize,
    b: usize,
    x: Binary32,
    y: Binary32,
)
    requires
        s.initial_lr.finite(),
        s.final_lr.finite(),
        difference(s.final_lr, s.initial_lr).finite(),
        s.final_lr.at_most(s.initial_lr),
        a <= b < s.final_superbatch,
    ensures
        s.rate_at(batch, b, y).at_most(s.rate_at(batch, a, x)),
        s.rate_at(batch, a, x).at_most(s.initial_lr),
{
    let end = s.final_superbatch;
    law_way_grows(a, b, end);
    law_blend_moves_towards_its_end(s.initial_lr, s.final_lr, way(a, end), way(b, end));
}

/// Before its horizon a cosine decay to a lower rate falls as its cosine does, and stays at or
/// below its initial rate; the angle of the cosine grows with the superbatch, from zero to pi.
pub proof fn law_cosine_decay_falls(
    s: CosineDecayLR,
    batch: usize,
    a: usize,
    b: usize,
    c: Binary32,
    d: Binary32,
)
    requires
        s.initial_lr.finite(),
        s.final_lr.finite(),
        difference(s.final_lr, s.initial_lr).finite(),
        s.final_lr.at_most(s.initial_lr),
        a <= b < s.final_superbatch,
        is_cosine(c),
        is_cosine(d),
        d.at_most(c),
    ensures
        s.rate_at(batch, b, d).at_most(s.rate_at(batch, a, c)),
        s.rate_at(batch, a, c).at_most(s.initial_lr),
        match (s.call_at(batch, a), s.call_at(batch, b)) {
            (MathCall::Cos { x }, MathCall::Cos { x: y }) => {
                &&& (Binary32 { bits: 0 }).at_most(x)
                &&& x.at_most(y)
                &&& y.at_most(pi())
            },
            _ => false,
        },
{
    let end = s.final_superbatch;
    law_way_grows(a, b, end);
    lemma_angle_grows(way(a, end), way(b, end));
    lemma_share_of_cosine(c);
    lemma_share_of_cosine(d);
    lemma_one_and_cosine(c);
    lemma_one_and_cosine(d);
    lemma_half_and_two();
    lemma_half_is_finite(sum(one(), c));
    lemma_half_is_finite(sum(one(), d));
    law_sum_keeps_order(one(), d, c);
    law_product_keeps_order(half(), sum(one(), d), sum(one(), c));
    law_difference_turns_order(
        one(),
        product(half(), sum(one(), d)),
        product(half(), sum(one(), c)),
    );
    law_blend_moves_towards_its_end(
        s.initial_lr,
        s.final_lr,
        difference(one(), product(half(), sum(one(), c))),
        difference(one(), product(half(), sum(one(), d))),
    );
}

/// The share of the way that a cosine stands for lies between zero and one.
proof fn lemma_share_of_cosine(c: Binary32)
    requires
        is_cosine(c),
    ensures
        ({
            let share = difference(one(), product(half(), sum(one(), c)));
            &&& share.finite()
            &&& (Binary32 { bits: 0 }).at_most(share)
        }),
{
    let two = sum(one(), one());
    let x = sum(one(), c);
    let h = product(half(), x);
    lemma_one();
    lemma_half_and_two();
    lemma_one_and_cosine(c);
    lemma_half_is_finite(x);
    law_product_has_the_sign_of_its_factors(x, half());
    law_product_keeps_order(half(), x, two);
    lemma_half_of_two();
    law_difference_has_the_sign_of_the_order(one(), h);
    lemma_negation(h);
    law_sum_goes_the_way_of_its_sign(one(), negation(h));
}

/// Half of two is one.
proof fn lemma_half_of_two()
    ensures
        product(half(), sum(one(), one())) == one(),
{
    lemma_half_and_two();
    lemma_one();
    lemma_pow2_adds(148, 150);
    lemma_pow2_adds(149, 149);
    lemma_pow2_pos(149);
    lemma_nearest_exact(one().magnitude(), pow2(149));
}

/// Before its horizon an exponential decay moves as its power does.
pub proof fn law_exponential_decay_follows_its_power(
    s: ExponentialDecayLR,
    batch: usize,
    a: usize,
    b: usize,
    x: Binary32,
    y: Binary32,
)
    requires
        s.initial_lr.finite(),
        (Binary32 { bits: 0 }).at_most(s.initial_lr),
        a <= b < s.final_superbatch,
        x.finite(),
        y.finite(),
        y.at_most(x),
    ensures
        s.rate_at(batch, b, y).at_most(s.rate_at(batch, a, x)),
        x.at_most(one()) ==> s.rate_at(batch, a, x).at_most(s.initial_lr),
        match (s.call_at(batch, a), s.call_at(batch, b)) {
            (
                MathCall::Powf { base, exponent },
                MathCall::Powf { base: same, exponent: later },
            ) => base == same && exponent.at_most(later),
            _ => false,
        },
{
    lemma_one();
    law_way_grows(a, b, s.final_superbatch);
    law_product_keeps_order(s.initial_lr, y, x);
    if x.at_most(one()) {
        law_product_keeps_order(s.initial_lr, x, one());
        lemma_times_one(s.initial_lr);
    }
}

/// A linear blend moves with the superbatch in the direction of its step, and does not go back
/// behind its start.
pub proof fn law_linear_blend_moves_towards_its_end(
    s: LinearWDL,
    batch: usize,
    a: usize,
    b: usize,
    max: usize,
)
    requires
        s.start.finite(),
        s.end.finite(),
        difference(s.end, s.start).finite(),
        max >= 1,
        1 <= a <= b,
    ensures
        s.start.at_most(s.end) ==> s.start.at_most(s.blend_at(batch, a, max)) && s.blend_at(
            batch,
            a,
            max,
        ).at_most(s.blend_at(batch, b, max)),
        s.end.at_most(s.start) ==> s.blend_at(batch, a, max).at_most(s.start) && s.blend_at(
            batch,
            b,
            max,
        ).at_most(s.blend_at(batch, a, max)),
{
    let gap = difference(s.end, s.start);
    let n = from_integer(at_least_one((max - 1) as usize) as nat);
    let step = s.step(max);
    let x = from_integer((a - 1) as nat);
    let y = from_integer((b - 1) as nat);
    lemma_count(at_least_one((max - 1) as usize) as nat);
    lemma_step_is_finite(gap, at_least_one((max - 1) as usize) as nat);
    law_difference_has_the_sign_of_the_order(s.end, s.start);
    law_counts_keep_order(0, (a - 1) as nat);
    law_counts_keep_order((a - 1) as nat, (b - 1) as nat);
    law_product_keeps_order(step, x, y);
    law_product_has_the_sign_of_its_factors(step, x);
    law_sum_goes_the_way_of_its_sign(s.start, product(step, x));
    if s.start.at_most(s.end) {
        law_sum_keeps_order(s.start, product(step, x), product(step, y));
    }
    if s.end.at_most(s.start) {
        law_sum_keeps_order(s.start, product(step, y), product(step, x));
    }
}

/// A part of a finite gap is finite and has its sign.
proof fn lemma_step_is_finite(gap: Binary32, n: nat)
    requires
        gap.finite(),
        0 < n < 0x1_0000_0000_0000_0000,
    ensures
        quotient(gap, from_integer(n)).finite(),
        gap.rank() <= 0 ==> quotient(gap, from_integer(n)).rank() <= 0,
        gap.rank() >= 0 ==> quotient(gap, from_integer(n)).rank() >= 0,
{
    let c = from_integer(n);
    lemma_count(n);
    lemma_quotient_rank(gap, c);
    lemma_one();
    law_counts_keep_order(1, n);
    law_rank_orders_values(one(), c);
    let q = gap.quanta();
    let p = pow2(149);
    let m = c.quanta();
    lemma_pow2_pos(149);
    let x = q * p;
    assert(x * 1 <= q * m) by (nonlinear_arith)
        requires
            x == q * p,
            p <= m,
            q >= 0,
    ;
    law_rounding_keeps_order(x, m, q, 1);
    lemma_nearest_exact(gap.magnitude(), 1);
    lemma_signed(gap.negative(), nearest_magnitude(x, m));
    lemma_quanta_zero(gap.magnitude());
    assert(0 * p == 0) by (nonlinear_arith);
    lemma_nearest_none(m);
}

} // verus!
