//! What holds of schedules that follow one another, that are warmed up or that are chosen at run
//! time, and of blends.

use crate::arithmetic::{difference, from_integer, product, quotient};
use crate::binary32::{Binary32, INFINITY_BITS};
use crate::identities::{lemma_count, lemma_signed};
use crate::lr_schedule::{
    ConstantLR, CosineDecayLR, DropLR, ExponentialDecayLR, LinearDecayLR, LrScheduler,
    LrSchedulerEnum, MathCall, OneCycleLR, SequenceLR, StepLR, WarmupLR,
};
use crate::nearest_laws::{
    law_arithmetic_rounds_the_exact_result, law_count_is_nearest, law_quotient_is_nearest,
    law_sum_of_infinities, nearest_to, rounds_to,
};
use crate::rate_laws::{law_warmup_divides_by_the_batches_left, lemma_shared_out};
use crate::text::Piece;
use crate::wdl_schedule::{
    ConstantWDL, LinearWDL, SequenceWDL, WarmupWDL, WdlScheduler, WdlSchedulerEnum,
};
use vstd::arithmetic::power2::pow2;
use vstd::prelude::*;

verus! {

/// Up to the midpoint a sequence is its first schedule at the same superbatch, and `later`
/// superbatches after it its second one at `later`: in where it has a rate, in the elementary
/// function that it asks for and in the rate. It has no horizon.
pub proof fn law_sequence_is_one_schedule_after_the_other<First: LrScheduler, Second: LrScheduler>(
    s: SequenceLR<First, Second>,
    batch: usize,
    superbatch: usize,
    later: usize,
    math: Binary32,
)
    requires
        superbatch <= s.first_scheduler_final_superbatch,
        1 <= later <= usize::MAX - s.first_scheduler_final_superbatch,
    ensures
        s.usable(batch, superbatch) == s.first.usable(batch, superbatch),
        s.call_at(batch, superbatch) == s.first.call_at(batch, superbatch),
        s.rate_at(batch, superbatch, math) == s.first.rate_at(batch, superbatch, math),
        ({
            let at = (s.first_scheduler_final_superbatch + later) as usize;
            &&& s.usable(batch, at) == s.second.usable(batch, later)
            &&& s.call_at(batch, at) == s.second.call_at(batch, later)
            &&& s.rate_at(batch, at, math) == s.second.rate_at(batch, later, math)
        }),
        s.terminal() is None,
        s.text() == s.first.text() + seq![
            Piece::Text(", then after "),
            Piece::Count(s.first_scheduler_final_superbatch as u64),
            Piece::Text(" superbatches, "),
        ] + s.second.text(),
{
}

/// Where a sequence asks for no elementary function, what is handed in for it does not matter, if
/// that holds of the two schedules.
pub proof fn law_sequence_asks_where_it_needs<First: LrScheduler, Second: LrScheduler>(
    s: SequenceLR<First, Second>,
    batch: usize,
    superbatch: usize,
    x: Binary32,
    y: Binary32,
)
    requires
        forall|at: usize| #[trigger]
            s.first.call_at(batch, at) == MathCall::Nothing ==> s.first.rate_at(batch, at, x)
                == s.first.rate_at(batch, at, y),
        forall|at: usize| #[trigger]
            s.second.call_at(batch, at) == MathCall::Nothing ==> s.second.rate_at(batch, at, x)
                == s.second.rate_at(batch, at, y),
        s.call_at(batch, superbatch) == MathCall::Nothing,
    ensures
        s.rate_at(batch, superbatch, x) == s.rate_at(batch, superbatch, y),
{
}

/// The first of two schedules decides alone up to the midpoint, the second alone after it.
pub proof fn law_other_schedule_of_a_sequence_does_not_matter<
    First: LrScheduler,
    Second: LrScheduler,
>(
    s: SequenceLR<First, Second>,
    first: First,
    second: Second,
    batch: usize,
    superbatch: usize,
    math: Binary32,
)
    ensures
        ({
            let midpoint = s.first_scheduler_final_superbatch;
            let other = if superbatch <= midpoint {
                SequenceLR { first: s.first, second, first_scheduler_final_superbatch: midpoint }
            } else {
                SequenceLR { first, second: s.second, first_scheduler_final_superbatch: midpoint }
            };
            &&& other.usable(batch, superbatch) == s.usable(batch, superbatch)
            &&& other.call_at(batch, superbatch) == s.call_at(batch, superbatch)
            &&& other.rate_at(batch, superbatch, math) == s.rate_at(batch, superbatch, math)
        }),
{
}

/// A warmed-up schedule has a rate where the schedule inside has one, asks for the same elementary
/// function and has the same horizon. Its rate is the one inside at the same point and for the same
/// value of the function, over the number of warmup batches that are left, as long as some are.
pub proof fn law_warmed_up_rate_comes_from_the_rate_inside<LR: LrScheduler>(
    s: WarmupLR<LR>,
    batch: usize,
    superbatch: usize,
    math: Binary32,
) -> (left: Binary32)
    ensures
        s.usable(batch, superbatch) == s.inner.usable(batch, superbatch),
        s.call_at(batch, superbatch) == s.inner.call_at(batch, superbatch),
        s.terminal() == s.inner.terminal(),
        s.text() == s.inner.text() + seq![
            Piece::Text(", warmup over "),
            Piece::Count(s.warmup_batches as u64),
            Piece::Text(" batches"),
        ],
        ({
            let inside = s.inner.rate_at(batch, superbatch, math);
            let r = s.rate_at(batch, superbatch, math);
            &&& superbatch != 1 || batch >= s.warmup_batches ==> r == inside
            &&& superbatch == 1 && batch < s.warmup_batches && inside.finite() ==> {
                &&& nearest_to(left, (s.warmup_batches - batch) * pow2(149), 1)
                &&& nearest_to(r, inside.value() * pow2(149), left.quanta())
            }
            &&& inside.nan() ==> r.nan()
            &&& inside.infinite() ==> r == inside
        }),
{
    law_warmup_divides_by_the_batches_left(
        s.inner.rate_at(batch, superbatch, math),
        batch,
        superbatch,
        s.warmup_batches,
    )
}

/// A schedule that is chosen at run time is the chosen schedule: at every point it has a rate where
/// that one has, asks for the same elementary function and has the same rate.
pub proof fn law_chosen_schedule_is_the_schedule(
    constant: ConstantLR,
    step: StepLR,
    drop: DropLR,
    linear: LinearDecayLR,
    cosine: CosineDecayLR,
    exponential: ExponentialDecayLR,
    cycle: OneCycleLR,
    batch: usize,
    superbatch: usize,
    math: Binary32,
)
    ensures
        same_schedule(LrSchedulerEnum::Constant(constant), constant, batch, superbatch, math),
        same_schedule(LrSchedulerEnum::Step(step), step, batch, superbatch, math),
        same_schedule(LrSchedulerEnum::Drop(drop), drop, batch, superbatch, math),
        same_schedule(LrSchedulerEnum::LinearDecay(linear), linear, batch, superbatch, math),
        same_schedule(LrSchedulerEnum::CosineDecay(cosine), cosine, batch, superbatch, math),
        same_schedule(
            LrSchedulerEnum::ExponentialDecay(exponential),
            exponential,
            batch,
            superbatch,
            math,
        ),
        same_schedule(LrSchedulerEnum::OneCycle(cycle), cycle, batch, superbatch, math),
{
}

/// Two schedules agree at a point, in their horizon and in their description.
pub open spec fn same_schedule<A: LrScheduler, B: LrScheduler>(
    a: A,
    b: B,
    batch: usize,
    superbatch: usize,
    math: Binary32,
) -> bool {
    &&& a.usable(batch, superbatch) == b.usable(batch, superbatch)
    &&& a.call_at(batch, superbatch) == b.call_at(batch, superbatch)
    &&& a.rate_at(batch, superbatch, math) == b.rate_at(batch, superbatch, math)
    &&& a.terminal() == b.terminal()
    &&& a.text() == b.text()
}

/// A chosen schedule that is warmed up at run time is warmed up like any other: it keeps its
/// elementary function and its horizon, and its rate is the plain one over the number of warmup
/// batches that are left, as long as some are.
pub proof fn law_chosen_warmup_divides_the_chosen_rate(
    s: LrSchedulerEnum,
    warmup_batches: usize,
    batch: usize,
    superbatch: usize,
    math: Binary32,
) -> (left: Binary32)
    ensures
        ({
            let warm = LrSchedulerEnum::Warmup(Box::new(WarmupLR { inner: s, warmup_batches }));
            let inside = s.rate_at(batch, superbatch, math);
            let r = warm.rate_at(batch, superbatch, math);
            &&& warm.usable(batch, superbatch) == s.usable(batch, superbatch)
            &&& warm.call_at(batch, superbatch) == s.call_at(batch, superbatch)
            &&& warm.terminal() == s.terminal()
            &&& superbatch != 1 || batch >= warmup_batches ==> r == inside
            &&& superbatch == 1 && batch < warmup_batches && inside.finite() ==> {
                &&& nearest_to(left, (warmup_batches - batch) * pow2(149), 1)
                &&& nearest_to(r, inside.value() * pow2(149), left.quanta())
            }
            &&& inside.nan() ==> r.nan()
            &&& inside.infinite() ==> r == inside
        }),
{
    law_warmup_divides_by_the_batches_left(
        s.rate_at(batch, superbatch, math),
        batch,
        superbatch,
        warmup_batches,
    )
}

/// A constant blend is its value at every point.
pub proof fn law_constant_blend_is_its_value(
    s: ConstantWDL,
    batch: usize,
    superbatch: usize,
    max: usize,
)
    ensures
        s.usable(batch, superbatch, max),
        s.blend_at(batch, superbatch, max) == s.value,
{
}

/// A blend that is chosen at run time is that of the chosen schedule at the same batch and
/// superbatch of a training of the same length, and exists where that one does.
pub proof fn law_chosen_blend_is_the_blend(
    value: Binary32,
    linear: LinearWDL,
    batch: usize,
    superbatch: usize,
    max: usize,
)
    ensures
        ({
            let chosen = WdlSchedulerEnum::Constant(ConstantWDL { value });
            &&& chosen.usable(batch, superbatch, max)
            &&& chosen.blend_at(batch, superbatch, max) == value
            &&& chosen.text() == seq![Piece::Text("constant "), Piece::Number(value)]
        }),
        ({
            let chosen = WdlSchedulerEnum::Linear(linear);
            &&& chosen.usable(batch, superbatch, max) <==> superbatch >= 1 && max >= 1
            &&& chosen.blend_at(batch, superbatch, max) == linear.blend_at(
                batch,
                superbatch,
                max,
            )
            &&& chosen.text() == linear.text()
        }),
{
}

/// What the blends of one training are made of.
pub struct Taper {
    /// The way from the start to the end.
    pub gap: Binary32,
    /// The number of steps.
    pub steps: Binary32,
    /// The step from one superbatch to the next.
    pub step: Binary32,
}

/// The way from the start to the end is split into `max - 1` equal steps, or one where there is but
/// one superbatch, each rounded.
pub open spec fn tapers(s: LinearWDL, max: usize, t: Taper) -> bool {
    let count = if max <= 1 {
        1
    } else {
        max - 1
    };
    &&& rounds_to(t.gap, s.end.value() - s.start.value(), 1)
    &&& nearest_to(t.steps, count * pow2(149), 1)
    &&& t.gap.finite() ==> nearest_to(t.step, t.gap.value() * pow2(149), t.steps.quanta())
}

/// `r` lies `count` steps from the start, rounded.
pub open spec fn steps_away(r: Binary32, start: Binary32, step: Binary32, count: nat) -> bool {
    exists|n: Binary32, part: Binary32|
        #![trigger nearest_to(n, (count * pow2(149)) as int, 1), rounds_to(
            part,
            step.value() * n.value(),
            pow2(149),
        )]
        {
            &&& nearest_to(n, (count * pow2(149)) as int, 1)
            &&& rounds_to(part, step.value() * n.value(), pow2(149))
            &&& part.infinite() ==> r == part
            &&& part.finite() ==> rounds_to(r, start.value() + part.value(), 1)
        }
}

/// A linear blend lies as many steps from its start as superbatches have passed.
proof fn lemma_linear_blend(s: LinearWDL, batch: usize, superbatch: usize, max: usize)
    requires
        superbatch >= 1,
        max >= 1,
        s.start.finite(),
        s.step(max).finite(),
    ensures
        steps_away(
            s.blend_at(batch, superbatch, max),
            s.start,
            s.step(max),
            (superbatch - 1) as nat,
        ),
{
    let count = (superbatch - 1) as nat;
    let n = from_integer(count);
    let part = product(s.step(max), n);
    law_count_is_nearest(count);
    law_arithmetic_rounds_the_exact_result(s.step(max), n);
    law_sum_of_infinities(part, s.start);
    if part.finite() {
        law_arithmetic_rounds_the_exact_result(s.start, part);
    }
    assert(nearest_to(n, (count * pow2(149)) as int, 1));
    assert(rounds_to(part, s.step(max).value() * n.value(), pow2(149)));
}

/// The steps of a linear blend.
proof fn lemma_taper(s: LinearWDL, max: usize) -> (t: Taper)
    requires
        max >= 1,
        s.start.finite(),
        s.end.finite(),
    ensures
        t.gap == difference(s.end, s.start),
        t.gap.finite() ==> t.step.finite(),
        t.step == s.step(max),
        tapers(s, max, t),
{
    let gap = difference(s.end, s.start);
    let count = if max == 1 {
        1nat
    } else {
        (max - 1) as nat
    };
    let steps = from_integer(count);
    let step = quotient(gap, steps);
    law_arithmetic_rounds_the_exact_result(s.end, s.start);
    law_count_is_nearest(count);
    lemma_count(count);
    if gap.finite() {
        lemma_shared_out(gap, count);
        law_quotient_is_nearest(gap, steps);
    }
    Taper { gap, steps, step }
}

/// Where the way is beyond all numbers, so is the blend after the first superbatch.
proof fn lemma_blend_of_an_endless_gap(
    s: LinearWDL,
    batch: usize,
    superbatch: usize,
    max: usize,
)
    requires
        superbatch >= 2,
        max >= 1,
        s.start.finite(),
        difference(s.end, s.start).infinite(),
    ensures
        s.blend_at(batch, superbatch, max) == difference(s.end, s.start),
{
    let gap = difference(s.end, s.start);
    let count = if max == 1 {
        1nat
    } else {
        (max - 1) as nat
    };
    let before = (superbatch - 1) as nat;
    let step = quotient(gap, from_integer(count));
    lemma_count(count);
    lemma_count(before);
    lemma_signed(gap.negative(), INFINITY_BITS as nat);
    assert(step == gap);
    assert(product(step, from_integer(before)) == gap);
    law_sum_of_infinities(gap, s.start);
}

/// The blends of one training go in equal steps: at any two superbatches they lie as many steps
/// from the start as superbatches have passed, and the step is the same at both. It is the way from
/// the start to the end over one fewer than there are superbatches.
pub proof fn law_linear_blends_go_in_equal_steps(
    s: LinearWDL,
    batch: usize,
    other: usize,
    a: usize,
    b: usize,
    max: usize,
) -> (t: Taper)
    requires
        a >= 1,
        b >= 1,
        max >= 1,
        s.start.finite(),
        s.end.finite(),
    ensures
        s.usable(batch, a, max),
        tapers(s, max, t),
        t.gap.finite() ==> {
            &&& steps_away(s.blend_at(batch, a, max), s.start, t.step, (a - 1) as nat)
            &&& steps_away(s.blend_at(other, b, max), s.start, t.step, (b - 1) as nat)
        },
        t.gap.infinite() && a >= 2 ==> s.blend_at(batch, a, max) == t.gap,
{
    let t = lemma_taper(s, max);
    if t.gap.finite() {
        lemma_linear_blend(s, batch, a, max);
        lemma_linear_blend(s, other, b, max);
    } else if a >= 2 {
        lemma_blend_of_an_endless_gap(s, batch, a, max);
    }
    t
}

/// A linear blend depends on nothing but the superbatch and the length of the training.
pub proof fn law_linear_blend_does_not_look_at_the_batch(
    s: LinearWDL,
    batch: usize,
    other: usize,
    superbatch: usize,
    max: usize,
)
    ensures
        s.usable(batch, superbatch, max) <==> superbatch >= 1 && max >= 1,
        s.blend_at(batch, superbatch, max) == s.blend_at(other, superbatch, max),
{
}

/// A warmed-up blend exists where the one inside does and is that one at the same point, over the
/// number of warmup batches that are left, as long as some are.
pub proof fn law_warmed_up_blend_comes_from_the_blend_inside<W: WdlScheduler>(
    s: WarmupWDL<W>,
    batch: usize,
    superbatch: usize,
    max: usize,
) -> (left: Binary32)
    ensures
        s.usable(batch, superbatch, max) == s.inner.usable(batch, superbatch, max),
        s.text() == s.inner.text() + seq![
            Piece::Text(", warmup over "),
            Piece::Count(s.warmup_batches as u64),
            Piece::Text(" batches"),
        ],
        ({
            let inside = s.inner.blend_at(batch, superbatch, max);
            let r = s.blend_at(batch, superbatch, max);
            &&& superbatch != 1 || batch >= s.warmup_batches ==> r == inside
            &&& superbatch == 1 && batch < s.warmup_batches && inside.finite() ==> {
                &&& nearest_to(left, (s.warmup_batches - batch) * pow2(149), 1)
                &&& nearest_to(r, inside.value() * pow2(149), left.quanta())
            }
            &&& inside.nan() ==> r.nan()
            &&& inside.infinite() ==> r == inside
        }),
{
    law_warmup_divides_by_the_batches_left(
        s.inner.blend_at(batch, superbatch, max),
        batch,
        superbatch,
        s.warmup_batches,
    )
}

/// Up to the midpoint a sequence of blends is its first one in a training that ends at the
/// midpoint, and `later` superbatches after it its second one at `later` in a training of the
/// superbatches that follow.
pub proof fn law_sequence_is_one_blend_after_the_other<First: WdlScheduler, Second: WdlScheduler>(
    s: SequenceWDL<First, Second>,
    batch: usize,
    superbatch: usize,
    later: usize,
    length: usize,
    max: usize,
)
    requires
        superbatch <= s.first_scheduler_final_superbatch,
        1 <= later <= usize::MAX - s.first_scheduler_final_superbatch,
        length <= usize::MAX - s.first_scheduler_final_superbatch,
    ensures
        ({
            let midpoint = s.first_scheduler_final_superbatch;
            let at = (midpoint + later) as usize;
            let total = (midpoint + length) as usize;
            &&& s.usable(batch, superbatch, max) == s.first.usable(batch, superbatch, midpoint)
            &&& s.blend_at(batch, superbatch, max) == s.first.blend_at(
                batch,
                superbatch,
                midpoint,
            )
            &&& s.usable(batch, at, total) == s.second.usable(batch, later, length)
            &&& s.blend_at(batch, at, total) == s.second.blend_at(batch, later, length)
            &&& max < midpoint ==> !s.usable(batch, at, max)
        }),
        s.text() == s.first.text() + seq![
            Piece::Text(", then after "),
            Piece::Count(s.first_scheduler_final_superbatch as u64),
            Piece::Text(" superbatches, "),
        ] + s.second.text(),
{
}

} // verus!
