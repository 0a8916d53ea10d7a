//! What holds of the schedules as a whole.

use crate::arithmetic::{difference, from_integer, negation, product, sum};
use crate::binary32::{Binary32, ONE_BITS};
use crate::identities::{
    half, lemma_count, lemma_one, lemma_over_one, lemma_plus_zero, lemma_signed, lemma_times_zero,
    lemma_zero_over, one,
};
use crate::lr_schedule::{
    half_cosine, step_count, warmed_up, way, DropLR, LinearDecayLR, LrScheduler,
    LrSchedulerEnum, MathCall, OneCycleLR, SequenceLR, StepLR, WarmupLR,
};
use crate::wdl_schedule::{LinearWDL, SequenceWDL, WdlScheduler};
use vstd::prelude::*;

verus! {

/// At the start of a linear decay the rate is the initial rate.
pub proof fn law_linear_decay_starts_at_initial(s: LinearDecayLR, batch: usize, math: Binary32)
    requires
        s.final_superbatch > 0,
        s.initial_lr.finite(),
        difference(s.final_lr, s.initial_lr).finite(),
    ensures
        s.rate_at(batch, 0, math).finite(),
        s.rate_at(batch, 0, math).value() == s.initial_lr.value(),
{
    lemma_one();
    lemma_count(s.final_superbatch as nat);
    let lambda = way(0, s.final_superbatch);
    lemma_zero_over(from_integer(s.final_superbatch as nat));
    let gap = difference(s.final_lr, s.initial_lr);
    lemma_times_zero(lambda, gap);
    lemma_plus_zero(s.initial_lr, product(lambda, gap));
}

/// In the first superbatch a linear blend is its start.
pub proof fn law_linear_blend_begins_at_start(s: LinearWDL, batch: usize, max: usize)
    requires
        max >= 1,
        s.start.finite(),
        s.step(max).finite(),
    ensures
        s.blend_at(batch, 1, max).finite(),
        s.blend_at(batch, 1, max).value() == s.start.value(),
{
    lemma_one();
    lemma_times_zero(s.step(max), Binary32 { bits: 0 });
    lemma_plus_zero(s.start, product(s.step(max), Binary32 { bits: 0 }));
}

/// Where the cosine is minus one, half a cosine has arrived at its end.
pub proof fn law_half_cosine_arrives(start: Binary32, end: Binary32)
    requires
        end.finite(),
        product(half(), difference(start, end)).finite(),
    ensures
        half_cosine(start, end, negation(one())).finite(),
        half_cosine(start, end, negation(one())).value() == end.value(),
{
    lemma_one();
    lemma_signed(true, ONE_BITS as nat);
    let none = sum(one(), negation(one()));
    lemma_signed(false, 0);
    assert(none.zero());
    let scaled = product(half(), difference(start, end));
    lemma_times_zero(scaled, none);
    lemma_plus_zero(end, product(scaled, none));
}

/// Where a one-cycle schedule turns and the cosine there is minus one, its rate is the highest.
pub proof fn law_one_cycle_turns_at_the_maximum(s: OneCycleLR, batch: usize)
    requires
        s.max_lr.finite(),
        product(half(), difference(s.initial_lr, s.max_lr)).finite(),
    ensures
        s.rate_at(batch, s.warmup_superbatch, negation(one())).finite(),
        s.rate_at(batch, s.warmup_superbatch, negation(one())).value() == s.max_lr.value(),
{
    law_half_cosine_arrives(s.initial_lr, s.max_lr);
}

/// In the last batch of a warmup the rate is the plain one.
pub proof fn law_warmup_ends_at_the_plain_rate(base: Binary32, warmup_batches: usize)
    requires
        warmup_batches >= 1,
        !base.nan(),
    ensures
        warmed_up(base, (warmup_batches - 1) as usize, 1, warmup_batches) == base,
{
    lemma_one();
    lemma_over_one(base);
}

/// A warmup touches nothing but the first batches of the first superbatch.
pub proof fn law_warmup_is_only_at_the_start(
    base: Binary32,
    batch: usize,
    superbatch: usize,
    warmup_batches: usize,
)
    requires
        superbatch != 1 || batch >= warmup_batches,
    ensures
        warmed_up(base, batch, superbatch, warmup_batches) == base,
{
}

/// A warmup keeps the horizon and the elementary function of the schedule that it wraps.
pub proof fn law_warmup_keeps_the_horizon<LR: LrScheduler>(
    s: WarmupLR<LR>,
    batch: usize,
    superbatch: usize,
)
    ensures
        s.terminal() == s.inner.terminal(),
        s.call_at(batch, superbatch) == s.inner.call_at(batch, superbatch),
{
}

/// A warmup that is chosen at run time is the warmup of the chosen schedule.
pub proof fn law_chosen_warmup_is_a_warmup(
    s: WarmupLR<LrSchedulerEnum>,
    batch: usize,
    superbatch: usize,
    math: Binary32,
)
    ensures
        ({
            let chosen = LrSchedulerEnum::Warmup(Box::new(s));
            &&& chosen.usable(batch, superbatch) == s.usable(batch, superbatch)
            &&& chosen.call_at(batch, superbatch) == s.call_at(batch, superbatch)
            &&& chosen.rate_at(batch, superbatch, math) == s.rate_at(batch, superbatch, math)
            &&& chosen.terminal() == s.terminal()
            &&& chosen.text() == s.text()
        }),
{
}

impl LrSchedulerEnum {
    /// A warmup scales the rate down at this point.
    pub open spec fn warming(&self, batch: usize, superbatch: usize) -> bool
        decreases self,
    {
        match self {
            LrSchedulerEnum::Warmup(s) => {
                ||| superbatch == 1 && batch < s.warmup_batches
                ||| s.inner.warming(batch, superbatch)
            },
            _ => false,
        }
    }

    /// A one-cycle schedule is still on the way up to its turning point.
    pub open spec fn rising(&self, superbatch: usize) -> bool
        decreases self,
    {
        match self {
            LrSchedulerEnum::OneCycle(s) => superbatch <= s.warmup_superbatch,
            LrSchedulerEnum::Warmup(s) => s.inner.rising(superbatch),
            _ => false,
        }
    }

    /// The rate that the curve arrives at.
    pub open spec fn final_rate(&self) -> Option<Binary32>
        decreases self,
    {
        match self {
            LrSchedulerEnum::LinearDecay(s) => Some(s.final_lr),
            LrSchedulerEnum::CosineDecay(s) => Some(s.final_lr),
            LrSchedulerEnum::ExponentialDecay(s) => Some(s.final_lr),
            LrSchedulerEnum::OneCycle(s) => Some(s.final_lr),
            LrSchedulerEnum::Warmup(s) => s.inner.final_rate(),
            _ => None,
        }
    }
}

/// The horizon is where the curve reaches its final rate: from there on the rate is that one and
/// needs no elementary function. A one-cycle schedule that turns at its end or later is still
/// rising there. The schedules without a horizon have no final rate.
pub proof fn law_rate_is_final_from_the_horizon(
    s: LrSchedulerEnum,
    batch: usize,
    superbatch: usize,
    math: Binary32,
)
    requires
        !s.rising(superbatch),
        !s.warming(batch, superbatch),
    ensures
        s.terminal() is Some <==> s.final_rate() is Some,
        s.terminal() is Some && superbatch >= s.terminal()->0 ==> {
            &&& s.call_at(batch, superbatch) == MathCall::Nothing
            &&& s.rate_at(batch, superbatch, math) == s.final_rate()->0
        },
    decreases s,
{
    match s {
        LrSchedulerEnum::Warmup(w) => {
            law_rate_is_final_from_the_horizon(w.inner, batch, superbatch, math);
        },
        _ => {},
    }
}

/// Only a warmup looks at the batch.
pub proof fn law_only_a_warmup_looks_at_the_batch(
    s: LrSchedulerEnum,
    a: usize,
    b: usize,
    superbatch: usize,
    math: Binary32,
)
    requires
        !s.warming(a, superbatch),
        !s.warming(b, superbatch),
    ensures
        s.call_at(a, superbatch) == s.call_at(b, superbatch),
        s.rate_at(a, superbatch, math) == s.rate_at(b, superbatch, math),
    decreases s,
{
    match s {
        LrSchedulerEnum::Warmup(w) => {
            law_only_a_warmup_looks_at_the_batch(w.inner, a, b, superbatch, math);
        },
        _ => {},
    }
}

/// Where no elementary function is needed, what is handed in for it does not matter.
pub proof fn law_unneeded_value_does_not_matter(
    s: LrSchedulerEnum,
    batch: usize,
    superbatch: usize,
    x: Binary32,
    y: Binary32,
)
    requires
        s.call_at(batch, superbatch) == MathCall::Nothing,
    ensures
        s.rate_at(batch, superbatch, x) == s.rate_at(batch, superbatch, y),
    decreases s,
{
    match s {
        LrSchedulerEnum::Warmup(w) => {
            law_unneeded_value_does_not_matter(w.inner, batch, superbatch, x, y);
        },
        _ => {},
    }
}

/// A drop happens once: two superbatches on the same side of it have the same rate.
pub proof fn law_drop_happens_once(s: DropLR, batch: usize, a: usize, b: usize, math: Binary32)
    requires
        a <= s.drop <==> b <= s.drop,
    ensures
        s.rate_at(batch, a, math) == s.rate_at(batch, b, math),
{
}

/// In the superbatches `k * step + 1` to `(k + 1) * step` the factor is applied `k` times.
pub proof fn law_steps_are_even(s: StepLR, k: nat, j: nat, superbatch: usize)
    requires
        s.step > 0,
        1 <= j <= s.step,
        superbatch == k * s.step + j,
    ensures
        step_count(superbatch, s.step) == k,
{
    let before = superbatch - 1;
    assert(before == k * s.step + (j - 1));
    vstd::arithmetic::div_mod::lemma_fundamental_div_mod_converse(
        before,
        s.step as int,
        k as int,
        j - 1,
    );
}

/// The second of two schedules starts with its own first superbatch.
pub proof fn law_second_schedule_starts_anew<First: LrScheduler, Second: LrScheduler>(
    s: SequenceLR<First, Second>,
    batch: usize,
    superbatch: usize,
    later: usize,
    math: Binary32,
)
    requires
        superbatch <= s.first_scheduler_final_superbatch,
        1 <= later <= usize::MAX - s.first_scheduler_final_superbatch,
    ensures
        s.rate_at(batch, superbatch, math) == s.first.rate_at(batch, superbatch, math),
        s.rate_at(batch, (s.first_scheduler_final_superbatch + later) as usize, math)
            == s.second.rate_at(batch, later, math),
{
}

/// The second of two blends starts with its own first superbatch, and both span the training.
pub proof fn law_second_blend_starts_anew<First: WdlScheduler, Second: WdlScheduler>(
    s: SequenceWDL<First, Second>,
    batch: usize,
    superbatch: usize,
    later: usize,
    length: usize,
)
    requires
        superbatch <= s.first_scheduler_final_superbatch,
        1 <= later <= usize::MAX - s.first_scheduler_final_superbatch,
        length <= usize::MAX - s.first_scheduler_final_superbatch,
    ensures
        ({
            let midpoint = s.first_scheduler_final_superbatch;
            let max = (midpoint + length) as usize;
            &&& s.blend_at(batch, superbatch, max) == s.first.blend_at(
                batch,
                superbatch,
                midpoint,
            )
            &&& s.blend_at(batch, (midpoint + later) as usize, max) == s.second.blend_at(
                batch,
                later,
                length,
            )
        }),
{
}

} // verus!
