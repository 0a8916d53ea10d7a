//! Learning-rate schedules.
//!
//! A schedule gives the learning rate for a batch of a superbatch. Where its curve needs a cosine
//! or a power, [`LrScheduler::math_call`] says of which numbers, the caller evaluates it, and
//! [`LrScheduler::lr`] takes the result.

use crate::arithmetic::{difference, from_integer, product, quotient, sum};
use crate::binary32::{Binary32, HALF_BITS, ONE_BITS, PI_BITS};
use crate::identities::{half, one};
use crate::integers::{clamped, rounded, whole_usize};
use crate::text::Piece;
use vstd::prelude::*;

verus! {

/// The elementary function that a rate rests on.
#[derive(Clone, Copy, Debug)]
pub enum MathCall {
    /// The rate needs none.
    Nothing,
    /// The cosine of `x`.
    Cos { x: Binary32 },
    /// `base` raised to the power of a number.
    Powf { base: Binary32, exponent: Binary32 },
    /// `base` raised to an integral power.
    Powi { base: Binary32, power: i32 },
}

/// The number nearest to pi.
pub open spec fn pi() -> Binary32 {
    Binary32 { bits: PI_BITS }
}

/// A learning-rate schedule.
pub trait LrScheduler: Clone + Send + Sync + 'static {
    /// The schedule has a rate at this point.
    spec fn usable(&self, batch: usize, superbatch: usize) -> bool;

    /// The elementary function that the rate at this point rests on.
    spec fn call_at(&self, batch: usize, superbatch: usize) -> MathCall;

    /// The rate at this point, given the value of that function.
    spec fn rate_at(&self, batch: usize, superbatch: usize, math: Binary32) -> Binary32;

    /// The superbatch at which the curve reaches its final value.
    spec fn terminal(&self) -> Option<usize>;

    /// The description of the schedule.
    spec fn text(&self) -> Seq<Piece>;

    /// The elementary function that the rate for this batch and superbatch rests on.
    fn math_call(&self, batch: usize, superbatch: usize) -> (r: MathCall)
        requires
            self.usable(batch, superbatch),
        ensures
            r == self.call_at(batch, superbatch),
    ;

    /// The learning rate for this batch and superbatch; `math` is the value of
    /// [`LrScheduler::math_call`] there, and does not matter where that is nothing.
    fn lr(&self, batch: usize, superbatch: usize, math: Binary32) -> (r: Binary32)
        requires
            self.usable(batch, superbatch),
        ensures
            r == self.rate_at(batch, superbatch, math),
    ;

    /// The superbatch at which the curve reaches its final value, for schedules that have one.
    fn horizon(&self) -> (r: Option<usize>)
        ensures
            r == self.terminal(),
    ;

    /// The description of the schedule.
    fn describe(&self) -> (r: Vec<Piece>)
        ensures
            r@ == self.text(),
    ;
}

/// A constant learning rate.
#[derive(Clone, Copy, Debug)]
pub struct ConstantLR {
    pub value: Binary32,
}

impl LrScheduler for ConstantLR {
    open spec fn usable(&self, batch: usize, superbatch: usize) -> bool {
        true
    }

    open spec fn call_at(&self, batch: usize, superbatch: usize) -> MathCall {
        MathCall::Nothing
    }

    open spec fn rate_at(&self, batch: usize, superbatch: usize, math: Binary32) -> Binary32 {
        self.value
    }

    open spec fn terminal(&self) -> Option<usize> {
        None
    }

    open spec fn text(&self) -> Seq<Piece> {
        seq![Piece::Text("constant "), Piece::Number(self.value)]
    }

    fn math_call(&self, batch: usize, superbatch: usize) -> (r: MathCall) {
        MathCall::Nothing
    }

    fn lr(&self, batch: usize, superbatch: usize, math: Binary32) -> (r: Binary32) {
        self.value
    }

    fn horizon(&self) -> (r: Option<usize>) {
        None
    }

    fn describe(&self) -> (r: Vec<Piece>) {
        let r = vec![Piece::Text("constant "), Piece::Number(self.value)];
        assert(r@ =~= self.text());
        r
    }
}

/// A rate that is multiplied by `gamma` once, after superbatch `drop`.
#[derive(Clone, Copy, Debug)]
pub struct DropLR {
    pub start: Binary32,
    pub gamma: Binary32,
    pub drop: usize,
}

impl LrScheduler for DropLR {
    open spec fn usable(&self, batch: usize, superbatch: usize) -> bool {
        true
    }

    open spec fn call_at(&self, batch: usize, superbatch: usize) -> MathCall {
        MathCall::Nothing
    }

    open spec fn rate_at(&self, batch: usize, superbatch: usize, math: Binary32) -> Binary32 {
        if superbatch > self.drop {
            product(self.start, self.gamma)
        } else {
            self.start
        }
    }

    open spec fn terminal(&self) -> Option<usize> {
        None
    }

    open spec fn text(&self) -> Seq<Piece> {
        seq![
            Piece::Text("start "),
            Piece::Number(self.start),
            Piece::Text(" gamma "),
            Piece::Number(self.gamma),
            Piece::Text(" drop at "),
            Piece::Count(self.drop as u64),
            Piece::Text(" superbatches"),
        ]
    }

    fn math_call(&self, batch: usize, superbatch: usize) -> (r: MathCall) {
        MathCall::Nothing
    }

    fn lr(&self, batch: usize, superbatch: usize, math: Binary32) -> (r: Binary32) {
        if superbatch > self.drop {
            self.start.times(self.gamma)
        } else {
            self.start
        }
    }

    fn horizon(&self) -> (r: Option<usize>) {
        None
    }

    fn describe(&self) -> (r: Vec<Piece>) {
        let r = vec![
            Piece::Text("start "),
            Piece::Number(self.start),
            Piece::Text(" gamma "),
            Piece::Number(self.gamma),
            Piece::Text(" drop at "),
            Piece::Count(self.drop as u64),
            Piece::Text(" superbatches"),
        ];
        assert(r@ =~= self.text());
        r
    }
}

/// How many full steps have passed before a superbatch; superbatches count from one.
pub open spec fn step_count(superbatch: usize, step: usize) -> usize {
    (if superbatch == 0 {
        0usize
    } else {
        (superbatch - 1) as usize
    }) / step
}

/// A rate that is multiplied by `gamma` every `step` superbatches.
#[derive(Clone, Copy, Debug)]
pub struct StepLR {
    pub start: Binary32,
    pub gamma: Binary32,
    pub step: usize,
}

impl LrScheduler for StepLR {
    open spec fn usable(&self, batch: usize, superbatch: usize) -> bool {
        self.step > 0
    }

    open spec fn call_at(&self, batch: usize, superbatch: usize) -> MathCall {
        MathCall::Powi {
            base: self.gamma,
            power: step_count(superbatch, self.step) as i32,
        }
    }

    open spec fn rate_at(&self, batch: usize, superbatch: usize, math: Binary32) -> Binary32 {
        product(self.start, math)
    }

    open spec fn terminal(&self) -> Option<usize> {
        None
    }

    open spec fn text(&self) -> Seq<Piece> {
        seq![
            Piece::Text("start "),
            Piece::Number(self.start),
            Piece::Text(" gamma "),
            Piece::Number(self.gamma),
            Piece::Text(" drop every "),
            Piece::Count(self.step as u64),
            Piece::Text(" superbatches"),
        ]
    }

    fn math_call(&self, batch: usize, superbatch: usize) -> (r: MathCall) {
        let before: usize = if superbatch == 0 {
            0
        } else {
            superbatch - 1
        };
        let steps: usize = before / self.step;
        MathCall::Powi { base: self.gamma, power: steps as i32 }
    }

    fn lr(&self, batch: usize, superbatch: usize, math: Binary32) -> (r: Binary32) {
        self.start.times(math)
    }

    fn horizon(&self) -> (r: Option<usize>) {
        None
    }

    fn describe(&self) -> (r: Vec<Piece>) {
        let r = vec![
            Piece::Text("start "),
            Piece::Number(self.start),
            Piece::Text(" gamma "),
            Piece::Number(self.gamma),
            Piece::Text(" drop every "),
            Piece::Count(self.step as u64),
            Piece::Text(" superbatches"),
        ];
        assert(r@ =~= self.text());
        r
    }
}

/// How far a superbatch is on the way to the superbatch `end`.
pub open spec fn way(superbatch: usize, end: usize) -> Binary32 {
    quotient(from_integer(superbatch as nat), from_integer(end as nat))
}

/// How far a superbatch is on the way to the superbatch `end`.
fn way_to(superbatch: usize, end: usize) -> (r: Binary32)
    ensures
        r == way(superbatch, end),
{
    Binary32::from_count(superbatch as u64).over(Binary32::from_count(end as u64))
}

/// The number at the share `lambda` of the way from `start` to `end`.
pub open spec fn blended(start: Binary32, end: Binary32, lambda: Binary32) -> Binary32 {
    sum(start, product(lambda, difference(end, start)))
}

/// The number at the share `lambda` of the way from `start` to `end`.
fn blend_between(start: Binary32, end: Binary32, lambda: Binary32) -> (r: Binary32)
    ensures
        r == blended(start, end, lambda),
{
    start.plus(lambda.times(end.minus(start)))
}

/// A rate that falls in a straight line from `initial_lr` to `final_lr` at `final_superbatch`.
#[derive(Clone, Copy, Debug)]
pub struct LinearDecayLR {
    pub initial_lr: Binary32,
    pub final_lr: Binary32,
    pub final_superbatch: usize,
}

impl LrScheduler for LinearDecayLR {
    open spec fn usable(&self, batch: usize, superbatch: usize) -> bool {
        true
    }

    open spec fn call_at(&self, batch: usize, superbatch: usize) -> MathCall {
        MathCall::Nothing
    }

    open spec fn rate_at(&self, batch: usize, superbatch: usize, math: Binary32) -> Binary32 {
        if superbatch >= self.final_superbatch {
            self.final_lr
        } else {
            blended(self.initial_lr, self.final_lr, way(superbatch, self.final_superbatch))
        }
    }

    open spec fn terminal(&self) -> Option<usize> {
        Some(self.final_superbatch)
    }

    open spec fn text(&self) -> Seq<Piece> {
        seq![
            Piece::Text("start at "),
            Piece::Number(self.initial_lr),
            Piece::Text(" and linearly decay to "),
            Piece::Number(self.final_lr),
            Piece::Text(" at superbatch "),
            Piece::Count(self.final_superbatch as u64),
        ]
    }

    fn math_call(&self, batch: usize, superbatch: usize) -> (r: MathCall) {
        MathCall::Nothing
    }

    fn lr(&self, batch: usize, superbatch: usize, math: Binary32) -> (r: Binary32) {
        if superbatch >= self.final_superbatch {
            self.final_lr
        } else {
            blend_between(
                self.initial_lr,
                self.final_lr,
                way_to(superbatch, self.final_superbatch),
            )
        }
    }

    fn horizon(&self) -> (r: Option<usize>) {
        Some(self.final_superbatch)
    }

    fn describe(&self) -> (r: Vec<Piece>) {
        let r = vec![
            Piece::Text("start at "),
            Piece::Number(self.initial_lr),
            Piece::Text(" and linearly decay to "),
            Piece::Number(self.final_lr),
            Piece::Text(" at superbatch "),
            Piece::Count(self.final_superbatch as u64),
        ];
        assert(r@ =~= self.text());
        r
    }
}

/// A rate that falls along half a cosine from `initial_lr` to `final_lr` at `final_superbatch`.
#[derive(Clone, Copy, Debug)]
pub struct CosineDecayLR {
    pub initial_lr: Binary32,
    pub final_lr: Binary32,
    pub final_superbatch: usize,
}

impl LrScheduler for CosineDecayLR {
    open spec fn usable(&self, batch: usize, superbatch: usize) -> bool {
        true
    }

    open spec fn call_at(&self, batch: usize, superbatch: usize) -> MathCall {
        if superbatch >= self.final_superbatch {
            MathCall::Nothing
        } else {
            MathCall::Cos { x: product(pi(), way(superbatch, self.final_superbatch)) }
        }
    }

    open spec fn rate_at(&self, batch: usize, superbatch: usize, math: Binary32) -> Binary32 {
        if superbatch >= self.final_superbatch {
            self.final_lr
        } else {
            blended(
                self.initial_lr,
                self.final_lr,
                difference(one(), product(half(), sum(one(), math))),
            )
        }
    }

    open spec fn terminal(&self) -> Option<usize> {
        Some(self.final_superbatch)
    }

    open spec fn text(&self) -> Seq<Piece> {
        seq![
            Piece::Text("start at "),
            Piece::Number(self.initial_lr),
            Piece::Text(" and cosine decay to "),
            Piece::Number(self.final_lr),
            Piece::Text(" at superbatch "),
            Piece::Count(self.final_superbatch as u64),
        ]
    }

    fn math_call(&self, batch: usize, superbatch: usize) -> (r: MathCall) {
        if superbatch >= self.final_superbatch {
            MathCall::Nothing
        } else {
            let pi: Binary32 = Binary32 { bits: PI_BITS };
            MathCall::Cos { x: pi.times(way_to(superbatch, self.final_superbatch)) }
        }
    }

    fn lr(&self, batch: usize, superbatch: usize, math: Binary32) -> (r: Binary32) {
        if superbatch >= self.final_superbatch {
            self.final_lr
        } else {
            let one: Binary32 = Binary32 { bits: ONE_BITS };
            let half: Binary32 = Binary32 { bits: HALF_BITS };
            blend_between(self.initial_lr, self.final_lr, one.minus(half.times(one.plus(math))))
        }
    }

    fn horizon(&self) -> (r: Option<usize>) {
        Some(self.final_superbatch)
    }

    fn describe(&self) -> (r: Vec<Piece>) {
        let r = vec![
            Piece::Text("start at "),
            Piece::Number(self.initial_lr),
            Piece::Text(" and cosine decay to "),
            Piece::Number(self.final_lr),
            Piece::Text(" at superbatch "),
            Piece::Count(self.final_superbatch as u64),
        ];
        assert(r@ =~= self.text());
        r
    }
}

/// A rate that falls by a constant factor per superbatch from `initial_lr` to `final_lr` at
/// `final_superbatch`.
#[derive(Clone, Copy, Debug)]
pub struct ExponentialDecayLR {
    pub initial_lr: Binary32,
    pub final_lr: Binary32,
    pub final_superbatch: usize,
}

impl LrScheduler for ExponentialDecayLR {
    open spec fn usable(&self, batch: usize, superbatch: usize) -> bool {
        true
    }

    open spec fn call_at(&self, batch: usize, superbatch: usize) -> MathCall {
        if superbatch >= self.final_superbatch {
            MathCall::Nothing
        } else {
            MathCall::Powf {
                base: quotient(self.final_lr, self.initial_lr),
                exponent: way(superbatch, self.final_superbatch),
            }
        }
    }

    open spec fn rate_at(&self, batch: usize, superbatch: usize, math: Binary32) -> Binary32 {
        if superbatch >= self.final_superbatch {
            self.final_lr
        } else {
            product(self.initial_lr, math)
        }
    }

    open spec fn terminal(&self) -> Option<usize> {
        Some(self.final_superbatch)
    }

    open spec fn text(&self) -> Seq<Piece> {
        seq![
            Piece::Text("start at "),
            Piece::Number(self.initial_lr),
            Piece::Text(" and exponentially decay to "),
            Piece::Number(self.final_lr),
            Piece::Text(" at superbatch "),
            Piece::Count(self.final_superbatch as u64),
        ]
    }

    fn math_call(&self, batch: usize, superbatch: usize) -> (r: MathCall) {
        if superbatch >= self.final_superbatch {
            MathCall::Nothing
        } else {
            MathCall::Powf {
                base: self.final_lr.over(self.initial_lr),
                exponent: way_to(superbatch, self.final_superbatch),
            }
        }
    }

    fn lr(&self, batch: usize, superbatch: usize, math: Binary32) -> (r: Binary32) {
        if superbatch >= self.final_superbatch {
            self.final_lr
        } else {
            self.initial_lr.times(math)
        }
    }

    fn horizon(&self) -> (r: Option<usize>) {
        Some(self.final_superbatch)
    }

    fn describe(&self) -> (r: Vec<Piece>) {
        let r = vec![
            Piece::Text("start at "),
            Piece::Number(self.initial_lr),
            Piece::Text(" and exponentially decay to "),
            Piece::Number(self.final_lr),
            Piece::Text(" at superbatch "),
            Piece::Count(self.final_superbatch as u64),
        ];
        assert(r@ =~= self.text());
        r
    }
}

/// The number on half a cosine from `start` to `end`, where `cosine` is the cosine of pi times the
/// share of the way.
pub open spec fn half_cosine(start: Binary32, end: Binary32, cosine: Binary32) -> Binary32 {
    sum(end, product(product(half(), difference(start, end)), sum(one(), cosine)))
}

/// The number on half a cosine from `start` to `end`, where `cosine` is the cosine of pi times the
/// share of the way.
pub fn cosine_interp(start: Binary32, end: Binary32, cosine: Binary32) -> (r: Binary32)
    ensures
        r == half_cosine(start, end, cosine),
{
    let one: Binary32 = Binary32 { bits: ONE_BITS };
    let half: Binary32 = Binary32 { bits: HALF_BITS };
    end.plus(half.times(start.minus(end)).times(one.plus(cosine)))
}

/// The larger of `n` and one.
pub open spec fn at_least_one(n: usize) -> usize {
    if n == 0 {
        1
    } else {
        n
    }
}

/// A rate that rises along half a cosine from `initial_lr` to `max_lr` at `warmup_superbatch`, and
/// then falls along half a cosine to `final_lr` at `total_superbatch`.
#[derive(Clone, Copy, Debug)]
pub struct OneCycleLR {
    pub initial_lr: Binary32,
    pub max_lr: Binary32,
    pub final_lr: Binary32,
    pub warmup_superbatch: usize,
    pub total_superbatch: usize,
}

impl LrScheduler for OneCycleLR {
    open spec fn usable(&self, batch: usize, superbatch: usize) -> bool {
        true
    }

    open spec fn call_at(&self, batch: usize, superbatch: usize) -> MathCall {
        if superbatch <= self.warmup_superbatch {
            let p = way(superbatch, at_least_one(self.warmup_superbatch));
            MathCall::Cos { x: product(pi(), p) }
        } else if superbatch >= self.total_superbatch {
            MathCall::Nothing
        } else {
            let p = way(
                (superbatch - self.warmup_superbatch) as usize,
                (self.total_superbatch - self.warmup_superbatch) as usize,
            );
            MathCall::Cos { x: product(pi(), p) }
        }
    }

    open spec fn rate_at(&self, batch: usize, superbatch: usize, math: Binary32) -> Binary32 {
        if superbatch <= self.warmup_superbatch {
            half_cosine(self.initial_lr, self.max_lr, math)
        } else if superbatch >= self.total_superbatch {
            self.final_lr
        } else {
            half_cosine(self.max_lr, self.final_lr, math)
        }
    }

    open spec fn terminal(&self) -> Option<usize> {
        Some(self.total_superbatch)
    }

    open spec fn text(&self) -> Seq<Piece> {
        seq![
            Piece::Text("one-cycle "),
            Piece::Number(self.initial_lr),
            Piece::Text(" → max "),
            Piece::Number(self.max_lr),
            Piece::Text(" (warmup to superbatch "),
            Piece::Count(self.warmup_superbatch as u64),
            Piece::Text(") → cosine anneal to "),
            Piece::Number(self.final_lr),
            Piece::Text(" at superbatch "),
            Piece::Count(self.total_superbatch as u64),
        ]
    }

    fn math_call(&self, batch: usize, superbatch: usize) -> (r: MathCall) {
        let pi: Binary32 = Binary32 { bits: PI_BITS };
        if superbatch <= self.warmup_superbatch {
            let denom: usize = if self.warmup_superbatch == 0 {
                1
            } else {
                self.warmup_superbatch
            };
            MathCall::Cos { x: pi.times(way_to(superbatch, denom)) }
        } else if superbatch >= self.total_superbatch {
            MathCall::Nothing
        } else {
            let p: Binary32 = way_to(
                superbatch - self.warmup_superbatch,
                self.total_superbatch - self.warmup_superbatch,
            );
            MathCall::Cos { x: pi.times(p) }
        }
    }

    fn lr(&self, batch: usize, superbatch: usize, math: Binary32) -> (r: Binary32) {
        if superbatch <= self.warmup_superbatch {
            cosine_interp(self.initial_lr, self.max_lr, math)
        } else if superbatch >= self.total_superbatch {
            self.final_lr
        } else {
            cosine_interp(self.max_lr, self.final_lr, math)
        }
    }

    fn horizon(&self) -> (r: Option<usize>) {
        Some(self.total_superbatch)
    }

    fn describe(&self) -> (r: Vec<Piece>) {
        let r = vec![
            Piece::Text("one-cycle "),
            Piece::Number(self.initial_lr),
            Piece::Text(" → max "),
            Piece::Number(self.max_lr),
            Piece::Text(" (warmup to superbatch "),
            Piece::Count(self.warmup_superbatch as u64),
            Piece::Text(") → cosine anneal to "),
            Piece::Number(self.final_lr),
            Piece::Text(" at superbatch "),
            Piece::Count(self.total_superbatch as u64),
        ];
        assert(r@ =~= self.text());
        r
    }
}

/// The one-cycle schedule that starts at `max_lr / div_factor`, ends at the `final_div_factor`-th
/// part of that, and turns after the share `warmup_pct` of `total_superbatch`.
pub open spec fn cycle_from(
    max_lr: Binary32,
    warmup_pct: Binary32,
    div_factor: Binary32,
    final_div_factor: Binary32,
    total_superbatch: usize,
) -> OneCycleLR {
    let initial_lr = quotient(max_lr, div_factor);
    let total = from_integer(total_superbatch as nat);
    let turn = clamped(rounded(product(warmup_pct, total)), Binary32 { bits: 0 }, total);
    OneCycleLR {
        initial_lr,
        max_lr,
        final_lr: quotient(initial_lr, final_div_factor),
        warmup_superbatch: whole_usize(turn) as usize,
        total_superbatch,
    }
}

impl OneCycleLR {
    /// Derives the schedule from its highest rate: it starts at `max_lr / div_factor`, ends at the
    /// `final_div_factor`-th part of that, and turns after the share `warmup_pct` of
    /// `total_superbatch`, rounded to a superbatch.
    pub fn new(
        max_lr: Binary32,
        warmup_pct: Binary32,
        div_factor: Binary32,
        final_div_factor: Binary32,
        total_superbatch: usize,
    ) -> (r: OneCycleLR)
        ensures
            r.initial_lr == quotient(max_lr, div_factor),
            r.max_lr == max_lr,
            r.final_lr == quotient(quotient(max_lr, div_factor), final_div_factor),
            r.warmup_superbatch == whole_usize(
                clamped(
                    rounded(product(warmup_pct, from_integer(total_superbatch as nat))),
                    Binary32 { bits: 0 },
                    from_integer(total_superbatch as nat),
                ),
            ),
            r.total_superbatch == total_superbatch,
            r == cycle_from(max_lr, warmup_pct, div_factor, final_div_factor, total_superbatch),
    {
        let initial_lr: Binary32 = max_lr.over(div_factor);
        let final_lr: Binary32 = initial_lr.over(final_div_factor);
        let total: Binary32 = Binary32::from_count(total_superbatch as u64);
        let warmup_superbatch: usize = warmup_pct.times(total).round().clamp(
            Binary32 { bits: 0 },
            total,
        ).to_usize();
        OneCycleLR { initial_lr, max_lr, final_lr, warmup_superbatch, total_superbatch }
    }
}

/// A rate or a blend with a warmup: in the first `warmup_batches` batches of the first superbatch
/// it is divided by the number of these batches that are left, and otherwise it is `base`.
pub open spec fn warmed_up(
    base: Binary32,
    batch: usize,
    superbatch: usize,
    warmup_batches: usize,
) -> Binary32 {
    if superbatch == 1 && batch < warmup_batches {
        quotient(base, from_integer((warmup_batches - batch) as nat))
    } else {
        base
    }
}

/// Scales a rate or a blend down during the first batches of the first superbatch.
pub fn warm_up(base: Binary32, batch: usize, superbatch: usize, warmup_batches: usize) -> (r:
    Binary32)
    ensures
        r == warmed_up(base, batch, superbatch, warmup_batches),
{
    if superbatch == 1 && batch < warmup_batches {
        base.over(Binary32::from_count((warmup_batches - batch) as u64))
    } else {
        base
    }
}

/// What a description says after that of the schedule which is warmed up.
pub open spec fn warmup_text(warmup_batches: usize) -> Seq<Piece> {
    seq![
        Piece::Text(", warmup over "),
        Piece::Count(warmup_batches as u64),
        Piece::Text(" batches"),
    ]
}

/// Adds to a description that the schedule is warmed up.
pub(crate) fn push_warmup_text(out: &mut Vec<Piece>, warmup_batches: usize)
    ensures
        final(out)@ == old(out)@ + warmup_text(warmup_batches),
{
    out.push(Piece::Text(", warmup over "));
    out.push(Piece::Count(warmup_batches as u64));
    out.push(Piece::Text(" batches"));
    assert(out@ =~= old(out)@ + warmup_text(warmup_batches));
}

/// A schedule whose rate is scaled down in the first `warmup_batches` batches of the first
/// superbatch.
#[derive(Clone, Debug)]
pub struct WarmupLR<LR> {
    pub inner: LR,
    pub warmup_batches: usize,
}

impl<LR: LrScheduler> LrScheduler for WarmupLR<LR> {
    open spec fn usable(&self, batch: usize, superbatch: usize) -> bool {
        self.inner.usable(batch, superbatch)
    }

    open spec fn call_at(&self, batch: usize, superbatch: usize) -> MathCall {
        self.inner.call_at(batch, superbatch)
    }

    open spec fn rate_at(&self, batch: usize, superbatch: usize, math: Binary32) -> Binary32 {
        warmed_up(
            self.inner.rate_at(batch, superbatch, math),
            batch,
            superbatch,
            self.warmup_batches,
        )
    }

    open spec fn terminal(&self) -> Option<usize> {
        self.inner.terminal()
    }

    open spec fn text(&self) -> Seq<Piece> {
        self.inner.text() + warmup_text(self.warmup_batches)
    }

    fn math_call(&self, batch: usize, superbatch: usize) -> (r: MathCall) {
        self.inner.math_call(batch, superbatch)
    }

    fn lr(&self, batch: usize, superbatch: usize, math: Binary32) -> (r: Binary32) {
        warm_up(self.inner.lr(batch, superbatch, math), batch, superbatch, self.warmup_batches)
    }

    fn horizon(&self) -> (r: Option<usize>) {
        self.inner.horizon()
    }

    fn describe(&self) -> (r: Vec<Piece>) {
        let mut r = self.inner.describe();
        push_warmup_text(&mut r, self.warmup_batches);
        r
    }
}

/// What a description says between those of two schedules that follow one another.
pub open spec fn sequence_text(superbatches: usize) -> Seq<Piece> {
    seq![
        Piece::Text(", then after "),
        Piece::Count(superbatches as u64),
        Piece::Text(" superbatches, "),
    ]
}

/// Joins the descriptions of two schedules that follow one another.
pub(crate) fn join_texts(first: Vec<Piece>, superbatches: usize, second: Vec<Piece>) -> (r: Vec<
    Piece,
>)
    ensures
        r@ == first@ + sequence_text(superbatches) + second@,
{
    let mut r = first;
    let mut rest = second;
    r.push(Piece::Text(", then after "));
    r.push(Piece::Count(superbatches as u64));
    r.push(Piece::Text(" superbatches, "));
    r.append(&mut rest);
    assert(r@ =~= first@ + sequence_text(superbatches) + second@);
    r
}

/// The schedule `first` up to `first_scheduler_final_superbatch`, and `second` from there, which
/// then counts its superbatches anew.
#[derive(Clone, Debug)]
pub struct SequenceLR<First, Second> {
    pub first: First,
    pub second: Second,
    pub first_scheduler_final_superbatch: usize,
}

impl<First: LrScheduler, Second: LrScheduler> LrScheduler for SequenceLR<First, Second> {
    open spec fn usable(&self, batch: usize, superbatch: usize) -> bool {
        let midpoint = self.first_scheduler_final_superbatch;
        if superbatch <= midpoint {
            self.first.usable(batch, superbatch)
        } else {
            self.second.usable(batch, (superbatch - midpoint) as usize)
        }
    }

    open spec fn call_at(&self, batch: usize, superbatch: usize) -> MathCall {
        let midpoint = self.first_scheduler_final_superbatch;
        if superbatch <= midpoint {
            self.first.call_at(batch, superbatch)
        } else {
            self.second.call_at(batch, (superbatch - midpoint) as usize)
        }
    }

    open spec fn rate_at(&self, batch: usize, superbatch: usize, math: Binary32) -> Binary32 {
        let midpoint = self.first_scheduler_final_superbatch;
        if superbatch <= midpoint {
            self.first.rate_at(batch, superbatch, math)
        } else {
            self.second.rate_at(batch, (superbatch - midpoint) as usize, math)
        }
    }

    open spec fn terminal(&self) -> Option<usize> {
        None
    }

    open spec fn text(&self) -> Seq<Piece> {
        self.first.text() + sequence_text(self.first_scheduler_final_superbatch)
            + self.second.text()
    }

    fn math_call(&self, batch: usize, superbatch: usize) -> (r: MathCall) {
        let midpoint: usize = self.first_scheduler_final_superbatch;
        if superbatch <= midpoint {
            self.first.math_call(batch, superbatch)
        } else {
            self.second.math_call(batch, superbatch - midpoint)
        }
    }

    fn lr(&self, batch: usize, superbatch: usize, math: Binary32) -> (r: Binary32) {
        let midpoint: usize = self.first_scheduler_final_superbatch;
        if superbatch <= midpoint {
            self.first.lr(batch, superbatch, math)
        } else {
            self.second.lr(batch, superbatch - midpoint, math)
        }
    }

    fn horizon(&self) -> (r: Option<usize>) {
        None
    }

    fn describe(&self) -> (r: Vec<Piece>) {
        join_texts(
            self.first.describe(),
            self.first_scheduler_final_superbatch,
            self.second.describe(),
        )
    }
}

/// A schedule that is chosen at run time.
#[derive(Debug)]
pub enum LrSchedulerEnum {
    Constant(ConstantLR),
    Step(StepLR),
    Drop(DropLR),
    LinearDecay(LinearDecayLR),
    CosineDecay(CosineDecayLR),
    ExponentialDecay(ExponentialDecayLR),
    OneCycle(OneCycleLR),
    Warmup(Box<WarmupLR<LrSchedulerEnum>>),
}

impl Clone for LrSchedulerEnum {
    fn clone(&self) -> (r: LrSchedulerEnum)
        ensures
            r == *self,
        decreases self,
    {
        match self {
            LrSchedulerEnum::Constant(s) => LrSchedulerEnum::Constant(*s),
            LrSchedulerEnum::Step(s) => LrSchedulerEnum::Step(*s),
            LrSchedulerEnum::Drop(s) => LrSchedulerEnum::Drop(*s),
            LrSchedulerEnum::LinearDecay(s) => LrSchedulerEnum::LinearDecay(*s),
            LrSchedulerEnum::CosineDecay(s) => LrSchedulerEnum::CosineDecay(*s),
            LrSchedulerEnum::ExponentialDecay(s) => LrSchedulerEnum::ExponentialDecay(*s),
            LrSchedulerEnum::OneCycle(s) => LrSchedulerEnum::OneCycle(*s),
            LrSchedulerEnum::Warmup(s) => LrSchedulerEnum::Warmup(
                Box::new(
                    WarmupLR { inner: s.inner.clone(), warmup_batches: s.warmup_batches },
                ),
            ),
        }
    }
}

impl LrSchedulerEnum {
    /// The chosen schedule has a rate at this point.
    pub open spec fn chosen_usable(&self, batch: usize, superbatch: usize) -> bool
        decreases self,
    {
        match self {
            LrSchedulerEnum::Constant(s) => s.usable(batch, superbatch),
            LrSchedulerEnum::Step(s) => s.usable(batch, superbatch),
            LrSchedulerEnum::Drop(s) => s.usable(batch, superbatch),
            LrSchedulerEnum::LinearDecay(s) => s.usable(batch, superbatch),
            LrSchedulerEnum::CosineDecay(s) => s.usable(batch, superbatch),
            LrSchedulerEnum::ExponentialDecay(s) => s.usable(batch, superbatch),
            LrSchedulerEnum::OneCycle(s) => s.usable(batch, superbatch),
            LrSchedulerEnum::Warmup(s) => s.inner.chosen_usable(batch, superbatch),
        }
    }

    /// The elementary function that the rate of the chosen schedule rests on.
    pub open spec fn chosen_call(&self, batch: usize, superbatch: usize) -> MathCall
        decreases self,
    {
        match self {
            LrSchedulerEnum::Constant(s) => s.call_at(batch, superbatch),
            LrSchedulerEnum::Step(s) => s.call_at(batch, superbatch),
            LrSchedulerEnum::Drop(s) => s.call_at(batch, superbatch),
            LrSchedulerEnum::LinearDecay(s) => s.call_at(batch, superbatch),
            LrSchedulerEnum::CosineDecay(s) => s.call_at(batch, superbatch),
            LrSchedulerEnum::ExponentialDecay(s) => s.call_at(batch, superbatch),
            LrSchedulerEnum::OneCycle(s) => s.call_at(batch, superbatch),
            LrSchedulerEnum::Warmup(s) => s.inner.chosen_call(batch, superbatch),
        }
    }

    /// The rate of the chosen schedule.
    pub open spec fn chosen_rate(&self, batch: usize, superbatch: usize, math: Binary32) -> Binary32
        decreases self,
    {
        match self {
            LrSchedulerEnum::Constant(s) => s.rate_at(batch, superbatch, math),
            LrSchedulerEnum::Step(s) => s.rate_at(batch, superbatch, math),
            LrSchedulerEnum::Drop(s) => s.rate_at(batch, superbatch, math),
            LrSchedulerEnum::LinearDecay(s) => s.rate_at(batch, superbatch, math),
            LrSchedulerEnum::CosineDecay(s) => s.rate_at(batch, superbatch, math),
            LrSchedulerEnum::ExponentialDecay(s) => s.rate_at(batch, superbatch, math),
            LrSchedulerEnum::OneCycle(s) => s.rate_at(batch, superbatch, math),
            LrSchedulerEnum::Warmup(s) => warmed_up(
                s.inner.chosen_rate(batch, superbatch, math),
                batch,
                superbatch,
                s.warmup_batches,
            ),
        }
    }

    /// The superbatch at which the curve of the chosen schedule reaches its final value.
    pub open spec fn chosen_terminal(&self) -> Option<usize>
        decreases self,
    {
        match self {
            LrSchedulerEnum::Constant(s) => s.terminal(),
            LrSchedulerEnum::Step(s) => s.terminal(),
            LrSchedulerEnum::Drop(s) => s.terminal(),
            LrSchedulerEnum::LinearDecay(s) => s.terminal(),
            LrSchedulerEnum::CosineDecay(s) => s.terminal(),
            LrSchedulerEnum::ExponentialDecay(s) => s.terminal(),
            LrSchedulerEnum::OneCycle(s) => s.terminal(),
            LrSchedulerEnum::Warmup(s) => s.inner.chosen_terminal(),
        }
    }

    /// The description of the chosen schedule.
    pub open spec fn chosen_text(&self) -> Seq<Piece>
        decreases self,
    {
        match self {
            LrSchedulerEnum::Constant(s) => s.text(),
            LrSchedulerEnum::Step(s) => s.text(),
            LrSchedulerEnum::Drop(s) => s.text(),
            LrSchedulerEnum::LinearDecay(s) => s.text(),
            LrSchedulerEnum::CosineDecay(s) => s.text(),
            LrSchedulerEnum::ExponentialDecay(s) => s.text(),
            LrSchedulerEnum::OneCycle(s) => s.text(),
            LrSchedulerEnum::Warmup(s) => s.inner.chosen_text() + warmup_text(s.warmup_batches),
        }
    }

    /// Warms the schedule up over `warmup_batches` batches.
    pub fn with_warmup(self, warmup_batches: usize) -> (r: LrSchedulerEnum)
        ensures
            r == LrSchedulerEnum::Warmup(Box::new(WarmupLR { inner: self, warmup_batches })),
            r.chosen_terminal() == self.chosen_terminal(),
            r.chosen_text() == self.chosen_text() + warmup_text(warmup_batches),
            forall|batch: usize, superbatch: usize| #[trigger]
                r.chosen_usable(batch, superbatch) == self.chosen_usable(batch, superbatch),
            forall|batch: usize, superbatch: usize| #[trigger]
                r.chosen_call(batch, superbatch) == self.chosen_call(batch, superbatch),
            forall|batch: usize, superbatch: usize, math: Binary32| #[trigger]
                r.chosen_rate(batch, superbatch, math) == warmed_up(
                    self.chosen_rate(batch, superbatch, math),
                    batch,
                    superbatch,
                    warmup_batches,
                ),
    {
        LrSchedulerEnum::Warmup(Box::new(WarmupLR { inner: self, warmup_batches }))
    }

    /// Asks the chosen schedule for its elementary function.
    fn ask_call(&self, batch: usize, superbatch: usize) -> (r: MathCall)
        requires
            self.chosen_usable(batch, superbatch),
        ensures
            r == self.chosen_call(batch, superbatch),
        decreases self,
    {
        match self {
            LrSchedulerEnum::Constant(s) => s.math_call(batch, superbatch),
            LrSchedulerEnum::Step(s) => s.math_call(batch, superbatch),
            LrSchedulerEnum::Drop(s) => s.math_call(batch, superbatch),
            LrSchedulerEnum::LinearDecay(s) => s.math_call(batch, superbatch),
            LrSchedulerEnum::CosineDecay(s) => s.math_call(batch, superbatch),
            LrSchedulerEnum::ExponentialDecay(s) => s.math_call(batch, superbatch),
            LrSchedulerEnum::OneCycle(s) => s.math_call(batch, superbatch),
            LrSchedulerEnum::Warmup(s) => s.inner.ask_call(batch, superbatch),
        }
    }

    /// Asks the chosen schedule for its rate.
    fn ask_rate(&self, batch: usize, superbatch: usize, math: Binary32) -> (r: Binary32)
        requires
            self.chosen_usable(batch, superbatch),
        ensures
            r == self.chosen_rate(batch, superbatch, math),
        decreases self,
    {
        match self {
            LrSchedulerEnum::Constant(s) => s.lr(batch, superbatch, math),
            LrSchedulerEnum::Step(s) => s.lr(batch, superbatch, math),
            LrSchedulerEnum::Drop(s) => s.lr(batch, superbatch, math),
            LrSchedulerEnum::LinearDecay(s) => s.lr(batch, superbatch, math),
            LrSchedulerEnum::CosineDecay(s) => s.lr(batch, superbatch, math),
            LrSchedulerEnum::ExponentialDecay(s) => s.lr(batch, superbatch, math),
            LrSchedulerEnum::OneCycle(s) => s.lr(batch, superbatch, math),
            LrSchedulerEnum::Warmup(s) => warm_up(
                s.inner.ask_rate(batch, superbatch, math),
                batch,
                superbatch,
                s.warmup_batches,
            ),
        }
    }

    /// Asks the chosen schedule for its horizon.
    fn ask_horizon(&self) -> (r: Option<usize>)
        ensures
            r == self.chosen_terminal(),
        decreases self,
    {
        match self {
            LrSchedulerEnum::Constant(s) => s.horizon(),
            LrSchedulerEnum::Step(s) => s.horizon(),
            LrSchedulerEnum::Drop(s) => s.horizon(),
            LrSchedulerEnum::LinearDecay(s) => s.horizon(),
            LrSchedulerEnum::CosineDecay(s) => s.horizon(),
            LrSchedulerEnum::ExponentialDecay(s) => s.horizon(),
            LrSchedulerEnum::OneCycle(s) => s.horizon(),
            LrSchedulerEnum::Warmup(s) => s.inner.ask_horizon(),
        }
    }

    /// Asks the chosen schedule for its description.
    fn ask_text(&self) -> (r: Vec<Piece>)
        ensures
            r@ == self.chosen_text(),
        decreases self,
    {
        match self {
            LrSchedulerEnum::Constant(s) => s.describe(),
            LrSchedulerEnum::Step(s) => s.describe(),
            LrSchedulerEnum::Drop(s) => s.describe(),
            LrSchedulerEnum::LinearDecay(s) => s.describe(),
            LrSchedulerEnum::CosineDecay(s) => s.describe(),
            LrSchedulerEnum::ExponentialDecay(s) => s.describe(),
            LrSchedulerEnum::OneCycle(s) => s.describe(),
            LrSchedulerEnum::Warmup(s) => {
                let mut r = s.inner.ask_text();
                push_warmup_text(&mut r, s.warmup_batches);
                r
            },
        }
    }
}

impl LrScheduler for LrSchedulerEnum {
    open spec fn usable(&self, batch: usize, superbatch: usize) -> bool {
        self.chosen_usable(batch, superbatch)
    }

    open spec fn call_at(&self, batch: usize, superbatch: usize) -> MathCall {
        self.chosen_call(batch, superbatch)
    }

    open spec fn rate_at(&self, batch: usize, superbatch: usize, math: Binary32) -> Binary32 {
        self.chosen_rate(batch, superbatch, math)
    }

    open spec fn terminal(&self) -> Option<usize> {
        self.chosen_terminal()
    }

    open spec fn text(&self) -> Seq<Piece> {
        self.chosen_text()
    }

    fn math_call(&self, batch: usize, superbatch: usize) -> (r: MathCall) {
        self.ask_call(batch, superbatch)
    }

    fn lr(&self, batch: usize, superbatch: usize, math: Binary32) -> (r: Binary32) {
        self.ask_rate(batch, superbatch, math)
    }

    fn horizon(&self) -> (r: Option<usize>) {
        self.ask_horizon()
    }

    fn describe(&self) -> (r: Vec<Piece>) {
        self.ask_text()
    }
}

} // verus!
