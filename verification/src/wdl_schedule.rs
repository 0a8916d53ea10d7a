//! Schedules of the blend between the game result and the evaluation.

use crate::arithmetic::{difference, from_integer, product, quotient, sum};
use crate::binary32::Binary32;
use crate::lr_schedule::{
    at_least_one, join_texts, push_warmup_text, sequence_text, warm_up, warmed_up, warmup_text,
};
use crate::text::Piece;
use vstd::prelude::*;

verus! {

/// A schedule of the blend between the game result and the evaluation.
pub trait WdlScheduler: Clone + Send + Sync + 'static {
    /// The schedule has a blend at this point of a training of `max` superbatches.
    spec fn usable(&self, batch: usize, superbatch: usize, max: usize) -> bool;

    /// The blend at this point of a training of `max` superbatches.
    spec fn blend_at(&self, batch: usize, superbatch: usize, max: usize) -> Binary32;

    /// The description of the schedule.
    spec fn text(&self) -> Seq<Piece>;

    /// The blend for this batch and superbatch of a training of `max` superbatches.
    fn blend(&self, batch: usize, superbatch: usize, max: usize) -> (r: Binary32)
        requires
            self.usable(batch, superbatch, max),
        ensures
            r == self.blend_at(batch, superbatch, max),
    ;

    /// The description of the schedule.
    fn describe(&self) -> (r: Vec<Piece>)
        ensures
            r@ == self.text(),
    ;
}

/// A constant blend.
#[derive(Clone, Copy, Debug)]
pub struct ConstantWDL {
    pub value: Binary32,
}

impl WdlScheduler for ConstantWDL {
    open spec fn usable(&self, batch: usize, superbatch: usize, max: usize) -> bool {
        true
    }

    open spec fn blend_at(&self, batch: usize, superbatch: usize, max: usize) -> Binary32 {
        self.value
    }

    open spec fn text(&self) -> Seq<Piece> {
        seq![
            Piece::Text("constant "),
            Piece::Number(self.value),
        ]
    }

    fn blend(&self, batch: usize, superbatch: usize, max: usize) -> (r: Binary32) {
        self.value
    }

    fn describe(&self) -> (r: Vec<Piece>) {
        let r = vec![
            Piece::Text("constant "),
            Piece::Number(self.value),
        ];
        assert(r@ =~= self.text());
        r
    }
}

/// A blend that goes in equal steps from `start` in the first superbatch to `end` in the last.
#[derive(Clone, Copy, Debug)]
pub struct LinearWDL {
    pub start: Binary32,
    pub end: Binary32,
}

impl LinearWDL {
    /// The step from one superbatch to the next.
    pub open spec fn step(&self, max: usize) -> Binary32 {
        quotient(
            difference(self.end, self.start),
            from_integer(at_least_one((max - 1) as usize) as nat),
        )
    }
}

impl WdlScheduler for LinearWDL {
    open spec fn usable(&self, batch: usize, superbatch: usize, max: usize) -> bool {
        superbatch >= 1 && max >= 1
    }

    open spec fn blend_at(&self, batch: usize, superbatch: usize, max: usize) -> Binary32 {
        sum(self.start, product(self.step(max), from_integer((superbatch - 1) as nat)))
    }

    open spec fn text(&self) -> Seq<Piece> {
        seq![
            Piece::Text("linear taper start "),
            Piece::Number(self.start),
            Piece::Text(" end "),
            Piece::Number(self.end),
        ]
    }

    fn blend(&self, batch: usize, superbatch: usize, max: usize) -> (r: Binary32) {
        let steps: usize = if max - 1 == 0 {
            1
        } else {
            max - 1
        };
        let step: Binary32 = self.end.minus(self.start).over(Binary32::from_count(steps as u64));
        self.start.plus(step.times(Binary32::from_count((superbatch - 1) as u64)))
    }

    fn describe(&self) -> (r: Vec<Piece>) {
        let r = vec![
            Piece::Text("linear taper start "),
            Piece::Number(self.start),
            Piece::Text(" end "),
            Piece::Number(self.end),
        ];
        assert(r@ =~= self.text());
        r
    }
}

/// A schedule whose blend is scaled down in the first `warmup_batches` batches of the first
/// superbatch.
#[derive(Clone, Debug)]
pub struct WarmupWDL<W> {
    pub inner: W,
    pub warmup_batches: usize,
}

impl<W: WdlScheduler> WdlScheduler for WarmupWDL<W> {
    open spec fn usable(&self, batch: usize, superbatch: usize, max: usize) -> bool {
        self.inner.usable(batch, superbatch, max)
    }

    open spec fn blend_at(&self, batch: usize, superbatch: usize, max: usize) -> Binary32 {
        warmed_up(
            self.inner.blend_at(batch, superbatch, max),
            batch,
            superbatch,
            self.warmup_batches,
        )
    }

    open spec fn text(&self) -> Seq<Piece> {
        self.inner.text() + warmup_text(self.warmup_batches)
    }

    fn blend(&self, batch: usize, superbatch: usize, max: usize) -> (r: Binary32) {
        warm_up(self.inner.blend(batch, superbatch, max), batch, superbatch, self.warmup_batches)
    }

    fn describe(&self) -> (r: Vec<Piece>) {
        let mut r = self.inner.describe();
        push_warmup_text(&mut r, self.warmup_batches);
        r
    }
}

/// The schedule `first` up to `first_scheduler_final_superbatch`, and `second` from there; each
/// spans its own part of the training.
#[derive(Clone, Debug)]
pub struct SequenceWDL<First, Second> {
    pub first: First,
    pub second: Second,
    pub first_scheduler_final_superbatch: usize,
}

impl<First: WdlScheduler, Second: WdlScheduler> WdlScheduler for SequenceWDL<First, Second> {
    open spec fn usable(&self, batch: usize, superbatch: usize, max: usize) -> bool {
        let midpoint = self.first_scheduler_final_superbatch;
        if superbatch <= midpoint {
            self.first.usable(batch, superbatch, midpoint)
        } else {
            &&& max >= midpoint
            &&& self.second.usable(
                batch,
                (superbatch - midpoint) as usize,
                (max - midpoint) as usize,
            )
        }
    }

    open spec fn blend_at(&self, batch: usize, superbatch: usize, max: usize) -> Binary32 {
        let midpoint = self.first_scheduler_final_superbatch;
        if superbatch <= midpoint {
            self.first.blend_at(batch, superbatch, midpoint)
        } else {
            self.second.blend_at(
                batch,
                (superbatch - midpoint) as usize,
                (max - midpoint) as usize,
            )
        }
    }

    open spec fn text(&self) -> Seq<Piece> {
        self.first.text() + sequence_text(self.first_scheduler_final_superbatch)
            + self.second.text()
    }

    fn blend(&self, batch: usize, superbatch: usize, max: usize) -> (r: Binary32) {
        let midpoint: usize = self.first_scheduler_final_superbatch;
        if superbatch <= midpoint {
            self.first.blend(batch, superbatch, midpoint)
        } else {
            self.second.blend(batch, superbatch - midpoint, max - midpoint)
        }
    }

    fn describe(&self) -> (r: Vec<Piece>) {
        join_texts(
            self.first.describe(),
            self.first_scheduler_final_superbatch,
            self.second.describe(),
        )
    }
}

/// A schedule that is chosen at run time.
#[derive(Clone, Copy, Debug)]
pub enum WdlSchedulerEnum {
    Constant(ConstantWDL),
    Linear(LinearWDL),
}

impl WdlSchedulerEnum {
    /// A constant blend.
    pub fn constant(value: Binary32) -> (r: WdlSchedulerEnum)
        ensures
            r == WdlSchedulerEnum::Constant(ConstantWDL { value }),
    {
        WdlSchedulerEnum::Constant(ConstantWDL { value })
    }

    /// A blend that goes in equal steps from `start` to `end`.
    pub fn linear(start: Binary32, end: Binary32) -> (r: WdlSchedulerEnum)
        ensures
            r == WdlSchedulerEnum::Linear(LinearWDL { start, end }),
    {
        WdlSchedulerEnum::Linear(LinearWDL { start, end })
    }
}

impl WdlScheduler for WdlSchedulerEnum {
    open spec fn usable(&self, batch: usize, superbatch: usize, max: usize) -> bool {
        match self {
            WdlSchedulerEnum::Constant(s) => s.usable(batch, superbatch, max),
            WdlSchedulerEnum::Linear(s) => s.usable(batch, superbatch, max),
        }
    }

    open spec fn blend_at(&self, batch: usize, superbatch: usize, max: usize) -> Binary32 {
        match self {
            WdlSchedulerEnum::Constant(s) => s.blend_at(batch, superbatch, max),
            WdlSchedulerEnum::Linear(s) => s.blend_at(batch, superbatch, max),
        }
    }

    open spec fn text(&self) -> Seq<Piece> {
        match self {
            WdlSchedulerEnum::Constant(s) => s.text(),
            WdlSchedulerEnum::Linear(s) => s.text(),
        }
    }

    fn blend(&self, batch: usize, superbatch: usize, max: usize) -> (r: Binary32) {
        match self {
            WdlSchedulerEnum::Constant(s) => s.blend(batch, superbatch, max),
            WdlSchedulerEnum::Linear(s) => s.blend(batch, superbatch, max),
        }
    }

    fn describe(&self) -> (r: Vec<Piece>) {
        match self {
            WdlSchedulerEnum::Constant(s) => s.describe(),
            WdlSchedulerEnum::Linear(s) => s.describe(),
        }
    }
}

} // verus!
