use tatara::binary32::Binary32;
use tatara::lr_schedule::{
    cosine_interp, warm_up, ConstantLR, CosineDecayLR, DropLR, ExponentialDecayLR, LinearDecayLR,
    LrScheduler, LrSchedulerEnum, MathCall, OneCycleLR, SequenceLR, StepLR, WarmupLR,
};
use tatara::optimizer::RangerParams;
use tatara::text::{join, Piece};
use tatara::wdl_schedule::{
    ConstantWDL, LinearWDL, SequenceWDL, WarmupWDL, WdlScheduler, WdlSchedulerEnum,
};

const EPS: f32 = 1e-6;

fn num(x: f32) -> Binary32 {
    Binary32::from_bits(x.to_bits())
}

fn float(x: Binary32) -> f32 {
    f32::from_bits(x.to_bits())
}

/// The rate of a schedule, with the elementary functions of the machine.
fn rate<S: LrScheduler>(s: &S, batch: usize, superbatch: usize) -> f32 {
    let math = match s.math_call(batch, superbatch) {
        MathCall::Nothing => 0.0,
        MathCall::Cos { x } => float(x).cos(),
        MathCall::Powf { base, exponent } => float(base).powf(float(exponent)),
        MathCall::Powi { base, power } => float(base).powi(power),
    };
    float(s.lr(batch, superbatch, num(math)))
}

fn blend<S: WdlScheduler>(s: &S, batch: usize, superbatch: usize, max: usize) -> f32 {
    float(s.blend(batch, superbatch, max))
}

fn written(pieces: &[Piece]) -> String {
    let numbers: Vec<String> = pieces
        .iter()
        .filter_map(|piece| match piece {
            Piece::Number(n) => Some(format!("{}", float(*n))),
            _ => None,
        })
        .collect();
    join(pieces, &numbers)
}

fn constant(value: f32) -> ConstantLR {
    ConstantLR { value: num(value) }
}

fn drop_lr() -> DropLR {
    DropLR { start: num(1.0), gamma: num(0.1), drop: 10 }
}

fn step_lr() -> StepLR {
    StepLR { start: num(1.0), gamma: num(0.5), step: 3 }
}

fn linear(initial: f32, last: f32, final_superbatch: usize) -> LinearDecayLR {
    LinearDecayLR { initial_lr: num(initial), final_lr: num(last), final_superbatch }
}

fn cosine(initial: f32, last: f32, final_superbatch: usize) -> CosineDecayLR {
    CosineDecayLR { initial_lr: num(initial), final_lr: num(last), final_superbatch }
}

fn exponential(initial: f32, last: f32, final_superbatch: usize) -> ExponentialDecayLR {
    ExponentialDecayLR { initial_lr: num(initial), final_lr: num(last), final_superbatch }
}

fn one_cycle(max: f32, pct: f32, div: f32, final_div: f32, total: usize) -> OneCycleLR {
    OneCycleLR::new(num(max), num(pct), num(div), num(final_div), total)
}

#[test]
fn constant_lr_is_invariant() {
    let lr = constant(1e-3);
    assert_eq!(rate(&lr, 0, 1), 1e-3);
    assert_eq!(rate(&lr, 100, 50), 1e-3);
    assert_eq!(written(&lr.describe()), "constant 0.001");
}

#[test]
fn drop_lr_steps_once_after_drop_superbatch() {
    let lr = drop_lr();
    assert_eq!(rate(&lr, 0, 5), 1.0);
    assert_eq!(rate(&lr, 0, 10), 1.0);
    assert!((rate(&lr, 0, 11) - 0.1).abs() < EPS);
    assert!((rate(&lr, 0, 100) - 0.1).abs() < EPS);
}

#[test]
fn step_lr_multiplicative_every_step() {
    let lr = step_lr();
    assert_eq!(rate(&lr, 0, 0), 1.0);
    assert_eq!(rate(&lr, 0, 3), 1.0);
    assert!((rate(&lr, 0, 4) - 0.5).abs() < EPS);
    assert!((rate(&lr, 0, 7) - 0.25).abs() < EPS);
}

#[test]
fn linear_decay_lr_interpolates() {
    let lr = linear(1.0, 0.0, 10);
    assert!((rate(&lr, 0, 0) - 1.0).abs() < EPS);
    assert!((rate(&lr, 0, 5) - 0.5).abs() < EPS);
    assert!((rate(&lr, 0, 10) - 0.0).abs() < EPS);
    assert!((rate(&lr, 0, 100) - 0.0).abs() < EPS);
}

#[test]
fn cosine_decay_lr_midpoint() {
    let lr = cosine(1.0, 0.0, 10);
    assert!((rate(&lr, 0, 0) - 1.0).abs() < EPS);
    assert!((rate(&lr, 0, 5) - 0.5).abs() < EPS);
    assert!((rate(&lr, 0, 10) - 0.0).abs() < EPS);
}

#[test]
fn exponential_decay_lr_factor() {
    let lr = exponential(1.0, 0.01, 10);
    let at_mid = rate(&lr, 0, 5);
    assert!((at_mid - 0.1).abs() < 1e-5);
    assert!((rate(&lr, 0, 10) - 0.01).abs() < EPS);
}

#[test]
fn warmup_lr_only_in_first_superbatch() {
    let warmup = WarmupLR { inner: constant(1.0), warmup_batches: 4 };
    assert!((rate(&warmup, 0, 1) - 0.25).abs() < EPS);
    assert!((rate(&warmup, 1, 1) - (1.0 / 3.0)).abs() < EPS);
    assert!((rate(&warmup, 2, 1) - 0.5).abs() < EPS);
    assert!((rate(&warmup, 3, 1) - 1.0).abs() < EPS);
    assert!((rate(&warmup, 4, 1) - 1.0).abs() < EPS);
    assert!((rate(&warmup, 0, 2) - 1.0).abs() < EPS);
}

#[test]
fn sequence_lr_switches_at_midpoint() {
    let seq = SequenceLR {
        first: constant(1.0),
        second: constant(2.0),
        first_scheduler_final_superbatch: 5,
    };
    assert_eq!(rate(&seq, 0, 1), 1.0);
    assert_eq!(rate(&seq, 0, 5), 1.0);
    assert_eq!(rate(&seq, 0, 6), 2.0);
    assert_eq!(rate(&seq, 0, 100), 2.0);
}

#[test]
fn one_cycle_lr_warmup_then_anneal() {
    let lr = one_cycle(1.0, 0.2, 25.0, 100.0, 10);
    assert_eq!(float(lr.initial_lr), 0.04);
    assert_eq!(lr.warmup_superbatch, 2);
    assert!((float(lr.final_lr) - 0.0004).abs() < EPS);

    assert!((rate(&lr, 0, 0) - 0.04).abs() < EPS);
    assert!((rate(&lr, 0, 2) - 1.0).abs() < EPS);
    let mid_warmup = 0.04 + 0.5 * (1.0 - 0.04);
    assert!((rate(&lr, 0, 1) - mid_warmup).abs() < EPS);
    let mid_anneal = 0.0004 + 0.5 * (1.0 - 0.0004);
    assert!((rate(&lr, 0, 6) - mid_anneal).abs() < EPS);
    assert!((rate(&lr, 0, 10) - 0.0004).abs() < EPS);
    assert!((rate(&lr, 0, 100) - 0.0004).abs() < EPS);
}

#[test]
fn one_cycle_lr_zero_warmup_pct_has_no_division_by_zero() {
    let lr = one_cycle(1.0, 0.0, 25.0, 100.0, 10);
    assert_eq!(lr.warmup_superbatch, 0);
    assert!(rate(&lr, 0, 0).is_finite());
    assert!(rate(&lr, 0, 1).is_finite());
}

#[test]
fn lr_scheduler_enum_dispatches_and_wraps_warmup() {
    let step = LrSchedulerEnum::Step(step_lr());
    assert!((rate(&step, 0, 4) - 0.5).abs() < EPS);

    let warmed = LrSchedulerEnum::Constant(constant(1.0)).with_warmup(4);
    assert!((rate(&warmed, 0, 1) - 0.25).abs() < EPS);
    assert!((rate(&warmed, 3, 1) - 1.0).abs() < EPS);
    assert!((rate(&warmed, 0, 2) - 1.0).abs() < EPS);
}

#[test]
fn horizon_reports_terminal_superbatch_for_horizon_schedules() {
    assert_eq!(linear(1.0, 0.0, 42).horizon(), Some(42));
    assert_eq!(cosine(1.0, 0.0, 7).horizon(), Some(7));
    assert_eq!(exponential(1.0, 0.01, 9).horizon(), Some(9));
    assert_eq!(one_cycle(1.0, 0.2, 25.0, 100.0, 100).horizon(), Some(100));

    assert_eq!(constant(1e-3).horizon(), None);
    assert_eq!(step_lr().horizon(), None);
    assert_eq!(drop_lr().horizon(), None);

    let oc = LrSchedulerEnum::OneCycle(one_cycle(1.0, 0.2, 25.0, 100.0, 50));
    assert_eq!(oc.horizon(), Some(50));
    assert_eq!(oc.with_warmup(4).horizon(), Some(50));
    assert_eq!(LrSchedulerEnum::Constant(constant(1.0)).with_warmup(4).horizon(), None);
}

#[test]
fn constant_wdl_is_invariant() {
    let w = ConstantWDL { value: num(0.5) };
    assert_eq!(blend(&w, 0, 1, 10), 0.5);
    assert_eq!(blend(&w, 100, 5, 10), 0.5);
}

#[test]
fn linear_wdl_interpolates_with_max() {
    let w = LinearWDL { start: num(0.0), end: num(1.0) };
    assert!((blend(&w, 0, 1, 10) - 0.0).abs() < EPS);
    assert!((blend(&w, 0, 10, 10) - 1.0).abs() < EPS);
    assert!((blend(&w, 0, 5, 10) - (4.0 / 9.0)).abs() < EPS);
}

#[test]
fn linear_wdl_handles_max_one_without_division_by_zero() {
    let w = LinearWDL { start: num(0.0), end: num(1.0) };
    let v = blend(&w, 0, 1, 1);
    assert!(v.is_finite());
}

#[test]
fn warmup_wdl_only_in_first_superbatch() {
    let warmup = WarmupWDL { inner: ConstantWDL { value: num(0.5) }, warmup_batches: 2 };
    assert!((blend(&warmup, 0, 1, 10) - 0.25).abs() < EPS);
    assert!((blend(&warmup, 1, 1, 10) - 0.5).abs() < EPS);
    assert!((blend(&warmup, 2, 1, 10) - 0.5).abs() < EPS);
    assert!((blend(&warmup, 0, 2, 10) - 0.5).abs() < EPS);
}

#[test]
fn sequence_wdl_propagates_normalised_max() {
    let seq = SequenceWDL {
        first: LinearWDL { start: num(0.0), end: num(1.0) },
        second: LinearWDL { start: num(1.0), end: num(2.0) },
        first_scheduler_final_superbatch: 5,
    };
    assert!((blend(&seq, 0, 1, 10) - 0.0).abs() < EPS);
    assert!((blend(&seq, 0, 5, 10) - 1.0).abs() < EPS);
    assert!((blend(&seq, 0, 6, 10) - 1.0).abs() < EPS);
    assert!((blend(&seq, 0, 10, 10) - 2.0).abs() < EPS);
}

#[test]
fn wdl_scheduler_enum_dispatches_to_constant_or_linear() {
    let c = WdlSchedulerEnum::constant(num(0.7));
    assert!((blend(&c, 0, 1, 10) - 0.7).abs() < EPS);

    let l = WdlSchedulerEnum::linear(num(0.0), num(1.0));
    assert!((blend(&l, 0, 1, 10) - 0.0).abs() < EPS);
    assert!((blend(&l, 0, 10, 10) - 1.0).abs() < EPS);
}

#[test]
fn ranger_params_default_values() {
    let p = RangerParams::default();
    assert_eq!(float(p.decay), 0.01);
    assert_eq!(float(p.beta1), 0.99);
    assert_eq!(float(p.beta2), 0.999);
    assert_eq!(float(p.alpha), 0.5);
    assert_eq!(p.k, 6);
    assert_eq!(float(p.eps), 1e-8);
    assert_eq!(float(p.n_sma_threshold), 5.0);
}

/// The curves in the arithmetic of the machine.
fn machine_rate(s: &LrSchedulerEnum, superbatch: usize) -> f32 {
    let pi = std::f32::consts::PI;
    match s {
        LrSchedulerEnum::LinearDecay(s) => {
            if superbatch >= s.final_superbatch {
                return float(s.final_lr);
            }
            let lambda = superbatch as f32 / s.final_superbatch as f32;
            float(s.initial_lr) + lambda * (float(s.final_lr) - float(s.initial_lr))
        }
        LrSchedulerEnum::CosineDecay(s) => {
            if superbatch >= s.final_superbatch {
                return float(s.final_lr);
            }
            let progress = superbatch as f32 / s.final_superbatch as f32;
            let lambda = 1.0 - 0.5 * (1.0 + (pi * progress).cos());
            float(s.initial_lr) + lambda * (float(s.final_lr) - float(s.initial_lr))
        }
        LrSchedulerEnum::ExponentialDecay(s) => {
            if superbatch >= s.final_superbatch {
                return float(s.final_lr);
            }
            let lambda = superbatch as f32 / s.final_superbatch as f32;
            float(s.initial_lr) * (float(s.final_lr) / float(s.initial_lr)).powf(lambda)
        }
        LrSchedulerEnum::OneCycle(s) => {
            let interp = |start: f32, end: f32, p: f32| {
                end + 0.5 * (start - end) * (1.0 + (pi * p).cos())
            };
            if superbatch <= s.warmup_superbatch {
                let denom = s.warmup_superbatch.max(1) as f32;
                return interp(float(s.initial_lr), float(s.max_lr), superbatch as f32 / denom);
            }
            if superbatch >= s.total_superbatch {
                return float(s.final_lr);
            }
            let denom = (s.total_superbatch - s.warmup_superbatch).max(1) as f32;
            let p = (superbatch - s.warmup_superbatch) as f32 / denom;
            interp(float(s.max_lr), float(s.final_lr), p)
        }
        _ => unreachable!(),
    }
}

#[test]
fn curves_agree_with_the_machine_bit_for_bit() {
    let schedules = [
        LrSchedulerEnum::LinearDecay(linear(8.75e-4, 1.3e-7, 173)),
        LrSchedulerEnum::CosineDecay(cosine(8.75e-4, 1.3e-7, 173)),
        LrSchedulerEnum::ExponentialDecay(exponential(8.75e-4, 1.3e-7, 173)),
        LrSchedulerEnum::OneCycle(one_cycle(9.1e-4, 0.13, 25.0, 1e4, 173)),
        LrSchedulerEnum::OneCycle(one_cycle(9.1e-4, 1.0, 25.0, 1e4, 173)),
        LrSchedulerEnum::OneCycle(one_cycle(9.1e-4, 0.0, 25.0, 1e4, 173)),
    ];
    for s in &schedules {
        for superbatch in 0..200 {
            assert_eq!(rate(s, 0, superbatch).to_bits(), machine_rate(s, superbatch).to_bits());
        }
    }
}

#[test]
fn linear_blend_agrees_with_the_machine_bit_for_bit() {
    let w = LinearWDL { start: num(0.123), end: num(0.877) };
    for max in 1..60usize {
        for superbatch in 1..70usize {
            let grad = (0.877f32 - 0.123f32) / (max - 1).max(1) as f32;
            let expected = 0.123f32 + grad * (superbatch - 1) as f32;
            assert_eq!(blend(&w, 0, superbatch, max).to_bits(), expected.to_bits());
        }
    }
}

#[test]
fn one_cycle_rounds_its_turning_point() {
    for (pct, total, turn) in [
        (0.25f32, 10usize, 3usize),
        (0.24, 10, 2),
        (-1.0, 10, 0),
        (2.0, 10, 10),
        (f32::NAN, 10, 0),
        (f32::INFINITY, 10, 10),
    ] {
        let lr = one_cycle(1.0, pct, 25.0, 100.0, total);
        let machine = (pct * total as f32).round().clamp(0.0, total as f32) as usize;
        assert_eq!(machine, turn);
        assert_eq!(lr.warmup_superbatch, turn);
        assert_eq!(lr.total_superbatch, total);
        assert_eq!(float(lr.max_lr), 1.0);
    }
}

#[test]
fn one_cycle_turns_at_the_maximum() {
    let lr = one_cycle(0.7, 0.3, 25.0, 100.0, 10);
    assert_eq!(lr.warmup_superbatch, 3);
    assert_eq!(float(lr.lr(0, 3, num(-1.0))), 0.7);
    assert_eq!(float(cosine_interp(num(0.3), num(0.9), num(-1.0))), 0.9);
    assert_eq!(float(cosine_interp(num(0.25), num(0.75), num(1.0))), 0.25);
}

#[test]
fn one_cycle_rises_and_then_falls() {
    for (max, pct, div, final_div, total) in [
        (9.1e-4f32, 0.13f32, 25.0f32, 1e4f32, 173usize),
        (1.0, 0.5, 3.0, 7.0, 1000),
        (0.7, 1.0, 25.0, 100.0, 40),
        (0.7, 0.0, 25.0, 100.0, 40),
    ] {
        let lr = one_cycle(max, pct, div, final_div, total);
        let turn = lr.warmup_superbatch;
        let start = float(cosine_interp(lr.initial_lr, lr.max_lr, num(1.0)));
        let top = float(cosine_interp(lr.max_lr, lr.final_lr, num(1.0)));
        assert!((start - float(lr.initial_lr)).abs() <= max * f32::EPSILON);
        assert!((top - max).abs() <= max * f32::EPSILON);
        for superbatch in 0..total + 5 {
            let here = rate(&lr, 0, superbatch);
            let next = rate(&lr, 0, superbatch + 1);
            assert_eq!(here, rate(&lr, 9, superbatch));
            if superbatch < turn {
                assert!(here <= next && start <= here && next <= max);
            }
            if superbatch > turn {
                assert!(here >= next && here <= top && next >= float(lr.final_lr));
            }
        }
    }
}

#[test]
fn a_gap_that_cannot_be_halved_costs_one_quantum() {
    // The gap of three quanta is halved to two, so that the start is one quantum too low.
    let lr = OneCycleLR {
        initial_lr: Binary32::from_bits(0),
        max_lr: Binary32::from_bits(3),
        final_lr: Binary32::from_bits(0),
        warmup_superbatch: 4,
        total_superbatch: 9,
    };
    assert_eq!(lr.lr(0, 0, num(1.0)).to_bits(), 0x8000_0001);
    assert_eq!(rate(&lr, 0, 4), f32::from_bits(3));
    let machine = f32::from_bits(3) + 0.5 * (0.0 - f32::from_bits(3)) * (1.0 + 1.0);
    assert_eq!(machine.to_bits(), 0x8000_0001);
}

#[test]
fn decays_fall_and_blends_move() {
    let schedules = [
        LrSchedulerEnum::LinearDecay(linear(8.75e-4, 1.3e-7, 173)),
        LrSchedulerEnum::CosineDecay(cosine(8.75e-4, 1.3e-7, 173)),
        LrSchedulerEnum::ExponentialDecay(exponential(8.75e-4, 1.3e-7, 173)),
    ];
    for s in &schedules {
        for superbatch in 0..172 {
            assert!(rate(s, 0, superbatch) <= 8.75e-4);
            assert!(rate(s, 0, superbatch + 1) <= rate(s, 0, superbatch));
        }
    }
    let up = LinearWDL { start: num(0.123), end: num(0.877) };
    let down = LinearWDL { start: num(0.877), end: num(0.123) };
    for superbatch in 1..60 {
        assert!(blend(&up, 0, superbatch, 50) <= blend(&up, 0, superbatch + 1, 50));
        assert!(blend(&down, 0, superbatch, 50) >= blend(&down, 0, superbatch + 1, 50));
    }
}

#[test]
fn rates_are_final_from_the_horizon_on() {
    let schedules = [
        LrSchedulerEnum::LinearDecay(linear(1.0, 0.3, 10)),
        LrSchedulerEnum::CosineDecay(cosine(1.0, 0.3, 10)),
        LrSchedulerEnum::ExponentialDecay(exponential(1.0, 0.3, 10)),
        LrSchedulerEnum::LinearDecay(linear(1.0, 0.3, 10)).with_warmup(5),
    ];
    for s in &schedules {
        let horizon = s.horizon().unwrap();
        assert_eq!(horizon, 10);
        for superbatch in [horizon, horizon + 1, 1000] {
            assert!(matches!(s.math_call(0, superbatch), MathCall::Nothing));
            assert_eq!(rate(s, 0, superbatch), 0.3);
        }
        assert!(rate(s, 0, horizon - 1) > 0.3);
    }
}

#[test]
fn an_unneeded_value_does_not_matter() {
    let schedules = [
        LrSchedulerEnum::Constant(constant(0.3)),
        LrSchedulerEnum::LinearDecay(linear(1.0, 0.3, 10)),
        LrSchedulerEnum::CosineDecay(cosine(1.0, 0.3, 4)).with_warmup(2),
    ];
    for s in &schedules {
        assert!(matches!(s.math_call(0, 7), MathCall::Nothing));
        assert_eq!(float(s.lr(0, 7, num(0.0))), float(s.lr(0, 7, num(f32::NAN))));
    }
}

#[test]
fn a_one_cycle_that_turns_at_its_end_is_still_rising_there() {
    let lr = one_cycle(0.5, 1.0, 25.0, 100.0, 10);
    assert_eq!(lr.horizon(), Some(10));
    assert!(matches!(lr.math_call(0, 10), MathCall::Cos { .. }));
    assert_eq!(rate(&lr, 0, 10), 0.5);
    assert_eq!(rate(&lr, 0, 11), float(lr.final_lr));
}

#[test]
fn linear_curves_start_where_they_should() {
    assert_eq!(rate(&linear(0.123, 0.877, 7), 0, 0), 0.123);
    let w = LinearWDL { start: num(0.123), end: num(0.877) };
    assert_eq!(blend(&w, 0, 1, 7), 0.123);
}

#[test]
fn only_a_warmup_looks_at_the_batch() {
    let plain = LrSchedulerEnum::Drop(drop_lr());
    assert_eq!(rate(&plain, 0, 1), rate(&plain, 99, 1));
    let warmed = plain.clone().with_warmup(3);
    assert_eq!(rate(&warmed, 0, 1), 1.0f32 / 3.0);
    assert_eq!(rate(&warmed, 2, 1), 1.0);
    assert_eq!(rate(&warmed, 3, 1), 1.0);
    assert_eq!(rate(&warmed, 0, 0), 1.0);
    assert_eq!(float(warm_up(num(0.9), 1, 1, 4)), 0.9f32 / 3.0);
    let twice = warmed.with_warmup(2);
    assert_eq!(rate(&twice, 0, 1), 1.0f32 / 3.0 / 2.0);
}

#[test]
fn chosen_warmup_is_a_warmup() {
    let inner = LrSchedulerEnum::CosineDecay(cosine(1.0, 0.1, 9));
    let warmup = WarmupLR { inner: inner.clone(), warmup_batches: 3 };
    let chosen = inner.with_warmup(3);
    for superbatch in 0..12 {
        for batch in 0..5 {
            assert_eq!(rate(&warmup, batch, superbatch), rate(&chosen, batch, superbatch));
        }
    }
    assert_eq!(warmup.horizon(), chosen.horizon());
    assert_eq!(written(&warmup.describe()), written(&chosen.describe()));
}

#[test]
fn steps_have_equal_length() {
    let lr = StepLR { start: num(1.0), gamma: num(0.25), step: 4 };
    for superbatch in 1..40usize {
        match lr.math_call(0, superbatch) {
            MathCall::Powi { base, power } => {
                assert_eq!(float(base), 0.25);
                assert_eq!(power as usize, (superbatch - 1) / 4);
            }
            _ => unreachable!(),
        }
    }
}

#[test]
fn second_schedule_starts_anew() {
    let seq = SequenceLR {
        first: linear(1.0, 0.5, 4),
        second: linear(0.5, 0.1, 6),
        first_scheduler_final_superbatch: 4,
    };
    assert_eq!(seq.horizon(), None);
    for superbatch in 1..8 {
        assert_eq!(rate(&seq, 0, 4 + superbatch), rate(&seq.second, 0, superbatch));
    }
}

#[test]
fn schedules_describe_themselves() {
    assert_eq!(
        written(&drop_lr().describe()),
        "start 1 gamma 0.1 drop at 10 superbatches"
    );
    assert_eq!(
        written(&step_lr().describe()),
        "start 1 gamma 0.5 drop every 3 superbatches"
    );
    assert_eq!(
        written(&linear(0.5, 0.25, 8).describe()),
        "start at 0.5 and linearly decay to 0.25 at superbatch 8"
    );
    assert_eq!(
        written(&cosine(0.5, 0.25, 8).describe()),
        "start at 0.5 and cosine decay to 0.25 at superbatch 8"
    );
    assert_eq!(
        written(&exponential(0.5, 0.25, 8).describe()),
        "start at 0.5 and exponentially decay to 0.25 at superbatch 8"
    );
    assert_eq!(
        written(&one_cycle(1.0, 0.2, 25.0, 100.0, 10).describe()),
        "one-cycle 0.04 → max 1 (warmup to superbatch 2) → \
         cosine anneal to 0.0004 at superbatch 10"
    );
    let seq = SequenceLR {
        first: constant(1.0),
        second: WarmupLR { inner: constant(2.0), warmup_batches: 7 },
        first_scheduler_final_superbatch: 5,
    };
    assert_eq!(
        written(&seq.describe()),
        "constant 1, then after 5 superbatches, constant 2, warmup over 7 batches"
    );
    let blends = SequenceWDL {
        first: WarmupWDL { inner: WdlSchedulerEnum::constant(num(0.5)), warmup_batches: 2 },
        second: WdlSchedulerEnum::linear(num(0.25), num(0.75)),
        first_scheduler_final_superbatch: 3,
    };
    assert_eq!(
        written(&blends.describe()),
        "constant 0.5, warmup over 2 batches, then after 3 superbatches, \
         linear taper start 0.25 end 0.75"
    );
}
