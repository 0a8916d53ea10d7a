//! The hyperparameters of the Ranger optimizer.

use crate::binary32::{magnitude_shift, magnitude_significand, Binary32, HALF_BITS};
use crate::nearest_laws::{lemma_within_half_a_grain, nearest_to};
use crate::order::lemma_half_and_two;
use crate::rounding_laws::distance;
use vstd::arithmetic::power2::{lemma_pow2_adds, lemma_pow2_pos, lemma_pow2_unfold, pow2};
use vstd::prelude::*;

verus! {

/// The pattern of 0.01, the default weight decay.
pub const DEFAULT_DECAY_BITS: u32 = 0x3C23_D70A;

/// The pattern of 0.99, the default decay of the first moment.
pub const DEFAULT_BETA1_BITS: u32 = 0x3F7D_70A4;

/// The pattern of 0.999, the default decay of the second moment.
pub const DEFAULT_BETA2_BITS: u32 = 0x3F7F_BE77;

/// The pattern of 1e-8, the default epsilon.
pub const DEFAULT_EPS_BITS: u32 = 0x322B_CC77;

/// The default period of the lookahead.
pub const DEFAULT_K: usize = 6;

/// The pattern of 5, the default threshold of the variance correction.
pub const DEFAULT_N_SMA_THRESHOLD_BITS: u32 = 0x40A0_0000;

/// The hyperparameters of the Ranger optimizer.
#[derive(Clone, Copy, Debug)]
pub struct RangerParams {
    /// The decoupled weight decay.
    pub decay: Binary32,
    /// The decay of the moving average of the first moment.
    pub beta1: Binary32,
    /// The decay of the moving average of the second moment.
    pub beta2: Binary32,
    /// What keeps the division by the root of the second moment stable.
    pub eps: Binary32,
    /// The share of the fast weights in the lookahead's interpolation.
    pub alpha: Binary32,
    /// The lookahead interpolates at every `k`-th step.
    pub k: usize,
    /// The length of the moving average above which the variance is corrected.
    pub n_sma_threshold: Binary32,
}

impl RangerParams {
    /// The standard setting of the trainer.
    pub open spec fn standard() -> RangerParams {
        RangerParams {
            decay: Binary32 { bits: DEFAULT_DECAY_BITS },
            beta1: Binary32 { bits: DEFAULT_BETA1_BITS },
            beta2: Binary32 { bits: DEFAULT_BETA2_BITS },
            eps: Binary32 { bits: DEFAULT_EPS_BITS },
            alpha: Binary32 { bits: HALF_BITS },
            k: DEFAULT_K,
            n_sma_threshold: Binary32 { bits: DEFAULT_N_SMA_THRESHOLD_BITS },
        }
    }
}

impl Default for RangerParams {
    fn default() -> (r: RangerParams)
        ensures
            r == RangerParams::standard(),
    {
        RangerParams {
            decay: Binary32 { bits: DEFAULT_DECAY_BITS },
            beta1: Binary32 { bits: DEFAULT_BETA1_BITS },
            beta2: Binary32 { bits: DEFAULT_BETA2_BITS },
            eps: Binary32 { bits: DEFAULT_EPS_BITS },
            alpha: Binary32 { bits: HALF_BITS },
            k: DEFAULT_K,
            n_sma_threshold: Binary32 { bits: DEFAULT_N_SMA_THRESHOLD_BITS },
        }
    }
}

/// A number between powers of two is nearest to a decimal that it lies within half a grain of.
proof fn lemma_constant(r: Binary32, shift: nat, significand: nat, scale: nat, num: nat, den: nat)
    requires
        r.finite(),
        !r.negative(),
        r.shift() == shift,
        r.significand() == significand,
        significand > 0x80_0000,
        shift <= 149,
        den > 0,
        scale == pow2((149 - shift) as nat),
        2 * distance((significand * den) as int, (num * scale) as int) < den,
    ensures
        nearest_to(r, (num * pow2(149)) as int, den),
{
    let p = pow2(shift);
    let d = den as int;
    lemma_pow2_pos(shift);
    lemma_pow2_adds(shift, (149 - shift) as nat);
    let a = (significand * den) as int;
    let b = (num * scale) as int;
    assert(r.value() * d == a * p) by (nonlinear_arith)
        requires
            r.value() == significand * p,
            a == significand * d,
    ;
    assert(num * pow2(149) == b * p) by (nonlinear_arith)
        requires
            pow2(149) == p * scale,
            b == num * scale,
    ;
    assert(2 * distance(a * p, b * p) < p * den) by (nonlinear_arith)
        requires
            p > 0,
            2 * distance(a, b) < den,
    ;
    lemma_within_half_a_grain(r, num * pow2(149), den);
}

/// The standard setting is the nearest numbers to a weight decay of 0.01, decays of 0.99 and 0.999,
/// an epsilon of 1e-8 and a share of one half, with a lookahead of six steps and a threshold of
/// five.
pub proof fn law_standard_setting()
    ensures
        ({
            let p = RangerParams::standard();
            &&& nearest_to(p.decay, pow2(149) as int, 100)
            &&& nearest_to(p.beta1, 99int * pow2(149), 100)
            &&& nearest_to(p.beta2, 999int * pow2(149), 1000)
            &&& nearest_to(p.eps, pow2(149) as int, 100_000_000)
            &&& p.alpha.finite() && 2 * p.alpha.value() == pow2(149)
            &&& p.k == 6
            &&& p.n_sma_threshold.finite() && p.n_sma_threshold.value() == 5 * pow2(149)
        }),
{
    let p = RangerParams::standard();
    vstd::arithmetic::power2::lemma2_to64();
    assert(magnitude_shift(0x3C23_D70A) == 119);
    assert(magnitude_significand(0x3C23_D70A) == 0xA3_D70A);
    lemma_constant(p.decay, 119, 0xA3_D70A, pow2(30), 1, 100);
    assert(magnitude_shift(0x3F7D_70A4) == 125);
    assert(magnitude_significand(0x3F7D_70A4) == 0xFD_70A4);
    lemma_constant(p.beta1, 125, 0xFD_70A4, pow2(24), 99, 100);
    assert(magnitude_shift(0x3F7F_BE77) == 125);
    assert(magnitude_significand(0x3F7F_BE77) == 0xFF_BE77);
    lemma_constant(p.beta2, 125, 0xFF_BE77, pow2(24), 999, 1000);
    assert(magnitude_shift(0x322B_CC77) == 99);
    assert(magnitude_significand(0x322B_CC77) == 0xAB_CC77);
    vstd::arithmetic::power2::lemma2_to64_rest();
    lemma_constant(p.eps, 99, 0xAB_CC77, pow2(50), 1, 100_000_000);
    lemma_half_and_two();
    lemma_pow2_unfold(149);
    assert(magnitude_shift(0x40A0_0000) == 128);
    assert(magnitude_significand(0x40A0_0000) == 0xA0_0000);
    lemma_pow2_adds(128, 21);
    let unit = pow2(128);
    assert(0xA0_0000 * unit == 5 * pow2(149)) by (nonlinear_arith)
        requires
            pow2(149) == unit * pow2(21),
            pow2(21) == 0x20_0000,
    ;
}

} // verus!
