//! Comparisons of binary32 numbers, and the ways from them to integers.

use crate::arithmetic::{lemma_quanta_increase, lemma_quanta_zero, lemma_significand};
use crate::binary32::{
    magnitude_quanta, magnitude_shift, magnitude_significand, signed, Binary32, INFINITY_BITS,
};
use crate::rounding::{lemma_nearest_exact, nearest_magnitude, power_of_two};
use vstd::arithmetic::power2::{lemma_pow2_adds, lemma_pow2_pos, lemma_pow2_unfold, pow2};
use vstd::prelude::*;

verus! {

/// The largest integer that is not above the number, held to the range of `i32`. Infinities go to
/// the ends of the range, a not-a-number to zero.
pub open spec fn floor_i32(a: Binary32) -> int {
    if a.nan() {
        0
    } else if a.infinite() {
        if a.negative() {
            i32::MIN as int
        } else {
            i32::MAX as int
        }
    } else {
        let floor = a.value() / pow2(149) as int;
        if floor < i32::MIN {
            i32::MIN as int
        } else if floor > i32::MAX {
            i32::MAX as int
        } else {
            floor
        }
    }
}

/// The integer nearest to the number, halves away from zero. What is not finite stays as it is.
pub open spec fn rounded(a: Binary32) -> Binary32 {
    if a.finite() {
        let whole = (2 * a.quanta() + pow2(149)) / pow2(150);
        signed(a.negative(), nearest_magnitude(whole * pow2(149), 1))
    } else {
        a
    }
}

/// The number, brought between `low` and `high`. A not-a-number stays as it is.
pub open spec fn clamped(a: Binary32, low: Binary32, high: Binary32) -> Binary32 {
    if a.below(low) {
        low
    } else if high.below(a) {
        high
    } else {
        a
    }
}

/// The integer part of the number, held to the range of `usize`. Negative numbers and a
/// not-a-number go to zero.
pub open spec fn whole_usize(a: Binary32) -> nat {
    if a.nan() || a.negative() {
        0
    } else if a.infinite() {
        usize::MAX as nat
    } else {
        let whole = a.quanta() / pow2(149);
        if whole > usize::MAX {
            usize::MAX as nat
        } else {
            whole
        }
    }
}

/// The order of the ranks is the order of the values.
pub proof fn law_rank_orders_values(a: Binary32, b: Binary32)
    requires
        a.finite(),
        b.finite(),
    ensures
        a.rank() <= b.rank() <==> a.value() <= b.value(),
        a.rank() < b.rank() <==> a.value() < b.value(),
{
    lemma_quanta_zero(a.magnitude());
    lemma_quanta_zero(b.magnitude());
    if a.magnitude() < b.magnitude() {
        lemma_quanta_increase(a.magnitude(), b.magnitude());
    }
    if b.magnitude() < a.magnitude() {
        lemma_quanta_increase(b.magnitude(), a.magnitude());
    }
}

/// Numbers are equal when they are not not-a-numbers and have the same value: the two zeros are
/// equal.
impl PartialEq for Binary32 {
    fn eq(&self, other: &Binary32) -> (r: bool) {
        let a: u32 = self.to_magnitude();
        let b: u32 = other.to_magnitude();
        !self.is_nan() && a == b && (a == 0 || self.is_negative() == other.is_negative())
    }
}

impl vstd::std_specs::cmp::PartialEqSpecImpl for Binary32 {
    open spec fn obeys_eq_spec() -> bool {
        true
    }

    open spec fn eq_spec(&self, other: &Binary32) -> bool {
        !self.nan() && !other.nan() && self.rank() == other.rank()
    }
}

impl Binary32 {
    /// `self <= other`.
    pub fn is_at_most(self, other: Binary32) -> (r: bool)
        ensures
            r == self.at_most(other),
    {
        let a: i64 = self.to_rank();
        let b: i64 = other.to_rank();
        !self.is_nan() && !other.is_nan() && a <= b
    }

    /// `self < other`.
    pub fn is_below(self, other: Binary32) -> (r: bool)
        ensures
            r == self.below(other),
    {
        let a: i64 = self.to_rank();
        let b: i64 = other.to_rank();
        !self.is_nan() && !other.is_nan() && a < b
    }

    /// The position of the number in the order of the numbers.
    pub fn to_rank(self) -> (r: i64)
        ensures
            r == self.rank(),
    {
        if self.is_negative() {
            -(self.to_magnitude() as i64)
        } else {
            self.to_magnitude() as i64
        }
    }

    /// The integer part of a magnitude, whether it is all of it, and whether the rest is half or
    /// more.
    fn whole(magnitude: u32) -> (r: (u128, bool, bool))
        requires
            magnitude < INFINITY_BITS,
        ensures
            r.0 == magnitude_quanta(magnitude as nat) / pow2(149),
            r.1 == (magnitude_quanta(magnitude as nat) % pow2(149) == 0),
            r.2 == (2 * (magnitude_quanta(magnitude as nat) % pow2(149)) >= pow2(149)),
    {
        let (m, shift) = Binary32::split(magnitude);
        let ghost quanta = magnitude_quanta(magnitude as nat);
        proof {
            lemma_pow2_pos(149);
            lemma_pow2_pos(shift as nat);
        }
        if shift >= 149 {
            proof {
                lemma_pow2_adds((shift - 149) as nat, 149);
                let p = pow2((shift - 149) as nat);
                assert(quanta == (m * p) * pow2(149)) by (nonlinear_arith)
                    requires
                        quanta == m * pow2(shift as nat),
                        pow2(shift as nat) == p * pow2(149),
                ;
                vstd::arithmetic::div_mod::lemma_fundamental_div_mod_converse(
                    quanta as int,
                    pow2(149) as int,
                    (m * p) as int,
                    0,
                );
                lemma_wide_whole(m as nat, (shift - 149) as nat);
            }
            (m as u128 * power_of_two(shift - 149), true, false)
        } else {
            let d: u32 = 149 - shift;
            let ghost p = pow2(d as nat);
            proof {
                lemma_pow2_pos(d as nat);
                lemma_pow2_adds(d as nat, shift as nat);
                lemma_scaled_parts(m as nat, p, pow2(shift as nat));
            }
            if d > 100 {
                proof {
                    lemma_small_whole(m, d as nat);
                }
                (0, m == 0, false)
            } else {
                let scale: u128 = power_of_two(d);
                let rest: u128 = m as u128 % scale;
                (m as u128 / scale, rest == 0, 2 * rest >= scale)
            }
        }
    }

    /// The largest integer that is not above the number, held to the range of `i32`.
    pub fn to_floor_i32(self) -> (r: i32)
        ensures
            r == floor_i32(self),
    {
        let magnitude: u32 = self.to_magnitude();
        if magnitude > INFINITY_BITS {
            return 0;
        }
        if magnitude == INFINITY_BITS {
            return if self.is_negative() {
                i32::MIN
            } else {
                i32::MAX
            };
        }
        let (whole, exact, _) = Binary32::whole(magnitude);
        let ghost quanta = self.quanta();
        let ghost unit = pow2(149) as int;
        proof {
            lemma_pow2_pos(149);
            vstd::arithmetic::div_mod::lemma_fundamental_div_mod(quanta as int, unit);
        }
        if self.is_negative() {
            proof {
                if exact {
                    assert(-(quanta as int) == (-(whole as int)) * unit + 0) by (nonlinear_arith)
                        requires
                            quanta == unit * whole,
                    ;
                    vstd::arithmetic::div_mod::lemma_fundamental_div_mod_converse(
                        -(quanta as int),
                        unit,
                        -(whole as int),
                        0,
                    );
                } else {
                    let rest = quanta as int % unit;
                    assert(-(quanta as int) == (-(whole as int) - 1) * unit + (unit - rest))
                        by (nonlinear_arith)
                        requires
                            quanta == unit * whole + rest,
                    ;
                    vstd::arithmetic::div_mod::lemma_fundamental_div_mod_converse(
                        -(quanta as int),
                        unit,
                        -(whole as int) - 1,
                        unit - rest,
                    );
                }
            }
            if whole >= 0x8000_0000 {
                i32::MIN
            } else if exact {
                -(whole as i32)
            } else {
                -(whole as i32) - 1
            }
        } else if whole > 0x7FFF_FFFF {
            i32::MAX
        } else {
            whole as i32
        }
    }

    /// The integer nearest to the number, halves away from zero.
    pub fn round(self) -> (r: Binary32)
        ensures
            r == rounded(self),
    {
        let magnitude: u32 = self.to_magnitude();
        if magnitude >= INFINITY_BITS {
            return self;
        }
        let (whole, exact, half) = Binary32::whole(magnitude);
        let ghost quanta = self.quanta();
        proof {
            lemma_pow2_pos(149);
            lemma_pow2_unfold(150);
            lemma_round_half(quanta, pow2(149));
            lemma_nearest_exact(magnitude as nat, 1);
        }
        if exact {
            proof {
                vstd::arithmetic::div_mod::lemma_fundamental_div_mod(
                    quanta as int,
                    pow2(149) as int,
                );
                assert(whole * pow2(149) == quanta) by (nonlinear_arith)
                    requires
                        quanta == pow2(149) * whole,
                ;
                assert(signed(self.negative(), magnitude as nat) == self);
            }
            return self;
        }
        proof {
            lemma_inexact_is_small(magnitude as nat);
        }
        let count: u64 = if half {
            whole as u64 + 1
        } else {
            whole as u64
        };
        Binary32::with_sign(self.is_negative(), Binary32::from_count(count).to_magnitude())
    }

    /// The number, brought between `low` and `high`.
    pub fn clamp(self, low: Binary32, high: Binary32) -> (r: Binary32)
        ensures
            r == clamped(self, low, high),
    {
        if self.is_below(low) {
            low
        } else if high.is_below(self) {
            high
        } else {
            self
        }
    }

    /// The integer part of the number, held to the range of `usize`.
    pub fn to_usize(self) -> (r: usize)
        ensures
            r == whole_usize(self),
    {
        let magnitude: u32 = self.to_magnitude();
        if magnitude > INFINITY_BITS || self.is_negative() {
            return 0;
        }
        if magnitude == INFINITY_BITS {
            return usize::MAX;
        }
        let (whole, _, _) = Binary32::whole(magnitude);
        if whole > usize::MAX as u128 {
            usize::MAX
        } else {
            whole as usize
        }
    }
}

/// The largest finite numbers fit 128 bits.
proof fn lemma_wide_whole(m: nat, shift: nat)
    requires
        m < 0x100_0000,
        shift <= 104,
    ensures
        m * pow2(shift) < 0x1_0000_0000_0000_0000_0000_0000_0000_0000,
{
    vstd::arithmetic::power2::lemma2_to64();
    vstd::arithmetic::power2::lemma2_to64_rest();
    lemma_pow2_pos(shift);
    if shift < 104 {
        vstd::arithmetic::power2::lemma_pow2_strictly_increases(shift, 104);
    }
    lemma_pow2_adds(52, 52);
    assert(m * pow2(shift) < 0x100_0000 * pow2(104)) by (nonlinear_arith)
        requires
            m < 0x100_0000,
            pow2(shift) <= pow2(104),
            pow2(shift) > 0,
    ;
}

/// Quotient and remainder of two numbers that share a factor.
proof fn lemma_scaled_parts(m: nat, p: nat, factor: nat)
    requires
        p > 0,
        factor > 0,
    ensures
        (m * factor) / (p * factor) == m / p,
        (m * factor) % (p * factor) == (m % p) * factor,
        ((m % p) * factor == 0) == (m % p == 0),
        (2 * ((m % p) * factor) >= p * factor) == (2 * (m % p) >= p),
{
    let q = m / p;
    let r = m % p;
    vstd::arithmetic::div_mod::lemma_fundamental_div_mod(m as int, p as int);
    assert(m * factor == q * (p * factor) + r * factor) by (nonlinear_arith)
        requires
            m == p * q + r,
    ;
    assert(0 <= r * factor < p * factor) by (nonlinear_arith)
        requires
            0 <= r < p,
            factor > 0,
    ;
    vstd::arithmetic::div_mod::lemma_fundamental_div_mod_converse(
        (m * factor) as int,
        (p * factor) as int,
        q as int,
        (r * factor) as int,
    );
    assert((r * factor == 0) == (r == 0)) by (nonlinear_arith)
        requires
            factor > 0,
    ;
    assert((2 * (r * factor) >= p * factor) == (2 * r >= p)) by (nonlinear_arith)
        requires
            factor > 0,
    ;
}

/// A significand that is moved down more than a hundred places is less than half.
proof fn lemma_small_whole(m: u32, d: nat)
    requires
        d > 100,
    ensures
        m as nat / pow2(d) == 0,
        m as nat % pow2(d) == m,
        2 * m < pow2(d),
{
    vstd::arithmetic::power2::lemma2_to64();
    vstd::arithmetic::power2::lemma_pow2_strictly_increases(64, d);
    vstd::arithmetic::div_mod::lemma_fundamental_div_mod_converse(
        m as int,
        pow2(d) as int,
        0,
        m as int,
    );
}

/// Adding a half and dropping the rest rounds halves up.
proof fn lemma_round_half(quanta: nat, unit: nat)
    requires
        unit > 0,
    ensures
        (2 * quanta + unit) / (2 * unit) == if 2 * (quanta % unit) >= unit {
            quanta / unit + 1
        } else {
            quanta / unit
        },
{
    let q = quanta / unit;
    let r = quanta % unit;
    vstd::arithmetic::div_mod::lemma_fundamental_div_mod(quanta as int, unit as int);
    if 2 * r >= unit {
        assert(2 * quanta + unit == (q + 1) * (2 * unit) + (2 * r - unit)) by (nonlinear_arith)
            requires
                quanta == unit * q + r,
        ;
        vstd::arithmetic::div_mod::lemma_fundamental_div_mod_converse(
            (2 * quanta + unit) as int,
            (2 * unit) as int,
            (q + 1) as int,
            2 * r - unit,
        );
    } else {
        assert(2 * quanta + unit == q * (2 * unit) + (2 * r + unit)) by (nonlinear_arith)
            requires
                quanta == unit * q + r,
        ;
        vstd::arithmetic::div_mod::lemma_fundamental_div_mod_converse(
            (2 * quanta + unit) as int,
            (2 * unit) as int,
            q as int,
            (2 * r + unit) as int,
        );
    }
}

/// A number with a fraction has an integer part below `2^24`.
proof fn lemma_inexact_is_small(magnitude: nat)
    requires
        magnitude < INFINITY_BITS,
        magnitude_quanta(magnitude) % pow2(149) != 0,
    ensures
        magnitude_quanta(magnitude) / pow2(149) < 0x100_0000,
{
    lemma_significand(magnitude);
    let m = magnitude_significand(magnitude);
    let shift = magnitude_shift(magnitude);
    let quanta = magnitude_quanta(magnitude);
    let unit = pow2(149);
    lemma_pow2_pos(149);
    lemma_pow2_pos(shift);
    if shift >= 149 {
        lemma_pow2_adds((shift - 149) as nat, 149);
        let p = pow2((shift - 149) as nat);
        assert(quanta == (m * p) * unit) by (nonlinear_arith)
            requires
                quanta == m * pow2(shift),
                pow2(shift) == p * unit,
        ;
        vstd::arithmetic::div_mod::lemma_fundamental_div_mod_converse(
            quanta as int,
            unit as int,
            (m * p) as int,
            0,
        );
    } else {
        vstd::arithmetic::power2::lemma_pow2_strictly_increases(shift, 149);
        assert(quanta < 0x100_0000 * unit) by (nonlinear_arith)
            requires
                quanta == m * pow2(shift),
                m < 0x100_0000,
                0 < pow2(shift) < unit,
        ;
        assert(quanta / unit < 0x100_0000) by (nonlinear_arith)
            requires
                quanta < 0x100_0000 * unit,
                unit > 0,
        ;
    }
}

} // verus!
