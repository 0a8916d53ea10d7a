//! What holds of the comparisons and of the steps from numbers to integers.

use crate::arithmetic::{from_integer, lemma_significand};
use crate::binary32::Binary32;
use crate::identities::lemma_signed;
use crate::integers::{clamped, floor_i32, law_rank_orders_values, rounded, whole_usize};
use crate::nearest_laws::law_small_counts_are_exact;
use crate::rounding::{lemma_nearest_exact, nearest_magnitude};
use crate::rounding_laws::distance;
use vstd::arithmetic::power2::{lemma_pow2_adds, lemma_pow2_pos, lemma_pow2_unfold, pow2};
use vstd::prelude::*;

verus! {

/// Finite numbers compare as their values do, all of them lie between the infinities, and nothing
/// compares with a not-a-number.
pub proof fn law_numbers_compare_as_their_values(a: Binary32, b: Binary32)
    ensures
        a.finite() && b.finite() ==> {
            &&& a.at_most(b) <==> a.value() <= b.value()
            &&& a.below(b) <==> a.value() < b.value()
        },
        a.infinite() && b.finite() ==> {
            &&& a.below(b) <==> a.negative()
            &&& a.at_most(b) <==> a.negative()
            &&& b.below(a) <==> !a.negative()
            &&& b.at_most(a) <==> !a.negative()
        },
        a.infinite() && b.infinite() ==> {
            &&& a.below(b) <==> a.negative() && !b.negative()
            &&& a.at_most(b) <==> a.negative() || !b.negative()
        },
        a.nan() || b.nan() ==> !a.below(b) && !a.at_most(b),
{
    if a.finite() && b.finite() {
        law_rank_orders_values(a, b);
    }
}

/// The integer below a number is at most the number, which is less than the next integer; past the
/// ends of the range it is the end.
pub proof fn law_floor_is_the_integer_below(a: Binary32)
    ensures
        i32::MIN <= floor_i32(a) <= i32::MAX,
        a.finite() && floor_i32(a) > i32::MIN ==> floor_i32(a) * pow2(149) <= a.value(),
        a.finite() && floor_i32(a) < i32::MAX ==> a.value() < (floor_i32(a) + 1) * pow2(149),
        a.infinite() ==> floor_i32(a) == if a.negative() {
            -0x8000_0000
        } else {
            0x7FFF_FFFF
        },
        a.nan() ==> floor_i32(a) == 0,
{
    if a.finite() {
        let d = pow2(149) as int;
        let v = a.value();
        let q = v / d;
        let f = floor_i32(a);
        lemma_pow2_pos(149);
        vstd::arithmetic::div_mod::lemma_fundamental_div_mod(v, d);
        assert(f <= q ==> f * d <= v) by (nonlinear_arith)
            requires
                d > 0,
                v == d * q + v % d,
                v % d >= 0,
        ;
        assert(q <= f ==> v < (f + 1) * d) by (nonlinear_arith)
            requires
                d > 0,
                v == d * q + v % d,
                v % d < d,
        ;
    }
}

/// The integer part of a number that is not negative is at most the number, which is less than the
/// next integer; past the end of the range it is the end, and what is negative or not a number goes
/// to zero.
pub proof fn law_integer_part_is_the_integer_below(a: Binary32)
    ensures
        whole_usize(a) <= usize::MAX,
        a.finite() && !a.negative() ==> whole_usize(a) * pow2(149) <= a.value(),
        a.finite() && whole_usize(a) < usize::MAX ==> a.value() < (whole_usize(a) + 1) * pow2(149),
        a.negative() || a.nan() ==> whole_usize(a) == 0,
        a.infinite() && !a.negative() ==> whole_usize(a) == usize::MAX,
{
    let d = pow2(149) as int;
    lemma_pow2_pos(149);
    if a.finite() && !a.negative() {
        let v = a.value();
        let q = v / d;
        let f = whole_usize(a) as int;
        vstd::arithmetic::div_mod::lemma_fundamental_div_mod(v, d);
        assert(f <= q ==> f * d <= v) by (nonlinear_arith)
            requires
                d > 0,
                v == d * q + v % d,
                v % d >= 0,
        ;
        assert(q <= f ==> v < (f + 1) * d) by (nonlinear_arith)
            requires
                d > 0,
                v == d * q + v % d,
                v % d < d,
        ;
    } else if a.finite() {
        let next = whole_usize(a) + 1;
        assert(next * d == d) by (nonlinear_arith)
            requires
                next == 1,
        ;
    }
}

/// Halves of `unit` and more are rounded up to the next multiple.
proof fn lemma_whole(quanta: nat, unit: nat)
    requires
        unit > 0,
    ensures
        ({
            let whole = (2 * quanta + unit) / (2 * unit);
            2 * (whole * unit) <= 2 * quanta + unit < 2 * (whole * unit) + 2 * unit
        }),
{
    let whole = (2 * quanta + unit) / (2 * unit);
    let r = (2 * quanta + unit) % (2 * unit);
    vstd::arithmetic::div_mod::lemma_fundamental_div_mod(
        (2 * quanta + unit) as int,
        (2 * unit) as int,
    );
    assert((2 * unit) * whole == 2 * (whole * unit)) by (nonlinear_arith);
}

/// A number of twenty-four bits before the point has none behind it.
proof fn lemma_large_is_whole(a: Binary32) -> (w: nat)
    requires
        a.finite(),
        a.quanta() >= 0x80_0000 * pow2(149),
    ensures
        a.quanta() == w * pow2(149),
{
    let m = a.significand();
    let shift = a.shift();
    lemma_significand(a.magnitude());
    lemma_pow2_pos(149);
    lemma_pow2_pos(shift);
    if shift < 149 {
        vstd::arithmetic::power2::lemma2_to64();
        let more: nat = (149 - shift) as nat;
        lemma_pow2_adds(shift, more);
        lemma_pow2_unfold(more);
        lemma_pow2_pos((more - 1) as nat);
        assert(m * pow2(shift) < 0x80_0000 * pow2(149)) by (nonlinear_arith)
            requires
                m < 0x100_0000,
                pow2(149) == pow2(shift) * pow2(more),
                pow2(more) >= 2,
                pow2(shift) > 0,
        ;
        0
    } else {
        let more: nat = (shift - 149) as nat;
        let w = m * pow2(more);
        lemma_pow2_adds(149, more);
        assert(m * pow2(shift) == w * pow2(149)) by (nonlinear_arith)
            requires
                w == m * pow2(more),
                pow2(shift) == pow2(149) * pow2(more),
        ;
        w
    }
}

/// The rounded number is the nearest integer, halves away from zero, with the sign of the number;
/// what is no finite number stays as it is.
pub proof fn law_rounded_is_the_nearest_integer(a: Binary32)
    ensures
        !a.finite() ==> rounded(a) == a,
        a.finite() ==> {
            let r = rounded(a);
            &&& r.finite()
            &&& r.negative() == a.negative()
            &&& r.quanta() % pow2(149) == 0
            &&& 2 * distance(r.value(), a.value()) <= pow2(149)
            &&& 2 * distance(r.value(), a.value()) == pow2(149) ==> r.quanta() > a.quanta()
        },
{
    if a.finite() {
        let unit = pow2(149);
        let q = a.quanta();
        lemma_pow2_pos(149);
        lemma_pow2_unfold(150);
        let whole = (2 * q + unit) / (2 * unit);
        lemma_whole(q, unit);
        if q < 0x80_0000 * unit {
            assert(whole < 0x100_0000) by (nonlinear_arith)
                requires
                    2 * (whole * unit) <= 2 * q + unit,
                    q < 0x80_0000 * unit,
                    unit > 0,
            ;
            law_small_counts_are_exact(whole);
            lemma_signed(false, from_integer(whole).magnitude());
            lemma_signed(a.negative(), from_integer(whole).magnitude());
            assert(from_integer(whole).magnitude() == nearest_magnitude(whole * unit, 1)) by {
                assert(nearest_magnitude(whole * unit, 1) < 0x8000_0000);
                lemma_signed(false, nearest_magnitude(whole * unit, 1));
            }
            assert(rounded(a).quanta() == whole * unit);
            vstd::arithmetic::div_mod::lemma_mod_multiples_basic(whole as int, unit as int);
        } else {
            let w = lemma_large_is_whole(a);
            assert(whole == w) by (nonlinear_arith)
                requires
                    2 * (whole * unit) <= 2 * q + unit,
                    2 * q + unit < 2 * (whole * unit) + 2 * unit,
                    q == w * unit,
                    unit > 0,
            ;
            lemma_nearest_exact(a.magnitude(), 1);
            lemma_signed(a.negative(), a.magnitude());
            assert(rounded(a).quanta() == q);
            vstd::arithmetic::div_mod::lemma_mod_multiples_basic(w as int, unit as int);
        }
    }
}

/// A number that is brought between two others in order does not leave them, and is not moved where
/// it lies there.
pub proof fn law_clamped_lies_between(a: Binary32, low: Binary32, high: Binary32)
    requires
        low.at_most(high),
    ensures
        a.nan() ==> clamped(a, low, high) == a,
        !a.nan() ==> low.at_most(clamped(a, low, high)) && clamped(a, low, high).at_most(high),
        low.at_most(a) && a.at_most(high) ==> clamped(a, low, high) == a,
        a.at_most(low) ==> clamped(a, low, high).rank() == low.rank(),
        high.at_most(a) ==> clamped(a, low, high).rank() == high.rank(),
{
}

} // verus!
