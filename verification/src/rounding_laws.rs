//! What rounding to a binary32 number means: no other number is nearer, and the order is kept.

use crate::binary32::{
    magnitude_quanta, magnitude_shift, magnitude_significand, INFINITY_BITS,
};
use crate::rounding::{excess, lemma_pow2_zero, nearest_even, nearest_magnitude};
use vstd::arithmetic::power2::{lemma_pow2_adds, lemma_pow2_pos, lemma_pow2_unfold, pow2};
use vstd::prelude::*;

verus! {

/// `whole` lies in the binade that its excess names.
proof fn lemma_excess_binade(whole: nat)
    ensures
        excess(whole) > 0 ==> pow2(excess(whole)) * 0x80_0000 <= whole,
        whole < pow2(excess(whole)) * 0x100_0000,
    decreases whole,
{
    lemma_pow2_zero();
    if whole >= 0x100_0000 {
        lemma_excess_binade(whole / 2);
        lemma_pow2_unfold(excess(whole));
        if whole / 2 < 0x100_0000 {
            assert(excess(whole / 2) == 0);
        }
    }
}

/// A larger `whole` does not lie in a lower binade.
proof fn lemma_excess_ordered(a: nat, b: nat)
    requires
        a <= b,
    ensures
        excess(a) <= excess(b),
    decreases b,
{
    if a >= 0x100_0000 {
        lemma_excess_ordered(a / 2, b / 2);
    }
}

/// The integer part of what is rounded: it fits a significand, and fills it above the first binade.
proof fn lemma_scaled_quotient(num: nat, den: nat)
    requires
        den > 0,
    ensures
        ({
            let shift = excess(num / den);
            let q = num / (den * pow2(shift));
            &&& den * pow2(shift) > 0
            &&& q < 0x100_0000
            &&& shift > 0 ==> q >= 0x80_0000
            &&& nearest_even(num, den * pow2(shift)) == q || nearest_even(num, den * pow2(shift))
                == q + 1
        }),
{
    let whole = num / den;
    let shift = excess(whole);
    let p = pow2(shift);
    lemma_pow2_pos(shift);
    lemma_excess_binade(whole);
    vstd::arithmetic::div_mod::lemma_div_denominator(num as int, den as int, p as int);
    assert(den * p > 0) by (nonlinear_arith)
        requires
            den > 0,
            p > 0,
    ;
    let q = whole / p;
    assert(q < 0x100_0000) by (nonlinear_arith)
        requires
            q == whole / p,
            whole < p * 0x100_0000,
            p > 0,
    ;
    if shift > 0 {
        assert(q >= 0x80_0000) by (nonlinear_arith)
            requires
                q == whole / p,
                p * 0x80_0000 <= whole,
                p > 0,
        ;
    }
}

/// The magnitude that is put together from a binade and a significand has that many quanta; a
/// significand of `2^24` carries into the next binade.
pub proof fn lemma_quanta_of(shift: nat, n: nat)
    requires
        n <= 0x100_0000,
        shift > 0 ==> n >= 0x80_0000,
    ensures
        magnitude_quanta(shift * 0x80_0000 + n) == n * pow2(shift),
{
    let magnitude = shift * 0x80_0000 + n;
    if n < 0x100_0000 {
        assert(magnitude_shift(magnitude) == shift) by {
            if shift == 0 {
                assert(magnitude / 0x80_0000 <= 1);
            } else {
                assert(magnitude / 0x80_0000 == shift + 1);
            }
        }
        assert(magnitude_significand(magnitude) == n);
    } else {
        assert(magnitude / 0x80_0000 == shift + 2);
        assert(magnitude_shift(magnitude) == shift + 1);
        assert(magnitude_significand(magnitude) == 0x80_0000);
        lemma_pow2_unfold(shift + 1);
        let p = pow2(shift);
        assert(0x80_0000 * (2 * p) == 0x100_0000 * p) by (nonlinear_arith);
    }
}

/// The distance between `a` and `b`.
pub open spec fn distance(a: int, b: int) -> int {
    if a < b {
        b - a
    } else {
        a - b
    }
}

/// No integer is nearer to `num / den` than the one that is rounded to, and where another one is
/// just as near, that one is odd.
pub proof fn lemma_nearest_even_is_nearest(num: nat, den: nat, j: nat)
    requires
        den > 0,
    ensures
        distance((nearest_even(num, den) * den) as int, num as int) <= distance(
            (j * den) as int,
            num as int,
        ),
        distance((nearest_even(num, den) * den) as int, num as int) == distance(
            (j * den) as int,
            num as int,
        ) ==> j == nearest_even(num, den) || nearest_even(num, den) % 2 == 0,
{
    let q = num / den;
    let r = num % den;
    vstd::arithmetic::div_mod::lemma_fundamental_div_mod(num as int, den as int);
    assert(q * den == num - r) by (nonlinear_arith)
        requires
            num == den * q + r,
    ;
    assert((q + 1) * den == num - r + den) by (nonlinear_arith)
        requires
            num == den * q + r,
    ;
    if j < q {
        assert(j * den <= q * den - den) by (nonlinear_arith)
            requires
                j + 1 <= q,
        ;
    } else if j > q + 1 {
        assert(j * den >= (q + 1) * den + den) by (nonlinear_arith)
            requires
                j >= q + 2,
        ;
    }
}

/// A binary32 number in a lower binade lies below the binade `shift`; any other one is a whole
/// multiple of that binade's grain.
proof fn lemma_on_the_grain(magnitude: nat, shift: nat) -> (j: nat)
    requires
        magnitude < INFINITY_BITS,
    ensures
        magnitude_shift(magnitude) >= shift ==> magnitude_quanta(magnitude) == j * pow2(shift),
        magnitude_shift(magnitude) < shift ==> magnitude_quanta(magnitude) < 0x80_0000 * pow2(
            shift,
        ),
{
    let m = magnitude_significand(magnitude);
    let s = magnitude_shift(magnitude);
    lemma_pow2_pos(s);
    lemma_pow2_pos(shift);
    if s >= shift {
        lemma_pow2_adds(shift, (s - shift) as nat);
        let j = m * pow2((s - shift) as nat);
        assert(m * pow2(s) == j * pow2(shift)) by (nonlinear_arith)
            requires
                j == m * pow2((s - shift) as nat),
                pow2(s) == pow2(shift) * pow2((s - shift) as nat),
        ;
        j
    } else {
        lemma_pow2_adds(s, (shift - s) as nat);
        lemma_pow2_unfold((shift - s) as nat);
        lemma_pow2_pos((shift - s - 1) as nat);
        let g = pow2((shift - s - 1) as nat);
        assert(m < 0x100_0000);
        assert(m * pow2(s) < 0x80_0000 * pow2(shift)) by (nonlinear_arith)
            requires
                m < 0x100_0000,
                pow2(s) > 0,
                pow2(shift) == pow2(s) * (2 * g),
                g >= 1,
        ;
        0
    }
}

/// Rounding picks the nearest number: no finite magnitude is nearer to `num / den` quanta than the
/// rounded one, and where another is just as near, the rounded pattern is even.
pub proof fn law_rounding_is_nearest(num: nat, den: nat, other: nat)
    requires
        den > 0,
        nearest_magnitude(num, den) < INFINITY_BITS,
        other < INFINITY_BITS,
    ensures
        ({
            let rounded = nearest_magnitude(num, den);
            let here = distance((magnitude_quanta(rounded) * den) as int, num as int);
            let there = distance((magnitude_quanta(other) * den) as int, num as int);
            &&& here <= there
            &&& here == there && magnitude_quanta(other) != magnitude_quanta(rounded) ==> rounded
                % 2 == 0
        }),
{
    let shift = excess(num / den);
    let p = pow2(shift);
    let grain = den * p;
    let n = nearest_even(num, grain);
    let q = num / grain;
    lemma_scaled_quotient(num, den);
    lemma_quanta_of(shift, n);
    lemma_pow2_pos(shift);
    let here = magnitude_quanta(nearest_magnitude(num, den)) * den;
    assert(here == n * grain) by (nonlinear_arith)
        requires
            here == n * p * den,
            grain == den * p,
    ;
    let v = magnitude_quanta(other);
    let j = lemma_on_the_grain(other, shift);
    if magnitude_shift(other) >= shift {
        assert(v * den == j * grain) by (nonlinear_arith)
            requires
                v == j * p,
                grain == den * p,
        ;
        lemma_nearest_even_is_nearest(num, grain, j);
        if j == n {
            assert(v == magnitude_quanta(nearest_magnitude(num, den)));
        }
    } else {
        lemma_nearest_even_is_nearest(num, grain, 0x80_0000);
        let floor = 0x80_0000 * grain;
        assert(v * den < floor) by (nonlinear_arith)
            requires
                v < 0x80_0000 * p,
                grain == den * p,
                floor == 0x80_0000 * grain,
                den > 0,
        ;
        vstd::arithmetic::div_mod::lemma_fundamental_div_mod(num as int, grain as int);
        assert(floor <= num) by (nonlinear_arith)
            requires
                floor == 0x80_0000 * grain,
                q >= 0x80_0000,
                num == grain * q + num % grain,
                num % grain >= 0,
                grain > 0,
        ;
    }
    assert((shift * 0x80_0000 + n) % 2 == n % 2);
}

/// Rounding to an integer keeps the order.
pub proof fn lemma_nearest_even_ordered(a: nat, b: nat, c: nat, d: nat)
    requires
        b > 0,
        d > 0,
        a * d <= c * b,
    ensures
        nearest_even(a, b) <= nearest_even(c, d),
{
    let q = a / b;
    let r = a % b;
    let s = c / d;
    let t = c % d;
    vstd::arithmetic::div_mod::lemma_fundamental_div_mod(a as int, b as int);
    vstd::arithmetic::div_mod::lemma_fundamental_div_mod(c as int, d as int);
    assert(q <= s) by (nonlinear_arith)
        requires
            a * d <= c * b,
            a == b * q + r,
            c == d * s + t,
            0 <= r < b,
            0 <= t < d,
            b > 0,
            d > 0,
    ;
    if q == s {
        assert(r * d <= t * b) by (nonlinear_arith)
            requires
                a * d <= c * b,
                a == b * q + r,
                c == d * s + t,
                q == s,
        ;
        assert(2 * r > b ==> 2 * t > d) by (nonlinear_arith)
            requires
                r * d <= t * b,
                b > 0,
                d > 0,
        ;
        assert(2 * r == b ==> 2 * t >= d) by (nonlinear_arith)
            requires
                r * d <= t * b,
                b > 0,
                d > 0,
        ;
    }
}

/// Rounding keeps the order.
pub proof fn law_rounding_keeps_order(a: nat, b: nat, c: nat, d: nat)
    requires
        b > 0,
        d > 0,
        a * d <= c * b,
    ensures
        nearest_magnitude(a, b) <= nearest_magnitude(c, d),
{
    vstd::arithmetic::div_mod::lemma_fundamental_div_mod(a as int, b as int);
    vstd::arithmetic::div_mod::lemma_fundamental_div_mod(c as int, d as int);
    let u = a / b;
    let v = c / d;
    assert(u <= v) by (nonlinear_arith)
        requires
            a * d <= c * b,
            a == b * u + a % b,
            c == d * v + c % d,
            0 <= a % b < b,
            0 <= c % d < d,
            b > 0,
            d > 0,
    ;
    lemma_excess_ordered(u, v);
    lemma_scaled_quotient(a, b);
    lemma_scaled_quotient(c, d);
    let s = excess(u);
    let t = excess(v);
    if s == t {
        let p = pow2(s);
        let bp = b * p;
        let dp = d * p;
        assert(a * dp <= c * bp) by (nonlinear_arith)
            requires
                a * d <= c * b,
                bp == b * p,
                dp == d * p,
        ;
        lemma_nearest_even_ordered(a, bp, c, dp);
    }
}

/// The step between neighbouring numbers where `amount` quanta lie.
pub open spec fn grain(amount: nat) -> nat {
    pow2(excess(amount))
}

/// Rounding errs by at most half the step between neighbouring numbers.
pub proof fn law_rounding_error_is_half_a_grain(amount: nat)
    requires
        nearest_magnitude(amount, 1) < INFINITY_BITS,
    ensures
        2 * distance(magnitude_quanta(nearest_magnitude(amount, 1)) as int, amount as int) <= grain(
            amount,
        ),
{
    let shift = excess(amount);
    let p = pow2(shift);
    assert(amount / 1 == amount);
    assert(1 * p == p);
    lemma_scaled_quotient(amount, 1);
    let n = nearest_even(amount, p);
    lemma_quanta_of(shift, n);
    let q = amount / p;
    let r = amount % p;
    vstd::arithmetic::div_mod::lemma_fundamental_div_mod(amount as int, p as int);
    assert(q * p == amount - r) by (nonlinear_arith)
        requires
            amount == p * q + r,
    ;
    assert((q + 1) * p == amount - r + p) by (nonlinear_arith)
        requires
            amount == p * q + r,
    ;
}

} // verus!
