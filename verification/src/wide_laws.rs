//! What the binary64 arithmetic computes: of all numbers, the one nearest to the exact result.

use crate::binary64::{
    lemma_wide_excess, wide_excess, wide_shift, wide_signed, wide_significand, Binary64,
    WIDE_INFINITY_BITS,
};
use crate::rounding::{lemma_pow2_zero, nearest_even};
use crate::rounding_laws::{
    distance, lemma_nearest_even_is_nearest, lemma_nearest_even_ordered,
};
use crate::wide_arithmetic::{
    wide_from_integer, wide_nearest, wide_product, wide_quotient,
};
use vstd::arithmetic::power2::{lemma_pow2_adds, lemma_pow2_pos, lemma_pow2_unfold, pow2};
use vstd::prelude::*;

verus! {

/// A binary64 magnitude in quanta of `2^-1074`.
pub open spec fn wide_quanta(magnitude: nat) -> nat {
    wide_significand(magnitude) * pow2(wide_shift(magnitude))
}

/// `whole` lies in the binade that its excess names.
proof fn lemma_wide_binade(whole: nat)
    ensures
        wide_excess(whole) > 0 ==> pow2(wide_excess(whole)) * 0x10_0000_0000_0000 <= whole,
        whole < pow2(wide_excess(whole)) * 0x20_0000_0000_0000,
    decreases whole,
{
    lemma_pow2_zero();
    if whole >= 0x20_0000_0000_0000 {
        lemma_wide_binade(whole / 2);
        lemma_pow2_unfold(wide_excess(whole));
        if whole / 2 < 0x20_0000_0000_0000 {
            assert(wide_excess(whole / 2) == 0);
        }
    }
}

/// The integer part of what is rounded: it fits a significand, and fills it above the first binade.
proof fn lemma_wide_quotient(num: nat, den: nat)
    requires
        den > 0,
    ensures
        ({
            let shift = wide_excess(num / den);
            let q = num / (den * pow2(shift));
            &&& den * pow2(shift) > 0
            &&& q < 0x20_0000_0000_0000
            &&& shift > 0 ==> q >= 0x10_0000_0000_0000
            &&& nearest_even(num, den * pow2(shift)) == q || nearest_even(num, den * pow2(shift))
                == q + 1
        }),
{
    let whole = num / den;
    let shift = wide_excess(whole);
    let p = pow2(shift);
    lemma_pow2_pos(shift);
    lemma_wide_binade(whole);
    vstd::arithmetic::div_mod::lemma_div_denominator(num as int, den as int, p as int);
    assert(den * p > 0) by (nonlinear_arith)
        requires
            den > 0,
            p > 0,
    ;
    let q = whole / p;
    assert(q < 0x20_0000_0000_0000) by (nonlinear_arith)
        requires
            q == whole / p,
            whole < p * 0x20_0000_0000_0000,
            p > 0,
    ;
    if shift > 0 {
        assert(q >= 0x10_0000_0000_0000) by (nonlinear_arith)
            requires
                q == whole / p,
                p * 0x10_0000_0000_0000 <= whole,
                p > 0,
        ;
    }
}

/// The magnitude that is put together from a binade and a significand has that many quanta; a
/// significand of `2^53` carries into the next binade.
proof fn lemma_wide_quanta_of(shift: nat, n: nat)
    requires
        n <= 0x20_0000_0000_0000,
        shift > 0 ==> n >= 0x10_0000_0000_0000,
    ensures
        wide_quanta(shift * 0x10_0000_0000_0000 + n) == n * pow2(shift),
{
    let magnitude = shift * 0x10_0000_0000_0000 + n;
    if n < 0x20_0000_0000_0000 {
        assert(wide_shift(magnitude) == shift) by {
            if shift == 0 {
                assert(magnitude / 0x10_0000_0000_0000 <= 1);
            } else {
                assert(magnitude / 0x10_0000_0000_0000 == shift + 1);
            }
        }
        assert(wide_significand(magnitude) == n);
    } else {
        assert(magnitude / 0x10_0000_0000_0000 == shift + 2);
        assert(wide_shift(magnitude) == shift + 1);
        assert(wide_significand(magnitude) == 0x10_0000_0000_0000);
        lemma_pow2_unfold(shift + 1);
        let p = pow2(shift);
        assert(0x10_0000_0000_0000 * (2 * p) == 0x20_0000_0000_0000 * p) by (nonlinear_arith);
    }
}

/// A binary64 number in a lower binade lies below the binade `shift`; any other one is a whole
/// multiple of that binade's grain.
proof fn lemma_on_the_wide_grain(magnitude: nat, shift: nat) -> (j: nat)
    requires
        magnitude < WIDE_INFINITY_BITS,
    ensures
        wide_shift(magnitude) >= shift ==> wide_quanta(magnitude) == j * pow2(shift),
        wide_shift(magnitude) < shift ==> wide_quanta(magnitude) < 0x10_0000_0000_0000 * pow2(
            shift,
        ),
{
    let m = wide_significand(magnitude);
    let s = wide_shift(magnitude);
    lemma_pow2_pos(s);
    lemma_pow2_pos(shift);
    if s >= shift {
        lemma_pow2_adds(shift, (s - shift) as nat);
        let j = m * pow2((s - shift) as nat);
        assert(m * pow2(s) == j * pow2(shift)) by (nonlinear_arith)
            requires
                j == m * pow2((s - shift) as nat),
                pow2(s) == pow2(shift) * pow2((s - shift) as nat),
        ;
        j
    } else {
        lemma_pow2_adds(s, (shift - s) as nat);
        lemma_pow2_unfold((shift - s) as nat);
        lemma_pow2_pos((shift - s - 1) as nat);
        let g = pow2((shift - s - 1) as nat);
        assert(m < 0x20_0000_0000_0000);
        assert(m * pow2(s) < 0x10_0000_0000_0000 * pow2(shift)) by (nonlinear_arith)
            requires
                m < 0x20_0000_0000_0000,
                pow2(s) > 0,
                pow2(shift) == pow2(s) * (2 * g),
                g >= 1,
        ;
        0
    }
}

/// Rounding picks the nearest number: no finite magnitude is nearer to `num / den` quanta than the
/// rounded one, and where another is just as near, the rounded pattern is even.
pub proof fn law_wide_rounding_is_nearest(num: nat, den: nat, other: nat)
    requires
        den > 0,
        wide_nearest(num, den) < WIDE_INFINITY_BITS,
        other < WIDE_INFINITY_BITS,
    ensures
        ({
            let rounded = wide_nearest(num, den);
            let here = distance((wide_quanta(rounded) * den) as int, num as int);
            let there = distance((wide_quanta(other) * den) as int, num as int);
            &&& here <= there
            &&& here == there && wide_quanta(other) != wide_quanta(rounded) ==> rounded
                % 2 == 0
        }),
{
    let shift = wide_excess(num / den);
    let p = pow2(shift);
    let grain = den * p;
    let n = nearest_even(num, grain);
    let q = num / grain;
    lemma_wide_quotient(num, den);
    lemma_wide_quanta_of(shift, n);
    lemma_pow2_pos(shift);
    let here = wide_quanta(wide_nearest(num, den)) * den;
    assert(here == n * grain) by (nonlinear_arith)
        requires
            here == n * p * den,
            grain == den * p,
    ;
    let v = wide_quanta(other);
    let j = lemma_on_the_wide_grain(other, shift);
    if wide_shift(other) >= shift {
        assert(v * den == j * grain) by (nonlinear_arith)
            requires
                v == j * p,
                grain == den * p,
        ;
        lemma_nearest_even_is_nearest(num, grain, j);
        if j == n {
            assert(v == wide_quanta(wide_nearest(num, den)));
        }
    } else {
        lemma_nearest_even_is_nearest(num, grain, 0x10_0000_0000_0000);
        let floor = 0x10_0000_0000_0000 * grain;
        assert(v * den < floor) by (nonlinear_arith)
            requires
                v < 0x10_0000_0000_0000 * p,
                grain == den * p,
                floor == 0x10_0000_0000_0000 * grain,
                den > 0,
        ;
        vstd::arithmetic::div_mod::lemma_fundamental_div_mod(num as int, grain as int);
        assert(floor <= num) by (nonlinear_arith)
            requires
                floor == 0x10_0000_0000_0000 * grain,
                q >= 0x10_0000_0000_0000,
                num == grain * q + num % grain,
                num % grain >= 0,
                grain > 0,
        ;
    }
    assert((shift * 0x10_0000_0000_0000 + n) % 2 == n % 2);
}

/// A larger `whole` does not lie in a lower binade.
proof fn lemma_wide_excess_ordered(a: nat, b: nat)
    requires
        a <= b,
    ensures
        wide_excess(a) <= wide_excess(b),
    decreases b,
{
    if a >= 0x20_0000_0000_0000 {
        lemma_wide_excess_ordered(a / 2, b / 2);
    }
}

/// Rounding keeps the order.
pub proof fn law_wide_rounding_keeps_order(a: nat, b: nat, c: nat, d: nat)
    requires
        b > 0,
        d > 0,
        a * d <= c * b,
    ensures
        wide_nearest(a, b) <= wide_nearest(c, d),
{
    vstd::arithmetic::div_mod::lemma_fundamental_div_mod(a as int, b as int);
    vstd::arithmetic::div_mod::lemma_fundamental_div_mod(c as int, d as int);
    let u = a / b;
    let v = c / d;
    assert(u <= v) by (nonlinear_arith)
        requires
            a * d <= c * b,
            a == b * u + a % b,
            c == d * v + c % d,
            0 <= a % b < b,
            0 <= c % d < d,
            b > 0,
            d > 0,
    ;
    lemma_wide_excess_ordered(u, v);
    lemma_wide_quotient(a, b);
    lemma_wide_quotient(c, d);
    let s = wide_excess(u);
    let t = wide_excess(v);
    if s == t {
        let p = pow2(s);
        let bp = b * p;
        let dp = d * p;
        assert(a * dp <= c * bp) by (nonlinear_arith)
            requires
                a * d <= c * b,
                bp == b * p,
                dp == d * p,
        ;
        lemma_nearest_even_ordered(a, bp, c, dp);
    }
}

/// A number that can be held is what it rounds to.
proof fn lemma_wide_exact(magnitude: nat, scale: nat)
    requires
        magnitude < WIDE_INFINITY_BITS,
        scale > 0,
    ensures
        wide_nearest(wide_quanta(magnitude) * scale, scale) == magnitude,
{
    let shift = wide_shift(magnitude);
    let m = wide_significand(magnitude);
    let quanta = wide_quanta(magnitude);
    let p = pow2(shift);
    let num = quanta * scale;
    lemma_pow2_pos(shift);
    vstd::arithmetic::div_mod::lemma_fundamental_div_mod_converse(
        num as int,
        scale as int,
        quanta as int,
        0,
    );
    assert(p * 0x10_0000_0000_0000 <= quanta || shift == 0) by (nonlinear_arith)
        requires
            m >= 0x10_0000_0000_0000 || shift == 0,
            quanta == m * p,
    ;
    assert(quanta < p * 0x20_0000_0000_0000) by (nonlinear_arith)
        requires
            m < 0x20_0000_0000_0000,
            quanta == m * p,
            p > 0,
    ;
    lemma_wide_excess(quanta, shift);
    let unit = scale * p;
    assert(num == m * unit && unit > 0) by (nonlinear_arith)
        requires
            num == (m * p) * scale,
            unit == scale * p,
            scale > 0,
            p > 0,
    ;
    vstd::arithmetic::div_mod::lemma_fundamental_div_mod_converse(
        num as int,
        unit as int,
        m as int,
        0,
    );
}

/// Where rounding leaves the range of the finite numbers, the amount is beyond all of them.
proof fn lemma_wide_overflow(num: nat, den: nat, other: nat)
    requires
        den > 0,
        wide_nearest(num, den) == WIDE_INFINITY_BITS,
        other < WIDE_INFINITY_BITS,
    ensures
        wide_quanta(other) * den < num,
{
    let v = wide_quanta(other);
    if num <= v * den {
        assert(num * 1 <= v * den);
        law_wide_rounding_keeps_order(num, den, v, 1);
        lemma_wide_exact(other, 1);
    }
}

/// Of all finite numbers, `r` is nearest in size to `num / den` quanta; where another one is just
/// as near, the pattern of `r` is even.
pub open spec fn wide_nearest_to(r: Binary64, num: nat, den: nat) -> bool {
    &&& r.finite()
    &&& forall|x: Binary64| #[trigger]
        x.finite() ==> {
            let here = distance((r.quanta() * den) as int, num as int);
            let there = distance((x.quanta() * den) as int, num as int);
            &&& here <= there
            &&& here == there && x.quanta() != r.quanta() ==> r.magnitude() % 2 == 0
        }
}

/// A `whole` below `2^(53 + k)` has to be halved at most `k` times.
proof fn lemma_wide_excess_bound(whole: nat, k: nat)
    requires
        whole < 0x20_0000_0000_0000 * pow2(k),
    ensures
        wide_excess(whole) <= k,
    decreases k,
{
    lemma_pow2_zero();
    if k > 0 && whole >= 0x20_0000_0000_0000 {
        lemma_pow2_unfold(k);
        lemma_wide_excess_bound(whole / 2, (k - 1) as nat);
    }
}

/// `r` has the size of `num / den` quanta, rounded: that of the nearest finite number or, where the
/// amount is beyond all of them, that of infinity.
pub open spec fn wide_rounds_to(r: Binary64, num: nat, den: nat) -> bool {
    &&& !r.nan()
    &&& r.finite() ==> wide_nearest_to(r, num, den)
    &&& r.infinite() ==> forall|x: Binary64| #[trigger]
        x.finite() ==> x.quanta() * den < num
}

/// Rounding an amount gives the nearest number.
proof fn lemma_wide_rounds_to(negative: bool, num: nat, den: nat)
    requires
        den > 0,
    ensures
        wide_rounds_to(wide_signed(negative, wide_nearest(num, den)), num, den),
        wide_signed(negative, wide_nearest(num, den)).negative() == negative,
{
    let r = wide_signed(negative, wide_nearest(num, den));
    assert(r.magnitude() == wide_nearest(num, den));
    if r.finite() {
        assert forall|x: Binary64| #[trigger] x.finite() implies {
            let here = distance((r.quanta() * den) as int, num as int);
            let there = distance((x.quanta() * den) as int, num as int);
            &&& here <= there
            &&& here == there && x.quanta() != r.quanta() ==> r.magnitude() % 2 == 0
        } by {
            law_wide_rounding_is_nearest(num, den, x.magnitude());
        }
    } else {
        assert forall|x: Binary64| #[trigger] x.finite() implies x.quanta() * den < num by {
            lemma_wide_overflow(num, den, x.magnitude());
        }
    }
}

/// An amount that is not too large is rounded to a finite number.
proof fn lemma_wide_nearest_to(num: nat, den: nat)
    requires
        den > 0,
        num < 0x20_0000_0000_0000 * pow2(1200) * den,
    ensures
        wide_nearest(num, den) < WIDE_INFINITY_BITS,
        wide_nearest_to(wide_signed(false, wide_nearest(num, den)), num, den),
        !wide_signed(false, wide_nearest(num, den)).negative(),
{
    let whole = num / den;
    let bound = 0x20_0000_0000_0000 * pow2(1200);
    assert(whole < bound) by (nonlinear_arith)
        requires
            whole == num / den,
            num < bound * den,
            den > 0,
    ;
    lemma_wide_excess_bound(whole, 1200);
    lemma_wide_quotient(num, den);
    lemma_wide_rounds_to(false, num, den);
}

/// What is nearest to an amount is at most twice as large.
pub proof fn lemma_wide_at_most_twice(r: Binary64, num: nat, den: nat)
    requires
        wide_nearest_to(r, num, den),
    ensures
        r.quanta() * den <= 2 * num,
{
    let zero = Binary64 { bits: 0 };
    assert(zero.finite());
    assert(zero.quanta() == 0) by {
        assert(wide_significand(0) == 0);
        assert(0 * pow2(0) == 0) by (nonlinear_arith);
    }
    assert(0 * den == 0) by (nonlinear_arith);
}

/// One is `2^1074` quanta.
proof fn lemma_wide_one()
    ensures
        (Binary64 { bits: 0x3FF0_0000_0000_0000 }).finite(),
        (Binary64 { bits: 0x3FF0_0000_0000_0000 }).quanta() == pow2(1074),
{
    let magnitude: nat = 0x3FF0_0000_0000_0000;
    assert(magnitude / 0x10_0000_0000_0000 == 1023);
    assert(wide_shift(magnitude) == 1022);
    assert(wide_significand(magnitude) == 0x10_0000_0000_0000);
    vstd::arithmetic::power2::lemma2_to64();
    vstd::arithmetic::power2::lemma2_to64_rest();
    lemma_pow2_adds(52, 1022);
}

/// A count is held by the number nearest to it, and one that is not zero by one or more.
pub proof fn law_wide_count_is_nearest(count: nat)
    requires
        count < 0x1_0000_0000_0000_0000,
    ensures
        wide_nearest_to(wide_from_integer(count), count * pow2(1074), 1),
        !wide_from_integer(count).negative(),
        count > 0 ==> wide_from_integer(count).quanta() >= pow2(1074),
        wide_from_integer(count).quanta() <= 2 * (count * pow2(1074)),
{
    let unit = pow2(1074);
    let num = count * unit;
    let r = wide_from_integer(count);
    lemma_pow2_pos(1074);
    vstd::arithmetic::power2::lemma2_to64();
    vstd::arithmetic::power2::lemma2_to64_rest();
    lemma_pow2_adds(126, 1074);
    lemma_pow2_adds(63, 63);
    assert(num < 0x20_0000_0000_0000 * pow2(1200) * 1) by (nonlinear_arith)
        requires
            num == count * unit,
            count < 0x1_0000_0000_0000_0000,
            pow2(1200) == pow2(126) * unit,
            pow2(126) == pow2(63) * pow2(63),
            pow2(63) == 0x8000_0000_0000_0000,
            unit > 0,
    ;
    lemma_wide_nearest_to(num, 1);
    lemma_wide_at_most_twice(r, num, 1);
    if count > 0 {
        let one = Binary64 { bits: 0x3FF0_0000_0000_0000 };
        lemma_wide_one();
        assert(one.finite());
        assert(num >= unit) by (nonlinear_arith)
            requires
                num == count * unit,
                count >= 1,
        ;
    }
}

/// A product of finite numbers rounds the exact one.
pub proof fn law_wide_product_rounds(a: Binary64, b: Binary64)
    requires
        a.finite(),
        b.finite(),
    ensures
        wide_rounds_to(wide_product(a, b), a.quanta() * b.quanta(), pow2(1074)),
        wide_product(a, b).negative() == (a.negative() != b.negative()),
        a.quanta() * b.quanta() < 0x20_0000_0000_0000 * pow2(1200) * pow2(1074) ==> wide_product(
            a,
            b,
        ).finite(),
{
    let num = a.quanta() * b.quanta();
    lemma_pow2_pos(1074);
    lemma_wide_rounds_to(a.negative() != b.negative(), num, pow2(1074));
    if num < 0x20_0000_0000_0000 * pow2(1200) * pow2(1074) {
        lemma_wide_nearest_to(num, pow2(1074));
    }
}

/// Only the two zeros have no quanta.
proof fn lemma_wide_quanta_zero(a: Binary64)
    requires
        a.finite(),
    ensures
        a.quanta() == 0 <==> a.zero(),
{
    let m = wide_significand(a.magnitude());
    let p = pow2(wide_shift(a.magnitude()));
    lemma_pow2_pos(wide_shift(a.magnitude()));
    assert(m * p == 0 <==> m == 0) by (nonlinear_arith)
        requires
            p > 0,
    ;
}

/// A quotient of finite numbers rounds the exact one.
pub proof fn law_wide_quotient_rounds(a: Binary64, b: Binary64)
    requires
        a.finite(),
        b.finite(),
        !b.zero(),
    ensures
        b.quanta() > 0,
        wide_rounds_to(wide_quotient(a, b), a.quanta() * pow2(1074), b.quanta()),
        wide_quotient(a, b).negative() == (a.negative() != b.negative()),
        a.quanta() * pow2(1074) < 0x20_0000_0000_0000 * pow2(1200) * b.quanta() ==> wide_quotient(
            a,
            b,
        ).finite(),
{
    let num = a.quanta() * pow2(1074);
    lemma_wide_quanta_zero(b);
    lemma_wide_rounds_to(a.negative() != b.negative(), num, b.quanta());
    if num < 0x20_0000_0000_0000 * pow2(1200) * b.quanta() {
        lemma_wide_nearest_to(num, b.quanta());
    }
}

/// What products and quotients with an infinity, a zero or a not-a-number are.
pub proof fn law_wide_products_and_quotients_of_limits(a: Binary64, b: Binary64)
    ensures
        a.nan() || b.nan() ==> wide_product(a, b).nan() && wide_quotient(a, b).nan(),
        !wide_product(a, b).nan() ==> wide_product(a, b).negative() == (a.negative()
            != b.negative()),
        !wide_quotient(a, b).nan() ==> wide_quotient(a, b).negative() == (a.negative()
            != b.negative()),
        !a.nan() && !b.nan() ==> {
            &&& wide_product(a, b).nan() <==> a.infinite() && b.zero() || a.zero() && b.infinite()
            &&& wide_quotient(a, b).nan() <==> a.infinite() && b.infinite() || a.zero() && b.zero()
            &&& a.infinite() || b.infinite() ==> wide_product(a, b).nan() || wide_product(
                a,
                b,
            ).infinite()
            &&& b.zero() && !a.zero() ==> wide_quotient(a, b).infinite()
            &&& b.infinite() && a.finite() ==> wide_quotient(a, b).zero()
            &&& a.infinite() && b.finite() ==> wide_quotient(a, b).infinite()
        },
{
    lemma_pow2_pos(1074);
    if a.finite() && b.finite() {
        law_wide_product_rounds(a, b);
        if !b.zero() {
            law_wide_quotient_rounds(a, b);
        }
    }
}

} // verus!
