//! What the arithmetic computes: of all numbers, the one nearest to the exact result.

use crate::arithmetic::{
    difference, from_integer, lemma_quanta_increase, lemma_quanta_zero, lemma_significand,
    magnitude_of, negation, product, quotient, sum,
};
use crate::binary32::{
    magnitude_quanta, magnitude_shift, magnitude_significand, Binary32, INFINITY_BITS,
};
use crate::identities::{lemma_count, lemma_one, lemma_signed};
use crate::order::{lemma_negation, lemma_product_rank, lemma_sum_rank, nearest_rank};
use crate::rounding::{
    lemma_nearest_exact, lemma_nearest_none, lemma_pow2_zero, nearest_magnitude,
};
use crate::rounding_laws::{
    distance, law_rounding_is_nearest, law_rounding_keeps_order, lemma_quanta_of,
};
use vstd::arithmetic::power2::{lemma_pow2_pos, lemma_pow2_unfold, pow2};
use vstd::prelude::*;

verus! {

/// Of all finite numbers, `r` is nearest to `num / den` quanta; where another one is just as near,
/// the pattern of `r` is even.
pub open spec fn nearest_to(r: Binary32, num: int, den: nat) -> bool {
    &&& r.finite()
    &&& forall|x: Binary32| #[trigger]
        x.finite() ==> {
            &&& distance(r.value() * den, num) <= distance(x.value() * den, num)
            &&& distance(r.value() * den, num) == distance(x.value() * den, num) && x.value()
                != r.value() ==> r.magnitude() % 2 == 0
        }
}

/// A number whose rank is that of the rounded amount is nearest to the amount.
proof fn lemma_nearest_to(r: Binary32, num: int, den: nat)
    requires
        den > 0,
        r.finite(),
        r.rank() == nearest_rank(num, den),
    ensures
        nearest_to(r, num, den),
{
    let amount = magnitude_of(num);
    let q = r.quanta() as int;
    let d = den as int;
    lemma_quanta_zero(r.magnitude());
    assert(nearest_magnitude(amount, den) == r.magnitude());
    assert forall|x: Binary32| #[trigger] x.finite() implies {
        &&& distance(r.value() * den, num) <= distance(x.value() * den, num)
        &&& distance(r.value() * den, num) == distance(x.value() * den, num) && x.value()
            != r.value() ==> r.magnitude() % 2 == 0
    } by {
        let o = x.quanta() as int;
        lemma_quanta_zero(x.magnitude());
        law_rounding_is_nearest(amount, den, x.magnitude());
        law_rounding_is_nearest(amount, den, 0);
        lemma_quanta_zero(0);
        assert((-q) * d == -(q * d) && (-o) * d == -(o * d) && q * d >= 0 && o * d >= 0 && 0 * d
            == 0) by (nonlinear_arith)
            requires
                q >= 0,
                o >= 0,
                d > 0,
        ;
        assert(o > 0 ==> o * d > 0) by (nonlinear_arith)
            requires
                d > 0,
        ;
        if q == 0 {
            assert(q * d == 0);
        }
    }
}

/// A sum is the number nearest to the exact sum.
pub proof fn law_sum_is_nearest(a: Binary32, b: Binary32)
    requires
        a.finite(),
        b.finite(),
        sum(a, b).finite(),
    ensures
        nearest_to(sum(a, b), a.value() + b.value(), 1),
{
    lemma_sum_rank(a, b);
    lemma_nearest_to(sum(a, b), a.value() + b.value(), 1);
}

/// A difference is the number nearest to the exact difference.
pub proof fn law_difference_is_nearest(a: Binary32, b: Binary32)
    requires
        a.finite(),
        b.finite(),
        difference(a, b).finite(),
    ensures
        nearest_to(difference(a, b), a.value() - b.value(), 1),
{
    lemma_negation(b);
    law_sum_is_nearest(a, negation(b));
}

/// A product is the number nearest to the exact product.
pub proof fn law_product_is_nearest(a: Binary32, b: Binary32)
    requires
        a.finite(),
        b.finite(),
        product(a, b).finite(),
    ensures
        nearest_to(product(a, b), a.value() * b.value(), pow2(149)),
{
    lemma_pow2_pos(149);
    lemma_product_rank(a, b);
    lemma_nearest_to(product(a, b), a.value() * b.value(), pow2(149));
}

/// The rank of a quotient.
proof fn lemma_signed_quotient_rank(a: Binary32, b: Binary32)
    requires
        a.finite(),
        b.finite(),
        !b.zero(),
    ensures
        b.quanta() > 0,
        !quotient(a, b).nan(),
        quotient(a, b).rank() == nearest_rank(
            if b.negative() {
                -(a.value() * pow2(149))
            } else {
                a.value() * pow2(149)
            },
            b.quanta(),
        ),
{
    let qa = a.quanta() as int;
    let p = pow2(149) as int;
    lemma_pow2_pos(149);
    lemma_quanta_zero(b.magnitude());
    lemma_signed(
        a.negative() != b.negative(),
        nearest_magnitude(a.quanta() * pow2(149), b.quanta()),
    );
    assert((-qa) * p == -(qa * p) && qa * p >= 0) by (nonlinear_arith)
        requires
            qa >= 0,
            p >= 0,
    ;
    lemma_nearest_none(b.quanta());
}

/// A quotient is the number nearest to the exact quotient.
pub proof fn law_quotient_is_nearest(a: Binary32, b: Binary32)
    requires
        a.finite(),
        b.finite(),
        !b.zero(),
        quotient(a, b).finite(),
    ensures
        b.quanta() > 0,
        nearest_to(
            quotient(a, b),
            if b.negative() {
                -(a.value() * pow2(149))
            } else {
                a.value() * pow2(149)
            },
            b.quanta(),
        ),
{
    lemma_signed_quotient_rank(a, b);
    lemma_nearest_to(
        quotient(a, b),
        if b.negative() {
            -(a.value() * pow2(149))
        } else {
            a.value() * pow2(149)
        },
        b.quanta(),
    );
}

/// A count is held by the number nearest to it; one is `2^149` quanta.
pub proof fn law_count_is_nearest(count: nat)
    requires
        count < 0x1_0000_0000_0000_0000,
    ensures
        from_integer(count).finite(),
        nearest_to(from_integer(count), (count * pow2(149)) as int, 1),
{
    lemma_one();
    if count > 0 {
        lemma_count(count);
    }
    let r = from_integer(count);
    assert(count * pow2(149) >= 0) by (nonlinear_arith);
    lemma_signed(false, nearest_magnitude(count * pow2(149), 1));
    lemma_nearest_to(r, (count * pow2(149)) as int, 1);
}

/// A result that is not finite, from finite numbers, exceeds every finite number.
proof fn lemma_overflow(num: nat, den: nat, other: nat)
    requires
        den > 0,
        nearest_magnitude(num, den) == INFINITY_BITS,
        other < INFINITY_BITS,
    ensures
        magnitude_quanta(other) * den < num,
{
    let v = magnitude_quanta(other);
    if num <= v * den {
        assert(num * 1 <= v * den);
        law_rounding_keeps_order(num, den, v, 1);
        lemma_nearest_exact(other, 1);
    }
}

/// Where arithmetic on finite numbers leaves their range, the exact result is beyond every finite
/// number, and the infinity has its sign.
pub proof fn law_overflow_is_beyond_all_numbers(a: Binary32, b: Binary32, x: Binary32)
    requires
        a.finite(),
        b.finite(),
        x.finite(),
    ensures
        !sum(a, b).finite() ==> sum(a, b).infinite() && (if sum(a, b).negative() {
            a.value() + b.value() < x.value()
        } else {
            x.value() < a.value() + b.value()
        }),
        !product(a, b).finite() ==> product(a, b).infinite() && (if product(a, b).negative() {
            a.value() * b.value() < x.value() * pow2(149)
        } else {
            x.value() * pow2(149) < a.value() * b.value()
        }),
{
    let d = pow2(149);
    lemma_pow2_pos(149);
    lemma_sum_rank(a, b);
    lemma_product_rank(a, b);
    lemma_quanta_zero(x.magnitude());
    let q = x.quanta() as int;
    assert((-q) * d == -(q * d) && q * d >= 0) by (nonlinear_arith)
        requires
            q >= 0,
            d >= 0,
    ;
    let s = a.value() + b.value();
    let p = a.value() * b.value();
    if !sum(a, b).finite() {
        assert(sum(a, b).magnitude() == INFINITY_BITS);
        lemma_overflow(magnitude_of(s), 1, x.magnitude());
    }
    if !product(a, b).finite() {
        assert(product(a, b).magnitude() == INFINITY_BITS);
        lemma_overflow(magnitude_of(p), d, x.magnitude());
    }
}

/// Infinities and not-a-numbers: what is not a number stays so, opposite infinities cancel to none,
/// and otherwise an infinity wins a sum with its sign.
pub proof fn law_sum_of_infinities(a: Binary32, b: Binary32)
    ensures
        a.nan() || b.nan() ==> sum(a, b).nan(),
        a.infinite() && b.infinite() ==> (if a.negative() == b.negative() {
            sum(a, b) == a
        } else {
            sum(a, b).nan()
        }),
        a.infinite() && b.finite() ==> sum(a, b) == a && sum(b, a) == a,
        a.finite() && b.finite() ==> !sum(a, b).nan(),
{
    if a.finite() && b.finite() {
        lemma_sum_rank(a, b);
    }
}

/// A product or a quotient is negative exactly where one of its numbers is, unless it is not a
/// number.
pub proof fn law_signs_of_products_and_quotients(a: Binary32, b: Binary32)
    ensures
        a.nan() || b.nan() ==> product(a, b).nan() && quotient(a, b).nan(),
        !product(a, b).nan() ==> product(a, b).negative() == (a.negative() != b.negative()),
        !quotient(a, b).nan() ==> quotient(a, b).negative() == (a.negative() != b.negative()),
        !a.nan() && !b.nan() ==> {
            &&& product(a, b).nan() <==> a.infinite() && b.zero() || a.zero() && b.infinite()
            &&& quotient(a, b).nan() <==> a.infinite() && b.infinite() || a.zero() && b.zero()
            &&& a.infinite() || b.infinite() ==> product(a, b).nan() || product(a, b).infinite()
            &&& b.zero() && !a.zero() ==> quotient(a, b).infinite()
            &&& b.infinite() && a.finite() ==> quotient(a, b).zero()
            &&& a.infinite() && b.finite() ==> quotient(a, b).infinite()
        },
{
    let negative = a.negative() != b.negative();
    lemma_signed(negative, INFINITY_BITS as nat);
    lemma_signed(negative, 0);
    lemma_signed(negative, nearest_magnitude(a.quanta() * b.quanta(), pow2(149)));
    lemma_signed(negative, nearest_magnitude(a.quanta() * pow2(149), b.quanta()));
}

/// A count, doubled until its leading bit is that of a significand.
proof fn lemma_normalised(count: nat) -> (k: nat)
    requires
        0 < count < 0x100_0000,
    ensures
        k <= 23,
        0x80_0000 <= count * pow2(k) < 0x100_0000,
    decreases 0x100_0000 - count,
{
    lemma_pow2_zero();
    if count >= 0x80_0000 {
        0
    } else {
        let k = lemma_normalised(2 * count);
        let more: nat = k + 1;
        lemma_pow2_unfold(more);
        assert(count * pow2(more) == (2 * count) * pow2(k)) by (nonlinear_arith)
            requires
                pow2(more) == 2 * pow2(k),
        ;
        if more == 24 {
            lemma_pow2_pos(k);
            vstd::arithmetic::power2::lemma2_to64();
            assert(count * 0x100_0000 >= 0x100_0000) by (nonlinear_arith)
                requires
                    count > 0,
            ;
        }
        more
    }
}

/// A count of fewer than twenty-five bits is held exactly.
pub proof fn law_small_counts_are_exact(count: nat)
    requires
        count < 0x100_0000,
    ensures
        from_integer(count).finite(),
        !from_integer(count).negative(),
        from_integer(count).value() == count * pow2(149),
{
    lemma_one();
    if count == 0 {
        lemma_quanta_zero(0);
        assert(0 * pow2(149) == 0) by (nonlinear_arith);
    } else {
        let k = lemma_normalised(count);
        let shift: nat = (149 - k) as nat;
        let n = count * pow2(k);
        let magnitude = shift * 0x80_0000 + n;
        lemma_quanta_of(shift, n);
        vstd::arithmetic::power2::lemma_pow2_adds(k, shift);
        assert(n * pow2(shift) == count * pow2(149)) by (nonlinear_arith)
            requires
                n == count * pow2(k),
                pow2(k) * pow2(shift) == pow2(149),
        ;
        lemma_nearest_exact(magnitude, 1);
        lemma_count(count);
        lemma_signed(false, magnitude);
    }
}

/// `r` is `num / den` quanta, rounded: the nearest finite number or, where the amount is beyond all
/// of them, the infinity on that side.
pub open spec fn rounds_to(r: Binary32, num: int, den: nat) -> bool {
    &&& !r.nan()
    &&& r.finite() ==> nearest_to(r, num, den)
    &&& r.infinite() ==> forall|x: Binary32| #[trigger]
        x.finite() ==> if r.negative() {
            num < x.value() * den
        } else {
            x.value() * den < num
        }
}

/// Arithmetic on finite numbers rounds the exact result.
pub proof fn law_arithmetic_rounds_the_exact_result(a: Binary32, b: Binary32)
    requires
        a.finite(),
        b.finite(),
    ensures
        rounds_to(sum(a, b), a.value() + b.value(), 1),
        rounds_to(difference(a, b), a.value() - b.value(), 1),
        rounds_to(product(a, b), a.value() * b.value(), pow2(149)),
{
    lemma_negation(b);
    lemma_sum_rank(a, b);
    lemma_sum_rank(a, negation(b));
    lemma_product_rank(a, b);
    if sum(a, b).finite() {
        law_sum_is_nearest(a, b);
    }
    if difference(a, b).finite() {
        law_difference_is_nearest(a, b);
    }
    if product(a, b).finite() {
        law_product_is_nearest(a, b);
    }
    assert forall|x: Binary32| #[trigger] x.finite() implies {
        &&& sum(a, b).infinite() ==> if sum(a, b).negative() {
            a.value() + b.value() < x.value() * 1
        } else {
            x.value() * 1 < a.value() + b.value()
        }
        &&& difference(a, b).infinite() ==> if difference(a, b).negative() {
            a.value() - b.value() < x.value() * 1
        } else {
            x.value() * 1 < a.value() - b.value()
        }
        &&& product(a, b).infinite() ==> if product(a, b).negative() {
            a.value() * b.value() < x.value() * pow2(149)
        } else {
            x.value() * pow2(149) < a.value() * b.value()
        }
    } by {
        law_overflow_is_beyond_all_numbers(a, b, x);
        law_overflow_is_beyond_all_numbers(a, negation(b), x);
    }
}

/// A quotient of finite numbers rounds the exact one.
pub proof fn law_division_rounds_the_exact_result(a: Binary32, b: Binary32)
    requires
        a.finite(),
        b.finite(),
        !b.zero(),
    ensures
        b.quanta() > 0,
        rounds_to(
            quotient(a, b),
            if b.negative() {
                -(a.value() * pow2(149))
            } else {
                a.value() * pow2(149)
            },
            b.quanta(),
        ),
{
    let r = quotient(a, b);
    lemma_signed_quotient_rank(a, b);
    law_signs_of_products_and_quotients(a, b);
    if r.finite() {
        law_quotient_is_nearest(a, b);
    } else {
        let num = if b.negative() {
            -(a.value() * pow2(149))
        } else {
            a.value() * pow2(149)
        };
        let amount = a.quanta() * pow2(149);
        lemma_pow2_pos(149);
        assert(amount >= 0) by (nonlinear_arith)
            requires
                amount == a.quanta() * pow2(149),
        ;
        assert(-(a.quanta() as int) * pow2(149) == -amount) by (nonlinear_arith)
            requires
                amount == a.quanta() * pow2(149),
        ;
        assert(magnitude_of(num) == amount);
        assert forall|x: Binary32| #[trigger] x.finite() implies if r.negative() {
            num < x.value() * b.quanta()
        } else {
            x.value() * b.quanta() < num
        } by {
            lemma_overflow(amount, b.quanta(), x.magnitude());
            let q = b.quanta() as int;
            assert(-(x.quanta() as int) * q == -(x.quanta() * q)) by (nonlinear_arith);
            assert(x.quanta() * q >= 0) by (nonlinear_arith)
                requires
                    q > 0,
            ;
        }
    }
}

/// What is nearest to an amount is so in whatever terms the amount is given.
pub proof fn lemma_nearest_scaled(r: Binary32, num: int, den: nat, scale: nat)
    requires
        scale > 0,
        den > 0,
        nearest_to(r, num * scale, den * scale),
    ensures
        nearest_to(r, num, den),
{
    let d = den as int;
    let k = scale as int;
    assert forall|x: Binary32| #[trigger] x.finite() implies {
        &&& distance(r.value() * den, num) <= distance(x.value() * den, num)
        &&& distance(r.value() * den, num) == distance(x.value() * den, num) && x.value()
            != r.value() ==> r.magnitude() % 2 == 0
    } by {
        lemma_distance_scaled(r.value(), num, d, k);
        lemma_distance_scaled(x.value(), num, d, k);
        let a = distance(r.value() * d, num);
        let b = distance(x.value() * d, num);
        assert(a * k <= b * k ==> a <= b) by (nonlinear_arith)
            requires
                k > 0,
        ;
    }
}

/// Distances scale with what they are taken of.
proof fn lemma_distance_scaled(a: int, b: int, d: int, k: int)
    requires
        k > 0,
    ensures
        distance(a * (d * k), b * k) == distance(a * d, b) * k,
{
    let x = a * d;
    assert(a * (d * k) == x * k) by (nonlinear_arith)
        requires
            x == a * d,
    ;
    assert(x < b ==> x * k < b * k && b * k - x * k == (b - x) * k) by (nonlinear_arith)
        requires
            k > 0,
    ;
    assert(x >= b ==> x * k >= b * k && x * k - b * k == (x - b) * k) by (nonlinear_arith)
        requires
            k > 0,
    ;
}

/// A share of a count of up to twenty-four bits, rounded to the nearest number.
pub proof fn lemma_share_of_a_count(p: Binary32, count: nat)
    requires
        count < 0x100_0000,
        p.finite(),
        -pow2(149) <= p.value() <= pow2(149),
    ensures
        nearest_to(product(p, from_integer(count)), p.value() * count, 1),
{
    let n = from_integer(count);
    let r = product(p, n);
    let d = pow2(149);
    let exact = p.value() * count;
    lemma_pow2_pos(149);
    law_small_counts_are_exact(count);
    law_arithmetic_rounds_the_exact_result(p, n);
    lemma_negation(n);
    assert(p.value() * n.value() == exact * d) by (nonlinear_arith)
        requires
            exact == p.value() * count,
            n.value() == count * d,
    ;
    if r.infinite() {
        let opposite = negation(n);
        assert(n.finite() && opposite.finite());
        assert(-(n.value() * d) <= exact * d <= n.value() * d) by (nonlinear_arith)
            requires
                exact == p.value() * count,
                n.value() == count * d,
                -(d as int) <= p.value() <= d,
                d > 0,
        ;
        assert((-n.value()) * d == -(n.value() * d)) by (nonlinear_arith);
        assert(false);
    }
    lemma_nearest_scaled(r, exact, 1, d);
}

/// A number whose rank is that of the rounded amount is the rounded amount.
pub proof fn lemma_rounds_to(r: Binary32, num: int, den: nat)
    requires
        den > 0,
        !r.nan(),
        r.rank() == nearest_rank(num, den),
    ensures
        rounds_to(r, num, den),
{
    if r.finite() {
        lemma_nearest_to(r, num, den);
    } else {
        lemma_nearest_none(den);
        assert forall|x: Binary32| #[trigger] x.finite() implies if r.negative() {
            num < x.value() * den
        } else {
            x.value() * den < num
        } by {
            lemma_overflow(magnitude_of(num), den, x.magnitude());
            let q = x.quanta() as int;
            let d = den as int;
            assert(-q * d == -(q * d)) by (nonlinear_arith);
            assert(q * d >= 0) by (nonlinear_arith)
                requires
                    q >= 0,
                    d > 0,
            ;
        }
    }
}

/// Within a binade, neighbouring magnitudes lie one grain apart.
proof fn lemma_neighbours(magnitude: nat, other: nat)
    requires
        magnitude < INFINITY_BITS,
        other < INFINITY_BITS,
        other != magnitude,
        magnitude_significand(magnitude) > 0x80_0000,
    ensures
        distance(magnitude_quanta(other) as int, magnitude_quanta(magnitude) as int) >= pow2(
            magnitude_shift(magnitude),
        ),
{
    let shift = magnitude_shift(magnitude);
    let n = magnitude_significand(magnitude);
    let p = pow2(shift);
    lemma_significand(magnitude);
    lemma_pow2_pos(shift);
    if other > magnitude {
        lemma_quanta_of(shift, n + 1);
        if other > magnitude + 1 {
            lemma_quanta_increase(magnitude + 1, other);
        }
        assert((n + 1) * p == n * p + p) by (nonlinear_arith);
    } else {
        lemma_quanta_of(shift, (n - 1) as nat);
        if other < magnitude - 1 {
            lemma_quanta_increase(other, (magnitude - 1) as nat);
        }
        assert((n - 1) * p == n * p - p) by (nonlinear_arith);
    }
}

/// A positive number that lies within half a grain of an amount is nearest to it.
pub proof fn lemma_within_half_a_grain(r: Binary32, num: nat, den: nat)
    requires
        den > 0,
        r.finite(),
        !r.negative(),
        r.significand() > 0x80_0000,
        2 * distance(r.value() * den, num as int) < pow2(r.shift()) * den,
    ensures
        nearest_to(r, num as int, den),
{
    let v = r.value();
    let d = den as int;
    let p = pow2(r.shift()) as int;
    assert forall|x: Binary32| #[trigger] x.finite() implies {
        &&& distance(r.value() * den, num as int) <= distance(x.value() * den, num as int)
        &&& distance(r.value() * den, num as int) == distance(x.value() * den, num as int)
            && x.value() != r.value() ==> r.magnitude() % 2 == 0
    } by {
        let w = x.value();
        if w != v {
            if x.magnitude() != r.magnitude() {
                lemma_neighbours(r.magnitude(), x.magnitude());
            } else {
                let n = r.significand() as int;
                assert(n * p >= p) by (nonlinear_arith)
                    requires
                        n >= 1,
                        p >= 0,
                ;
            }
            assert(w * d <= v * d - p * d || w * d >= v * d + p * d) by (nonlinear_arith)
                requires
                    w <= v - p || w >= v + p,
                    d > 0,
            ;
        }
    }
}

/// A sum of opposite numbers is positive zero, and negative zero only where both are; what is not a
/// number has one pattern.
pub proof fn law_patterns_of_zeros_and_of_what_is_no_number(a: Binary32, b: Binary32)
    ensures
        a.finite() && b.finite() && a.value() + b.value() == 0 ==> sum(a, b).zero() && sum(
            a,
            b,
        ).negative() == (a.negative() && b.negative()),
        sum(a, b).nan() ==> sum(a, b).bits == 0x7FC0_0000,
        product(a, b).nan() ==> product(a, b).bits == 0x7FC0_0000,
        quotient(a, b).nan() ==> quotient(a, b).bits == 0x7FC0_0000,
{
    lemma_signed(a.negative() && b.negative(), 0);
    law_sum_of_infinities(a, b);
    law_signs_of_products_and_quotients(a, b);
}

/// A negation is the number with the other sign, and undone by another one.
pub proof fn law_negation_turns_the_sign(a: Binary32)
    ensures
        negation(a).negative() == !a.negative(),
        negation(a).magnitude() == a.magnitude(),
        negation(negation(a)) == a,
        a.finite() ==> negation(a).value() == -a.value(),
{
    lemma_signed(!a.negative(), a.magnitude());
    lemma_signed(a.negative(), a.magnitude());
}

} // verus!
