//! Arithmetic and order: what each operation does to the rank of a number.

use crate::arithmetic::{
    difference, from_integer, lemma_quanta_zero, magnitude_of, negation, product, quotient, sum,
};
use crate::binary32::{
    magnitude_quanta, magnitude_shift, magnitude_significand, Binary32, HALF_BITS,
};
use crate::identities::{half, lemma_count, lemma_one, lemma_signed, one};
use crate::integers::law_rank_orders_values;
use crate::rounding::{
    lemma_nearest_exact, lemma_nearest_none, lemma_pow2_zero, nearest_magnitude,
};
use crate::rounding_laws::{
    distance, grain, law_rounding_error_is_half_a_grain, law_rounding_keeps_order, lemma_quanta_of,
};
use vstd::arithmetic::power2::{lemma_pow2_adds, lemma_pow2_pos, lemma_pow2_unfold, pow2};
use vstd::prelude::*;

verus! {

/// The pattern of two.
pub const TWO_BITS: u32 = 0x4000_0000;

/// The rank of the number nearest to `num / den` quanta.
pub open spec fn nearest_rank(num: int, den: nat) -> int {
    if num < 0 {
        -(nearest_magnitude(magnitude_of(num), den) as int)
    } else {
        nearest_magnitude(magnitude_of(num), den) as int
    }
}

/// A larger amount does not have a lower rank.
pub proof fn lemma_rank_rises(a: int, b: int, den: nat)
    requires
        a <= b,
        den > 0,
    ensures
        nearest_rank(a, den) <= nearest_rank(b, den),
{
    let x = magnitude_of(a);
    let y = magnitude_of(b);
    if x <= y {
        assert(x * den <= y * den) by (nonlinear_arith)
            requires
                x <= y,
        ;
        law_rounding_keeps_order(x, den, y, den);
    } else {
        assert(y * den <= x * den) by (nonlinear_arith)
            requires
                y <= x,
        ;
        law_rounding_keeps_order(y, den, x, den);
    }
}

/// A number that can be held keeps its rank.
pub proof fn lemma_rank_exact(a: Binary32)
    requires
        a.finite(),
    ensures
        nearest_rank(a.value(), 1) == a.rank(),
        nearest_rank(0, 1) == 0,
{
    lemma_nearest_exact(a.magnitude(), 1);
    lemma_nearest_none(1);
    lemma_quanta_zero(a.magnitude());
    assert(magnitude_of(a.value()) == a.quanta());
}

/// A sum of finite numbers is the nearest number to the exact sum.
pub proof fn lemma_sum_rank(a: Binary32, b: Binary32)
    requires
        a.finite(),
        b.finite(),
    ensures
        !sum(a, b).nan(),
        sum(a, b).rank() == nearest_rank(a.value() + b.value(), 1),
{
    let total = a.value() + b.value();
    lemma_nearest_none(1);
    lemma_signed(total < 0, nearest_magnitude(magnitude_of(total), 1));
    lemma_signed(a.negative() && b.negative(), 0);
}

/// A product of finite numbers is the nearest number to the exact product.
pub proof fn lemma_product_rank(a: Binary32, b: Binary32)
    requires
        a.finite(),
        b.finite(),
    ensures
        !product(a, b).nan(),
        product(a, b).rank() == nearest_rank(a.value() * b.value(), pow2(149)),
{
    let exact = a.value() * b.value();
    let qa = a.quanta() as int;
    let qb = b.quanta() as int;
    lemma_pow2_pos(149);
    lemma_nearest_none(pow2(149));
    lemma_signed(
        a.negative() != b.negative(),
        nearest_magnitude(a.quanta() * b.quanta(), pow2(149)),
    );
    assert(qa * qb >= 0 && (-qa) * qb == -(qa * qb) && qa * (-qb) == -(qa * qb) && (-qa) * (-qb)
        == qa * qb) by (nonlinear_arith)
        requires
            qa >= 0,
            qb >= 0,
    ;
    assert(magnitude_of(exact) == a.quanta() * b.quanta());
}

/// A quotient by a positive number is the nearest number to the exact quotient.
pub proof fn lemma_quotient_rank(a: Binary32, b: Binary32)
    requires
        a.finite(),
        b.finite(),
        !b.zero(),
        !b.negative(),
    ensures
        b.quanta() > 0,
        !quotient(a, b).nan(),
        quotient(a, b).rank() == nearest_rank(a.value() * pow2(149), b.quanta()),
{
    let qa = a.quanta() as int;
    let p = pow2(149) as int;
    lemma_pow2_pos(149);
    lemma_quanta_zero(b.magnitude());
    lemma_signed(a.negative(), nearest_magnitude(a.quanta() * pow2(149), b.quanta()));
    assert((-qa) * p == -(qa * p) && qa * p >= 0) by (nonlinear_arith)
        requires
            qa >= 0,
            p >= 0,
    ;
    assert(magnitude_of(a.value() * p) == a.quanta() * pow2(149));
    lemma_nearest_none(b.quanta());
}

/// Adding to a finite number keeps the order.
pub proof fn law_sum_keeps_order(a: Binary32, b: Binary32, c: Binary32)
    requires
        a.finite(),
        b.at_most(c),
    ensures
        sum(a, b).at_most(sum(a, c)),
{
    if b.finite() {
        lemma_sum_rank(a, b);
    }
    if c.finite() {
        lemma_sum_rank(a, c);
    }
    if b.finite() && c.finite() {
        law_rank_orders_values(b, c);
        lemma_rank_rises(a.value() + b.value(), a.value() + c.value(), 1);
    }
}

/// Adding what is not positive does not lead above a finite number, and adding what is not
/// negative does not lead below it.
pub proof fn law_sum_goes_the_way_of_its_sign(a: Binary32, b: Binary32)
    requires
        a.finite(),
        !b.nan(),
    ensures
        b.rank() <= 0 ==> sum(a, b).at_most(a),
        b.rank() >= 0 ==> a.at_most(sum(a, b)),
{
    let zero = Binary32 { bits: 0 };
    lemma_sum_rank(a, zero);
    lemma_rank_exact(a);
    lemma_quanta_zero(0);
    if b.rank() <= 0 {
        law_sum_keeps_order(a, b, zero);
    }
    if b.rank() >= 0 {
        law_sum_keeps_order(a, zero, b);
    }
}

/// Multiplying finite numbers by one that is not negative keeps the order, and by one that is not
/// positive turns it round.
pub proof fn law_product_keeps_order(a: Binary32, b: Binary32, c: Binary32)
    requires
        a.finite(),
        b.finite(),
        c.finite(),
        b.at_most(c),
    ensures
        a.rank() >= 0 ==> product(a, b).at_most(product(a, c)) && product(b, a).at_most(
            product(c, a),
        ),
        a.rank() <= 0 ==> product(a, c).at_most(product(a, b)) && product(c, a).at_most(
            product(b, a),
        ),
{
    let x = a.value();
    let y = b.value();
    let z = c.value();
    let zero = Binary32 { bits: 0 };
    lemma_quanta_zero(0);
    law_rank_orders_values(b, c);
    law_rank_orders_values(zero, a);
    law_rank_orders_values(a, zero);
    lemma_product_rank(a, b);
    lemma_product_rank(a, c);
    lemma_product_rank(b, a);
    lemma_product_rank(c, a);
    lemma_pow2_pos(149);
    assert(x * y == y * x && x * z == z * x) by (nonlinear_arith);
    if x >= 0 {
        assert(x * y <= x * z) by (nonlinear_arith)
            requires
                x >= 0,
                y <= z,
        ;
        lemma_rank_rises(x * y, x * z, pow2(149));
    }
    if x <= 0 {
        assert(x * z <= x * y) by (nonlinear_arith)
            requires
                x <= 0,
                y <= z,
        ;
        lemma_rank_rises(x * z, x * y, pow2(149));
    }
}

/// The sign of a product follows from those of its factors.
pub proof fn law_product_has_the_sign_of_its_factors(a: Binary32, b: Binary32)
    requires
        a.finite(),
        b.finite(),
        b.rank() >= 0,
    ensures
        !product(a, b).nan(),
        !product(b, a).nan(),
        a.rank() <= 0 ==> product(a, b).rank() <= 0 && product(b, a).rank() <= 0,
        a.rank() >= 0 ==> product(a, b).rank() >= 0 && product(b, a).rank() >= 0,
{
    let zero = Binary32 { bits: 0 };
    lemma_product_rank(a, b);
    lemma_product_rank(b, a);
    lemma_product_rank(zero, b);
    lemma_product_rank(b, zero);
    lemma_quanta_zero(0);
    let y = b.value();
    assert(0 * y == 0 && y * 0 == 0) by (nonlinear_arith);
    lemma_pow2_pos(149);
    lemma_nearest_none(pow2(149));
    if a.rank() <= 0 {
        law_product_keeps_order(b, a, zero);
    }
    if a.rank() >= 0 {
        law_product_keeps_order(b, zero, a);
    }
}

/// Dividing by a positive number keeps the order.
pub proof fn law_quotient_keeps_order(a: Binary32, b: Binary32, c: Binary32)
    requires
        a.finite(),
        b.finite(),
        a.at_most(b),
        c.finite(),
        !c.zero(),
        !c.negative(),
    ensures
        quotient(a, c).at_most(quotient(b, c)),
{
    let p = pow2(149) as int;
    let x = a.value();
    let y = b.value();
    law_rank_orders_values(a, b);
    lemma_quotient_rank(a, c);
    lemma_quotient_rank(b, c);
    assert(x * p <= y * p) by (nonlinear_arith)
        requires
            x <= y,
            p >= 0,
    ;
    lemma_rank_rises(x * p, y * p, c.quanta());
}

/// A larger count is not held by a smaller number.
pub proof fn law_counts_keep_order(a: nat, b: nat)
    requires
        a <= b < 0x1_0000_0000_0000_0000,
    ensures
        from_integer(a).finite(),
        from_integer(b).finite(),
        0 <= from_integer(a).rank(),
        from_integer(a).at_most(from_integer(b)),
{
    lemma_one();
    if a > 0 {
        lemma_count(a);
    }
    if b > 0 {
        lemma_count(b);
    }
    let x = a * pow2(149);
    let y = b * pow2(149);
    assert(x * 1 <= y * 1) by (nonlinear_arith)
        requires
            x == a * pow2(149),
            y == b * pow2(149),
            a <= b,
    ;
    law_rounding_keeps_order(x, 1, y, 1);
}

/// A number divided by itself is one.
pub proof fn lemma_over_itself(a: Binary32)
    requires
        a.finite(),
        !a.zero(),
        !a.negative(),
    ensures
        quotient(a, a) == one(),
{
    let q = a.quanta();
    lemma_one();
    lemma_quanta_zero(a.magnitude());
    let p = pow2(149);
    assert(q * p == p * q) by (nonlinear_arith);
    lemma_nearest_exact(one().magnitude(), q);
}

/// A difference is not positive where the first number is not the larger one, and not negative
/// where it is not the smaller one.
pub proof fn law_difference_has_the_sign_of_the_order(a: Binary32, b: Binary32)
    requires
        a.finite(),
        b.finite(),
    ensures
        !difference(a, b).nan(),
        a.at_most(b) ==> difference(a, b).rank() <= 0,
        b.at_most(a) ==> difference(a, b).rank() >= 0,
{
    lemma_negation(b);
    lemma_sum_rank(a, negation(b));
    law_rank_orders_values(a, b);
    law_rank_orders_values(b, a);
    lemma_rank_exact(a);
    if a.value() <= b.value() {
        lemma_rank_rises(a.value() - b.value(), 0, 1);
    }
    if b.value() <= a.value() {
        lemma_rank_rises(0, a.value() - b.value(), 1);
    }
}

/// Turning the sign turns the value.
pub proof fn lemma_negation(a: Binary32)
    requires
        !a.nan(),
    ensures
        negation(a).finite() == a.finite(),
        !negation(a).nan(),
        a.finite() ==> negation(a).value() == -a.value(),
        negation(a).rank() == -a.rank(),
{
    lemma_signed(!a.negative(), a.magnitude());
}

/// A difference turns the order of what is taken away.
pub proof fn law_difference_turns_order(a: Binary32, b: Binary32, c: Binary32)
    requires
        a.finite(),
        b.at_most(c),
    ensures
        difference(a, c).at_most(difference(a, b)),
{
    lemma_negation(b);
    lemma_negation(c);
    law_sum_keeps_order(a, negation(c), negation(b));
}

/// The values of one half and of two.
pub proof fn lemma_half_and_two()
    ensures
        half().finite(),
        half().quanta() == pow2(148),
        half().rank() > 0,
        (Binary32 { bits: TWO_BITS }).finite(),
        (Binary32 { bits: TWO_BITS }).quanta() == pow2(150),
        sum(one(), one()) == (Binary32 { bits: TWO_BITS }),
        sum(one(), negation(one())).rank() == 0,
{
    vstd::arithmetic::power2::lemma2_to64();
    assert(magnitude_shift(HALF_BITS as nat) == 125);
    assert(magnitude_significand(HALF_BITS as nat) == 0x80_0000);
    lemma_pow2_adds(23, 125);
    assert(magnitude_shift(TWO_BITS as nat) == 127);
    assert(magnitude_significand(TWO_BITS as nat) == 0x80_0000);
    lemma_pow2_adds(23, 127);
    lemma_one();
    lemma_pow2_unfold(150);
    lemma_pow2_pos(149);
    lemma_nearest_exact(TWO_BITS as nat, 1);
    lemma_negation(one());
    lemma_sum_rank(one(), negation(one()));
    lemma_rank_exact(one());
}

/// Half of a finite number is finite.
pub proof fn lemma_half_is_finite(a: Binary32)
    requires
        a.finite(),
    ensures
        product(half(), a).finite(),
{
    lemma_half_and_two();
    let q = a.quanta();
    let h = half().quanta();
    let d = pow2(149);
    lemma_pow2_pos(148);
    lemma_pow2_unfold(149);
    let x = h * q;
    assert(x * 1 <= q * d) by (nonlinear_arith)
        requires
            x == h * q,
            d == 2 * h,
            h >= 0,
            q >= 0,
    ;
    law_rounding_keeps_order(x, d, q, 1);
    lemma_nearest_exact(a.magnitude(), 1);
    lemma_signed(a.negative(), nearest_magnitude(x, d));
}

/// One and a number between minus one and one add up to a number between zero and two.
pub proof fn lemma_one_and_cosine(c: Binary32)
    requires
        negation(one()).at_most(c),
        c.at_most(one()),
    ensures
        c.finite(),
        sum(one(), c).finite(),
        sum(one(), c).rank() >= 0,
        sum(one(), c).at_most(sum(one(), one())),
{
    lemma_half_and_two();
    lemma_negation(one());
    law_sum_keeps_order(one(), c, one());
    law_sum_keeps_order(one(), negation(one()), c);
}

/// Halving and doubling gives a number back whose quanta can be halved.
pub proof fn lemma_halved_and_doubled(a: Binary32)
    requires
        a.finite(),
        a.quanta() % 2 == 0,
    ensures
        product(product(half(), a), Binary32 { bits: TWO_BITS }) == a,
{
    lemma_half_and_two();
    let m = magnitude_significand(a.magnitude());
    let s = magnitude_shift(a.magnitude());
    let q = a.quanta();
    lemma_pow2_pos(149);
    lemma_pow2_unfold(149);
    lemma_pow2_unfold(150);
    lemma_pow2_zero();
    let small: nat = if s > 0 {
        lemma_quanta_of((s - 1) as nat, m);
        lemma_pow2_unfold(s);
        let p = pow2((s - 1) as nat);
        assert(m * (2 * p) == 2 * (m * p)) by (nonlinear_arith);
        ((s - 1) * 0x80_0000 + m) as nat
    } else {
        assert(m * 1 == m);
        lemma_quanta_of(0, m / 2);
        assert((m / 2) * 1 == m / 2);
        m / 2
    };
    let d = pow2(149);
    let h = pow2(148);
    let k = magnitude_quanta(small);
    assert(q == 2 * k);
    assert(h * q == k * d) by (nonlinear_arith)
        requires
            q == 2 * k,
            d == 2 * h,
    ;
    lemma_nearest_exact(small, d);
    lemma_signed(a.negative(), small);
    let t = pow2(150);
    assert(k * t == q * d) by (nonlinear_arith)
        requires
            q == 2 * k,
            t == 2 * d,
    ;
    lemma_nearest_exact(a.magnitude(), d);
    lemma_signed(a.negative(), a.magnitude());
}

/// Halving and doubling a number gives a neighbour at most one quantum away: where its quanta
/// cannot be halved, the half is rounded to an even number of them.
pub proof fn lemma_halved_and_doubled_nearly(a: Binary32)
    requires
        a.finite(),
    ensures
        ({
            let back = product(product(half(), a), Binary32 { bits: TWO_BITS });
            &&& back.finite()
            &&& distance(back.value(), a.value()) <= 1
            &&& a.quanta() % 2 == 0 ==> back == a
        }),
{
    if a.quanta() % 2 == 0 {
        lemma_halved_and_doubled(a);
    } else {
        let m = magnitude_significand(a.magnitude());
        let s = magnitude_shift(a.magnitude());
        let d = pow2(149);
        let h = pow2(148);
        let t = pow2(150);
        lemma_half_and_two();
        lemma_pow2_pos(148);
        lemma_pow2_unfold(149);
        lemma_pow2_unfold(150);
        lemma_pow2_zero();
        if s > 0 {
            lemma_pow2_unfold(s);
            let p = pow2((s - 1) as nat);
            assert(m * (2 * p) == 2 * (m * p)) by (nonlinear_arith);
        }
        assert(m * 1 == m);
        let k = m / 2;
        assert(h * m == k * d + h) by (nonlinear_arith)
            requires
                m == 2 * k + 1,
                d == 2 * h,
        ;
        vstd::arithmetic::div_mod::lemma_fundamental_div_mod_converse(
            (h * m) as int,
            d as int,
            k as int,
            h as int,
        );
        assert(d * 1 == d);
        let n = nearest_magnitude(h * m, d);
        assert(n == k || n == k + 1);
        assert(n % 2 == 0);
        lemma_quanta_of(0, n);
        assert(n * 1 == n);
        lemma_quanta_of(0, 2 * n);
        assert((2 * n) * 1 == 2 * n);
        assert(n * t == (2 * n) * d) by (nonlinear_arith)
            requires
                t == 2 * d,
        ;
        lemma_signed(a.negative(), n);
        lemma_nearest_exact(2 * n, d);
        lemma_signed(a.negative(), 2 * n);
    }
}

/// A finite sum errs by at most half a grain.
pub proof fn law_sum_errs_by_half_a_grain(a: Binary32, b: Binary32)
    requires
        a.finite(),
        b.finite(),
        sum(a, b).finite(),
    ensures
        2 * distance(sum(a, b).value(), a.value() + b.value()) <= grain(
            magnitude_of(a.value() + b.value()),
        ),
{
    let total = a.value() + b.value();
    let magnitude = nearest_magnitude(magnitude_of(total), 1);
    if total == 0 {
        lemma_signed(a.negative() && b.negative(), 0);
        lemma_quanta_zero(0);
    } else {
        lemma_signed(total < 0, magnitude);
        law_rounding_error_is_half_a_grain(magnitude_of(total));
    }
}

} // verus!
