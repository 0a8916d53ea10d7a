//! What zero and one do in the arithmetic, and which numbers counts are.

use crate::arithmetic::{
    from_integer, lemma_quanta_zero, magnitude_of, product, quotient, sum,
};
use crate::binary32::{
    magnitude_shift, magnitude_significand, signed, Binary32, HALF_BITS, INFINITY_BITS,
    ONE_BITS,
};
use crate::rounding::{
    excess, lemma_nearest_exact, lemma_nearest_none, lemma_pow2_zero, nearest_magnitude,
};
use vstd::arithmetic::power2::{lemma_pow2_adds, lemma_pow2_pos, lemma_pow2_unfold, pow2};
use vstd::prelude::*;

verus! {

/// One.
pub open spec fn one() -> Binary32 {
    Binary32 { bits: ONE_BITS }
}

/// One half.
pub open spec fn half() -> Binary32 {
    Binary32 { bits: HALF_BITS }
}

/// A sign and a magnitude can be read back from the number that they make.
pub proof fn lemma_signed(negative: bool, magnitude: nat)
    requires
        magnitude < 0x8000_0000,
    ensures
        signed(negative, magnitude).negative() == negative,
        signed(negative, magnitude).magnitude() == magnitude,
{
}

/// One is `2^149` quanta.
pub proof fn lemma_one()
    ensures
        one().quanta() == pow2(149),
        from_integer(1) == one(),
        from_integer(0) == (Binary32 { bits: 0 }),
{
    assert(magnitude_shift(ONE_BITS as nat) == 126);
    assert(magnitude_significand(ONE_BITS as nat) == 0x80_0000);
    vstd::arithmetic::power2::lemma2_to64();
    lemma_pow2_adds(23, 126);
    lemma_nearest_exact(ONE_BITS as nat, 1);
    lemma_nearest_none(1);
}

/// Adding zero keeps the value.
pub proof fn lemma_plus_zero(a: Binary32, z: Binary32)
    requires
        a.finite(),
        z.zero(),
    ensures
        sum(a, z).finite(),
        sum(a, z).value() == a.value(),
{
    lemma_quanta_zero(a.magnitude());
    lemma_quanta_zero(z.magnitude());
    if a.value() != 0 {
        assert(a.value() + z.value() == a.value());
        assert(magnitude_of(a.value()) == a.quanta());
        lemma_nearest_exact(a.magnitude(), 1);
        lemma_signed(a.negative(), a.magnitude());
    } else {
        lemma_signed(a.negative() && z.negative(), 0);
    }
}

/// Zero times a finite number is zero.
pub proof fn lemma_times_zero(a: Binary32, b: Binary32)
    requires
        a.finite(),
        b.finite(),
        a.zero() || b.zero(),
    ensures
        product(a, b).zero(),
{
    lemma_quanta_zero(a.magnitude());
    lemma_quanta_zero(b.magnitude());
    let qa = a.quanta();
    let qb = b.quanta();
    assert(qa * qb == 0) by (nonlinear_arith)
        requires
            qa == 0 || qb == 0,
    ;
    lemma_pow2_pos(149);
    lemma_nearest_none(pow2(149));
    lemma_signed(a.negative() != b.negative(), 0);
}

/// Zero divided by a positive count is zero.
pub proof fn lemma_zero_over(b: Binary32)
    requires
        b.finite(),
        !b.zero(),
    ensures
        quotient(Binary32 { bits: 0 }, b).zero(),
{
    lemma_quanta_zero(0);
    lemma_quanta_zero(b.magnitude());
    assert(0nat * pow2(149) == 0) by (nonlinear_arith);
    lemma_nearest_none(b.quanta());
    lemma_signed(b.negative(), 0);
}

/// Dividing by one changes nothing.
pub proof fn lemma_over_one(a: Binary32)
    requires
        !a.nan(),
    ensures
        quotient(a, one()) == a,
{
    lemma_one();
    lemma_pow2_pos(149);
    if a.finite() {
        lemma_nearest_exact(a.magnitude(), pow2(149));
    }
}

/// What is below `2^(24 + k)` has an excess of at most `k`, and halving it that often makes it fit.
pub proof fn lemma_excess_bound(whole: nat, k: nat)
    requires
        whole < pow2(k) * 0x100_0000,
    ensures
        excess(whole) <= k,
        whole < pow2(excess(whole)) * 0x100_0000,
    decreases whole,
{
    lemma_pow2_zero();
    if whole >= 0x100_0000 {
        if k == 0 {
            assert(false);
        }
        lemma_pow2_unfold(k);
        lemma_excess_bound(whole / 2, (k - 1) as nat);
        lemma_pow2_unfold(excess(whole));
    }
}

/// A count that is not zero is held by a finite number that is not zero.
pub proof fn lemma_count(count: nat)
    requires
        0 < count < 0x1_0000_0000_0000_0000,
    ensures
        from_integer(count).finite(),
        !from_integer(count).zero(),
        !from_integer(count).negative(),
{
    let num = count * pow2(149);
    lemma_pow2_pos(149);
    vstd::arithmetic::power2::lemma2_to64();
    vstd::arithmetic::power2::lemma2_to64_rest();
    lemma_pow2_adds(64, 125);
    lemma_pow2_adds(125, 24);
    assert(num < pow2(189) * 0x100_0000) by (nonlinear_arith)
        requires
            num == count * pow2(149),
            count < 0x1_0000_0000_0000_0000,
            pow2(189) == 0x1_0000_0000_0000_0000 * pow2(125),
            pow2(149) == pow2(125) * 0x100_0000,
            pow2(125) > 0,
    ;
    lemma_pow2_pos(125);
    assert(num >= 0x100_0000) by (nonlinear_arith)
        requires
            num == count * pow2(149),
            count >= 1,
            pow2(149) == pow2(125) * 0x100_0000,
            pow2(125) >= 1,
    ;
    assert(num / 1 == num);
    lemma_excess_bound(num, 189);
    let shift = excess(num);
    let p = pow2(shift);
    lemma_pow2_pos(shift);
    assert(num / p < 0x100_0000) by {
        vstd::arithmetic::div_mod::lemma_div_by_multiple_is_strongly_ordered(
            num as int,
            (p * 0x100_0000) as int,
            0x100_0000,
            p as int,
        );
        vstd::arithmetic::div_mod::lemma_div_multiples_vanish(0x100_0000, p as int);
    }
    assert(1 * p == p);
    let magnitude = nearest_magnitude(num, 1);
    assert(0 < magnitude < INFINITY_BITS);
    lemma_signed(false, magnitude);
}

} // verus!
