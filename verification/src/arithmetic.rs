//! Correctly rounded binary32 arithmetic.
//!
//! Each operation gives the exact result, rounded once to the nearest number with ties to even,
//! as the arithmetic of the machine does. Where there is no number to give, the result is one
//! quiet not-a-number.

use crate::binary32::{
    magnitude_quanta, magnitude_shift, magnitude_significand, quiet_nan, signed, Binary32,
    INFINITY_BITS, QUIET_NAN_BITS, SIGN_BIT,
};
use crate::rounding::{
    bit_length, lemma_nearest_none, lemma_pow2_zero, lemma_stands_for, nearest_magnitude,
    power_of_two, round_scaled,
};
use vstd::arithmetic::power2::{lemma_pow2_adds, lemma_pow2_pos, lemma_pow2_unfold, pow2};
use vstd::prelude::*;

verus! {

/// The number with its sign turned.
pub open spec fn negation(a: Binary32) -> Binary32 {
    signed(!a.negative(), a.magnitude())
}

/// `a + b`.
pub open spec fn sum(a: Binary32, b: Binary32) -> Binary32 {
    if a.nan() || b.nan() {
        quiet_nan()
    } else if a.infinite() {
        if b.infinite() && a.negative() != b.negative() {
            quiet_nan()
        } else {
            a
        }
    } else if b.infinite() {
        b
    } else {
        let total = a.value() + b.value();
        if total == 0 {
            signed(a.negative() && b.negative(), 0)
        } else {
            signed(total < 0, nearest_magnitude(magnitude_of(total), 1))
        }
    }
}

/// `a - b`.
pub open spec fn difference(a: Binary32, b: Binary32) -> Binary32 {
    sum(a, negation(b))
}

/// `a * b`.
pub open spec fn product(a: Binary32, b: Binary32) -> Binary32 {
    let negative = a.negative() != b.negative();
    if a.nan() || b.nan() {
        quiet_nan()
    } else if a.infinite() || b.infinite() {
        if a.zero() || b.zero() {
            quiet_nan()
        } else {
            signed(negative, INFINITY_BITS as nat)
        }
    } else {
        signed(negative, nearest_magnitude(a.quanta() * b.quanta(), pow2(149)))
    }
}

/// `a / b`.
pub open spec fn quotient(a: Binary32, b: Binary32) -> Binary32 {
    let negative = a.negative() != b.negative();
    if a.nan() || b.nan() || (a.infinite() && b.infinite()) || (a.zero() && b.zero()) {
        quiet_nan()
    } else if a.infinite() || b.zero() {
        signed(negative, INFINITY_BITS as nat)
    } else if b.infinite() {
        signed(negative, 0)
    } else {
        signed(negative, nearest_magnitude(a.quanta() * pow2(149), b.quanta()))
    }
}

/// The number nearest to the integer `count`.
pub open spec fn from_integer(count: nat) -> Binary32 {
    signed(false, nearest_magnitude(count * pow2(149), 1))
}

/// The absolute value of an integer.
pub open spec fn magnitude_of(v: int) -> nat {
    if v < 0 {
        (-v) as nat
    } else {
        v as nat
    }
}

/// A significand is below `2^24`, and at least `2^23` once it is doubled at all.
pub proof fn lemma_significand(magnitude: nat)
    requires
        magnitude <= INFINITY_BITS,
    ensures
        magnitude_significand(magnitude) < 0x100_0000,
        magnitude_shift(magnitude) <= 254,
        magnitude < INFINITY_BITS ==> magnitude_shift(magnitude) <= 253,
        magnitude_shift(magnitude) > 0 ==> magnitude_significand(magnitude) >= 0x80_0000,
        magnitude == magnitude_shift(magnitude) * 0x80_0000 + magnitude_significand(magnitude),
        magnitude_significand(magnitude) == 0 <==> magnitude == 0,
{
}

/// The larger magnitude has more quanta.
pub proof fn lemma_quanta_increase(a: nat, b: nat)
    requires
        a < b <= INFINITY_BITS,
    ensures
        magnitude_quanta(a) < magnitude_quanta(b),
{
    lemma_significand(a);
    lemma_significand(b);
    let sa = magnitude_shift(a);
    let sb = magnitude_shift(b);
    let ma = magnitude_significand(a);
    let mb = magnitude_significand(b);
    lemma_pow2_pos(sa);
    lemma_pow2_pos(sb);
    if sa == sb {
        assert(ma * pow2(sa) < mb * pow2(sa)) by (nonlinear_arith)
            requires
                ma < mb,
                pow2(sa) > 0,
        ;
    } else {
        lemma_pow2_unfold(sa + 1);
        if sa + 1 < sb {
            vstd::arithmetic::power2::lemma_pow2_strictly_increases(sa + 1, sb);
        }
        assert(ma * pow2(sa) < mb * pow2(sb)) by (nonlinear_arith)
            requires
                ma < 0x100_0000,
                mb >= 0x80_0000,
                pow2(sb) >= 2 * pow2(sa),
                pow2(sa) > 0,
        ;
    }
}

/// The larger magnitude is doubled no less often.
proof fn lemma_shift_increases(a: nat, b: nat)
    requires
        a <= b <= INFINITY_BITS,
    ensures
        magnitude_shift(a) <= magnitude_shift(b),
{
}

/// Only the two zeros have no quanta.
pub proof fn lemma_quanta_zero(magnitude: nat)
    requires
        magnitude <= INFINITY_BITS,
    ensures
        magnitude_quanta(magnitude) == 0 <==> magnitude == 0,
        magnitude_quanta(0) == 0,
{
    if magnitude > 0 {
        lemma_quanta_increase(0, magnitude);
    }
    assert(magnitude_significand(0) == 0);
}

impl Binary32 {
    /// The number with the given bit pattern.
    pub fn from_bits(bits: u32) -> (r: Binary32)
        ensures
            r.bits == bits,
    {
        Binary32 { bits }
    }

    /// The bit pattern of the number.
    pub fn to_bits(self) -> (bits: u32)
        ensures
            bits == self.bits,
    {
        self.bits
    }

    /// Whether the sign bit is set.
    pub fn is_negative(self) -> (r: bool)
        ensures
            r == self.negative(),
    {
        self.bits >= SIGN_BIT
    }

    /// The pattern without its sign bit.
    pub fn to_magnitude(self) -> (r: u32)
        ensures
            r == self.magnitude(),
    {
        self.bits % SIGN_BIT
    }

    /// Whether the pattern is a not-a-number.
    pub fn is_nan(self) -> (r: bool)
        ensures
            r == self.nan(),
    {
        self.to_magnitude() > INFINITY_BITS
    }

    /// The number with the given sign and magnitude.
    pub(crate) fn with_sign(negative: bool, magnitude: u32) -> (r: Binary32)
        requires
            magnitude < SIGN_BIT,
        ensures
            r == signed(negative, magnitude as nat),
    {
        if negative {
            Binary32 { bits: magnitude + SIGN_BIT }
        } else {
            Binary32 { bits: magnitude }
        }
    }

    /// The number with its sign turned.
    pub fn negated(self) -> (r: Binary32)
        ensures
            r == negation(self),
    {
        Binary32::with_sign(!self.is_negative(), self.to_magnitude())
    }

    /// The significand of a magnitude and how often it is doubled.
    pub(crate) fn split(magnitude: u32) -> (r: (u32, u32))
        requires
            magnitude < INFINITY_BITS,
        ensures
            r.0 == magnitude_significand(magnitude as nat),
            r.1 == magnitude_shift(magnitude as nat),
            r.0 < 0x100_0000,
            r.1 <= 253,
            r.1 > 0 ==> r.0 >= 0x80_0000,
    {
        proof {
            lemma_significand(magnitude as nat);
        }
        let exponent: u32 = magnitude / 0x80_0000;
        let shift: u32 = if exponent == 0 {
            0
        } else {
            exponent - 1
        };
        (magnitude - shift * 0x80_0000, shift)
    }

    /// `self * other`.
    pub fn times(self, other: Binary32) -> (r: Binary32)
        ensures
            r == product(self, other),
    {
        let negative: bool = self.is_negative() != other.is_negative();
        let a: u32 = self.to_magnitude();
        let b: u32 = other.to_magnitude();
        if a > INFINITY_BITS || b > INFINITY_BITS {
            return Binary32 { bits: QUIET_NAN_BITS };
        }
        if a == INFINITY_BITS || b == INFINITY_BITS {
            if a == 0 || b == 0 {
                return Binary32 { bits: QUIET_NAN_BITS };
            }
            return Binary32::with_sign(negative, INFINITY_BITS);
        }
        let (ma, sa) = Binary32::split(a);
        let (mb, sb) = Binary32::split(b);
        assert(ma * mb < 0x1_0000_0000_0000) by (nonlinear_arith)
            requires
                ma < 0x100_0000,
                mb < 0x100_0000,
        ;
        let m: u64 = ma as u64 * mb as u64;
        let t: i32 = sa as i32 + sb as i32 - 149;
        let ghost num = self.quanta() * other.quanta();
        proof {
            lemma_pow2_adds(sa as nat, sb as nat);
            lemma_pow2_pos(149);
            let pa = pow2(sa as nat);
            let pb = pow2(sb as nat);
            assert(num == m * (pa * pb)) by (nonlinear_arith)
                requires
                    num == (ma * pa) * (mb * pb),
                    m == ma * mb,
            ;
            let x = (sa + sb) as nat;
            assert(pow2(149) * m * pow2(x) == num * 1 * pow2(149)) by (nonlinear_arith)
                requires
                    num == m * pow2(x),
            ;
            lemma_stands_for(m as nat, false, m as nat, 1, x, 149, num, pow2(149));
        }
        let magnitude: u32 = round_scaled(m, t, false, Ghost(num), Ghost(pow2(149)));
        Binary32::with_sign(negative, magnitude)
    }

    /// `self / other`.
    pub fn over(self, other: Binary32) -> (r: Binary32)
        ensures
            r == quotient(self, other),
    {
        let negative: bool = self.is_negative() != other.is_negative();
        let a: u32 = self.to_magnitude();
        let b: u32 = other.to_magnitude();
        if a > INFINITY_BITS || b > INFINITY_BITS || (a == INFINITY_BITS && b == INFINITY_BITS)
            || (a == 0 && b == 0) {
            return Binary32 { bits: QUIET_NAN_BITS };
        }
        if a == INFINITY_BITS || b == 0 {
            return Binary32::with_sign(negative, INFINITY_BITS);
        }
        if b == INFINITY_BITS {
            return Binary32::with_sign(negative, 0);
        }
        let (ma, sa) = Binary32::split(a);
        let (mb, sb) = Binary32::split(b);
        proof {
            lemma_significand(a as nat);
            lemma_significand(b as nat);
            lemma_quanta_zero(b as nat);
        }
        let ghost num = self.quanta() * pow2(149);
        let ghost den = other.quanta();
        // The dividend is moved up to the full width, so that the quotient has digits to spare.
        let spare: u32 = if ma == 0 {
            0
        } else {
            64 - bit_length(ma as u64)
        };
        proof {
            lemma_spare(ma as nat, spare as nat);
        }
        let n: u64 = (ma as u128 * power_of_two(spare)) as u64;
        let m: u64 = n / mb as u64;
        let rest: u64 = n % mb as u64;
        let t: i32 = sa as i32 + 149 - sb as i32 - spare as i32;
        proof {
            assert(n as nat == m as nat * mb as nat + rest as nat) by (nonlinear_arith)
                requires
                    m == n / mb as u64,
                    rest == n % mb as u64,
                    mb > 0,
            ;
            assert((m + 1) * mb == m * mb + mb) by (nonlinear_arith);
            if rest != 0 {
                assert(m >= 0x200_0000) by (nonlinear_arith)
                    requires
                        n == m * mb + rest,
                        n >= 0x8000_0000_0000_0000,
                        rest < mb,
                        mb < 0x100_0000,
                ;
            }
            let pa = pow2(sa as nat);
            let pb = pow2(sb as nat);
            let ps = pow2(spare as nat);
            let x = (sa + 149) as nat;
            let y = (sb + spare) as nat;
            lemma_pow2_adds(sa as nat, 149);
            lemma_pow2_adds(sb as nat, spare as nat);
            assert(den * n * pow2(x) == num * mb * pow2(y)) by (nonlinear_arith)
                requires
                    num == (ma * pa) * pow2(149),
                    den == mb * pb,
                    n == ma * ps,
                    pow2(x) == pa * pow2(149),
                    pow2(y) == pb * ps,
            ;
            lemma_stands_for(m as nat, rest != 0, n as nat, mb as nat, x, y, num, den);
        }
        let magnitude: u32 = round_scaled(m, t, rest != 0, Ghost(num), Ghost(den));
        Binary32::with_sign(negative, magnitude)
    }

    /// The thirty-two digits below a significand, once it is moved down by `d` places, and
    /// whether anything was lost below them.
    fn moved_down(m: u32, d: u32) -> (r: (u64, bool))
        requires
            m < 0x100_0000,
        ensures
            r.0 == (m * 0x1_0000_0000) as nat / pow2(d as nat),
            r.1 == ((m * 0x1_0000_0000) as nat % pow2(d as nat) != 0),
            r.0 <= m * 0x1_0000_0000,
            d <= 32 ==> !r.1,
    {
        let wide: u64 = m as u64 * 0x1_0000_0000;
        proof {
            lemma_pow2_pos(d as nat);
            assert(wide as nat / pow2(d as nat) <= wide) by (nonlinear_arith)
                requires
                    pow2(d as nat) >= 1,
            ;
            if d <= 32 {
                vstd::arithmetic::power2::lemma2_to64();
                lemma_pow2_adds((32 - d) as nat, d as nat);
                let high = m * pow2((32 - d) as nat);
                assert(wide == high * pow2(d as nat)) by (nonlinear_arith)
                    requires
                        wide == m * 0x1_0000_0000,
                        high == m * pow2((32 - d) as nat),
                        pow2((32 - d) as nat) * pow2(d as nat) == 0x1_0000_0000,
                ;
                vstd::arithmetic::div_mod::lemma_fundamental_div_mod_converse(
                    wide as int,
                    pow2(d as nat) as int,
                    high as int,
                    0,
                );
            }
        }
        if d > 100 {
            proof {
                vstd::arithmetic::power2::lemma2_to64();
                vstd::arithmetic::power2::lemma_pow2_strictly_increases(64, d as nat);
                vstd::arithmetic::div_mod::lemma_fundamental_div_mod_converse(
                    wide as int,
                    pow2(d as nat) as int,
                    0,
                    wide as int,
                );
            }
            (0, wide != 0)
        } else {
            let scale: u128 = power_of_two(d);
            ((wide as u128 / scale) as u64, wide as u128 % scale != 0)
        }
    }

    /// The magnitude of the sum of two magnitudes, of which `a` is the larger.
    fn add_magnitudes(a: u32, b: u32) -> (r: u32)
        requires
            b <= a < INFINITY_BITS,
        ensures
            r == nearest_magnitude(magnitude_quanta(a as nat) + magnitude_quanta(b as nat), 1),
    {
        let (ma, sa) = Binary32::split(a);
        let (mb, sb) = Binary32::split(b);
        proof {
            lemma_shift_increases(b as nat, a as nat);
        }
        let (low, lost) = Binary32::moved_down(mb, sa - sb);
        let ghost num = magnitude_quanta(a as nat) + magnitude_quanta(b as nat);
        let m: u64 = ma as u64 * 0x1_0000_0000 + low;
        proof {
            let p = pow2((sa - sb) as nat);
            lemma_pow2_pos((sa - sb) as nat);
            lemma_pow2_adds((sa - sb) as nat, sb as nat);
            let wide = (mb * 0x1_0000_0000) as nat;
            let rest = wide % p;
            let n = ((ma * p + mb) * 0x1_0000_0000) as nat;
            vstd::arithmetic::div_mod::lemma_fundamental_div_mod(wide as int, p as int);
            assert(n == m * p + rest) by (nonlinear_arith)
                requires
                    n == (ma * p + mb) * 0x1_0000_0000,
                    m == ma * 0x1_0000_0000 + low,
                    mb * 0x1_0000_0000 == p * low + rest,
            ;
            assert((m + 1) * p == m * p + p) by (nonlinear_arith);
            let pa = pow2(sa as nat);
            let pb = pow2(sb as nat);
            vstd::arithmetic::power2::lemma2_to64();
            assert(1 * n * pa == num * p * 0x1_0000_0000) by (nonlinear_arith)
                requires
                    n == (ma * p + mb) * 0x1_0000_0000,
                    num == ma * pa + mb * pb,
                    pa == p * pb,
            ;
            lemma_stands_for(m as nat, lost, n, p, sa as nat, 32, num, 1);
        }
        round_scaled(m, sa as i32 - 32, lost, Ghost(num), Ghost(1))
    }

    /// The magnitude of the difference of two magnitudes, of which `a` is the larger.
    fn subtract_magnitudes(a: u32, b: u32) -> (r: u32)
        requires
            b < a < INFINITY_BITS,
        ensures
            r == nearest_magnitude(
                (magnitude_quanta(a as nat) - magnitude_quanta(b as nat)) as nat,
                1,
            ),
    {
        let (ma, sa) = Binary32::split(a);
        let (mb, sb) = Binary32::split(b);
        proof {
            lemma_shift_increases(b as nat, a as nat);
            lemma_quanta_increase(b as nat, a as nat);
            lemma_significand(a as nat);
            lemma_significand(b as nat);
        }
        let (low, lost) = Binary32::moved_down(mb, sa - sb);
        let ghost num = (magnitude_quanta(a as nat) - magnitude_quanta(b as nat)) as nat;
        proof {
            let p = pow2((sa - sb) as nat);
            if sa == sb {
                lemma_pow2_zero();
            } else {
                lemma_pow2_unfold((sa - sb) as nat);
                lemma_pow2_pos((sa - sb - 1) as nat);
                assert(low <= mb * 0x8000_0000) by (nonlinear_arith)
                    requires
                        low == (mb * 0x1_0000_0000) as nat / p,
                        p >= 2,
                ;
            }
        }
        let borrow: u64 = if lost {
            1
        } else {
            0
        };
        let m: u64 = ma as u64 * 0x1_0000_0000 - low - borrow;
        proof {
            let p = pow2((sa - sb) as nat);
            lemma_pow2_pos((sa - sb) as nat);
            lemma_pow2_pos(sb as nat);
            lemma_pow2_adds((sa - sb) as nat, sb as nat);
            let wide = (mb * 0x1_0000_0000) as nat;
            let rest = wide % p;
            vstd::arithmetic::div_mod::lemma_fundamental_div_mod(wide as int, p as int);
            let pa = pow2(sa as nat);
            let pb = pow2(sb as nat);
            vstd::arithmetic::power2::lemma2_to64();
            let n = (ma * p - mb) * 0x1_0000_0000;
            assert(ma * p > mb) by (nonlinear_arith)
                requires
                    ma * pa > mb * pb,
                    pa == p * pb,
                    pb > 0,
            ;
            let top = ma * 0x1_0000_0000 - low;
            assert(n == top * p - rest) by (nonlinear_arith)
                requires
                    n == (ma * p - mb) * 0x1_0000_0000,
                    top == ma * 0x1_0000_0000 - low,
                    mb * 0x1_0000_0000 == p * low + rest,
            ;
            assert((m + 1) * p == m * p + p) by (nonlinear_arith);
            if lost {
                assert(top * p == m * p + p) by (nonlinear_arith)
                    requires
                        top == m + 1,
                ;
            }
            assert(1 * n * pa == num * p * 0x1_0000_0000) by (nonlinear_arith)
                requires
                    n == (ma * p - mb) * 0x1_0000_0000,
                    num == ma * pa - mb * pb,
                    pa == p * pb,
            ;
            lemma_stands_for(m as nat, lost, n as nat, p, sa as nat, 32, num, 1);
        }
        round_scaled(m, sa as i32 - 32, lost, Ghost(num), Ghost(1))
    }

    /// `self + other`.
    pub fn plus(self, other: Binary32) -> (r: Binary32)
        ensures
            r == sum(self, other),
    {
        let a: u32 = self.to_magnitude();
        let b: u32 = other.to_magnitude();
        let a_negative: bool = self.is_negative();
        let b_negative: bool = other.is_negative();
        if a > INFINITY_BITS || b > INFINITY_BITS {
            return Binary32 { bits: QUIET_NAN_BITS };
        }
        if a == INFINITY_BITS {
            if b == INFINITY_BITS && a_negative != b_negative {
                return Binary32 { bits: QUIET_NAN_BITS };
            }
            return self;
        }
        if b == INFINITY_BITS {
            return other;
        }
        proof {
            lemma_quanta_zero(a as nat);
            lemma_quanta_zero(b as nat);
            if a < b {
                lemma_quanta_increase(a as nat, b as nat);
            }
            if b < a {
                lemma_quanta_increase(b as nat, a as nat);
            }
        }
        if a_negative == b_negative {
            let magnitude: u32 = if a >= b {
                Binary32::add_magnitudes(a, b)
            } else {
                Binary32::add_magnitudes(b, a)
            };
            proof {
                if a == 0 && b == 0 {
                    lemma_nearest_none(1);
                }
            }
            Binary32::with_sign(a_negative, magnitude)
        } else if a == b {
            Binary32::with_sign(false, 0)
        } else if a > b {
            Binary32::with_sign(a_negative, Binary32::subtract_magnitudes(a, b))
        } else {
            Binary32::with_sign(b_negative, Binary32::subtract_magnitudes(b, a))
        }
    }

    /// `self - other`.
    pub fn minus(self, other: Binary32) -> (r: Binary32)
        ensures
            r == difference(self, other),
    {
        self.plus(other.negated())
    }

    /// The number nearest to `count`.
    pub fn from_count(count: u64) -> (r: Binary32)
        ensures
            r == from_integer(count as nat),
    {
        let ghost num = count as nat * pow2(149);
        proof {
            lemma_pow2_zero();
            lemma_stands_for(count as nat, false, count as nat, 1, 149, 0, num, 1);
        }
        Binary32::with_sign(false, round_scaled(count, 149, false, Ghost(num), Ghost(1)))
    }
}

/// A dividend that is moved up to the full width has its highest bit set.
proof fn lemma_spare(m: nat, spare: nat)
    requires
        m == 0 && spare == 0 || 1 <= 64 - spare <= 64 && pow2((64 - spare - 1) as nat) <= m < pow2(
            (64 - spare) as nat,
        ),
    ensures
        m * pow2(spare) < 0x1_0000_0000_0000_0000,
        m > 0 ==> m * pow2(spare) >= 0x8000_0000_0000_0000,
{
    vstd::arithmetic::power2::lemma2_to64();
    vstd::arithmetic::power2::lemma2_to64_rest();
    lemma_pow2_pos(spare);
    if m > 0 {
        let ps = pow2(spare);
        let low = pow2((64 - spare - 1) as nat);
        let high = pow2((64 - spare) as nat);
        lemma_pow2_adds((64 - spare - 1) as nat, spare);
        lemma_pow2_adds((64 - spare) as nat, spare);
        assert(low * ps <= m * ps < high * ps) by (nonlinear_arith)
            requires
                low <= m < high,
                ps > 0,
        ;
    }
}

} // verus!
