//! Arithmetic on binary64 numbers, rounded to the nearest number with ties to even.

use crate::binary64::{
    lemma_wide_excess, wide_excess, wide_shift, wide_signed, wide_significand, Binary64,
    WIDE_INFINITY_BITS, WIDE_SIGN_BIT,
};
use crate::rounding::{
    bit_length, lemma_pow2_126, lemma_pow2_zero, lemma_round_left, lemma_round_right,
    lemma_stands_for, nearest_even, power_of_two, scale_down, scale_up, stands_for,
};
use vstd::arithmetic::power2::{lemma_pow2_adds, lemma_pow2_pos, lemma_pow2_unfold, pow2};
use vstd::prelude::*;

verus! {

/// The pattern of the quiet not-a-number that arithmetic gives.
pub const WIDE_QUIET_NAN_BITS: u64 = 0x7FF8_0000_0000_0000;

/// The magnitude of the binary64 number nearest to `num / den` quanta of `2^-1074`, ties to even:
/// the significand is rounded at the last bit that the number's binade holds, and what reaches the
/// pattern of infinity is infinity.
pub open spec fn wide_nearest(num: nat, den: nat) -> nat {
    let shift = wide_excess(num / den);
    let magnitude = shift * 0x10_0000_0000_0000 + nearest_even(num, den * pow2(shift));
    if magnitude < WIDE_INFINITY_BITS {
        magnitude
    } else {
        WIDE_INFINITY_BITS as nat
    }
}

impl Binary64 {
    /// The pattern is a not-a-number.
    pub open spec fn nan(self) -> bool {
        self.magnitude() > WIDE_INFINITY_BITS
    }

    /// The number is positive or negative infinity.
    pub open spec fn infinite(self) -> bool {
        self.magnitude() == WIDE_INFINITY_BITS
    }

    /// The number is positive or negative zero.
    pub open spec fn zero(self) -> bool {
        self.magnitude() == 0
    }
}

/// Numbers are equal when they are not not-a-numbers and have the same pattern, or are both zero.
impl PartialEq for Binary64 {
    fn eq(&self, other: &Binary64) -> (r: bool) {
        let a: u64 = self.bits % WIDE_SIGN_BIT;
        let b: u64 = other.bits % WIDE_SIGN_BIT;
        a <= WIDE_INFINITY_BITS && a == b && (a == 0 || self.bits == other.bits)
    }
}

impl vstd::std_specs::cmp::PartialEqSpecImpl for Binary64 {
    open spec fn obeys_eq_spec() -> bool {
        true
    }

    open spec fn eq_spec(&self, other: &Binary64) -> bool {
        !self.nan() && (self.bits == other.bits || (self.zero() && other.zero()))
    }
}

/// The quiet not-a-number that arithmetic gives.
pub open spec fn wide_quiet_nan() -> Binary64 {
    Binary64 { bits: WIDE_QUIET_NAN_BITS }
}

/// `a * b`.
pub open spec fn wide_product(a: Binary64, b: Binary64) -> Binary64 {
    let negative = a.negative() != b.negative();
    if a.nan() || b.nan() {
        wide_quiet_nan()
    } else if a.infinite() || b.infinite() {
        if a.zero() || b.zero() {
            wide_quiet_nan()
        } else {
            wide_signed(negative, WIDE_INFINITY_BITS as nat)
        }
    } else {
        wide_signed(negative, wide_nearest(a.quanta() * b.quanta(), pow2(1074)))
    }
}

/// `a / b`.
pub open spec fn wide_quotient(a: Binary64, b: Binary64) -> Binary64 {
    let negative = a.negative() != b.negative();
    if a.nan() || b.nan() || (a.infinite() && b.infinite()) || (a.zero() && b.zero()) {
        wide_quiet_nan()
    } else if a.infinite() || b.zero() {
        wide_signed(negative, WIDE_INFINITY_BITS as nat)
    } else if b.infinite() {
        wide_signed(negative, 0)
    } else {
        wide_signed(negative, wide_nearest(a.quanta() * pow2(1074), b.quanta()))
    }
}

/// The number nearest to the integer `count`.
pub open spec fn wide_from_integer(count: nat) -> Binary64 {
    wide_signed(false, wide_nearest(count * pow2(1074), 1))
}

/// The number of binary digits of `m`.
fn wide_bit_length(m: u128) -> (len: u32)
    requires
        0 < m < 0x4000_0000_0000_0000_0000_0000_0000_0000,
    ensures
        1 <= len <= 126,
        pow2((len - 1) as nat) <= m < pow2(len as nat),
{
    let mut rest: u128 = m / 2;
    let mut len: u32 = 1;
    proof {
        vstd::arithmetic::power2::lemma2_to64();
        lemma_pow2_126();
    }
    while rest > 0
        invariant
            1 <= len <= 126,
            m < pow2(126),
            rest == m as nat / pow2(len as nat),
            pow2((len - 1) as nat) <= m,
        decreases rest,
    {
        proof {
            let p = pow2(len as nat);
            lemma_pow2_pos(len as nat);
            lemma_pow2_unfold((len + 1) as nat);
            assert(p <= m) by (nonlinear_arith)
                requires
                    m as nat / p >= 1,
                    p > 0,
            ;
            vstd::arithmetic::div_mod::lemma_div_denominator(m as int, p as int, 2);
            if len == 126 {
                assert(false);
            }
        }
        rest = rest / 2;
        len = len + 1;
    }
    proof {
        let p = pow2(len as nat);
        lemma_pow2_pos(len as nat);
        assert(m < p) by (nonlinear_arith)
            requires
                m as nat / p == 0,
                p > 0,
        ;
    }
    len
}

/// Where the binade of `m * 2^t` lies, given the bit length of `m`.
proof fn lemma_wide_scaled_excess(
    m: nat,
    t: int,
    sticky: bool,
    num: nat,
    den: nat,
    len: nat,
    k: nat,
)
    requires
        stands_for(m, t, sticky, num, den),
        len >= 1,
        pow2((len - 1) as nat) <= m < pow2(len),
        k == if len + t > 53 { len + t - 53 } else { 0 },
    ensures
        wide_excess(num / den) == k,
{
    let up = scale_up(t);
    let down = scale_down(t);
    let t_up: nat = if t > 0 { t as nat } else { 0 };
    let t_down: nat = if t < 0 { (-t) as nat } else { 0 };
    lemma_pow2_pos(t_down);
    lemma_pow2_pos(t_up);
    lemma_pow2_pos(k);
    vstd::arithmetic::power2::lemma2_to64();
    vstd::arithmetic::power2::lemma2_to64_rest();
    let ceiling = pow2(k) * 0x20_0000_0000_0000;
    assert(ceiling == pow2(k + 53)) by {
        lemma_pow2_adds(k, 53);
    }
    lemma_pow2_adds(len, t_up);
    lemma_pow2_adds(k + 53, t_down);
    if len + t_up < k + 53 + t_down {
        vstd::arithmetic::power2::lemma_pow2_strictly_increases(len + t_up, k + 53 + t_down);
    }
    assert(pow2(len) * up <= ceiling * down);
    assert(num < ceiling * den) by (nonlinear_arith)
        requires
            num * down < (m + 1) * (up * den),
            m + 1 <= pow2(len),
            pow2(len) * up <= ceiling * down,
            down > 0,
            den > 0,
            up > 0,
    ;
    assert(num / den < ceiling) by (nonlinear_arith)
        requires
            num < ceiling * den,
            den > 0,
    ;
    if k > 0 {
        let floor = pow2(k) * 0x10_0000_0000_0000;
        assert(floor == pow2(k + 52)) by {
            lemma_pow2_adds(k, 52);
        }
        lemma_pow2_adds((len - 1) as nat, t_up);
        lemma_pow2_adds(k + 52, t_down);
        assert(pow2((len - 1) as nat) * up == floor * down);
        assert(num >= floor * den) by (nonlinear_arith)
            requires
                m * (up * den) <= num * down,
                m >= pow2((len - 1) as nat),
                pow2((len - 1) as nat) * up == floor * down,
                down > 0,
                den > 0,
                up > 0,
        ;
        assert(num / den >= floor) by (nonlinear_arith)
            requires
                num >= floor * den,
                den > 0,
        ;
    }
    lemma_wide_excess(num / den, k);
}

/// Nothing rounds to nothing.
proof fn lemma_wide_none(den: nat)
    requires
        den > 0,
    ensures
        wide_nearest(0, den) == 0,
{
    lemma_pow2_zero();
    assert(den * pow2(0) == den) by (nonlinear_arith)
        requires
            pow2(0) == 1,
    ;
    assert(0nat / den == 0 && 0nat % den == 0) by (nonlinear_arith)
        requires
            den > 0,
    ;
}

/// A short `m` that is doubled `d` times still fits a significand.
proof fn lemma_wide_left_fits(m: nat, len: nat, d: nat)
    requires
        m < pow2(len),
        len + d <= 53,
    ensures
        m * pow2(d) < 0x20_0000_0000_0000,
        pow2(d) <= 0x20_0000_0000_0000,
{
    vstd::arithmetic::power2::lemma2_to64();
    vstd::arithmetic::power2::lemma2_to64_rest();
    lemma_pow2_adds(len, d);
    lemma_pow2_pos(d);
    if len + d < 53 {
        vstd::arithmetic::power2::lemma_pow2_strictly_increases(len + d, 53);
    }
    if d < 53 {
        vstd::arithmetic::power2::lemma_pow2_strictly_increases(d, 53);
    }
    assert(m * pow2(d) < pow2(len) * pow2(d)) by (nonlinear_arith)
        requires
            m < pow2(len),
            pow2(d) > 0,
    ;
}

/// What is halved more often than it has digits rounds to nothing.
proof fn lemma_wide_right_vanishes(m: nat, d: nat)
    requires
        m < pow2(120),
        d > 120,
    ensures
        m / pow2(d) == 0,
        2 * (m % pow2(d)) < pow2(d),
{
    vstd::arithmetic::power2::lemma_pow2_strictly_increases(120, d);
    if d - 1 > 120 {
        vstd::arithmetic::power2::lemma_pow2_strictly_increases(120, (d - 1) as nat);
    }
    lemma_pow2_unfold(d);
    vstd::arithmetic::div_mod::lemma_fundamental_div_mod_converse(
        m as int,
        pow2(d) as int,
        0,
        m as int,
    );
}

/// The magnitude nearest to `m * 2^t` quanta. A set `sticky` says that the exact amount lies
/// strictly between that and the next multiple of `2^t`.
fn round_wide(
    m: u128,
    t: i32,
    sticky: bool,
    Ghost(num): Ghost<nat>,
    Ghost(den): Ghost<nat>,
) -> (magnitude: u64)
    requires
        -10_000 <= t <= 10_000,
        m < 0x0100_0000_0000_0000_0000_0000_0000_0000,
        sticky ==> m >= 0x40_0000_0000_0000,
        stands_for(m as nat, t as int, sticky, num, den),
    ensures
        magnitude == wide_nearest(num, den),
{
    if m == 0 {
        proof {
            lemma_pow2_pos(if t < 0 { (-t) as nat } else { 0 });
            let down = scale_down(t as int);
            let grain = scale_up(t as int) * den;
            assert(num == 0) by (nonlinear_arith)
                requires
                    0 * grain == num * down,
                    down > 0,
            ;
            lemma_wide_none(den);
        }
        return 0;
    }
    let len: u32 = wide_bit_length(m);
    let top: i32 = len as i32 + t;
    let k: i32 = if top > 53 {
        top - 53
    } else {
        0
    };
    proof {
        lemma_wide_scaled_excess(m as nat, t as int, sticky, num, den, len as nat, k as nat);
    }
    if k >= 2047 {
        return WIDE_INFINITY_BITS;
    }
    let d: i32 = k - t;
    proof {
        vstd::arithmetic::power2::lemma2_to64();
        vstd::arithmetic::power2::lemma2_to64_rest();
        lemma_pow2_adds(60, 60);
        if sticky {
            if len < 55 {
                if len < 54 {
                    vstd::arithmetic::power2::lemma_pow2_strictly_increases(len as nat, 54);
                }
                assert(false);
            }
        }
    }
    let s: u64 = if d <= 0 {
        proof {
            lemma_round_left(m as nat, t as int, num, den, k as nat, (-d) as nat);
            lemma_wide_left_fits(m as nat, len as nat, (-d) as nat);
        }
        (m * power_of_two((-d) as u32)) as u64
    } else if d > 120 {
        proof {
            lemma_round_right(m as nat, t as int, sticky, num, den, k as nat, d as nat);
            lemma_wide_right_vanishes(m as nat, d as nat);
        }
        0
    } else {
        proof {
            lemma_round_right(m as nat, t as int, sticky, num, den, k as nat, d as nat);
            lemma_fits_after(m as nat, len as nat, d as nat);
        }
        let scale: u128 = power_of_two(d as u32);
        let q: u128 = m / scale;
        let r: u128 = m % scale;
        if 2 * r < scale || (2 * r == scale && !sticky && q % 2 == 0) {
            q as u64
        } else {
            q as u64 + 1
        }
    };
    let magnitude: u64 = k as u64 * 0x10_0000_0000_0000 + s;
    if magnitude < WIDE_INFINITY_BITS {
        magnitude
    } else {
        WIDE_INFINITY_BITS
    }
}

/// What is left of `m` after it is halved down to a significand.
proof fn lemma_fits_after(m: nat, len: nat, d: nat)
    requires
        m < pow2(len),
        len <= 53 + d,
    ensures
        m / pow2(d) < 0x20_0000_0000_0000,
{
    vstd::arithmetic::power2::lemma2_to64();
    vstd::arithmetic::power2::lemma2_to64_rest();
    lemma_pow2_adds(53, d);
    lemma_pow2_pos(d);
    if len < 53 + d {
        vstd::arithmetic::power2::lemma_pow2_strictly_increases(len, 53 + d);
    }
    let p = pow2(d);
    assert(m / p < 0x20_0000_0000_0000) by (nonlinear_arith)
        requires
            m < 0x20_0000_0000_0000 * p,
            p > 0,
    ;
}

impl Binary64 {
    /// The number with the given sign and magnitude.
    fn with_sign(negative: bool, magnitude: u64) -> (r: Binary64)
        requires
            magnitude < WIDE_SIGN_BIT,
        ensures
            r == wide_signed(negative, magnitude as nat),
    {
        if negative {
            Binary64 { bits: magnitude + WIDE_SIGN_BIT }
        } else {
            Binary64 { bits: magnitude }
        }
    }

    /// The significand of a magnitude and how often it is doubled.
    fn split(magnitude: u64) -> (r: (u64, u64))
        requires
            magnitude < WIDE_INFINITY_BITS,
        ensures
            r.0 == wide_significand(magnitude as nat),
            r.1 == wide_shift(magnitude as nat),
            r.0 < 0x20_0000_0000_0000,
            r.1 <= 2045,
            r.0 == 0 <==> magnitude == 0,
    {
        let exponent: u64 = magnitude / 0x10_0000_0000_0000;
        let shift: u64 = if exponent == 0 {
            0
        } else {
            exponent - 1
        };
        (magnitude - shift * 0x10_0000_0000_0000, shift)
    }

    /// The number nearest to an integer.
    pub fn from_count(count: u64) -> (r: Binary64)
        ensures
            r == wide_from_integer(count as nat),
    {
        let ghost num = count as nat * pow2(1074);
        proof {
            lemma_pow2_zero();
            assert(1 * count as nat * pow2(1074) == num * 1 * pow2(0)) by (nonlinear_arith)
                requires
                    num == count as nat * pow2(1074),
                    pow2(0) == 1,
            ;
            lemma_stands_for(count as nat, false, count as nat, 1, 1074, 0, num, 1);
        }
        let magnitude: u64 = round_wide(count as u128, 1074, false, Ghost(num), Ghost(1));
        Binary64::with_sign(false, magnitude)
    }

    /// `self * other`.
    pub fn times(self, other: Binary64) -> (r: Binary64)
        ensures
            r == wide_product(self, other),
    {
        let negative: bool = (self.bits >= WIDE_SIGN_BIT) != (other.bits >= WIDE_SIGN_BIT);
        let a: u64 = self.bits % WIDE_SIGN_BIT;
        let b: u64 = other.bits % WIDE_SIGN_BIT;
        if a > WIDE_INFINITY_BITS || b > WIDE_INFINITY_BITS {
            return Binary64 { bits: WIDE_QUIET_NAN_BITS };
        }
        if a == WIDE_INFINITY_BITS || b == WIDE_INFINITY_BITS {
            if a == 0 || b == 0 {
                return Binary64 { bits: WIDE_QUIET_NAN_BITS };
            }
            return Binary64::with_sign(negative, WIDE_INFINITY_BITS);
        }
        let (ma, sa) = Binary64::split(a);
        let (mb, sb) = Binary64::split(b);
        assert(ma * mb < 0x0100_0000_0000_0000_0000_0000_0000_0000) by (nonlinear_arith)
            requires
                ma < 0x20_0000_0000_0000,
                mb < 0x20_0000_0000_0000,
        ;
        let m: u128 = ma as u128 * mb as u128;
        let t: i32 = sa as i32 + sb as i32 - 1074;
        let ghost num = self.quanta() * other.quanta();
        proof {
            lemma_pow2_adds(sa as nat, sb as nat);
            lemma_pow2_pos(1074);
            let pa = pow2(sa as nat);
            let pb = pow2(sb as nat);
            assert(num == m * (pa * pb)) by (nonlinear_arith)
                requires
                    num == (ma * pa) * (mb * pb),
                    m == ma * mb,
            ;
            let x = (sa + sb) as nat;
            assert(pow2(1074) * m * pow2(x) == num * 1 * pow2(1074)) by (nonlinear_arith)
                requires
                    num == m * pow2(x),
            ;
            lemma_stands_for(m as nat, false, m as nat, 1, x, 1074, num, pow2(1074));
        }
        let magnitude: u64 = round_wide(m, t, false, Ghost(num), Ghost(pow2(1074)));
        Binary64::with_sign(negative, magnitude)
    }

    /// `self / other`.
    pub fn over(self, other: Binary64) -> (r: Binary64)
        ensures
            r == wide_quotient(self, other),
    {
        let negative: bool = (self.bits >= WIDE_SIGN_BIT) != (other.bits >= WIDE_SIGN_BIT);
        let a: u64 = self.bits % WIDE_SIGN_BIT;
        let b: u64 = other.bits % WIDE_SIGN_BIT;
        if a > WIDE_INFINITY_BITS || b > WIDE_INFINITY_BITS || (a == WIDE_INFINITY_BITS && b
            == WIDE_INFINITY_BITS) || (a == 0 && b == 0) {
            return Binary64 { bits: WIDE_QUIET_NAN_BITS };
        }
        if a == WIDE_INFINITY_BITS || b == 0 {
            return Binary64::with_sign(negative, WIDE_INFINITY_BITS);
        }
        if b == WIDE_INFINITY_BITS {
            return Binary64::with_sign(negative, 0);
        }
        let (ma, sa) = Binary64::split(a);
        let (mb, sb) = Binary64::split(b);
        let ghost num = self.quanta() * pow2(1074);
        let ghost den = other.quanta();
        // The dividend is moved up to 117 digits, so that the quotient has digits to spare.
        let spare: u32 = if ma == 0 {
            0
        } else {
            117 - bit_length(ma)
        };
        proof {
            lemma_wide_spare(ma as nat, spare as nat);
            lemma_pow2_pos(sb as nat);
            assert(mb * pow2(sb as nat) > 0) by (nonlinear_arith)
                requires
                    mb > 0,
                    pow2(sb as nat) > 0,
            ;
        }
        let n: u128 = ma as u128 * power_of_two(spare);
        let m: u128 = n / mb as u128;
        let rest: u128 = n % mb as u128;
        let t: i32 = sa as i32 + 1074 - sb as i32 - spare as i32;
        proof {
            assert(n as nat == m as nat * mb as nat + rest as nat) by (nonlinear_arith)
                requires
                    m == n / mb as u128,
                    rest == n % mb as u128,
                    mb > 0,
            ;
            assert((m + 1) * mb == m * mb + mb) by (nonlinear_arith);
            assert(m <= n) by (nonlinear_arith)
                requires
                    n == m * mb + rest,
                    mb >= 1,
                    rest >= 0,
            ;
            assert(n == 0 ==> rest == 0) by (nonlinear_arith)
                requires
                    n == m * mb + rest,
                    m >= 0,
                    mb >= 0,
                    rest >= 0,
            ;
            if rest != 0 {
                assert(m >= 0x40_0000_0000_0000) by (nonlinear_arith)
                    requires
                        n == m * mb + rest,
                        n >= 0x10_0000_0000_0000_0000_0000_0000_0000,
                        rest < mb,
                        mb < 0x20_0000_0000_0000,
                ;
            }
            let pa = pow2(sa as nat);
            let pb = pow2(sb as nat);
            let ps = pow2(spare as nat);
            let x = (sa + 1074) as nat;
            let y = (sb + spare) as nat;
            lemma_pow2_adds(sa as nat, 1074);
            lemma_pow2_adds(sb as nat, spare as nat);
            assert(den * n * pow2(x) == num * mb * pow2(y)) by (nonlinear_arith)
                requires
                    num == (ma * pa) * pow2(1074),
                    den == mb * pb,
                    n == ma * ps,
                    pow2(x) == pa * pow2(1074),
                    pow2(y) == pb * ps,
            ;
            lemma_stands_for(m as nat, rest != 0, n as nat, mb as nat, x, y, num, den);
        }
        let magnitude: u64 = round_wide(m, t, rest != 0, Ghost(num), Ghost(den));
        Binary64::with_sign(negative, magnitude)
    }
}

/// A significand that is moved up to 117 digits.
proof fn lemma_wide_spare(m: nat, spare: nat)
    requires
        m == 0 && spare == 0 || 1 <= 117 - spare <= 117 && pow2((117 - spare - 1) as nat) <= m
            < pow2((117 - spare) as nat),
    ensures
        spare <= 116,
        m * pow2(spare) < 0x20_0000_0000_0000_0000_0000_0000_0000,
        m > 0 ==> m * pow2(spare) >= 0x10_0000_0000_0000_0000_0000_0000_0000,
        m == 0 ==> m * pow2(spare) == 0,
{
    vstd::arithmetic::power2::lemma2_to64();
    vstd::arithmetic::power2::lemma2_to64_rest();
    lemma_pow2_pos(spare);
    assert(0 * pow2(spare) == 0) by (nonlinear_arith);
    if m > 0 {
        let ps = pow2(spare);
        let low = pow2((117 - spare - 1) as nat);
        let high = pow2((117 - spare) as nat);
        lemma_pow2_adds((117 - spare - 1) as nat, spare);
        lemma_pow2_adds((117 - spare) as nat, spare);
        lemma_pow2_adds(60, 57);
        lemma_pow2_adds(60, 56);
        assert(m * ps < high * ps && low * ps <= m * ps) by (nonlinear_arith)
            requires
                low <= m < high,
                ps > 0,
        ;
    }
}

} // verus!
