//! Rounding of an exact ratio to the nearest binary32 magnitude, ties to even.

use crate::binary32::{
    magnitude_quanta, magnitude_shift, magnitude_significand, INFINITY_BITS,
};
use vstd::arithmetic::power2::{lemma_pow2_adds, lemma_pow2_pos, lemma_pow2_unfold, pow2};
use vstd::prelude::*;

verus! {

/// The integer nearest to `num / den`; of two equally near ones, the even one.
pub open spec fn nearest_even(num: nat, den: nat) -> nat {
    let quotient = num / den;
    let remainder = num % den;
    if 2 * remainder < den || (2 * remainder == den && quotient % 2 == 0) {
        quotient
    } else {
        quotient + 1
    }
}

/// How often `whole` has to be halved before it fits the twenty-four bits of a significand.
pub open spec fn excess(whole: nat) -> nat
    decreases whole,
{
    if whole < 0x100_0000 {
        0
    } else {
        1 + excess(whole / 2)
    }
}

/// The magnitude of the binary32 number nearest to `num / den` quanta, ties to even: the
/// significand is rounded at the last bit that the number's binade holds, and what reaches the
/// pattern of infinity is infinity. A significand that rounds up to a power of two carries into
/// the exponent by the addition.
pub open spec fn nearest_magnitude(num: nat, den: nat) -> nat {
    let shift = excess(num / den);
    let magnitude = shift * 0x80_0000 + nearest_even(num, den * pow2(shift));
    if magnitude < INFINITY_BITS {
        magnitude
    } else {
        INFINITY_BITS as nat
    }
}

/// Two to the power of zero.
pub proof fn lemma_pow2_zero()
    ensures
        pow2(0) == 1,
{
    vstd::arithmetic::power2::lemma2_to64();
}

/// `whole` lies in the binade that starts at `2^(23 + shift)`, or below the first one.
pub proof fn lemma_excess(whole: nat, shift: nat)
    requires
        shift == 0 || pow2(shift) * 0x80_0000 <= whole,
        whole < pow2(shift) * 0x100_0000,
    ensures
        excess(whole) == shift,
    decreases shift,
{
    if shift == 0 {
        lemma_pow2_zero();
    } else {
        lemma_pow2_unfold(shift);
        let half = pow2((shift - 1) as nat);
        lemma_pow2_pos((shift - 1) as nat);
        assert(pow2(shift) == 2 * half);
        assert(whole >= 0x100_0000);
        lemma_excess(whole / 2, (shift - 1) as nat);
    }
}

/// Rounding at a coarser grain: `num / den` equals `(m + g / e) / scale`, where the fraction
/// `g / e` is less than one, so the low digits of `m` and whether `g` is zero decide.
proof fn lemma_nearest_even_scaled(
    num: nat,
    den: nat,
    c: nat,
    m: nat,
    e: nat,
    g: nat,
    scale: nat,
)
    requires
        den > 0,
        c > 0,
        e > 0,
        scale > 0,
        scale % 2 == 0,
        num * c == m * e + g,
        g < e,
        den * c == scale * e,
    ensures
        num / den == m / scale,
        nearest_even(num, den) == ({
            let q = m / scale;
            let r = m % scale;
            if 2 * r < scale || (2 * r == scale && g == 0 && q % 2 == 0) {
                q
            } else {
                q + 1
            }
        }),
{
    let q = m / scale;
    let r = m % scale;
    let rest = num - q * den;
    assert(m == q * scale + r) by (nonlinear_arith)
        requires
            scale > 0,
            q == m / scale,
            r == m % scale,
    ;
    assert(rest * c == r * e + g) by (nonlinear_arith)
        requires
            rest == num - q * den,
            num * c == m * e + g,
            den * c == scale * e,
            m == q * scale + r,
    ;
    assert(0 <= r < scale);
    assert(0 <= rest < den) by (nonlinear_arith)
        requires
            rest * c == r * e + g,
            0 <= r < scale,
            0 <= g < e,
            den * c == scale * e,
            c > 0,
            e > 0,
    ;
    vstd::arithmetic::div_mod::lemma_fundamental_div_mod_converse(
        num as int,
        den as int,
        q as int,
        rest,
    );
    assert((2 * rest - den) * c == (2 * r - scale) * e + 2 * g) by (nonlinear_arith)
        requires
            rest * c == r * e + g,
            den * c == scale * e,
    ;
    if 2 * r < scale {
        assert(2 * r <= scale - 2);
        assert(2 * rest < den) by (nonlinear_arith)
            requires
                (2 * rest - den) * c == (2 * r - scale) * e + 2 * g,
                2 * r - scale <= -2,
                g < e,
                c > 0,
                e > 0,
        ;
    } else if 2 * r == scale {
        assert((2 * rest - den) * c == 2 * g) by (nonlinear_arith)
            requires
                (2 * rest - den) * c == (2 * r - scale) * e + 2 * g,
                2 * r == scale,
        ;
        if g == 0 {
            assert(2 * rest == den) by (nonlinear_arith)
                requires
                    (2 * rest - den) * c == 0,
                    c > 0,
            ;
        } else {
            assert(2 * rest > den) by (nonlinear_arith)
                requires
                    (2 * rest - den) * c == 2 * g,
                    g > 0,
                    c > 0,
            ;
        }
    } else {
        assert(2 * rest > den) by (nonlinear_arith)
            requires
                (2 * rest - den) * c == (2 * r - scale) * e + 2 * g,
                2 * r - scale >= 1,
                g >= 0,
                c > 0,
                e > 0,
        ;
    }
}

/// `2^t` for a `t` of zero or more, otherwise one.
pub open spec fn scale_up(t: int) -> nat {
    pow2(if t > 0 { t as nat } else { 0 })
}

/// `2^-t` for a `t` of zero or less, otherwise one.
pub open spec fn scale_down(t: int) -> nat {
    pow2(if t < 0 { (-t) as nat } else { 0 })
}

/// `num / den` is `m * 2^t`, or, where `sticky` is set, lies strictly between `m * 2^t` and
/// `(m + 1) * 2^t`.
pub open spec fn stands_for(m: nat, t: int, sticky: bool, num: nat, den: nat) -> bool {
    &&& den > 0
    &&& m * (scale_up(t) * den) <= num * scale_down(t)
    &&& num * scale_down(t) < (m + 1) * (scale_up(t) * den)
    &&& sticky <==> m * (scale_up(t) * den) != num * scale_down(t)
}

/// `num / den` is `n / d * 2^(x - y)`, and `m` is `n / d` rounded down.
pub proof fn lemma_stands_for(
    m: nat,
    sticky: bool,
    n: nat,
    d: nat,
    x: nat,
    y: nat,
    num: nat,
    den: nat,
)
    requires
        d > 0,
        den > 0,
        m * d <= n < (m + 1) * d,
        sticky <==> m * d != n,
        den * n * pow2(x) == num * d * pow2(y),
    ensures
        stands_for(m, x - y, sticky, num, den),
{
    let t = x - y;
    let up = scale_up(t);
    let down = scale_down(t);
    let t_up: nat = if t > 0 { t as nat } else { 0 };
    let t_down: nat = if t < 0 { (-t) as nat } else { 0 };
    lemma_pow2_pos(t_down);
    lemma_pow2_pos(t_up);
    lemma_pow2_pos(x);
    lemma_pow2_pos(y);
    lemma_pow2_adds(t_up, y);
    lemma_pow2_adds(x, t_down);
    let px = pow2(x);
    let py = pow2(y);
    // Both sides of each comparison, multiplied by `unit`.
    let unit = d * py;
    let grain = den * px * down;
    assert(unit > 0) by (nonlinear_arith)
        requires
            d > 0,
            py > 0,
            unit == d * py,
    ;
    assert(grain > 0) by (nonlinear_arith)
        requires
            den > 0,
            px > 0,
            down > 0,
            grain == den * px * down,
    ;
    assert((num * down) * unit == n * grain) by (nonlinear_arith)
        requires
            den * n * px == num * d * py,
            unit == d * py,
            grain == den * px * down,
    ;
    assert((up * den) * unit == d * grain) by (nonlinear_arith)
        requires
            up * py == px * down,
            unit == d * py,
            grain == den * px * down,
    ;
    lemma_cross(m, n, d, grain, num * down, up * den, unit);
}

/// Comparing `big` with multiples of `small` after multiplying both by `unit`.
proof fn lemma_cross(m: nat, n: nat, d: nat, grain: nat, big: nat, small: nat, unit: nat)
    requires
        unit > 0,
        grain > 0,
        m * d <= n < (m + 1) * d,
        big * unit == n * grain,
        small * unit == d * grain,
    ensures
        m * small <= big < (m + 1) * small,
        m * small == big <==> m * d == n,
{
    assert((m * small) * unit == (m * d) * grain) by (nonlinear_arith)
        requires
            small * unit == d * grain,
    ;
    assert(((m + 1) * small) * unit == ((m + 1) * d) * grain) by (nonlinear_arith)
        requires
            small * unit == d * grain,
    ;
    let low = m * d;
    let high = (m + 1) * d;
    assert(low * grain <= n * grain && n * grain < high * grain) by (nonlinear_arith)
        requires
            low <= n < high,
            grain > 0,
    ;
    let small_low = m * small;
    let small_high = (m + 1) * small;
    assert(small_low <= big) by (nonlinear_arith)
        requires
            small_low * unit <= big * unit,
            unit > 0,
    ;
    assert(big < small_high) by (nonlinear_arith)
        requires
            big * unit < small_high * unit,
            unit > 0,
    ;
    if low == n {
        assert(small_low == big) by (nonlinear_arith)
            requires
                small_low * unit == big * unit,
                unit > 0,
        ;
    } else {
        assert(low * grain < n * grain) by (nonlinear_arith)
            requires
                low < n,
                grain > 0,
        ;
    }
}

/// Where the binade of `m * 2^t` lies, given the bit length of `m`.
proof fn lemma_scaled_excess(m: nat, t: int, sticky: bool, num: nat, den: nat, len: nat, k: nat)
    requires
        stands_for(m, t, sticky, num, den),
        len >= 1,
        pow2((len - 1) as nat) <= m < pow2(len),
        k == if len + t > 24 { len + t - 24 } else { 0 },
    ensures
        excess(num / den) == k,
{
    let up = scale_up(t);
    let down = scale_down(t);
    let t_up: nat = if t > 0 { t as nat } else { 0 };
    let t_down: nat = if t < 0 { (-t) as nat } else { 0 };
    lemma_pow2_pos(t_down);
    lemma_pow2_pos(t_up);
    lemma_pow2_pos(k);
    vstd::arithmetic::power2::lemma2_to64();
    let ceiling = pow2(k) * 0x100_0000;
    assert(ceiling == pow2(k + 24)) by {
        lemma_pow2_adds(k, 24);
    }
    lemma_pow2_adds(len, t_up);
    lemma_pow2_adds(k + 24, t_down);
    if len + t_up < k + 24 + t_down {
        vstd::arithmetic::power2::lemma_pow2_strictly_increases(len + t_up, k + 24 + t_down);
    }
    assert(pow2(len) * up <= ceiling * down);
    assert(num < ceiling * den) by (nonlinear_arith)
        requires
            num * down < (m + 1) * (up * den),
            m + 1 <= pow2(len),
            pow2(len) * up <= ceiling * down,
            down > 0,
            den > 0,
            up > 0,
    ;
    assert(num / den < ceiling) by (nonlinear_arith)
        requires
            num < ceiling * den,
            den > 0,
    ;
    if k > 0 {
        let floor = pow2(k) * 0x80_0000;
        assert(floor == pow2(k + 23)) by {
            lemma_pow2_adds(k, 23);
        }
        lemma_pow2_adds((len - 1) as nat, t_up);
        lemma_pow2_adds(k + 23, t_down);
        assert(pow2((len - 1) as nat) * up == floor * down);
        assert(num >= floor * den) by (nonlinear_arith)
            requires
                m * (up * den) <= num * down,
                m >= pow2((len - 1) as nat),
                pow2((len - 1) as nat) * up == floor * down,
                down > 0,
                den > 0,
                up > 0,
        ;
        assert(num / den >= floor) by (nonlinear_arith)
            requires
                num >= floor * den,
                den > 0,
        ;
    }
    lemma_excess(num / den, k);
}

/// Rounding `m * 2^t` at the grain `2^k`, where the grain is coarser than `2^t`.
pub proof fn lemma_round_right(m: nat, t: int, sticky: bool, num: nat, den: nat, k: nat, d: nat)
    requires
        stands_for(m, t, sticky, num, den),
        d == k - t,
        d >= 1,
    ensures
        nearest_even(num, den * pow2(k)) == ({
            let q = m / pow2(d);
            let r = m % pow2(d);
            if 2 * r < pow2(d) || (2 * r == pow2(d) && !sticky && q % 2 == 0) {
                q
            } else {
                q + 1
            }
        }),
{
    let up = scale_up(t);
    let down = scale_down(t);
    let t_up: nat = if t > 0 { t as nat } else { 0 };
    let t_down: nat = if t < 0 { (-t) as nat } else { 0 };
    lemma_pow2_pos(t_down);
    lemma_pow2_pos(t_up);
    lemma_pow2_pos(k);
    lemma_pow2_pos(d);
    lemma_pow2_unfold(d);
    lemma_pow2_adds(k, t_down);
    lemma_pow2_adds(d, t_up);
    let e = up * den;
    let g = (num * down - m * e) as nat;
    assert(e > 0) by (nonlinear_arith)
        requires
            up > 0,
            den > 0,
            e == up * den,
    ;
    assert((m + 1) * e == m * e + e) by (nonlinear_arith);
    assert(den * pow2(k) > 0) by (nonlinear_arith)
        requires
            den > 0,
            pow2(k) > 0,
    ;
    assert((den * pow2(k)) * down == pow2(d) * e) by (nonlinear_arith)
        requires
            pow2(k) * down == pow2(d) * up,
            e == up * den,
    ;
    lemma_nearest_even_scaled(num, den * pow2(k), down, m, e, g, pow2(d));
}

/// Rounding `m * 2^t` at a grain that divides it.
pub proof fn lemma_round_left(m: nat, t: int, num: nat, den: nat, k: nat, d: nat)
    requires
        stands_for(m, t, false, num, den),
        d == t - k,
    ensures
        nearest_even(num, den * pow2(k)) == m * pow2(d),
{
    let up = scale_up(t);
    let down = scale_down(t);
    let t_down: nat = if t < 0 { (-t) as nat } else { 0 };
    lemma_pow2_pos(t_down);
    lemma_pow2_pos(k);
    lemma_pow2_pos(d);
    lemma_pow2_adds(d, k);
    lemma_pow2_zero();
    let s = m * pow2(d);
    let unit = den * pow2(k);
    assert(unit > 0) by (nonlinear_arith)
        requires
            den > 0,
            pow2(k) > 0,
            unit == den * pow2(k),
    ;
    assert(num == s * unit) by (nonlinear_arith)
        requires
            num * down == m * (up * den),
            down == 1,
            up == pow2(d) * pow2(k),
            s == m * pow2(d),
            unit == den * pow2(k),
    ;
    vstd::arithmetic::div_mod::lemma_fundamental_div_mod_converse(
        num as int,
        unit as int,
        s as int,
        0,
    );
}

/// A number that can be held is what it rounds to.
pub proof fn lemma_nearest_exact(magnitude: nat, scale: nat)
    requires
        magnitude < INFINITY_BITS,
        scale > 0,
    ensures
        nearest_magnitude(magnitude_quanta(magnitude) * scale, scale) == magnitude,
{
    let shift = magnitude_shift(magnitude);
    let m = magnitude_significand(magnitude);
    let quanta = magnitude_quanta(magnitude);
    let p = pow2(shift);
    let num = quanta * scale;
    lemma_pow2_pos(shift);
    vstd::arithmetic::div_mod::lemma_fundamental_div_mod_converse(
        num as int,
        scale as int,
        quanta as int,
        0,
    );
    assert(p * 0x80_0000 <= quanta || shift == 0) by (nonlinear_arith)
        requires
            m >= 0x80_0000 || shift == 0,
            quanta == m * p,
    ;
    assert(quanta < p * 0x100_0000) by (nonlinear_arith)
        requires
            m < 0x100_0000,
            quanta == m * p,
            p > 0,
    ;
    lemma_excess(quanta, shift);
    let unit = scale * p;
    assert(num == m * unit && unit > 0) by (nonlinear_arith)
        requires
            num == (m * p) * scale,
            unit == scale * p,
            scale > 0,
            p > 0,
    ;
    vstd::arithmetic::div_mod::lemma_fundamental_div_mod_converse(
        num as int,
        unit as int,
        m as int,
        0,
    );
}

/// Two to the power of `d`.
pub(crate) fn power_of_two(d: u32) -> (r: u128)
    requires
        d <= 126,
    ensures
        r == pow2(d as nat),
        1 <= r <= 0x4000_0000_0000_0000_0000_0000_0000_0000,
{
    let mut r: u128 = 1;
    let mut i: u32 = 0;
    proof {
        lemma_pow2_zero();
        lemma_pow2_126();
    }
    while i < d
        invariant
            i <= d,
            d <= 126,
            r == pow2(i as nat),
            r >= 1,
            pow2(126) == 0x4000_0000_0000_0000_0000_0000_0000_0000,
        decreases d - i,
    {
        proof {
            lemma_pow2_unfold((i + 1) as nat);
            if i + 1 < 126 {
                vstd::arithmetic::power2::lemma_pow2_strictly_increases((i + 1) as nat, 126);
            }
        }
        r = r * 2;
        i = i + 1;
    }
    proof {
        if d < 126 {
            vstd::arithmetic::power2::lemma_pow2_strictly_increases(d as nat, 126);
        }
    }
    r
}

/// Two to the power of 126, from its two halves.
pub proof fn lemma_pow2_126()
    ensures
        pow2(126) == 0x4000_0000_0000_0000_0000_0000_0000_0000,
{
    vstd::arithmetic::power2::lemma2_to64();
    vstd::arithmetic::power2::lemma2_to64_rest();
    lemma_pow2_adds(63, 63);
}

/// The number of binary digits of `m`.
pub(crate) fn bit_length(m: u64) -> (len: u32)
    requires
        m > 0,
    ensures
        1 <= len <= 64,
        pow2((len - 1) as nat) <= m < pow2(len as nat),
{
    let mut rest: u64 = m / 2;
    let mut len: u32 = 1;
    proof {
        vstd::arithmetic::power2::lemma2_to64();
    }
    while rest > 0
        invariant
            1 <= len <= 64,
            rest == m as nat / pow2(len as nat),
            pow2((len - 1) as nat) <= m,
            pow2(64) == 0x1_0000_0000_0000_0000,
        decreases rest,
    {
        proof {
            let p = pow2(len as nat);
            lemma_pow2_pos(len as nat);
            lemma_pow2_unfold((len + 1) as nat);
            assert(p <= m) by (nonlinear_arith)
                requires
                    m as nat / p >= 1,
                    p > 0,
            ;
            vstd::arithmetic::div_mod::lemma_div_denominator(m as int, p as int, 2);
            if len == 64 {
                assert(false);
            }
        }
        rest = rest / 2;
        len = len + 1;
    }
    proof {
        let p = pow2(len as nat);
        lemma_pow2_pos(len as nat);
        assert(m < p) by (nonlinear_arith)
            requires
                m as nat / p == 0,
                p > 0,
        ;
    }
    len
}

/// Nothing rounds to nothing.
pub proof fn lemma_nearest_none(den: nat)
    requires
        den > 0,
    ensures
        nearest_magnitude(0, den) == 0,
{
    lemma_pow2_zero();
    assert(den * pow2(0) == den) by (nonlinear_arith)
        requires
            pow2(0) == 1,
    ;
    assert(0nat / den == 0 && 0nat % den == 0) by (nonlinear_arith)
        requires
            den > 0,
    ;
}

/// A short `m` that is doubled `d` times still fits a significand.
proof fn lemma_left_fits(m: nat, len: nat, d: nat)
    requires
        m < pow2(len),
        len + d <= 24,
    ensures
        m * pow2(d) < 0x100_0000,
        pow2(d) <= 0x100_0000,
{
    vstd::arithmetic::power2::lemma2_to64();
    lemma_pow2_adds(len, d);
    lemma_pow2_pos(d);
    if len + d < 24 {
        vstd::arithmetic::power2::lemma_pow2_strictly_increases(len + d, 24);
    }
    if d < 24 {
        vstd::arithmetic::power2::lemma_pow2_strictly_increases(d, 24);
    }
    assert(m * pow2(d) < pow2(len) * pow2(d)) by (nonlinear_arith)
        requires
            m < pow2(len),
            pow2(d) > 0,
    ;
}

/// What is halved more than a hundred times rounds to nothing.
proof fn lemma_right_vanishes(m: u64, d: nat)
    requires
        d > 100,
    ensures
        m as nat / pow2(d) == 0,
        2 * (m as nat % pow2(d)) < pow2(d),
{
    vstd::arithmetic::power2::lemma2_to64();
    vstd::arithmetic::power2::lemma_pow2_strictly_increases(64, d);
    vstd::arithmetic::power2::lemma_pow2_strictly_increases(64, (d - 1) as nat);
    lemma_pow2_unfold(d);
    vstd::arithmetic::div_mod::lemma_fundamental_div_mod_converse(
        m as int,
        pow2(d) as int,
        0,
        m as int,
    );
}

/// The magnitude nearest to `m * 2^t` quanta. A set `sticky` says that the exact amount lies
/// strictly between that and the next multiple of `2^t`.
pub(crate) fn round_scaled(
    m: u64,
    t: i32,
    sticky: bool,
    Ghost(num): Ghost<nat>,
    Ghost(den): Ghost<nat>,
) -> (magnitude: u32)
    requires
        -10_000 <= t <= 10_000,
        sticky ==> m >= 0x200_0000,
        stands_for(m as nat, t as int, sticky, num, den),
    ensures
        magnitude == nearest_magnitude(num, den),
{
    if m == 0 {
        proof {
            lemma_pow2_pos(if t < 0 { (-t) as nat } else { 0 });
            let down = scale_down(t as int);
            let grain = scale_up(t as int) * den;
            assert(num == 0) by (nonlinear_arith)
                requires
                    0 * grain == num * down,
                    down > 0,
            ;
            lemma_nearest_none(den);
        }
        return 0;
    }
    let len = bit_length(m);
    let top: i32 = len as i32 + t;
    let k: i32 = if top > 24 {
        top - 24
    } else {
        0
    };
    proof {
        lemma_scaled_excess(m as nat, t as int, sticky, num, den, len as nat, k as nat);
    }
    if k >= 255 {
        return INFINITY_BITS;
    }
    let d: i32 = k - t;
    proof {
        if sticky {
            vstd::arithmetic::power2::lemma2_to64();
            if len < 26 {
                if len < 25 {
                    vstd::arithmetic::power2::lemma_pow2_strictly_increases(len as nat, 25);
                }
                assert(false);
            }
        }
    }
    let s: u64 = if d <= 0 {
        proof {
            lemma_round_left(m as nat, t as int, num, den, k as nat, (-d) as nat);
            lemma_left_fits(m as nat, len as nat, (-d) as nat);
        }
        m * (power_of_two((-d) as u32) as u64)
    } else if d > 100 {
        proof {
            lemma_round_right(m as nat, t as int, sticky, num, den, k as nat, d as nat);
            lemma_right_vanishes(m, d as nat);
        }
        0
    } else {
        proof {
            lemma_round_right(m as nat, t as int, sticky, num, den, k as nat, d as nat);
        }
        let scale = power_of_two(d as u32);
        let q: u128 = m as u128 / scale;
        let r: u128 = m as u128 % scale;
        proof {
            lemma_pow2_unfold(d as nat);
            lemma_pow2_pos((d - 1) as nat);
            assert(q <= m / 2) by (nonlinear_arith)
                requires
                    q == m as nat / scale as nat,
                    scale >= 2,
            ;
        }
        if 2 * r < scale || (2 * r == scale && !sticky && q % 2 == 0) {
            q as u64
        } else {
            q as u64 + 1
        }
    };
    let magnitude: u64 = k as u64 * 0x80_0000 + s;
    if magnitude < INFINITY_BITS as u64 {
        magnitude as u32
    } else {
        INFINITY_BITS
    }
}

} // verus!
