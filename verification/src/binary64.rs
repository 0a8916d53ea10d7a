//! IEEE 754 binary64 numbers, and the conversions between them and binary32 numbers.
//!
//! The contracts measure binary64 numbers in their smallest subnormal, `2^-1074`. One binary32
//! quantum is `2^925` of these.

use crate::arithmetic::{lemma_quanta_zero, lemma_significand};
use crate::binary32::{
    magnitude_quanta, magnitude_shift, magnitude_significand, signed, Binary32, INFINITY_BITS,
};
use crate::rounding::{
    bit_length, lemma_nearest_exact, lemma_pow2_zero, lemma_stands_for, nearest_magnitude,
    power_of_two, round_scaled,
};
use vstd::arithmetic::power2::{lemma_pow2_adds, lemma_pow2_pos, lemma_pow2_unfold, pow2};
use vstd::prelude::*;

verus! {

/// The sign bit.
pub const WIDE_SIGN_BIT: u64 = 0x8000_0000_0000_0000;

/// The pattern of positive infinity; a magnitude above it is not a number.
pub const WIDE_INFINITY_BITS: u64 = 0x7FF0_0000_0000_0000;

/// A binary64 number: one sign bit, eleven exponent bits and fifty-two fraction bits.
#[derive(Clone, Copy, Debug)]
pub struct Binary64 {
    pub bits: u64,
}

impl Binary64 {
    /// The sign bit is set.
    pub open spec fn negative(self) -> bool {
        self.bits >= WIDE_SIGN_BIT
    }

    /// The pattern without its sign bit.
    pub open spec fn magnitude(self) -> nat {
        (self.bits as nat) % 0x8000_0000_0000_0000
    }

    /// The number is neither infinite nor a not-a-number.
    pub open spec fn finite(self) -> bool {
        self.magnitude() < WIDE_INFINITY_BITS
    }

    /// The absolute value of a finite number, in quanta of `2^-1074`.
    pub open spec fn quanta(self) -> nat {
        wide_significand(self.magnitude()) * pow2(wide_shift(self.magnitude()))
    }
}

/// How often the significand of a binary64 magnitude is doubled.
pub open spec fn wide_shift(magnitude: nat) -> nat {
    let exponent = magnitude / 0x10_0000_0000_0000;
    if exponent == 0 {
        0
    } else {
        (exponent - 1) as nat
    }
}

/// The significand of a binary64 magnitude, with its implicit leading bit.
pub open spec fn wide_significand(magnitude: nat) -> nat {
    (magnitude - wide_shift(magnitude) * 0x10_0000_0000_0000) as nat
}

/// The binary64 number with the given sign and magnitude.
pub open spec fn wide_signed(negative: bool, magnitude: nat) -> Binary64 {
    Binary64 { bits: (magnitude + if negative { 0x8000_0000_0000_0000nat } else { 0 }) as u64 }
}

/// How often `whole` has to be halved before it fits the fifty-three bits of a significand.
pub open spec fn wide_excess(whole: nat) -> nat
    decreases whole,
{
    if whole < 0x20_0000_0000_0000 {
        0
    } else {
        1 + wide_excess(whole / 2)
    }
}

/// The binary64 magnitude of a number of `quanta` that it can hold.
pub open spec fn wide_magnitude(quanta: nat) -> nat {
    let shift = wide_excess(quanta);
    shift * 0x10_0000_0000_0000 + quanta / pow2(shift)
}

/// The fraction of a not-a-number with the bit set that marks it as quiet; `quiet` is that bit.
pub open spec fn quieted(fraction: nat, quiet: nat) -> nat {
    if fraction < quiet {
        fraction + quiet
    } else {
        fraction
    }
}

/// The binary64 number with the value of `a`. A not-a-number keeps its sign and its payload and
/// becomes quiet.
pub open spec fn widened(a: Binary32) -> Binary64 {
    if a.finite() {
        wide_signed(a.negative(), wide_magnitude(a.quanta() * pow2(925)))
    } else if a.infinite() {
        wide_signed(a.negative(), WIDE_INFINITY_BITS as nat)
    } else {
        wide_signed(
            a.negative(),
            (WIDE_INFINITY_BITS + quieted((a.magnitude() - INFINITY_BITS) as nat, 0x40_0000)
                * 0x2000_0000) as nat,
        )
    }
}

/// The binary32 number nearest to `a`, ties to even. A not-a-number keeps its sign and the upper
/// part of its payload and becomes quiet.
pub open spec fn narrowed(a: Binary64) -> Binary32 {
    if a.finite() {
        signed(a.negative(), nearest_magnitude(a.quanta(), pow2(925)))
    } else if a.magnitude() == WIDE_INFINITY_BITS {
        signed(a.negative(), INFINITY_BITS as nat)
    } else {
        signed(
            a.negative(),
            (INFINITY_BITS + quieted(
                (a.magnitude() - WIDE_INFINITY_BITS) as nat / 0x2000_0000,
                0x40_0000,
            )) as nat,
        )
    }
}

/// `whole` lies in the binade that starts at `2^(52 + shift)`, or below the first one.
pub proof fn lemma_wide_excess(whole: nat, shift: nat)
    requires
        shift == 0 || pow2(shift) * 0x10_0000_0000_0000 <= whole,
        whole < pow2(shift) * 0x20_0000_0000_0000,
    ensures
        wide_excess(whole) == shift,
    decreases shift,
{
    if shift == 0 {
        lemma_pow2_zero();
    } else {
        lemma_pow2_unfold(shift);
        lemma_pow2_pos((shift - 1) as nat);
        lemma_wide_excess(whole / 2, (shift - 1) as nat);
    }
}

/// The binary64 magnitude of a nonzero binary32 magnitude, given the bit length of its
/// significand.
proof fn lemma_wide_magnitude(magnitude: nat, len: nat)
    requires
        0 < magnitude < INFINITY_BITS,
        1 <= len <= 24,
        pow2((len - 1) as nat) <= magnitude_significand(magnitude) < pow2(len),
    ensures
        ({
            let k = len + magnitude_shift(magnitude) + 872;
            let m = magnitude_significand(magnitude) * pow2((53 - len) as nat);
            let wide = wide_magnitude(magnitude_quanta(magnitude) * pow2(925));
            &&& 0x10_0000_0000_0000 <= m < 0x20_0000_0000_0000
            &&& wide == k * 0x10_0000_0000_0000 + m
            &&& m * pow2(k) == magnitude_quanta(magnitude) * pow2(925)
        }),
{
    let s = magnitude_shift(magnitude);
    let sig = magnitude_significand(magnitude);
    let k = len + s + 872;
    let up = pow2((53 - len) as nat);
    let m = sig * up;
    let whole = magnitude_quanta(magnitude) * pow2(925);
    lemma_pow2_pos((53 - len) as nat);
    lemma_pow2_pos(k);
    lemma_pow2_adds(s, 925);
    lemma_pow2_adds((53 - len) as nat, k);
    let pk = pow2(k);
    assert(whole == m * pk) by (nonlinear_arith)
        requires
            whole == (sig * pow2(s)) * pow2(925),
            m == sig * up,
            pow2(s) * pow2(925) == up * pk,
    ;
    vstd::arithmetic::power2::lemma2_to64();
    vstd::arithmetic::power2::lemma2_to64_rest();
    lemma_pow2_adds((len - 1) as nat, (53 - len) as nat);
    lemma_pow2_adds(len, (53 - len) as nat);
    let low = pow2((len - 1) as nat);
    let high = pow2(len);
    assert(low * up <= sig * up < high * up) by (nonlinear_arith)
        requires
            low <= sig < high,
            up > 0,
    ;
    assert(pk * 0x10_0000_0000_0000 <= whole < pk * 0x20_0000_0000_0000) by (nonlinear_arith)
        requires
            whole == m * pk,
            0x10_0000_0000_0000 <= m < 0x20_0000_0000_0000,
            pk > 0,
    ;
    lemma_wide_excess(whole, k);
    vstd::arithmetic::div_mod::lemma_fundamental_div_mod_converse(
        whole as int,
        pk as int,
        m as int,
        0,
    );
}

/// Zero widens to zero.
proof fn lemma_wide_zero()
    ensures
        wide_magnitude(magnitude_quanta(0) * pow2(925)) == 0,
        magnitude_quanta(0) == 0,
{
    lemma_quanta_zero(0);
    assert(magnitude_quanta(0) * pow2(925) == 0) by (nonlinear_arith)
        requires
            magnitude_quanta(0) == 0,
    ;
    lemma_pow2_zero();
}

/// Every significand has a bit length of at most twenty-four.
proof fn lemma_has_length(m: nat)
    requires
        0 < m < 0x100_0000,
    ensures
        exists|len: nat| 1 <= len <= 24 && #[trigger] pow2((len - 1) as nat) <= m < pow2(len),
{
    vstd::arithmetic::power2::lemma2_to64();
    lemma_has_length_below(m, 24);
}

/// A number below `2^top` has a bit length of at most `top`.
proof fn lemma_has_length_below(m: nat, top: nat)
    requires
        0 < m < pow2(top),
    ensures
        exists|len: nat| 1 <= len <= top && #[trigger] pow2((len - 1) as nat) <= m < pow2(len),
    decreases top,
{
    lemma_pow2_zero();
    assert(top > 0);
    if pow2((top - 1) as nat) <= m {
    } else {
        lemma_has_length_below(m, (top - 1) as nat);
    }
}

/// Widening keeps the value and the sign of every finite number.
pub proof fn law_widening_is_exact(a: Binary32)
    requires
        a.finite(),
    ensures
        widened(a).finite(),
        widened(a).negative() == a.negative(),
        widened(a).quanta() == a.quanta() * pow2(925),
{
    let magnitude = a.magnitude();
    if magnitude == 0 {
        lemma_wide_zero();
        assert(wide_significand(0) == 0);
    } else {
        lemma_significand(magnitude);
        lemma_has_length(magnitude_significand(magnitude));
        let len = choose|len: nat|
            1 <= len <= 24 && #[trigger] pow2((len - 1) as nat) <= magnitude_significand(magnitude)
                < pow2(len);
        lemma_wide_magnitude(magnitude, len);
        let wide = widened(a).magnitude();
        let k = len + magnitude_shift(magnitude) + 872;
        assert(wide_shift(wide) == k);
    }
}

/// Widening and narrowing again gives the number back, bit for bit. A not-a-number comes back
/// the same when it is a quiet one, which is a fraction of `2^22` or more.
pub proof fn law_narrowing_undoes_widening(a: Binary32)
    requires
        a.nan() ==> a.magnitude() >= INFINITY_BITS + 0x40_0000,
    ensures
        narrowed(widened(a)) == a,
{
    if a.finite() {
        law_widening_is_exact(a);
        lemma_pow2_pos(925);
        lemma_nearest_exact(a.magnitude(), pow2(925));
    }
}

impl Binary64 {
    /// The number with the given bit pattern.
    pub fn from_bits(bits: u64) -> (r: Binary64)
        ensures
            r.bits == bits,
    {
        Binary64 { bits }
    }

    /// The bit pattern of the number.
    pub fn to_bits(self) -> (bits: u64)
        ensures
            bits == self.bits,
    {
        self.bits
    }

    /// The binary32 number nearest to this one.
    pub fn narrow(self) -> (r: Binary32)
        ensures
            r == narrowed(self),
    {
        let negative: bool = self.bits >= WIDE_SIGN_BIT;
        let magnitude: u64 = self.bits % WIDE_SIGN_BIT;
        if magnitude > WIDE_INFINITY_BITS {
            let upper: u32 = ((magnitude - WIDE_INFINITY_BITS) / 0x2000_0000) as u32;
            let fraction: u32 = if upper < 0x40_0000 {
                upper + 0x40_0000
            } else {
                upper
            };
            return Binary32::with_sign(negative, INFINITY_BITS + fraction);
        }
        if magnitude == WIDE_INFINITY_BITS {
            return Binary32::with_sign(negative, INFINITY_BITS);
        }
        let exponent: u64 = magnitude / 0x10_0000_0000_0000;
        let shift: u64 = if exponent == 0 {
            0
        } else {
            exponent - 1
        };
        let m: u64 = magnitude - shift * 0x10_0000_0000_0000;
        let ghost num = self.quanta();
        proof {
            lemma_pow2_pos(925);
            assert(pow2(925) * m * pow2(shift as nat) == num * 1 * pow2(925)) by (nonlinear_arith)
                requires
                    num == m * pow2(shift as nat),
            ;
            lemma_stands_for(m as nat, false, m as nat, 1, shift as nat, 925, num, pow2(925));
        }
        let rounded: u32 = round_scaled(
            m,
            shift as i32 - 925,
            false,
            Ghost(num),
            Ghost(pow2(925)),
        );
        Binary32::with_sign(negative, rounded)
    }
}

impl Binary32 {
    /// The binary64 number with the value of this one.
    pub fn widen(self) -> (r: Binary64)
        ensures
            r == widened(self),
    {
        let magnitude: u32 = self.to_magnitude();
        let sign: u64 = if self.is_negative() {
            WIDE_SIGN_BIT
        } else {
            0
        };
        if magnitude > INFINITY_BITS {
            let fraction: u32 = magnitude - INFINITY_BITS;
            let quiet: u32 = if fraction < 0x40_0000 {
                fraction + 0x40_0000
            } else {
                fraction
            };
            return Binary64 { bits: sign + (WIDE_INFINITY_BITS + quiet as u64 * 0x2000_0000) };
        }
        if magnitude == INFINITY_BITS {
            return Binary64 { bits: sign + WIDE_INFINITY_BITS };
        }
        if magnitude == 0 {
            proof {
                lemma_wide_zero();
            }
            return Binary64 { bits: sign };
        }
        let (m, shift) = Binary32::split(magnitude);
        proof {
            lemma_significand(magnitude as nat);
        }
        let len: u32 = bit_length(m as u64);
        proof {
            vstd::arithmetic::power2::lemma2_to64();
            if len > 24 {
                if len > 25 {
                    vstd::arithmetic::power2::lemma_pow2_strictly_increases(24, (len - 1) as nat);
                }
                assert(false);
            }
            lemma_wide_magnitude(magnitude as nat, len as nat);
            lemma_pow2_pos((53 - len) as nat);
            assert(m * pow2((53 - len) as nat) >= pow2((53 - len) as nat)) by (nonlinear_arith)
                requires
                    m >= 1,
                    pow2((53 - len) as nat) > 0,
            ;
        }
        let significand: u64 = m as u64 * (power_of_two(53 - len) as u64);
        let k: u64 = len as u64 + shift as u64 + 872;
        Binary64 { bits: sign + (k * 0x10_0000_0000_0000 + significand) }
    }
}

} // verus!
