use tatara::binary32::Binary32;
use tatara::binary64::Binary64;

fn num(x: f32) -> Binary32 {
    Binary32::from_bits(x.to_bits())
}

/// The machine's result, with the one pattern that the library has for a fresh not-a-number.
fn pattern(x: f32) -> u32 {
    if x.is_nan() {
        0x7FC0_0000
    } else {
        x.to_bits()
    }
}

/// Patterns at the edges of the format, and a spread of others.
fn patterns() -> Vec<u32> {
    let mut all = vec![
        0x0000_0000, 0x0000_0001, 0x0000_0002, 0x007F_FFFF, 0x0080_0000, 0x0080_0001, 0x00FF_FFFF,
        0x0100_0000, 0x3380_0000, 0x3380_0001, 0x3400_0000, 0x3EAA_AAAB, 0x3F00_0000, 0x3F7F_FFFF,
        0x3F80_0000, 0x3F80_0001, 0x3F80_0002, 0x3FFF_FFFF, 0x4000_0000, 0x4049_0FDB, 0x4B7F_FFFF,
        0x4B80_0000, 0x4F00_0000, 0x4F7F_FFFF, 0x5F00_0000, 0x7E80_0000, 0x7F00_0000, 0x7F7F_FFFF,
        0x7F80_0000, 0x7F80_0001, 0x7FC0_0000, 0x7FFF_FFFF,
    ];
    let mut state: u32 = 0x1234_5678;
    for _ in 0..180 {
        state = state.wrapping_mul(1_664_525).wrapping_add(1_013_904_223);
        all.push((state ^ (state >> 13)) & 0x7FFF_FFFF);
    }
    let negative: Vec<u32> = all.iter().map(|p| p | 0x8000_0000).collect();
    all.extend(negative);
    all
}

#[test]
fn arithmetic_agrees_with_the_machine() {
    let all = patterns();
    for &a in &all {
        let (x, fx) = (Binary32::from_bits(a), f32::from_bits(a));
        for &b in &all {
            let (y, fy) = (Binary32::from_bits(b), f32::from_bits(b));
            assert_eq!(x.plus(y).to_bits(), pattern(fx + fy), "{a:x} + {b:x}");
            assert_eq!(x.minus(y).to_bits(), pattern(fx - fy), "{a:x} - {b:x}");
            assert_eq!(x.times(y).to_bits(), pattern(fx * fy), "{a:x} * {b:x}");
            assert_eq!(x.over(y).to_bits(), pattern(fx / fy), "{a:x} / {b:x}");
            assert_eq!(x == y, fx == fy);
            assert_eq!(x.is_at_most(y), fx <= fy);
            assert_eq!(x.is_below(y), fx < fy);
        }
    }
}

#[test]
fn ties_go_to_the_even_neighbour() {
    let one = num(1.0);
    let half_ulp = num(f32::EPSILON / 2.0);
    assert_eq!(one.plus(half_ulp).to_bits(), 0x3F80_0000);
    assert_eq!(Binary32::from_bits(0x3F80_0001).plus(half_ulp).to_bits(), 0x3F80_0002);
    assert_eq!(Binary32::from_count(16_777_217).to_bits(), 16_777_216f32.to_bits());
    assert_eq!(Binary32::from_count(16_777_219).to_bits(), 16_777_220f32.to_bits());
}

#[test]
fn overflow_and_underflow() {
    let max = num(f32::MAX);
    assert_eq!(max.plus(max).to_bits(), f32::INFINITY.to_bits());
    let tiny = Binary32::from_bits(1);
    assert_eq!(tiny.times(num(0.5)).to_bits(), 0);
    assert_eq!(tiny.times(num(0.75)).to_bits(), 1);
    assert_eq!(num(-0.0).plus(num(0.0)).to_bits(), 0);
    assert_eq!(num(-0.0).plus(num(-0.0)).to_bits(), 0x8000_0000);
}

#[test]
fn conversions_agree_with_the_machine() {
    for a in patterns() {
        let (x, fx) = (Binary32::from_bits(a), f32::from_bits(a));
        assert_eq!(x.is_nan(), fx.is_nan());
        assert_eq!(x.is_negative(), fx.is_sign_negative());
        assert_eq!(x.negated().to_bits(), (-fx).to_bits());
        assert_eq!(x.to_floor_i32(), fx.floor() as i32);
        assert_eq!(x.to_usize(), fx as usize);
        if !fx.is_nan() {
            assert_eq!(x.round().to_bits(), fx.round().to_bits());
            assert_eq!(f64::from_bits(x.widen().to_bits()), fx as f64);
            assert_eq!(x.widen().narrow().to_bits(), a);
            assert_eq!(x.clamp(num(-1.0), num(7.0)).to_bits(), fx.clamp(-1.0, 7.0).to_bits());
        } else {
            assert!(x.round().is_nan());
            assert!(f64::from_bits(x.widen().to_bits()).is_nan());
            assert_eq!(x.widen().narrow().to_bits(), a | 0x0040_0000);
            assert!(x.clamp(num(-1.0), num(7.0)).is_nan());
        }
    }
    for n in [0u64, 1, 2, 9, 256, 16_777_217, 0xFFFF_FFFF, 1 << 40, (1 << 40) + 1, u64::MAX] {
        assert_eq!(Binary32::from_count(n).to_bits(), (n as f32).to_bits());
    }
}

#[test]
fn narrowing_agrees_with_the_machine() {
    let mut state: u64 = 0x0123_4567_89AB_CDEF;
    let mut all: Vec<u64> = vec![
        0, 1, 1 << 63, 0x3FF0_0000_0000_0000, 0x3FF0_0000_1000_0000, 0x3FF0_0000_3000_0000,
        0x3FF0_0000_1000_0001, 0x47EF_FFFF_E000_0000, 0x47EF_FFFF_EFFF_FFFF, 0x47EF_FFFF_F000_0000,
        0x36A0_0000_0000_0000, 0x3690_0000_0000_0000, 0x3690_0000_0000_0001, 0x380F_FFFF_FFFF_FFFF,
        0x7FF0_0000_0000_0000, 0xFFF0_0000_0000_0000, 0x7FEF_FFFF_FFFF_FFFF, 0x000F_FFFF_FFFF_FFFF,
    ];
    for _ in 0..4000 {
        state = state
            .wrapping_mul(6_364_136_223_846_793_005)
            .wrapping_add(1_442_695_040_888_963_407);
        all.push(state);
        // The binary64 numbers that are near the range of binary32.
        all.push((state & 0x800F_FFFF_FFFF_FFFF) | (((state >> 20) % 300 + 880) << 52));
    }
    for bits in all {
        let wide = f64::from_bits(bits);
        if !wide.is_nan() {
            let narrow = Binary64::from_bits(bits).narrow();
            assert_eq!(narrow.to_bits(), (wide as f32).to_bits(), "{bits:x}");
        } else {
            assert!(Binary64::from_bits(bits).narrow().is_nan());
        }
    }
}

#[test]
fn wide_arithmetic_agrees_with_the_machine() {
    let mut state: u64 = 0x0123_4567_89AB_CDEF;
    let mut all: Vec<u64> = vec![
        0, 1, 2, 0x000F_FFFF_FFFF_FFFF, 0x0010_0000_0000_0000, 0x3CA0_0000_0000_0000,
        0x3FEF_FFFF_FFFF_FFFF, 0x3FF0_0000_0000_0000, 0x3FF0_0000_0000_0001, 0x4059_0000_0000_0000,
        0x4340_0000_0000_0000, 0x7FE0_0000_0000_0000, 0x7FEF_FFFF_FFFF_FFFF, 0x7FF0_0000_0000_0000,
        0x7FF0_0000_0000_0001, 0x7FF8_0000_0000_0000,
    ];
    for _ in 0..120 {
        state = state
            .wrapping_mul(6_364_136_223_846_793_005)
            .wrapping_add(1_442_695_040_888_963_407);
        all.push((state ^ (state >> 29)) & 0x7FFF_FFFF_FFFF_FFFF);
        all.push((state & 0x000F_FFFF_FFFF_FFFF) | (((state >> 13) % 60 + 993) << 52));
    }
    let negative: Vec<u64> = all.iter().map(|p| p | (1 << 63)).collect();
    all.extend(negative);
    let pattern = |x: f64| if x.is_nan() { 0x7FF8_0000_0000_0000 } else { x.to_bits() };
    for &a in &all {
        let (x, fx) = (Binary64::from_bits(a), f64::from_bits(a));
        for &b in &all {
            let (y, fy) = (Binary64::from_bits(b), f64::from_bits(b));
            assert_eq!(x.times(y).to_bits(), pattern(fx * fy), "{a:x} * {b:x}");
            assert_eq!(x.over(y).to_bits(), pattern(fx / fy), "{a:x} / {b:x}");
            assert_eq!(x == y, fx == fy);
        }
        assert_eq!(Binary64::from_count(a).to_bits(), (a as f64).to_bits());
    }
}

#[test]
fn rounding_is_nearest_and_keeps_order() {
    // 1/3 lies between two neighbours; the nearer one is taken.
    let third = num(1.0).over(num(3.0)).to_bits();
    let exact = 1.0f64 / 3.0;
    let error = |bits: u32| (f32::from_bits(bits) as f64 - exact).abs();
    assert!(error(third) < error(third - 1));
    assert!(error(third) < error(third + 1));
    let mut last = num(0.0);
    for n in 1..2000u64 {
        let next = Binary32::from_count(n).over(num(7.0));
        assert!(last.is_below(next));
        last = next;
    }
}
