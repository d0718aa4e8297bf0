//! The bit-level arithmetic against the arithmetic of the machine.

use fraud_api::binary32::Binary32;
use fraud_api::binary64::Binary64;

fn single(x: f32) -> Binary32 {
    Binary32 { bits: x.to_bits() }
}

fn double(x: f64) -> Binary64 {
    Binary64 { bits: x.to_bits() }
}

fn same32(got: Binary32, want: f32) -> bool {
    if want.is_nan() {
        got.is_nan()
    } else {
        got.bits == want.to_bits()
    }
}

fn same64(got: Binary64, want: f64) -> bool {
    if want.is_nan() {
        f64::from_bits(got.bits).is_nan()
    } else {
        got.bits == want.to_bits()
    }
}

/// Patterns that reach zeros, the smallest and largest numbers, infinities and what is not a
/// number, and then a long pseudo-random walk.
fn patterns32(n: usize) -> Vec<u32> {
    let mut out: Vec<u32> = vec![
        0,
        0x8000_0000,
        1,
        2,
        0x8000_0001,
        0x007F_FFFF,
        0x0080_0000,
        0x0080_0001,
        0x3F80_0000,
        0xBF80_0000,
        0x3F00_0000,
        0x3F7F_FFFF,
        0x4B00_0000,
        0x4B7F_FFFF,
        0x7F7F_FFFF,
        0xFF7F_FFFF,
        0x7F80_0000,
        0xFF80_0000,
        0x7FC0_0000,
        0x461C_4000,
    ];
    let mut state: u32 = 12345;
    for _ in 0..n {
        state = state.wrapping_mul(1_664_525).wrapping_add(1_013_904_223);
        out.push(state ^ (state >> 13));
    }
    out
}

fn patterns64(n: usize) -> Vec<u64> {
    let mut out: Vec<u64> = vec![
        0,
        0x8000_0000_0000_0000,
        1,
        0x000F_FFFF_FFFF_FFFF,
        0x0010_0000_0000_0000,
        0x3FF0_0000_0000_0000,
        0xBFF0_0000_0000_0000,
        0x7FEF_FFFF_FFFF_FFFF,
        0xFFEF_FFFF_FFFF_FFFF,
        0x7FF0_0000_0000_0000,
        0xFFF0_0000_0000_0000,
        0x7FF8_0000_0000_0000,
        0x47EF_FFFF_E000_0000,
        0x47EF_FFFF_F000_0000,
        0x3690_0000_0000_0000,
    ];
    let mut state: u64 = 987654321;
    for _ in 0..n {
        state = state.wrapping_mul(6364136223846793005).wrapping_add(1442695040888963407);
        out.push(state ^ (state >> 29));
    }
    out
}

#[test]
fn single_operations_match_the_machine() {
    let all = patterns32(260);
    for &a in &all {
        for &b in &all {
            let (x, y) = (f32::from_bits(a), f32::from_bits(b));
            let (p, q) = (single(x), single(y));
            assert!(same32(p.add(q), x + y), "{a:#x} + {b:#x}");
            assert!(same32(p.sub(q), x - y), "{a:#x} - {b:#x}");
            assert!(same32(p.mul(q), x * y), "{a:#x} * {b:#x}");
            assert!(same32(p.div(q), x / y), "{a:#x} / {b:#x}");
            assert_eq!(p.lt(q), x < y, "{a:#x} < {b:#x}");
        }
    }
}

#[test]
fn near_scales_add_like_the_machine() {
    // Operands of similar size cancel, carry and tie.
    let mut state: u32 = 7;
    for _ in 0..20_000 {
        state = state.wrapping_mul(1_664_525).wrapping_add(1_013_904_223);
        let a = 0x3F00_0000 + (state >> 6);
        state = state.wrapping_mul(1_664_525).wrapping_add(1_013_904_223);
        let b = 0xBE00_0000 + (state >> 6);
        let (x, y) = (f32::from_bits(a), f32::from_bits(b));
        assert!(same32(single(x).add(single(y)), x + y), "{a:#x} + {b:#x}");
        assert!(same32(single(x).mul(single(y)), x * y), "{a:#x} * {b:#x}");
        assert!(same32(single(x).div(single(y)), x / y), "{a:#x} / {b:#x}");
    }
}

#[test]
fn whole_numbers_convert_like_the_machine() {
    for n in [0u32, 1, 2, 5, 14, 10_000, 16_777_215, 16_777_216, 16_777_217, 16_777_219, u32::MAX] {
        assert_eq!(Binary32::from_u32(n).bits, (n as f32).to_bits(), "{n}");
    }
    for n in [0i64, -1, 1, -325, 33_554_431, -33_554_433, i64::MAX, i64::MIN + 1] {
        assert_eq!(Binary32::from_i64(n).bits, (n as f32).to_bits(), "{n}");
    }
    for n in [0u64, 1, 3, 3_000_000, (1 << 53) - 1, (1 << 53) + 1, u64::MAX] {
        assert_eq!(Binary64::from_u64(n).bits, (n as f64).to_bits(), "{n}");
    }
}

#[test]
fn rounding_matches_the_machine() {
    for &a in &patterns32(4000) {
        let x = f32::from_bits(a);
        let want = x.round() as i32;
        let want = if x.is_nan() { 0 } else { want.clamp(-32_768, 32_767) };
        assert_eq!(single(x).round_clamped(-32_768, 32_767), want, "{a:#x}");
    }
    for (x, want) in [(0.5f32, 1), (-0.5, -1), (1.5, 2), (2.5, 3), (0.49999997, 0), (-2.4, -2)] {
        assert_eq!(single(x).round_clamped(-100, 100), want, "{x}");
    }
}

#[test]
fn classes_and_sign() {
    assert!(single(f32::NAN).is_nan() && !single(f32::NAN).is_finite());
    assert!(!single(f32::INFINITY).is_nan() && !single(f32::INFINITY).is_finite());
    assert!(single(f32::MAX).is_finite() && single(0.0).is_finite());
    assert_eq!(single(1.5).neg().bits, (-1.5f32).to_bits());
    assert_eq!(single(-0.0).neg().bits, 0);
    assert_eq!(single(f32::NAN).clamp01().bits, f32::NAN.to_bits());
}

#[test]
fn sums_of_small_integers_are_exact() {
    for (a, b) in [(3i64, 4i64), (-7, 7), (10_000, -20_000), (16_777_215, 1)] {
        let (x, y) = (Binary32::from_i64(a), Binary32::from_i64(b));
        assert_eq!(f32::from_bits(x.add(y).bits), (a + b) as f32);
        assert_eq!(f32::from_bits(x.sub(y).bits), (a - b) as f32);
        assert_eq!(f32::from_bits(x.mul(x).bits), (a * a) as f32);
    }
}

#[test]
fn double_operations_match_the_machine() {
    let all = patterns64(200);
    for &a in &all {
        for &b in &all {
            let (x, y) = (f64::from_bits(a), f64::from_bits(b));
            assert!(same64(double(x).add(double(y)), x + y), "{a:#x} + {b:#x}");
            assert!(same64(double(x).div(double(y)), x / y), "{a:#x} / {b:#x}");
        }
    }
}

#[test]
fn near_scales_add_like_the_machine_in_double_precision() {
    let mut state: u64 = 11;
    for _ in 0..20_000 {
        state = state.wrapping_mul(6364136223846793005).wrapping_add(1442695040888963407);
        let a = 0x3FE0_0000_0000_0000 + (state >> 9);
        state = state.wrapping_mul(6364136223846793005).wrapping_add(1442695040888963407);
        let b = 0xBFC0_0000_0000_0000 + (state >> 9);
        let (x, y) = (f64::from_bits(a), f64::from_bits(b));
        assert!(same64(double(x).add(double(y)), x + y), "{a:#x} + {b:#x}");
        assert!(same64(double(x).div(double(y)), x / y), "{a:#x} / {b:#x}");
    }
}

#[test]
fn widening_and_narrowing_match_the_machine() {
    for &a in &patterns32(4000) {
        let x = f32::from_bits(a);
        assert!(same64(Binary64::from_single(single(x)), x as f64), "{a:#x}");
    }
    for &a in &patterns64(4000) {
        let x = f64::from_bits(a);
        assert!(same32(double(x).to_single(), x as f32), "{a:#x}");
    }
    // Near the single-precision range, where most patterns of the walk do not fall.
    let mut state: u64 = 3;
    for _ in 0..4000 {
        state = state.wrapping_mul(6364136223846793005).wrapping_add(1442695040888963407);
        let a = 0x3680_0000_0000_0000 + (state % 0x1190_0000_0000_0000);
        let x = f64::from_bits(a);
        assert!(same32(double(x).to_single(), x as f32), "{a:#x}");
    }
}

#[test]
fn a_number_returns_from_double_precision() {
    for &a in &patterns32(2000) {
        let x = single(f32::from_bits(a));
        if !x.is_nan() {
            assert_eq!(Binary64::from_single(x).to_single(), x, "{a:#x}");
        }
    }
}

#[test]
fn square_and_sum_with_one_rounding_match_the_machine() {
    let mut values = patterns32(300);
    // Close exponents, where the sum is not that of the rounded square.
    for i in 0..40u32 {
        values.push(0x3F80_0001 + i * 0x0012_3457);
        values.push(0x1F80_0003 + i * 0x0000_1111);
    }
    for &x in &values {
        for &c in &values {
            let (x, c) = (f32::from_bits(x), f32::from_bits(c & 0x7FFF_FFFF));
            assert!(same32(single(x).square_add(single(c)), x.mul_add(x, c)), "{x} {c}");
        }
    }
    // Two roundings give another number.
    let x = f32::from_bits(0x3F80_0001);
    let c = f32::from_bits(0x3380_0000);
    assert_ne!(x.mul_add(x, c), x * x + c);
}
