//! Quantisation of features.

use fraud_api::binary32::Binary32;
use fraud_api::index::layout::N_DIMS;
use fraud_api::index::quantize::{quantize_query, QUANT_SCALE};

fn quantize_i16(v: f32) -> i16 {
    fraud_api::index::quantize::quantize_i16(Binary32 { bits: v.to_bits() })
}

#[test]
fn sentinel_quantizes_to_minus_ten_thousand() {
    assert_eq!(quantize_i16(-1.0), -10_000);
}

#[test]
fn zero_quantizes_to_zero() {
    assert_eq!(quantize_i16(0.0), 0);
}

#[test]
fn one_quantizes_to_ten_thousand() {
    assert_eq!(quantize_i16(1.0), 10_000);
}

#[test]
fn round_trip_precision() {
    // With QUANT_SCALE = 10_000, error ≤ 0.5 / 10_000 = 0.00005
    for i in 0..=100 {
        let v = i as f32 / 100.0;
        let back = quantize_i16(v) as f32 / QUANT_SCALE as f32;
        assert!((back - v).abs() < 0.0001, "round-trip failed for v={v}: got {back}");
    }
}

#[test]
fn query_quantizes_all_dims() {
    let q = [Binary32 { bits: 0.5f32.to_bits() }; N_DIMS];
    let qi = quantize_query(&q);
    for &v in &qi {
        assert_eq!(v, 5_000);
    }
}

#[test]
fn max_diff_fits_in_i16() {
    // sentinel vs max: -10_000 - 10_000 = -20_000, fits in i16 (range ±32_767)
    let a = quantize_i16(-1.0);
    let b = quantize_i16(1.0);
    let diff = a as i32 - b as i32;
    assert_eq!(diff, -20_000);
    assert!(diff >= i16::MIN as i32 && diff <= i16::MAX as i32);
}

#[test]
fn half_quantizes_correctly() {
    assert_eq!(quantize_i16(0.5), 5_000);
}

#[test]
fn quantising_matches_the_machine() {
    let mut state: u32 = 99;
    for _ in 0..5_000 {
        state = state.wrapping_mul(1_664_525).wrapping_add(1_013_904_223);
        // Numbers from about -2 to 2.
        let v = (state as f32 / u32::MAX as f32) * 4.0 - 2.0;
        assert_eq!(quantize_i16(v), (v * 10_000.0).round() as i16, "{v}");
    }
    assert_eq!(quantize_i16(0.00005), 1);
    assert_eq!(quantize_i16(-0.00005), -1);
}

#[test]
fn what_is_too_large_is_limited() {
    assert_eq!(quantize_i16(5.0), (5.0f32 * 10_000.0).round() as i16);
    assert_eq!(quantize_i16(f32::INFINITY), f32::INFINITY as i16);
    assert_eq!(quantize_i16(f32::NEG_INFINITY), f32::NEG_INFINITY as i16);
    assert_eq!(quantize_i16(f32::NAN), 0);
}

#[test]
fn quantisation_keeps_the_order() {
    let values = [
        -4.0f32, -3.2768, -1.0, -0.500_05, -0.5, -0.000_05, -0.0, 0.0, 0.000_049, 0.000_05, 0.25,
        0.333_333, 0.999_95, 1.0, 3.2767, 4.0,
    ];
    for pair in values.windows(2) {
        assert!(quantize_i16(pair[0]) <= quantize_i16(pair[1]), "{} and {}", pair[0], pair[1]);
    }
    assert_eq!(quantize_i16(-4.0), i16::MIN);
    assert_eq!(quantize_i16(4.0), i16::MAX);
}

#[test]
fn the_opposite_quantises_to_the_opposite() {
    for v in [0.0f32, 0.000_05, 0.123_45, 0.5, 0.777_75, 1.0, 3.2] {
        assert_eq!(quantize_i16(-v), -quantize_i16(v), "{v}");
    }
}
