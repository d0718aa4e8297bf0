//! Quantisation of features to `i16`.

use vstd::prelude::*;
#[allow(unused_imports)]
use vstd::arithmetic::div_mod::{lemma_fundamental_div_mod, lemma_fundamental_div_mod_converse};
#[allow(unused_imports)]
use vstd::arithmetic::power2::{lemma_pow2_pos, pow2};

use crate::binary32::Binary32;
#[allow(unused_imports)]
use crate::binary32::{
    div_half_up, lemma_magnitude_order, lemma_nearest_exact, lemma_nearest_mono,
    lemma_nearest_scale, lemma_of_int_exact, lemma_rounding_error, nearest, ONE_BITS,
};
use crate::index::layout::N_DIMS;

verus! {

/// Fixed quantisation scale, 10000: features in `[-1, 1]` map to `[-10000, 10000]`.
///
/// The difference of two quantised features is at most 20000, so it fits in an `i16`.
pub const QUANT_SCALE: u32 = 10_000;

/// The scale in single precision.
const SCALE_BITS: u32 = 0x461C_4000;

/// The scale in single precision.
spec fn scale() -> Binary32 {
    Binary32 { bits: SCALE_BITS }
}

/// The feature times the scale, rounded to the nearest integer and limited to `i16`; zero for
/// what is not a number.
pub open spec fn quantized(v: Binary32) -> i16 {
    v.mul_spec(Binary32::of_int(QUANT_SCALE as int)).round_within(-32768, 32767) as i16
}

/// A number from minus one to one.
pub open spec fn is_feature(v: Binary32) -> bool {
    v.low() <= ONE_BITS
}

proof fn lemma_scale_value()
    ensures
        scale() == Binary32::of_int(QUANT_SCALE as int),
        scale().magnitude() == 10000 * pow2(149),
        (Binary32 { bits: ONE_BITS }).magnitude() == pow2(149),
{
    vstd::arithmetic::power2::lemma2_to64();
    let x = scale();
    assert(x.significand() == 0x9C_4000);
    assert(x.scale() == 139);
    vstd::arithmetic::power2::lemma_pow2_adds(10, 139);
    assert(x.magnitude() == 10000 * pow2(149)) by (nonlinear_arith)
        requires
            x.magnitude() == 0x9C_4000 * pow2(139),
            pow2(149) == 1024 * pow2(139),
    ;
    lemma_nearest_exact(x);
    let one = Binary32 { bits: ONE_BITS };
    assert(one.significand() == 0x80_0000);
    assert(one.scale() == 126);
    vstd::arithmetic::power2::lemma_pow2_adds(23, 126);
}

/// The product of a number and the scale.
proof fn lemma_product(v: Binary32)
    requires
        !v.is_nan_spec(),
    ensures
        ({
            let x = v.mul_spec(scale());
            &&& !x.is_nan_spec()
            &&& x.negative() == v.negative()
            &&& v.is_infinite_spec() ==> x.is_infinite_spec()
            &&& v.is_finite_spec() ==> x.low() == nearest(v.magnitude() * 10000, 1)
        }),
{
    reveal(Binary32::mul_spec);
    lemma_scale_value();
    lemma_pow2_pos(149);
    if v.is_finite_spec() {
        let unit = pow2(149);
        let m = v.magnitude();
        assert(m * scale().magnitude() == (m * 10000) * unit) by (nonlinear_arith)
            requires
                scale().magnitude() == 10000 * unit,
        ;
        lemma_nearest_scale(m * 10000, 1, unit);
        assert(1 * unit == unit);
        crate::binary32::lemma_nearest_bound(m * 10000, 1);
    }
}

proof fn lemma_round_of_product(v: Binary32)
    requires
        is_feature(v),
    ensures
        ({
            let x = v.mul_spec(scale());
            &&& x.is_finite_spec()
            &&& x.negative() == v.negative()
            &&& x.low() == nearest(v.magnitude() * 10000, 1)
            &&& x.low() <= scale().low()
            &&& v.low() == ONE_BITS ==> x.low() == scale().low()
        }),
{
    lemma_scale_value();
    lemma_product(v);
    let one = Binary32 { bits: ONE_BITS };
    lemma_magnitude_order(v, one);
    lemma_nearest_mono(v.magnitude() * 10000, 10000 * pow2(149));
    lemma_nearest_exact(scale());
}

/// The integer nearest to a multiple of the unit.
proof fn lemma_round_bound(x: Binary32)
    requires
        x.low() <= scale().low(),
    ensures
        x.is_finite_spec(),
        0 <= div_half_up(x.magnitude(), pow2(149)) <= 10000,
        x.low() == scale().low() ==> div_half_up(x.magnitude(), pow2(149)) == 10000,
        x.low() == 0 ==> div_half_up(x.magnitude(), pow2(149)) == 0,
{
    lemma_scale_value();
    lemma_magnitude_order(x, scale());
    lemma_pow2_pos(149);
    let unit = pow2(149) as int;
    let m = x.magnitude() as int;
    let q = (2 * m + unit) / (2 * unit);
    lemma_fundamental_div_mod(2 * m + unit, 2 * unit);
    vstd::arithmetic::div_mod::lemma_mod_pos_bound(2 * m + unit, 2 * unit);
    assert(0 <= q <= 10000) by (nonlinear_arith)
        requires
            2 * m + unit == (2 * unit) * q + (2 * m + unit) % (2 * unit),
            0 <= (2 * m + unit) % (2 * unit) < 2 * unit,
            0 <= m <= 10000 * unit,
            unit > 0,
    ;
    if x.low() == scale().low() {
        assert(2 * m + unit == 10000 * (2 * unit) + unit) by (nonlinear_arith)
            requires
                m == 10000 * unit,
        ;
        lemma_fundamental_div_mod_converse(2 * m + unit, 2 * unit, 10000, unit);
    }
    if x.low() == 0 {
        assert(m == 0) by (nonlinear_arith)
            requires
                m == x.significand() * pow2(x.scale()),
                x.significand() == 0,
        ;
        lemma_fundamental_div_mod_converse(unit, 2 * unit, 0, unit);
    }
}

/// Features keep within the scale: `[-1, 1]` maps to `[-10000, 10000]`, both ends to the ends
/// and zero to zero.
pub proof fn law_quantized_range(v: Binary32)
    requires
        is_feature(v),
    ensures
        -10000 <= quantized(v) <= 10000,
        v.negative() ==> quantized(v) <= 0,
        !v.negative() ==> quantized(v) >= 0,
        v.bits == ONE_BITS ==> quantized(v) == 10000,
        v.bits == 0xBF80_0000 ==> quantized(v) == -10000,
        v.low() == 0 ==> quantized(v) == 0,
{
    lemma_scale_value();
    lemma_round_of_product(v);
    let x = v.mul_spec(scale());
    lemma_round_bound(x);
    if v.low() == 0 {
        assert(v.magnitude() * 10000 == 0) by (nonlinear_arith)
            requires
                v.magnitude() == v.significand() * pow2(v.scale()),
                v.significand() == 0,
        ;
        let zero = Binary32 { bits: 0 };
        lemma_nearest_exact(zero);
        assert(zero.magnitude() == 0) by (nonlinear_arith)
            requires
                zero.magnitude() == zero.significand() * pow2(zero.scale()),
                zero.significand() == 0,
        ;
    }
}

/// The difference of two quantised features fits in an `i16`.
pub proof fn law_quantized_difference_fits(a: Binary32, b: Binary32)
    requires
        is_feature(a),
        is_feature(b),
    ensures
        -20000 <= quantized(a) - quantized(b) <= 20000,
{
    law_quantized_range(a);
    law_quantized_range(b);
}

/// The quantised magnitude of a feature.
spec fn level(v: Binary32) -> int {
    div_half_up(v.mul_spec(scale()).magnitude(), pow2(149)) as int
}

proof fn lemma_level(v: Binary32)
    requires
        is_feature(v),
    ensures
        quantized(v) == if v.negative() {
            -level(v)
        } else {
            level(v)
        },
        0 <= level(v) <= 10000,
{
    lemma_scale_value();
    lemma_round_of_product(v);
    lemma_round_bound(v.mul_spec(scale()));
}

/// Of two numbers, the one that is not farther from zero has the product and the nearest integer
/// that are not farther.
proof fn lemma_product_mono(v: Binary32, w: Binary32)
    requires
        !w.is_nan_spec(),
        v.low() <= w.low(),
    ensures
        ({
            let (x, y) = (v.mul_spec(scale()), w.mul_spec(scale()));
            &&& x.low() <= y.low()
            &&& y.is_finite_spec() ==> div_half_up(x.magnitude(), pow2(149)) <= div_half_up(
                y.magnitude(),
                pow2(149),
            )
        }),
{
    lemma_product(v);
    lemma_product(w);
    let (x, y) = (v.mul_spec(scale()), w.mul_spec(scale()));
    if w.is_finite_spec() {
        lemma_magnitude_order(v, w);
        lemma_nearest_mono(v.magnitude() * 10000, w.magnitude() * 10000);
    }
    if y.is_finite_spec() {
        lemma_magnitude_order(x, y);
        lemma_pow2_pos(149);
        let unit = pow2(149) as int;
        vstd::arithmetic::div_mod::lemma_div_is_ordered(
            2 * x.magnitude() + unit,
            2 * y.magnitude() + unit,
            2 * unit,
        );
    }
}

/// Quantising keeps the order of numbers, inside and outside of the range of features.
pub proof fn law_quantized_order(v: Binary32, w: Binary32)
    requires
        !v.is_nan_spec(),
        !w.is_nan_spec(),
        v.order_key() <= w.order_key(),
    ensures
        quantized(v) <= quantized(w),
{
    lemma_scale_value();
    lemma_product(v);
    lemma_product(w);
    if v.negative() == w.negative() {
        if v.negative() {
            lemma_product_mono(w, v);
        } else {
            lemma_product_mono(v, w);
        }
    } else if !v.negative() {
        // Both are zero.
        law_quantized_range(v);
        law_quantized_range(w);
    }
}

/// The nearest integer to a number times the scale is within `i16` on both sides of zero, or there
/// is none.
pub open spec fn is_in_scale(v: Binary32) -> bool {
    let x = v.mul_spec(Binary32::of_int(QUANT_SCALE as int));
    x.is_nan_spec() || (x.is_finite_spec() && -32767 <= x.round_spec() <= 32767)
}

/// Quantising the opposite gives the opposite, where the range of `i16` does not cut it off. That
/// holds of every feature.
pub proof fn law_quantized_is_odd(v: Binary32)
    ensures
        is_feature(v) ==> is_in_scale(v),
        is_in_scale(v) ==> quantized(v.neg_spec()) == -quantized(v),
{
    lemma_scale_value();
    let w = v.neg_spec();
    assert(w.low() == v.low());
    assert(w.negative() == !v.negative());
    if v.is_nan_spec() {
        reveal(Binary32::mul_spec);
    } else {
        lemma_product(v);
        lemma_product(w);
        lemma_product_mono(v, w);
        lemma_product_mono(w, v);
    }
    if is_feature(v) {
        lemma_level(v);
        lemma_round_of_product(v);
    }
}

/// A quantised feature is within half a step of the feature times the scale, but for the rounding
/// of that product to single precision, which is off by at most a thousandth of a step.
pub proof fn law_quantized_precision(v: Binary32)
    requires
        is_feature(v),
    ensures
        ({
            let off = quantized(v) * pow2(149) - QUANT_SCALE * v.value();
            -(pow2(149) + pow2(139)) <= 2 * off <= pow2(149) + pow2(139)
        }),
{
    lemma_level(v);
    lemma_round_of_product(v);
    lemma_scale_value();
    let one = Binary32 { bits: ONE_BITS };
    lemma_magnitude_order(v, one);
    let unit = pow2(149) as int;
    lemma_pow2_pos(149);
    let m = v.magnitude();
    let x = v.mul_spec(scale());
    // The product.
    vstd::arithmetic::power2::lemma2_to64();
    vstd::arithmetic::power2::lemma_pow2_adds(14, 149);
    assert(m * 10000 < 1 * pow2(163)) by (nonlinear_arith)
        requires
            m <= unit,
            pow2(163) == 16384 * unit,
            unit > 0,
    ;
    lemma_rounding_error(m * 10000, 1, 163);
    let rounded = Binary32 { bits: nearest(m * 10000, 1) as u32 };
    assert(rounded.low() == x.low());
    lemma_magnitude_order(rounded, x);
    let xm = x.magnitude() as int;
    // The rounding to an integer.
    let q = level(v);
    lemma_fundamental_div_mod(2 * xm + unit, 2 * unit);
    vstd::arithmetic::div_mod::lemma_mod_pos_bound(2 * xm + unit, 2 * unit);
    assert((2 * unit) * q == 2 * (q * unit)) by (nonlinear_arith);
    assert(-unit <= 2 * (q * unit - xm) <= unit);
    assert((-q) * unit == -(q * unit)) by (nonlinear_arith);
}

/// The single-precision number 0.0001.
pub const TOLERANCE_BITS: u32 = 0x38D1_B717;

/// A quantised feature divided by the scale, in single precision, is within 0.0001 of the feature.
pub proof fn law_quantized_round_trip(v: Binary32)
    requires
        is_feature(v),
    ensures
        Binary32::of_int(quantized(v) as int).div_spec(
            Binary32::of_int(QUANT_SCALE as int),
        ).sub_spec(v).low() < TOLERANCE_BITS,
{
    law_quantized_precision(v);
    law_quantized_range(v);
    lemma_scale_value();
    let q = quantized(v) as int;
    let n: nat = (if q < 0 {
        -q
    } else {
        q
    }) as nat;
    let unit = pow2(149);
    lemma_pow2_pos(149);
    lemma_of_int_exact(q);
    let a = Binary32::of_int(q);
    let back = a.div_spec(scale());
    reveal(Binary32::div_spec);
    assert(a.magnitude() == n * unit) by (nonlinear_arith)
        requires
            a.value() == q * unit,
            a.value() == if q < 0 { -(a.magnitude() as int) } else { a.magnitude() as int },
            n == if q < 0 { -q } else { q },
    ;
    let num = (n * unit) * unit;
    let den = 10000 * unit;
    vstd::arithmetic::power2::lemma_pow2_unfold(150);
    assert(num < den * pow2(150)) by (nonlinear_arith)
        requires
            num == (n * unit) * unit,
            den == 10000 * unit,
            n <= 10000,
            pow2(150) == 2 * unit,
            unit > 0,
    ;
    lemma_rounding_error(num, den, 150);
    let pattern = Binary32 { bits: nearest(num, den) as u32 };
    assert(back.low() == pattern.low());
    lemma_magnitude_order(back, pattern);
    let b = back.magnitude() as int;
    let fine = pow2(126) as int;
    assert(-(10000 * fine) <= 2 * (10000 * b - n * unit) <= 10000 * fine) by (nonlinear_arith)
        requires
            -(den * fine) <= 2 * (b * den - num) <= den * fine,
            num == (n * unit) * unit,
            den == 10000 * unit,
            unit > 0,
    ;
    // Together the two are off by less than two to the power 135 smallest units.
    let gap = back.value() - v.value();
    assert((-(n as int)) * unit == -(n * unit)) by (nonlinear_arith);
    assert(back.value() == if q < 0 { -b } else { b });
    vstd::arithmetic::power2::lemma2_to64();
    vstd::arithmetic::power2::lemma_pow2_adds(23, 126);
    vstd::arithmetic::power2::lemma_pow2_adds(13, 126);
    vstd::arithmetic::power2::lemma_pow2_adds(9, 126);
    let most = Binary32 { bits: 0x3880_0000 };
    assert(most.significand() == 0x80_0000 && most.scale() == 112);
    vstd::arithmetic::power2::lemma_pow2_adds(23, 112);
    assert(most.magnitude() == pow2(135));
    assert(-(pow2(135) as int) <= gap <= pow2(135));
    let w = v.neg_spec();
    assert(w.low() == v.low());
    assert(w.value() == -v.value());
    reveal(Binary32::add_spec);
    let size = (if gap < 0 {
        -gap
    } else {
        gap
    }) as nat;
    lemma_nearest_mono(size, pow2(135));
    lemma_nearest_exact(most);
}

/// Quantises a single feature.
pub fn quantize_i16(v: Binary32) -> (r: i16)
    ensures
        r == quantized(v),
{
    proof {
        lemma_scale_value();
    }
    v.mul(Binary32 { bits: SCALE_BITS }).round_clamped(-32768, 32767) as i16
}

/// A quantised vector.
pub open spec fn quantized_vector(v: Seq<Binary32>) -> Seq<i16> {
    v.map_values(|x: Binary32| quantized(x))
}

/// Quantises a feature vector.
pub fn quantize_query(query: &[Binary32; N_DIMS]) -> (r: [i16; N_DIMS])
    ensures
        r@ == quantized_vector(query@),
{
    let mut out: [i16; N_DIMS] = [0i16;N_DIMS];
    let mut d: usize = 0;
    while d < N_DIMS
        invariant
            d <= 14,
            forall|e: int| 0 <= e < d ==> #[trigger] out@[e] == quantized(query@[e]),
        decreases 14 - d,
    {
        out[d] = quantize_i16(query[d]);
        d = d + 1;
    }
    assert(out@ =~= quantized_vector(query@));
    out
}

} // verus!
