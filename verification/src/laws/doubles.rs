//! What the arithmetic in double precision computes.

use vstd::prelude::*;
#[allow(unused_imports)]
use vstd::arithmetic::div_mod::lemma_fundamental_div_mod;
#[allow(unused_imports)]
use vstd::arithmetic::power2::{
    lemma_pow2_adds, lemma_pow2_pos, lemma_pow2_strictly_increases, pow2,
};

use crate::binary32::Binary32;
use crate::binary64::Binary64;
#[allow(unused_imports)]
use crate::binary64::{double, lemma_pattern_is_exact, rounded};
#[allow(unused_imports)]
use crate::laws::numbers::{
    gap, law_rounded_is_nearest, lemma_none_is_nearer, lemma_overflow, overflow,
};
#[allow(unused_imports)]
use crate::rounding::{
    bit_len, div_half_even, dropped_bits, lemma_bit_len_bounds, lemma_pow2_unfold_all,
    lemma_rounded_significand, Format,
};

verus! {

proof fn lemma_hidden()
    ensures
        double().valid(),
        double().hidden() == 0x10_0000_0000_0000,
        pow2(53) == 0x20_0000_0000_0000,
{
    vstd::arithmetic::power2::lemma2_to64();
    vstd::arithmetic::power2::lemma2_to64_rest();
}

/// The pattern of a rounded number, taken apart.
proof fn lemma_double_parts(num: nat, den: nat)
    requires
        den > 0,
        double().nearest(num, den) < 0x7FF0_0000_0000_0000,
    ensures
        ({
            let t = dropped_bits(num / den, 53);
            let m = div_half_even(num, den * pow2(t));
            let x = Binary64 { bits: double().nearest(num, den) as u64 };
            &&& x.magnitude() == m * pow2(t)
            &&& double().nearest(num, den) % 2 == m % 2
        }),
{
    reveal(Format::nearest);
    lemma_hidden();
    lemma_pow2_unfold_all(0);
    let f = double();
    let t = dropped_bits(num / den, 53);
    lemma_rounded_significand(f, num, den);
    let unit = pow2(t);
    lemma_pow2_pos(t);
    let m = div_half_even(num, den * unit);
    assert(t * f.hidden() == t * 0x10_0000_0000_0000) by (nonlinear_arith)
        requires
            f.hidden() == 0x10_0000_0000_0000,
    ;
    let low = t * 0x10_0000_0000_0000 + m;
    let x = Binary64 { bits: low as u64 };
    if m < 0x10_0000_0000_0000 {
        assert(t == 0);
        assert(x.significand() == m && x.scale() == 0);
    } else if m < 0x20_0000_0000_0000 {
        assert(x.scale() == t && x.significand() == m);
    } else {
        assert(x.scale() == t + 1 && x.significand() == 0x10_0000_0000_0000);
        lemma_pow2_unfold_all(t + 1);
        assert(0x10_0000_0000_0000 * pow2(t + 1) == 0x20_0000_0000_0000 * unit)
            by (nonlinear_arith)
            requires
                pow2(t + 1) == 2 * unit,
        ;
    }
}

/// The number of double precision nearest to a fraction: no finite number is nearer, and of two
/// at the same distance it is the one with the even pattern.
pub proof fn law_rounded_double_is_nearest(negative: bool, num: nat, den: nat, z: Binary64)
    requires
        den > 0,
        rounded(negative, num, den).bits % 0x8000_0000_0000_0000 < 0x7FF0_0000_0000_0000,
        z.bits % 0x8000_0000_0000_0000 < 0x7FF0_0000_0000_0000,
    ensures
        ({
            let r = rounded(negative, num, den);
            let exact = if negative {
                -(num as int)
            } else {
                num as int
            };
            &&& negative <==> r.bits >= 0x8000_0000_0000_0000
            &&& gap(r.value() * den, exact) <= gap(z.value() * den, exact)
            &&& gap(r.value() * den, exact) == gap(z.value() * den, exact) && r.value()
                != z.value() ==> r.bits % 2 == 0
        }),
{
    let r = rounded(negative, num, den);
    let t = dropped_bits(num / den, 53);
    let m = div_half_even(num, den * pow2(t));
    crate::rounding::lemma_nearest_bound(double(), num, den);
    let x = Binary64 { bits: double().nearest(num, den) as u64 };
    lemma_double_parts(num, den);
    assert(r.low() == x.low());
    assert(r.magnitude() == x.magnitude());
    lemma_hidden();
    lemma_none_is_nearer(double(), num, den, z.significand(), z.scale());
    lemma_none_is_nearer(double(), num, den, 0, 0);
    let (a, b) = (r.magnitude() as int, z.magnitude() as int);
    let d = den as int;
    assert(0 * pow2(0) == 0);
    assert((-a) * d == -(a * d)) by (nonlinear_arith);
    assert((-b) * d == -(b * d)) by (nonlinear_arith);
    assert(0 * d == 0);
    assert(b * d >= 0) by (nonlinear_arith)
        requires
            b >= 0,
            d > 0,
    ;
    if b > 0 {
        assert(b * d > 0) by (nonlinear_arith)
            requires
                b > 0,
                d > 0,
        ;
    }
    assert(z.value() == b || z.value() == -b);
    assert(r.value() == if negative {
        -a
    } else {
        a
    });
}

/// From here on, half a unit above the largest finite number of double precision, a number is
/// infinite.
pub open spec fn double_overflow() -> int {
    0x3F_FFFF_FFFF_FFFF * pow2(2044) as int
}

/// What is too large for a finite number of double precision is infinite: from half a unit above
/// the largest on.
pub proof fn law_too_large_double_is_infinite(num: nat, den: nat)
    requires
        den > 0,
    ensures
        double().nearest(num, den) == 0x7FF0_0000_0000_0000 <==> num >= den * (0x3F_FFFF_FFFF_FFFF * pow2(2044)),
        double().nearest(num, den) < 0x7FF0_0000_0000_0000 <==> num < den * (0x3F_FFFF_FFFF_FFFF * pow2(2044)),
{
    reveal(Format::nearest);
    vstd::arithmetic::power2::lemma2_to64();
    vstd::arithmetic::power2::lemma2_to64_rest();
    let f = double();
    let n = num / den;
    let t = dropped_bits(n, 53);
    let p = pow2(t);
    let m = div_half_even(num, den * p);
    lemma_rounded_significand(f, num, den);
    assert(t * f.hidden() == t * 0x10_0000_0000_0000) by (nonlinear_arith)
        requires
            f.hidden() == 0x10_0000_0000_0000,
    ;
    let top = 0x3F_FFFF_FFFF_FFFF * pow2(2044);
    lemma_pow2_adds(53, 2044);
    lemma_pow2_adds(54, 2044);
    lemma_pow2_pos(2044);
    lemma_fundamental_div_mod(num as int, den as int);
    vstd::arithmetic::div_mod::lemma_mod_pos_bound(num as int, den as int);
    if t > 2045 {
        lemma_bit_len_bounds(n);
        if t > 2046 {
            lemma_pow2_strictly_increases(2098, (t + 52) as nat);
        }
        assert(pow2(2098) <= n);
        assert(num >= den * top) by (nonlinear_arith)
            requires
                num >= den * n,
                n >= top,
                den > 0,
        ;
    } else if t == 2045 {
        lemma_pow2_unfold_all(2045);
        let d = den * p;
        let (q, r) = (num / d, num % d);
        lemma_fundamental_div_mod(num as int, d as int);
        vstd::arithmetic::div_mod::lemma_mod_pos_bound(num as int, d as int);
        let e = den * pow2(2044);
        assert(d == 2 * e) by (nonlinear_arith)
            requires
                d == den * p,
                p == 2 * pow2(2044),
                e == den * pow2(2044),
        ;
        assert(den * top == 0x3F_FFFF_FFFF_FFFF * e) by (nonlinear_arith)
            requires
                top == 0x3F_FFFF_FFFF_FFFF * pow2(2044),
                e == den * pow2(2044),
        ;
        assert(num == 2 * (e * q) + r) by (nonlinear_arith)
            requires
                num == d * q + r,
                d == 2 * e,
        ;
        if q >= 0x20_0000_0000_0000 {
            assert(e * q >= e * 0x20_0000_0000_0000) by (nonlinear_arith)
                requires
                    q >= 0x20_0000_0000_0000,
            ;
        } else if q == 0x1F_FFFF_FFFF_FFFF {
            assert(e * q == 0x1F_FFFF_FFFF_FFFF * e) by (nonlinear_arith)
                requires
                    q == 0x1F_FFFF_FFFF_FFFF,
            ;
        } else {
            assert(e * q <= e * 0x1F_FFFF_FFFF_FFFE) by (nonlinear_arith)
                requires
                    q <= 0x1F_FFFF_FFFF_FFFE,
            ;
        }
    } else {
        if n > 0 {
            lemma_bit_len_bounds(n);
            if bit_len(n) < 2097 {
                lemma_pow2_strictly_increases(bit_len(n), 2097);
            }
        } else {
            lemma_pow2_pos(2097);
        }
        assert(n < pow2(2097));
        assert(den * (n + 1) == den * n + den) by (nonlinear_arith);
        assert(num < den * top) by (nonlinear_arith)
            requires
                num < den * (n + 1),
                n + 1 <= top,
                den > 0,
        ;
    }
}

proof fn lemma_double_overflow(negative: bool, num: nat, den: nat)
    requires
        den > 0,
    ensures
        ({
            let low = rounded(negative, num, den).bits % 0x8000_0000_0000_0000;
            &&& low <= 0x7FF0_0000_0000_0000
            &&& low == 0x7FF0_0000_0000_0000 <==> num >= den * double_overflow()
        }),
{
    law_too_large_double_is_infinite(num, den);
    crate::rounding::lemma_nearest_bound(double(), num, den);
    assert(den * double_overflow() == den * (0x3F_FFFF_FFFF_FFFF * pow2(2044)));
}

/// The sum of two finite numbers in double precision is the finite number nearest to it, if it is
/// finite, and a tie goes to the even pattern; an exact zero is negative only where both are.
pub proof fn law_double_sum_is_nearest(x: Binary64, y: Binary64, z: Binary64)
    requires
        x.bits % 0x8000_0000_0000_0000 < 0x7FF0_0000_0000_0000,
        y.bits % 0x8000_0000_0000_0000 < 0x7FF0_0000_0000_0000,
        z.bits % 0x8000_0000_0000_0000 < 0x7FF0_0000_0000_0000,
    ensures
        ({
            let r = x.add_spec(y);
            let exact = x.value() + y.value();
            &&& r.bits % 0x8000_0000_0000_0000 < 0x7FF0_0000_0000_0000 ==> {
                &&& gap(r.value(), exact) <= gap(z.value(), exact)
                &&& gap(r.value(), exact) == gap(z.value(), exact) && r.value() != z.value()
                    ==> r.bits % 2 == 0
            }
            &&& r.bits % 0x8000_0000_0000_0000 == 0x7FF0_0000_0000_0000 <==> gap(exact, 0)
                >= double_overflow()
            &&& exact > 0 ==> r.bits <= 0x7FF0_0000_0000_0000
            &&& exact < 0 ==> r.bits >= 0x8000_0000_0000_0000
            &&& exact == 0 ==> r.bits == if x.bits >= 0x8000_0000_0000_0000 && y.bits
                >= 0x8000_0000_0000_0000 {
                0x8000_0000_0000_0000u64
            } else {
                0
            }
        }),
{
    reveal(Binary64::add_spec);
    let exact = x.value() + y.value();
    let r = x.add_spec(y);
    let num = (if exact < 0 {
        -exact
    } else {
        exact
    }) as nat;
    crate::rounding::lemma_nearest_bound(double(), num, 1);
    lemma_double_overflow(exact < 0, num, 1);
    lemma_pow2_pos(2044);
    if exact == 0 {
        assert(r.magnitude() == 0) by (nonlinear_arith)
            requires
                r.magnitude() == r.significand() * pow2(r.scale()),
                r.significand() == 0,
        ;
    } else if r.is_finite_spec() {
        law_rounded_double_is_nearest(exact < 0, num, 1, z);
        assert(r.value() * 1 == r.value() && z.value() * 1 == z.value());
    }
}

/// The quotient of two finite numbers in double precision, the second not zero, is the finite
/// number nearest to it, if it is finite, and a tie goes to the even pattern.
pub proof fn law_double_quotient_is_nearest(x: Binary64, y: Binary64, z: Binary64)
    requires
        x.bits % 0x8000_0000_0000_0000 < 0x7FF0_0000_0000_0000,
        0 < y.bits % 0x8000_0000_0000_0000 < 0x7FF0_0000_0000_0000,
        z.bits % 0x8000_0000_0000_0000 < 0x7FF0_0000_0000_0000,
    ensures
        ({
            let r = x.div_spec(y);
            let one = pow2(1074) as int;
            let part = gap(y.value(), 0);
            let exact = if y.bits >= 0x8000_0000_0000_0000 {
                -(x.value() * one)
            } else {
                x.value() * one
            };
            &&& part > 0
            &&& r.bits % 0x8000_0000_0000_0000 < 0x7FF0_0000_0000_0000 ==> {
                &&& gap(r.value() * part, exact) <= gap(z.value() * part, exact)
                &&& gap(r.value() * part, exact) == gap(z.value() * part, exact) && r.value()
                    != z.value() ==> r.bits % 2 == 0
            }
            &&& r.bits % 0x8000_0000_0000_0000 == 0x7FF0_0000_0000_0000 <==> gap(exact, 0) >= part
                * double_overflow()
            &&& r.bits >= 0x8000_0000_0000_0000 <==> (x.bits >= 0x8000_0000_0000_0000) != (y.bits
                >= 0x8000_0000_0000_0000)
        }),
{
    reveal(Binary64::div_spec);
    let r = x.div_spec(y);
    let unit = pow2(1074);
    let num = x.magnitude() * unit;
    let den = y.magnitude();
    lemma_pow2_pos(y.scale());
    assert(den > 0) by (nonlinear_arith)
        requires
            den == y.significand() * pow2(y.scale()),
            y.significand() > 0,
            pow2(y.scale()) > 0,
    ;
    crate::rounding::lemma_nearest_bound(double(), num, den);
    lemma_double_overflow(x.negative() != y.negative(), num, den);
    let a = x.magnitude() as int;
    assert((-a) * unit == -num) by (nonlinear_arith)
        requires
            num == a * unit,
    ;
    if r.is_finite_spec() {
        law_rounded_double_is_nearest(x.negative() != y.negative(), num, den, z);
    }
}

/// A whole number becomes the number of double precision nearest to it, if that is finite, and a
/// tie goes to the even pattern.
pub proof fn law_whole_number_becomes_double(n: nat, z: Binary64)
    requires
        z.bits % 0x8000_0000_0000_0000 < 0x7FF0_0000_0000_0000,
    ensures
        ({
            let r = Binary64::of_nat(n);
            let exact = n as int * pow2(1074);
            &&& r.bits <= 0x7FF0_0000_0000_0000
            &&& r.bits == 0x7FF0_0000_0000_0000 <==> exact >= double_overflow()
            &&& r.bits < 0x7FF0_0000_0000_0000 ==> {
                &&& gap(r.value(), exact) <= gap(z.value(), exact)
                &&& gap(r.value(), exact) == gap(z.value(), exact) && r.value() != z.value()
                    ==> r.bits % 2 == 0
            }
        }),
{
    let r = Binary64::of_nat(n);
    let num = n * pow2(1074);
    crate::rounding::lemma_nearest_bound(double(), num, 1);
    lemma_double_overflow(false, num, 1);
    if r.is_finite_spec() {
        law_rounded_double_is_nearest(false, num, 1, z);
        assert(r.value() * 1 == r.value() && z.value() * 1 == z.value());
    }
}

/// A finite number becomes the number of single precision nearest to it, if that is finite, and a
/// tie goes to the even pattern; the sign stays. Units of the two precisions are two to the power
/// 925 apart.
pub proof fn law_double_becomes_nearest_single(x: Binary64, z: Binary32)
    requires
        x.bits % 0x8000_0000_0000_0000 < 0x7FF0_0000_0000_0000,
        z.bits % 0x8000_0000 < 0x7F80_0000,
    ensures
        ({
            let r = x.single_spec();
            let part = pow2(925) as int;
            &&& r.bits % 0x8000_0000 < 0x7F80_0000 ==> {
                &&& gap(r.value() * part, x.value()) <= gap(z.value() * part, x.value())
                &&& gap(r.value() * part, x.value()) == gap(z.value() * part, x.value())
                    && r.value() != z.value() ==> r.bits % 2 == 0
            }
            &&& r.bits % 0x8000_0000 <= 0x7F80_0000
            &&& r.bits % 0x8000_0000 == 0x7F80_0000 <==> gap(x.value(), 0) >= part * overflow()
            &&& r.bits >= 0x8000_0000 <==> x.bits >= 0x8000_0000_0000_0000
        }),
{
    let r = x.single_spec();
    lemma_pow2_pos(925);
    crate::binary32::lemma_nearest_bound(x.magnitude(), pow2(925));
    lemma_overflow(x.negative(), x.magnitude(), pow2(925));
    if r.is_finite_spec() {
        law_rounded_is_nearest(x.negative(), x.magnitude(), pow2(925), z);
    }
}

/// Every finite number of single precision is one of double precision: nothing is lost.
pub proof fn law_single_becomes_same_double(x: Binary32)
    requires
        x.bits % 0x8000_0000 < 0x7F80_0000,
    ensures
        ({
            let r = Binary64::of_single(x);
            &&& r.bits % 0x8000_0000_0000_0000 < 0x7FF0_0000_0000_0000
            &&& r.value() == x.value() * pow2(925)
            &&& r.bits >= 0x8000_0000_0000_0000 <==> x.bits >= 0x8000_0000
        }),
{
    let (sig, e) = (x.significand(), x.scale());
    lemma_hidden();
    lemma_pow2_adds(e, 925);
    let m = x.magnitude() * pow2(925);
    let r = Binary64::of_single(x);
    let a = x.magnitude() as int;
    assert((-a) * pow2(925) == -(a * pow2(925))) by (nonlinear_arith);
    if sig == 0 {
        assert(x.magnitude() == 0 && m == 0) by (nonlinear_arith)
            requires
                x.magnitude() == sig * pow2(e),
                sig == 0,
                m == x.magnitude() * pow2(925),
        ;
        crate::rounding::lemma_nearest_zero(double(), 1);
        assert(r.low() == 0);
        assert(r.magnitude() == 0) by (nonlinear_arith)
            requires
                r.magnitude() == r.significand() * pow2(r.scale()),
                r.significand() == 0,
        ;
    } else {
        let y = crate::binary64::lemma_representable(sig, (e + 925) as nat);
        assert(sig * pow2((e + 925) as nat) == m) by (nonlinear_arith)
            requires
                m == (sig * pow2(e)) * pow2(925),
                pow2((e + 925) as nat) == pow2(e) * pow2(925),
        ;
        lemma_pattern_is_exact(y);
        assert(r.low() == y.low());
        assert(r.magnitude() == y.magnitude());
    }
}

/// Results in double precision with operands that are infinite or not a number, and what becomes
/// of these in the other precision.
pub proof fn law_special_doubles(x: Binary64, y: Binary64, s: Binary32)
    ensures
        ({
            let top = 0x7FF0_0000_0000_0000int;
            let sign = 0x8000_0000_0000_0000int;
            let (a, b) = (x.bits as int % sign, y.bits as int % sign);
            let (nx, ny) = (x.bits >= sign, y.bits >= sign);
            let nan = 0x7FF8_0000_0000_0000u64;
            let infinity = if nx == ny {
                0x7FF0_0000_0000_0000u64
            } else {
                0xFFF0_0000_0000_0000
            };
            &&& a > top || b > top ==> x.add_spec(y).bits == nan && x.div_spec(y).bits == nan
            &&& a == top && b == top ==> x.div_spec(y).bits == nan && (nx == ny ==> x.add_spec(y)
                == x) && (nx != ny ==> x.add_spec(y).bits == nan)
            &&& a == top && b < top ==> x.add_spec(y) == x && y.add_spec(x) == x && x.div_spec(
                y,
            ).bits == infinity && y.div_spec(x).bits == infinity - 0x7FF0_0000_0000_0000
            &&& 0 < a < top && b == 0 ==> x.div_spec(y).bits == infinity
            &&& a == 0 && b == 0 ==> x.div_spec(y).bits == nan
            &&& a > top ==> x.single_spec().bits == 0x7FC0_0000
            &&& a == top ==> x.single_spec().bits == if nx {
                0xFF80_0000u32
            } else {
                0x7F80_0000
            }
            &&& s.bits % 0x8000_0000 > 0x7F80_0000 ==> Binary64::of_single(s).bits == nan
            &&& s.bits == 0x7F80_0000 ==> Binary64::of_single(s).bits == 0x7FF0_0000_0000_0000
            &&& s.bits == 0xFF80_0000 ==> Binary64::of_single(s).bits == 0xFFF0_0000_0000_0000
        }),
{
    reveal(Binary64::add_spec);
    reveal(Binary64::div_spec);
}

} // verus!
