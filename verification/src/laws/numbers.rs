//! What the arithmetic on patterns computes.

use vstd::prelude::*;
#[allow(unused_imports)]
use vstd::arithmetic::div_mod::lemma_fundamental_div_mod;
#[allow(unused_imports)]
use vstd::arithmetic::power2::{
    lemma_pow2_adds, lemma_pow2_pos, lemma_pow2_strictly_increases, pow2,
};

use crate::binary32::Binary32;
#[allow(unused_imports)]
use crate::binary32::{div_half_up, nearest, rounded, single};
#[allow(unused_imports)]
use crate::rounding::{
    bit_len, div_half_even, dropped_bits, lemma_bit_len_bounds, lemma_pow2_unfold_all,
    lemma_rounded_significand, Format,
};

verus! {

// ── Whole numbers ────────────────────────────────────────────────────────────

/// A finite number is rounded to the nearest whole number, a half away from zero, and limited;
/// the smallest unit is two to the power -149.
pub proof fn law_rounds_to_nearest_integer(x: Binary32, lo: int, hi: int, n: int)
    requires
        lo <= 0 <= hi,
        lo <= n <= hi,
        x.bits % 0x8000_0000 < 0x7F80_0000,
    ensures
        ({
            let unit = pow2(149) as int;
            let v = 2 * x.value();
            &&& v >= 0 && (2 * n - 1) * unit <= v < (2 * n + 1) * unit ==> x.round_within(lo, hi)
                == n
            &&& v <= 0 && (2 * n - 1) * unit < v <= (2 * n + 1) * unit ==> x.round_within(lo, hi)
                == n
            &&& v >= (2 * hi + 1) * unit ==> x.round_within(lo, hi) == hi
            &&& v <= (2 * lo - 1) * unit ==> x.round_within(lo, hi) == lo
            &&& lo == 0 && v <= 0 ==> x.round_within(lo, hi) == 0
        }),
{
    let u = pow2(149) as int;
    let m = x.magnitude() as int;
    lemma_pow2_pos(149);
    let r = (2 * m + u) / (2 * u);
    lemma_fundamental_div_mod(2 * m + u, 2 * u);
    vstd::arithmetic::div_mod::lemma_mod_pos_bound(2 * m + u, 2 * u);
    let rest = (2 * m + u) % (2 * u);
    assert(r == div_half_up(x.magnitude(), pow2(149)));
    assert(r >= 0) by (nonlinear_arith)
        requires
            2 * m + u == (2 * u) * r + rest,
            0 <= rest < 2 * u,
            m >= 0,
            u > 0,
    ;
    assert((2 * r - 1) * u <= 2 * m < (2 * r + 1) * u) by (nonlinear_arith)
        requires
            2 * m + u == (2 * u) * r + rest,
            0 <= rest < 2 * u,
    ;
    if m == 0 {
        assert(r == 0) by (nonlinear_arith)
            requires
                (2 * r - 1) * u <= 0,
                r >= 0,
                u > 0,
        ;
    }
    let v = 2 * x.value();
    let s = x.round_spec();
    assert(s == r || s == -r);
    if v >= 0 && (2 * n - 1) * u <= v < (2 * n + 1) * u {
        lemma_between(r, n, u, 2 * m);
    }
    if v <= 0 && (2 * n - 1) * u < v <= (2 * n + 1) * u {
        assert((2 * (-n) - 1) * u <= -v < (2 * (-n) + 1) * u) by (nonlinear_arith)
            requires
                (2 * n - 1) * u < v <= (2 * n + 1) * u,
        ;
        lemma_between(r, -n, u, 2 * m);
    }
    if v >= (2 * hi + 1) * u {
        assert(v > 0) by (nonlinear_arith)
            requires
                v >= (2 * hi + 1) * u,
                hi >= 0,
                u > 0,
        ;
        assert(r > hi) by (nonlinear_arith)
            requires
                (2 * hi + 1) * u <= 2 * m,
                2 * m < (2 * r + 1) * u,
                u > 0,
        ;
    }
    if v <= (2 * lo - 1) * u {
        assert(v < 0) by (nonlinear_arith)
            requires
                v <= (2 * lo - 1) * u,
                lo <= 0,
                u > 0,
        ;
        assert(r > -lo) by (nonlinear_arith)
            requires
                -(2 * m) <= (2 * lo - 1) * u,
                2 * m < (2 * r + 1) * u,
                u > 0,
        ;
    }
}

proof fn lemma_between(r: int, n: int, u: int, v: int)
    requires
        u > 0,
        (2 * r - 1) * u <= v < (2 * r + 1) * u,
        (2 * n - 1) * u <= v < (2 * n + 1) * u,
    ensures
        r == n,
{
    assert(r == n) by (nonlinear_arith)
        requires
            u > 0,
            (2 * r - 1) * u <= v < (2 * r + 1) * u,
            (2 * n - 1) * u <= v < (2 * n + 1) * u,
    ;
}

// ── Nearest numbers ──────────────────────────────────────────────────────────

/// How far apart two whole numbers are.
pub open spec fn gap(a: int, b: int) -> int {
    if a >= b {
        a - b
    } else {
        b - a
    }
}

/// No other multiple is nearer, and a tie goes to the even one.
proof fn lemma_multiple_is_nearest(n: nat, d: nat, k: int)
    requires
        d > 0,
    ensures
        gap(div_half_even(n, d) as int * d, n as int) <= gap(k * d, n as int),
        k != div_half_even(n, d) && gap(div_half_even(n, d) as int * d, n as int) == gap(k * d, n as int)
            ==> div_half_even(n, d) % 2 == 0,
{
    let m = div_half_even(n, d) as int;
    let (q, r) = ((n / d) as int, (n % d) as int);
    lemma_fundamental_div_mod(n as int, d as int);
    vstd::arithmetic::div_mod::lemma_mod_pos_bound(n as int, d as int);
    assert(q * d == n - r) by (nonlinear_arith)
        requires
            n == d * q + r,
    ;
    assert((q + 1) * d == q * d + d) by (nonlinear_arith);
    if k < m {
        assert(k * d <= m * d - d) by (nonlinear_arith)
            requires
                k <= m - 1,
                d > 0,
        ;
    } else if k > m {
        assert(k * d >= m * d + d) by (nonlinear_arith)
            requires
                k >= m + 1,
                d > 0,
        ;
    }
}

/// No number of the format is nearer than the rounded one, and a tie goes to the even one.
pub proof fn lemma_none_is_nearer(f: Format, num: nat, den: nat, sig: nat, e: nat)
    requires
        f.valid(),
        den > 0,
        sig < 2 * f.hidden(),
        e > 0 ==> sig >= f.hidden(),
    ensures
        ({
            let t = dropped_bits(num / den, f.digits as nat);
            let m = div_half_even(num, den * pow2(t));
            let (y, x) = (m * pow2(t), sig * pow2(e));
            &&& gap((y * den) as int, num as int) <= gap((x * den) as int, num as int)
            &&& gap((y * den) as int, num as int) == gap((x * den) as int, num as int) && x != y
                ==> m % 2 == 0
        }),
{
    let n = num / den;
    let digits = f.digits as nat;
    let t = dropped_bits(n, digits);
    let p = pow2(t);
    let d = den * p;
    lemma_pow2_pos(t);
    lemma_pow2_pos(e);
    assert(d > 0) by (nonlinear_arith)
        requires
            den > 0,
            p > 0,
            d == den * p,
    ;
    let m = div_half_even(num, d);
    let (y, x) = (m * p, sig * pow2(e));
    assert(y * den == m * d) by (nonlinear_arith)
        requires
            y == m * p,
            d == den * p,
    ;
    if e >= t {
        let up = pow2((e - t) as nat);
        lemma_pow2_adds(t, (e - t) as nat);
        let k = sig * up;
        assert(x == k * p) by (nonlinear_arith)
            requires
                x == sig * pow2(e),
                pow2(e) == p * up,
                k == sig * up,
        ;
        assert(x * den == k * d) by (nonlinear_arith)
            requires
                x == k * p,
                d == den * p,
        ;
        lemma_multiple_is_nearest(num, d, k as int);
    } else {
        let h = f.hidden();
        lemma_multiple_is_nearest(num, d, h as int);
        assert(n > 0) by {
            if n == 0 {
                assert(bit_len(0) == 0);
            }
        }
        lemma_bit_len_bounds(n);
        lemma_pow2_adds((digits - 1) as nat, t);
        assert(h * p <= n);
        lemma_fundamental_div_mod(num as int, den as int);
        vstd::arithmetic::div_mod::lemma_mod_pos_bound(num as int, den as int);
        assert(h * d <= num) by (nonlinear_arith)
            requires
                h * p <= n,
                num == den * n + num % den,
                num % den >= 0,
                d == den * p,
                den > 0,
        ;
        lemma_pow2_unfold_all(e + 1);
        if e + 1 < t {
            lemma_pow2_strictly_increases(e + 1, t);
        }
        assert(x < h * p) by (nonlinear_arith)
            requires
                x == sig * pow2(e),
                sig < 2 * h,
                2 * pow2(e) <= p,
                pow2(e) > 0,
        ;
        assert(x * den < h * d) by (nonlinear_arith)
            requires
                x < h * p,
                d == den * p,
                den > 0,
        ;
    }
}

/// The pattern of a rounded number, taken apart.
proof fn lemma_pattern_parts(num: nat, den: nat)
    requires
        den > 0,
        nearest(num, den) < 0x7F80_0000,
    ensures
        ({
            let t = dropped_bits(num / den, 24);
            let m = div_half_even(num, den * pow2(t));
            let x = Binary32 { bits: nearest(num, den) as u32 };
            &&& x.magnitude() == m * pow2(t)
            &&& nearest(num, den) % 2 == m % 2
        }),
{
    reveal(Format::nearest);
    vstd::arithmetic::power2::lemma2_to64();
    lemma_pow2_unfold_all(0);
    let f = single();
    let t = dropped_bits(num / den, 24);
    lemma_rounded_significand(f, num, den);
    let unit = pow2(t);
    lemma_pow2_pos(t);
    let m = div_half_even(num, den * unit);
    assert(t * f.hidden() == t * 0x80_0000) by (nonlinear_arith)
        requires
            f.hidden() == 0x80_0000,
    ;
    let low = t * 0x80_0000 + m;
    let x = Binary32 { bits: low as u32 };
    if m < 0x80_0000 {
        assert(t == 0);
        assert(x.significand() == m && x.scale() == 0);
    } else if m < 0x100_0000 {
        assert(x.scale() == t && x.significand() == m);
    } else {
        assert(x.scale() == t + 1 && x.significand() == 0x80_0000);
        lemma_pow2_unfold_all(t + 1);
        assert(0x80_0000 * pow2(t + 1) == 0x100_0000 * unit) by (nonlinear_arith)
            requires
                pow2(t + 1) == 2 * unit,
        ;
    }
}

/// The number nearest to a fraction: no finite number is nearer, and of two at the same distance
/// it is the one with the even pattern.
pub proof fn law_rounded_is_nearest(negative: bool, num: nat, den: nat, z: Binary32)
    requires
        den > 0,
        rounded(negative, num, den).bits % 0x8000_0000 < 0x7F80_0000,
        z.bits % 0x8000_0000 < 0x7F80_0000,
    ensures
        ({
            let r = rounded(negative, num, den);
            let exact = if negative {
                -(num as int)
            } else {
                num as int
            };
            &&& negative <==> r.bits >= 0x8000_0000
            &&& gap(r.value() * den, exact) <= gap(z.value() * den, exact)
            &&& gap(r.value() * den, exact) == gap(z.value() * den, exact) && r.value()
                != z.value() ==> r.bits % 2 == 0
        }),
{
    let r = rounded(negative, num, den);
    let t = dropped_bits(num / den, 24);
    let m = div_half_even(num, den * pow2(t));
    crate::binary32::lemma_nearest_bound(num, den);
    let x = Binary32 { bits: nearest(num, den) as u32 };
    lemma_pattern_parts(num, den);
    assert(r.low() == x.low());
    assert(r.magnitude() == x.magnitude());
    vstd::arithmetic::power2::lemma2_to64();
    lemma_none_is_nearer(single(), num, den, z.significand(), z.scale());
    lemma_none_is_nearer(single(), num, den, 0, 0);
    let (a, b) = (r.magnitude() as int, z.magnitude() as int);
    let d = den as int;
    assert(0 * pow2(0) == 0);
    assert((-a) * d == -(a * d)) by (nonlinear_arith);
    assert((-b) * d == -(b * d)) by (nonlinear_arith);
    assert(0 * d == 0);
    assert(b * d >= 0) by (nonlinear_arith)
        requires
            b >= 0,
            d > 0,
    ;
    if b > 0 {
        assert(b * d > 0) by (nonlinear_arith)
            requires
                b > 0,
                d > 0,
        ;
    }
    assert(z.value() == b || z.value() == -b);
    assert(r.value() == if negative {
        -a
    } else {
        a
    });
}

/// From here on, half a unit above the largest finite number, a number is infinite.
pub open spec fn overflow() -> int {
    0x1FF_FFFF * pow2(252) as int
}

/// What is too large for a finite number is infinite: from half a unit above the largest on.
pub proof fn law_too_large_is_infinite(num: nat, den: nat)
    requires
        den > 0,
    ensures
        nearest(num, den) == 0x7F80_0000 <==> num >= den * (0x1FF_FFFF * pow2(252)),
        nearest(num, den) < 0x7F80_0000 <==> num < den * (0x1FF_FFFF * pow2(252)),
{
    reveal(Format::nearest);
    vstd::arithmetic::power2::lemma2_to64();
    let f = single();
    let n = num / den;
    let t = dropped_bits(n, 24);
    let p = pow2(t);
    let m = div_half_even(num, den * p);
    lemma_rounded_significand(f, num, den);
    assert(t * f.hidden() == t * 0x80_0000) by (nonlinear_arith)
        requires
            f.hidden() == 0x80_0000,
    ;
    let top = 0x1FF_FFFF * pow2(252);
    lemma_pow2_adds(24, 252);
    lemma_pow2_adds(25, 252);
    lemma_pow2_pos(252);
    lemma_fundamental_div_mod(num as int, den as int);
    vstd::arithmetic::div_mod::lemma_mod_pos_bound(num as int, den as int);
    if t > 253 {
        lemma_bit_len_bounds(n);
        if t > 254 {
            lemma_pow2_strictly_increases(277, (t + 23) as nat);
        }
        assert(pow2(277) <= n);
        assert(num >= den * top) by (nonlinear_arith)
            requires
                num >= den * n,
                n >= top,
                den > 0,
        ;
    } else if t == 253 {
        lemma_pow2_unfold_all(253);
        let d = den * p;
        let (q, r) = (num / d, num % d);
        lemma_fundamental_div_mod(num as int, d as int);
        vstd::arithmetic::div_mod::lemma_mod_pos_bound(num as int, d as int);
        let e = den * pow2(252);
        assert(d == 2 * e) by (nonlinear_arith)
            requires
                d == den * p,
                p == 2 * pow2(252),
                e == den * pow2(252),
        ;
        assert(den * top == 0x1FF_FFFF * e) by (nonlinear_arith)
            requires
                top == 0x1FF_FFFF * pow2(252),
                e == den * pow2(252),
        ;
        assert(num == 2 * (e * q) + r) by (nonlinear_arith)
            requires
                num == d * q + r,
                d == 2 * e,
        ;
        if q >= 0x100_0000 {
            assert(e * q >= e * 0x100_0000) by (nonlinear_arith)
                requires
                    q >= 0x100_0000,
            ;
        } else if q == 0xFF_FFFF {
            assert(e * q == 0xFF_FFFF * e) by (nonlinear_arith)
                requires
                    q == 0xFF_FFFF,
            ;
        } else {
            assert(e * q <= e * 0xFF_FFFE) by (nonlinear_arith)
                requires
                    q <= 0xFF_FFFE,
            ;
        }
    } else {
        if n > 0 {
            lemma_bit_len_bounds(n);
            if bit_len(n) < 276 {
                lemma_pow2_strictly_increases(bit_len(n), 276);
            }
        } else {
            lemma_pow2_pos(276);
        }
        assert(n < pow2(276));
        assert(den * (n + 1) == den * n + den) by (nonlinear_arith);
        assert(num < den * top) by (nonlinear_arith)
            requires
                num < den * (n + 1),
                n + 1 <= top,
                den > 0,
        ;
    }
}

/// When a rounded number is infinite.
pub proof fn lemma_overflow(negative: bool, num: nat, den: nat)
    requires
        den > 0,
    ensures
        rounded(negative, num, den).bits % 0x8000_0000 <= 0x7F80_0000,
        rounded(negative, num, den).bits % 0x8000_0000 == 0x7F80_0000 <==> num >= den * overflow(),
{
    law_too_large_is_infinite(num, den);
    crate::binary32::lemma_nearest_bound(num, den);
    assert(den * overflow() == den * (0x1FF_FFFF * pow2(252)));
}

/// The sum of two finite numbers is the finite number nearest to it, if it is finite, and a tie
/// goes to the even pattern. Its sign is that of the exact sum, and an exact zero is negative
/// only where both numbers are.
pub proof fn law_sum_is_nearest(x: Binary32, y: Binary32, z: Binary32)
    requires
        x.bits % 0x8000_0000 < 0x7F80_0000,
        y.bits % 0x8000_0000 < 0x7F80_0000,
        z.bits % 0x8000_0000 < 0x7F80_0000,
    ensures
        ({
            let r = x.add_spec(y);
            let exact = x.value() + y.value();
            &&& r.bits % 0x8000_0000 < 0x7F80_0000 ==> {
                &&& gap(r.value(), exact) <= gap(z.value(), exact)
                &&& gap(r.value(), exact) == gap(z.value(), exact) && r.value() != z.value()
                    ==> r.bits % 2 == 0
            }
            &&& r.bits % 0x8000_0000 <= 0x7F80_0000
            &&& r.bits % 0x8000_0000 == 0x7F80_0000 <==> gap(exact, 0) >= overflow()
            &&& exact > 0 ==> r.bits < 0x8000_0000
            &&& exact < 0 ==> r.bits >= 0x8000_0000
            &&& exact == 0 ==> r.bits == if x.bits >= 0x8000_0000 && y.bits >= 0x8000_0000 {
                0x8000_0000u32
            } else {
                0
            }
        }),
{
    reveal(Binary32::add_spec);
    let exact = x.value() + y.value();
    let r = x.add_spec(y);
    let num = (if exact < 0 {
        -exact
    } else {
        exact
    }) as nat;
    crate::binary32::lemma_nearest_bound(num, 1);
    lemma_overflow(exact < 0, num, 1);
    lemma_pow2_pos(252);
    if exact == 0 {
        assert(r.magnitude() == 0) by (nonlinear_arith)
            requires
                r.magnitude() == r.significand() * pow2(r.scale()),
                r.significand() == 0,
        ;
    } else if r.is_finite_spec() {
        law_rounded_is_nearest(exact < 0, num, 1, z);
        assert(r.value() * 1 == r.value() && z.value() * 1 == z.value());
    }
}

/// The product of two finite numbers is the finite number nearest to it, if it is finite, and a
/// tie goes to the even pattern; it is negative where one of the numbers is. A value is counted in
/// units of two to the power -149.
pub proof fn law_product_is_nearest(x: Binary32, y: Binary32, z: Binary32)
    requires
        x.bits % 0x8000_0000 < 0x7F80_0000,
        y.bits % 0x8000_0000 < 0x7F80_0000,
        z.bits % 0x8000_0000 < 0x7F80_0000,
    ensures
        ({
            let r = x.mul_spec(y);
            let one = pow2(149) as int;
            let exact = x.value() * y.value();
            &&& r.bits % 0x8000_0000 < 0x7F80_0000 ==> {
                &&& gap(r.value() * one, exact) <= gap(z.value() * one, exact)
                &&& gap(r.value() * one, exact) == gap(z.value() * one, exact) && r.value()
                    != z.value() ==> r.bits % 2 == 0
            }
            &&& r.bits % 0x8000_0000 <= 0x7F80_0000
            &&& r.bits % 0x8000_0000 == 0x7F80_0000 <==> gap(exact, 0) >= one * overflow()
            &&& r.bits >= 0x8000_0000 <==> (x.bits >= 0x8000_0000) != (y.bits >= 0x8000_0000)
        }),
{
    reveal(Binary32::mul_spec);
    let r = x.mul_spec(y);
    let (a, b) = (x.magnitude() as int, y.magnitude() as int);
    let num = x.magnitude() * y.magnitude();
    lemma_pow2_pos(149);
    crate::binary32::lemma_nearest_bound(num, pow2(149));
    lemma_overflow(x.negative() != y.negative(), num, pow2(149));
    assert(a * b == num && (-a) * b == -num && a * (-b) == -num && (-a) * (-b) == num)
        by (nonlinear_arith)
        requires
            num == a * b,
    ;
    if r.is_finite_spec() {
        law_rounded_is_nearest(x.negative() != y.negative(), num, pow2(149), z);
    }
}

/// The quotient of two finite numbers, the second not zero, is the finite number nearest to it,
/// if it is finite, and a tie goes to the even pattern; it is negative where one of the numbers
/// is.
pub proof fn law_quotient_is_nearest(x: Binary32, y: Binary32, z: Binary32)
    requires
        x.bits % 0x8000_0000 < 0x7F80_0000,
        0 < y.bits % 0x8000_0000 < 0x7F80_0000,
        z.bits % 0x8000_0000 < 0x7F80_0000,
    ensures
        ({
            let r = x.div_spec(y);
            let one = pow2(149) as int;
            let part = gap(y.value(), 0);
            let exact = if y.bits >= 0x8000_0000 {
                -(x.value() * one)
            } else {
                x.value() * one
            };
            &&& part > 0
            &&& r.bits % 0x8000_0000 < 0x7F80_0000 ==> {
                &&& gap(r.value() * part, exact) <= gap(z.value() * part, exact)
                &&& gap(r.value() * part, exact) == gap(z.value() * part, exact) && r.value()
                    != z.value() ==> r.bits % 2 == 0
            }
            &&& r.bits % 0x8000_0000 <= 0x7F80_0000
            &&& r.bits % 0x8000_0000 == 0x7F80_0000 <==> gap(exact, 0) >= part * overflow()
            &&& r.bits >= 0x8000_0000 <==> (x.bits >= 0x8000_0000) != (y.bits >= 0x8000_0000)
        }),
{
    reveal(Binary32::div_spec);
    let r = x.div_spec(y);
    let unit = pow2(149);
    let num = x.magnitude() * unit;
    let den = y.magnitude();
    lemma_pow2_pos(149);
    lemma_pow2_pos(y.scale());
    assert(den > 0) by (nonlinear_arith)
        requires
            den == y.significand() * pow2(y.scale()),
            y.significand() > 0,
            pow2(y.scale()) > 0,
    ;
    crate::binary32::lemma_nearest_bound(num, den);
    lemma_overflow(x.negative() != y.negative(), num, den);
    let a = x.magnitude() as int;
    assert((-a) * unit == -num) by (nonlinear_arith)
        requires
            num == a * unit,
    ;
    if r.is_finite_spec() {
        law_rounded_is_nearest(x.negative() != y.negative(), num, den, z);
    }
}

/// The square of a finite number plus a finite number that is not negative is the finite number
/// nearest to it, rounded once, and a tie goes to the even pattern.
pub proof fn law_square_sum_is_nearest(x: Binary32, acc: Binary32, z: Binary32)
    requires
        x.bits % 0x8000_0000 < 0x7F80_0000,
        acc.bits < 0x7F80_0000,
        z.bits % 0x8000_0000 < 0x7F80_0000,
    ensures
        ({
            let r = x.square_add_spec(acc);
            let one = pow2(149) as int;
            let exact = x.value() * x.value() + acc.value() * one;
            &&& r.bits <= 0x7F80_0000
            &&& r.bits == 0x7F80_0000 <==> exact >= one * overflow()
            &&& r.bits < 0x7F80_0000 ==> {
                &&& gap(r.value() * one, exact) <= gap(z.value() * one, exact)
                &&& gap(r.value() * one, exact) == gap(z.value() * one, exact) && r.value()
                    != z.value() ==> r.bits % 2 == 0
            }
        }),
{
    reveal(Binary32::square_add_spec);
    let r = x.square_add_spec(acc);
    let a = x.magnitude() as int;
    let num = x.magnitude() * x.magnitude() + acc.magnitude() * pow2(149);
    lemma_pow2_pos(149);
    crate::binary32::lemma_nearest_bound(num, pow2(149));
    lemma_overflow(false, num, pow2(149));
    assert((-a) * (-a) == a * a) by (nonlinear_arith);
    if r.is_finite_spec() {
        law_rounded_is_nearest(false, num, pow2(149), z);
    }
}

/// A whole number becomes the finite number nearest to it, if that is finite, and a tie goes to
/// the even pattern.
pub proof fn law_whole_number_becomes_nearest(n: int, z: Binary32)
    requires
        z.bits % 0x8000_0000 < 0x7F80_0000,
    ensures
        ({
            let r = Binary32::of_int(n);
            let exact = n * pow2(149);
            &&& r.bits % 0x8000_0000 < 0x7F80_0000 ==> {
                &&& gap(r.value(), exact) <= gap(z.value(), exact)
                &&& gap(r.value(), exact) == gap(z.value(), exact) && r.value() != z.value()
                    ==> r.bits % 2 == 0
            }
            &&& r.bits % 0x8000_0000 <= 0x7F80_0000
            &&& r.bits % 0x8000_0000 == 0x7F80_0000 <==> gap(exact, 0) >= overflow()
            &&& r.bits >= 0x8000_0000 <==> n < 0
        }),
{
    let r = Binary32::of_int(n);
    let size = (if n < 0 {
        -n
    } else {
        n
    }) as nat;
    let num = size * pow2(149);
    crate::binary32::lemma_nearest_bound(num, 1);
    lemma_overflow(n < 0, num, 1);
    assert((-n) * pow2(149) == -(n * pow2(149))) by (nonlinear_arith);
    if r.is_finite_spec() {
        law_rounded_is_nearest(n < 0, num, 1, z);
        assert(r.value() * 1 == r.value() && z.value() * 1 == z.value());
    }
}

// ── Special patterns ─────────────────────────────────────────────────────────

/// A pattern is a sign and a size: below 2^23 the size in units, above it a significand of 24
/// binary digits and the power of two that scales it.
pub proof fn law_pattern_is_sign_and_size(x: Binary32)
    ensures
        ({
            let low = (x.bits % 0x8000_0000) as int;
            let size = if low < 0x80_0000 {
                low
            } else {
                (low % 0x80_0000 + 0x80_0000) * pow2((low / 0x80_0000 - 1) as nat)
            };
            x.value() == if x.bits >= 0x8000_0000 {
                -size
            } else {
                size
            }
        }),
{
    lemma_pow2_unfold_all(0);
    if x.low() < 0x80_0000 {
        assert(x.magnitude() == x.low()) by (nonlinear_arith)
            requires
                x.magnitude() == x.low() * pow2(0),
                pow2(0) == 1,
        ;
    }
}

/// Results with operands that are infinite or not a number.
pub proof fn law_special_results(x: Binary32, y: Binary32)
    ensures
        ({
            let (a, b) = ((x.bits % 0x8000_0000) as int, (y.bits % 0x8000_0000) as int);
            let (nx, ny) = (x.bits >= 0x8000_0000, y.bits >= 0x8000_0000);
            let infinity = if nx == ny {
                0x7F80_0000u32
            } else {
                0xFF80_0000
            };
            let zero = if nx == ny {
                0u32
            } else {
                0x8000_0000
            };
            let top = 0x7F80_0000int;
            &&& a > top || b > top ==> {
                &&& x.add_spec(y).bits == 0x7FC0_0000
                &&& x.mul_spec(y).bits == 0x7FC0_0000
                &&& x.div_spec(y).bits == 0x7FC0_0000
                &&& !x.lt_spec(y)
            }
            &&& a == top && b == top ==> {
                &&& nx == ny ==> x.add_spec(y) == x
                &&& nx != ny ==> x.add_spec(y).bits == 0x7FC0_0000
                &&& x.mul_spec(y).bits == infinity
                &&& x.div_spec(y).bits == 0x7FC0_0000
            }
            &&& a == top && b < top ==> {
                &&& x.add_spec(y) == x
                &&& y.add_spec(x) == x
                &&& b > 0 ==> x.mul_spec(y).bits == infinity && y.mul_spec(x).bits == infinity
                &&& b == 0 ==> x.mul_spec(y).bits == 0x7FC0_0000 && y.mul_spec(x).bits
                    == 0x7FC0_0000
                &&& x.div_spec(y).bits == infinity
                &&& y.div_spec(x).bits == zero
            }
            &&& 0 < a < top && b == 0 ==> x.div_spec(y).bits == infinity
            &&& a == 0 && b == 0 ==> x.div_spec(y).bits == 0x7FC0_0000
        }),
{
    reveal(Binary32::add_spec);
    reveal(Binary32::mul_spec);
    reveal(Binary32::div_spec);
}

/// Numbers are ordered by their signs and sizes: infinite ones lie outside all finite ones, both
/// zeros are the same, and what is not a number is not ordered.
pub proof fn law_order(x: Binary32, y: Binary32)
    ensures
        ({
            let (a, b) = ((x.bits % 0x8000_0000) as int, (y.bits % 0x8000_0000) as int);
            let (nx, ny) = (x.bits >= 0x8000_0000, y.bits >= 0x8000_0000);
            &&& a > 0x7F80_0000 || b > 0x7F80_0000 ==> !x.lt_spec(y)
            &&& a <= 0x7F80_0000 && b <= 0x7F80_0000 ==> {
                &&& !nx && !ny ==> (x.lt_spec(y) <==> a < b)
                &&& nx && ny ==> (x.lt_spec(y) <==> b < a)
                &&& nx && !ny ==> (x.lt_spec(y) <==> a + b > 0)
                &&& !nx && ny ==> !x.lt_spec(y)
            }
        }),
{
}

/// Subtracting is adding the number with the other sign.
pub proof fn law_difference_adds_the_opposite(x: Binary32, y: Binary32)
    ensures
        (y.bits < 0x8000_0000 ==> x.sub_spec(y) == x.add_spec(
            Binary32 { bits: (y.bits + 0x8000_0000) as u32 },
        )),
        (y.bits >= 0x8000_0000 ==> x.sub_spec(y) == x.add_spec(
            Binary32 { bits: (y.bits - 0x8000_0000) as u32 },
        )),
{
}

/// The opposite of a pattern is the one with the other sign.
pub proof fn law_opposite_has_the_other_sign(x: Binary32)
    ensures
        x.neg_spec().bits % 0x8000_0000 == x.bits % 0x8000_0000,
        x.neg_spec().bits >= 0x8000_0000 <==> x.bits < 0x8000_0000,
{
}

/// What is a finite number, infinite or not a number is told by the pattern without its sign.
pub proof fn law_kinds_of_patterns(x: Binary32)
    ensures
        x.is_finite_spec() <==> x.bits % 0x8000_0000 < 0x7F80_0000,
        x.is_infinite_spec() <==> x.bits % 0x8000_0000 == 0x7F80_0000,
        x.is_nan_spec() <==> x.bits % 0x8000_0000 > 0x7F80_0000,
        x.negative() <==> x.bits >= 0x8000_0000,
{
}

/// A number within the unit interval stays as it is, one below becomes zero, one above becomes
/// one, and what is not a number stays.
pub proof fn law_clamped_to_unit(x: Binary32)
    ensures
        ({
            let r = x.clamp01_spec();
            &&& x.bits <= 0x3F80_0000 || x.bits == 0x8000_0000 ==> r == x
            &&& 0x3F80_0000 < x.bits <= 0x7F80_0000 ==> r.bits == 0x3F80_0000
            &&& 0x8000_0000 < x.bits <= 0xFF80_0000 ==> r.bits == 0
            &&& x.bits % 0x8000_0000 > 0x7F80_0000 ==> r == x
        }),
{
}

/// What is not a finite number is limited to the bounds by its sign, and to zero where it is not a
/// number.
pub proof fn law_limits_of_special_patterns(x: Binary32, lo: int, hi: int)
    ensures
        x.bits == 0x7F80_0000 ==> x.round_within(lo, hi) == hi,
        x.bits == 0xFF80_0000 ==> x.round_within(lo, hi) == lo,
        x.bits % 0x8000_0000 > 0x7F80_0000 ==> x.round_within(lo, hi) == 0,
{
}

} // verus!
