//! IEEE 754 double-precision numbers carried as bit patterns.
//!
//! The training of the index averages single-precision numbers in double precision. [`Binary64`]
//! holds a double-precision number as its 64 bits and computes, in integer arithmetic, the few
//! operations that an average needs.

use vstd::prelude::*;
#[allow(unused_imports)]
use vstd::arithmetic::power2::{
    lemma_pow2_adds, lemma_pow2_pos, lemma_pow2_strictly_increases, pow2,
};
#[allow(unused_imports)]
use vstd::arithmetic::div_mod::{
    lemma_fundamental_div_mod, lemma_fundamental_div_mod_converse, lemma_mod_pos_bound,
};

use crate::binary32::Binary32;
use crate::rounding::{power_of_two, round_scaled, widen, Format};
#[allow(unused_imports)]
use crate::rounding::{
    lemma_nearest_bound, lemma_nearest_exact, lemma_nearest_mono, lemma_nearest_zero,
    lemma_pow2_unfold_all, lemma_scale, lemma_small, TOP,
};

verus! {

/// The bit that holds the sign.
pub const SIGN_BIT: u64 = 0x8000_0000_0000_0000;

/// Positive infinity; every larger pattern without the sign is not a number.
pub const INFINITY_BITS: u64 = 0x7FF0_0000_0000_0000;

/// The pattern that stands for an undefined result.
pub const NAN_BITS: u64 = 0x7FF8_0000_0000_0000;

/// The number of fraction bits is 52: this is two to that power.
pub const HIDDEN_BIT: u64 = 0x0010_0000_0000_0000;

/// A double-precision number, by its bits.
#[derive(Clone, Copy, Debug, PartialEq, Eq, Structural)]
pub struct Binary64 {
    pub bits: u64,
}

/// The double-precision format: 53 binary digits. The smallest unit is two to the power -1074.
pub open spec fn double() -> Format {
    Format { digits: 53, infinity: INFINITY_BITS }
}

fn format() -> (f: Format)
    ensures
        f == double(),
        f.valid(),
        f.hidden() == HIDDEN_BIT,
{
    proof {
        lemma_hidden();
    }
    Format { digits: 53, infinity: INFINITY_BITS }
}

proof fn lemma_hidden()
    ensures
        double().valid(),
        double().hidden() == HIDDEN_BIT,
        pow2(52) == HIDDEN_BIT,
        pow2(53) == 2 * HIDDEN_BIT,
        pow2(64) == 0x1_0000_0000_0000_0000,
        pow2(70) == 0x40_0000_0000_0000_0000,
{
    vstd::arithmetic::power2::lemma2_to64();
    vstd::arithmetic::power2::lemma2_to64_rest();
    lemma_pow2_adds(6, 64);
}

/// The number nearest to `num / den` smallest units, with the given sign.
pub open spec fn rounded(negative: bool, num: nat, den: nat) -> Binary64 {
    Binary64 {
        bits: (if negative { 0x8000_0000_0000_0000int } else { 0int } + double().nearest(
            num,
            den,
        )) as u64,
    }
}

impl Binary64 {
    pub open spec fn negative(self) -> bool {
        self.bits >= SIGN_BIT
    }

    /// The pattern without its sign.
    pub open spec fn low(self) -> nat {
        (self.bits % 0x8000_0000_0000_0000) as nat
    }

    pub open spec fn is_nan_spec(self) -> bool {
        self.low() > INFINITY_BITS
    }

    pub open spec fn is_infinite_spec(self) -> bool {
        self.low() == INFINITY_BITS
    }

    pub open spec fn is_finite_spec(self) -> bool {
        self.low() < INFINITY_BITS
    }

    /// The significand of a finite number, an integer below two to the power 53.
    pub open spec fn significand(self) -> nat {
        if self.low() < HIDDEN_BIT {
            self.low()
        } else {
            self.low() % 0x10_0000_0000_0000 + 0x10_0000_0000_0000
        }
    }

    /// The power of two that the significand is scaled by, in smallest units.
    pub open spec fn scale(self) -> nat {
        if self.low() < HIDDEN_BIT {
            0
        } else {
            (self.low() / 0x10_0000_0000_0000 - 1) as nat
        }
    }

    /// The distance of a finite number from zero, in smallest units.
    pub open spec fn magnitude(self) -> nat {
        self.significand() * pow2(self.scale())
    }

    /// A finite number in smallest units.
    pub open spec fn value(self) -> int {
        if self.negative() {
            -(self.magnitude() as int)
        } else {
            self.magnitude() as int
        }
    }

    pub open spec fn zero_of(negative: bool) -> Binary64 {
        Binary64 { bits: if negative { SIGN_BIT } else { 0 } }
    }

    pub open spec fn infinity_of(negative: bool) -> Binary64 {
        Binary64 { bits: if negative { 0xFFF0_0000_0000_0000 } else { INFINITY_BITS } }
    }

    pub open spec fn nan() -> Binary64 {
        Binary64 { bits: NAN_BITS }
    }

    /// The sum, correctly rounded; an exact zero is negative only where both operands are.
    #[verifier::opaque]
    pub open spec fn add_spec(self, other: Binary64) -> Binary64 {
        if self.is_nan_spec() || other.is_nan_spec() {
            Self::nan()
        } else if self.is_infinite_spec() {
            if other.is_infinite_spec() && self.negative() != other.negative() {
                Self::nan()
            } else {
                self
            }
        } else if other.is_infinite_spec() {
            other
        } else {
            let v = self.value() + other.value();
            if v == 0 {
                Self::zero_of(self.negative() && other.negative())
            } else if v < 0 {
                rounded(true, (-v) as nat, 1)
            } else {
                rounded(false, v as nat, 1)
            }
        }
    }

    /// The quotient, correctly rounded.
    #[verifier::opaque]
    pub open spec fn div_spec(self, other: Binary64) -> Binary64 {
        let negative = self.negative() != other.negative();
        if self.is_nan_spec() || other.is_nan_spec() {
            Self::nan()
        } else if self.is_infinite_spec() {
            if other.is_infinite_spec() {
                Self::nan()
            } else {
                Self::infinity_of(negative)
            }
        } else if other.is_infinite_spec() {
            Self::zero_of(negative)
        } else if other.low() == 0 {
            if self.low() == 0 {
                Self::nan()
            } else {
                Self::infinity_of(negative)
            }
        } else {
            rounded(negative, self.magnitude() * pow2(1074), other.magnitude())
        }
    }

    /// The number nearest to a whole number.
    pub open spec fn of_nat(n: nat) -> Binary64 {
        rounded(false, n * pow2(1074), 1)
    }

    /// The same number in double precision; the units are two to the power 925 apart.
    pub open spec fn of_single(x: Binary32) -> Binary64 {
        if x.is_nan_spec() {
            Self::nan()
        } else if x.is_infinite_spec() {
            Self::infinity_of(x.negative())
        } else {
            rounded(x.negative(), x.magnitude() * pow2(925), 1)
        }
    }

    /// The nearest number in single precision.
    pub open spec fn single_spec(self) -> Binary32 {
        if self.is_nan_spec() {
            Binary32::nan()
        } else if self.is_infinite_spec() {
            Binary32::infinity_of(self.negative())
        } else {
            crate::binary32::rounded(self.negative(), self.magnitude(), pow2(925))
        }
    }

    /// Significand and scale of a finite number.
    fn parts(self) -> (r: (u128, u32))
        requires
            self.is_finite_spec(),
        ensures
            r.0 == self.significand(),
            r.1 == self.scale(),
            r.0 < 0x20_0000_0000_0000,
            r.1 <= 2045,
            r.1 > 0 ==> r.0 >= 0x10_0000_0000_0000,
            r.0 == 0 <==> self.low() == 0,
    {
        let low: u64 = self.bits % SIGN_BIT;
        if low < HIDDEN_BIT {
            (low as u128, 0)
        } else {
            ((low % HIDDEN_BIT + HIDDEN_BIT) as u128, (low / HIDDEN_BIT - 1) as u32)
        }
    }

    fn signed(negative: bool, low: u64) -> (r: Self)
        requires
            low < SIGN_BIT,
        ensures
            r.bits == if negative { 0x8000_0000_0000_0000int } else { 0int } + low,
    {
        Binary64 { bits: if negative { SIGN_BIT + low } else { low } }
    }

    /// The sum, correctly rounded.
    pub fn add(self, other: Binary64) -> (r: Binary64)
        ensures
            r == self.add_spec(other),
    {
        proof {
            reveal(Binary64::add_spec);
        }
        let a_low: u64 = self.bits % SIGN_BIT;
        let b_low: u64 = other.bits % SIGN_BIT;
        if a_low > INFINITY_BITS || b_low > INFINITY_BITS {
            return Binary64 { bits: NAN_BITS };
        }
        let a_neg = self.bits >= SIGN_BIT;
        let b_neg = other.bits >= SIGN_BIT;
        if a_low == INFINITY_BITS {
            if b_low == INFINITY_BITS && a_neg != b_neg {
                return Binary64 { bits: NAN_BITS };
            }
            return self;
        }
        if b_low == INFINITY_BITS {
            return other;
        }
        let (sa, ea) = self.parts();
        let (sb, eb) = other.parts();
        if ea >= eb {
            Self::add_parts(self, other, a_neg, sa, ea, b_neg, sb, eb)
        } else {
            Self::add_parts(other, self, b_neg, sb, eb, a_neg, sa, ea)
        }
    }

    /// Adds two finite numbers, the one with the larger scale first.
    fn add_parts(
        hi: Binary64,
        lo: Binary64,
        h_neg: bool,
        hs: u128,
        he: u32,
        l_neg: bool,
        ls: u128,
        le: u32,
    ) -> (r: Binary64)
        requires
            hi.is_finite_spec(),
            lo.is_finite_spec(),
            h_neg == hi.negative(),
            l_neg == lo.negative(),
            hs == hi.significand(),
            he == hi.scale(),
            ls == lo.significand(),
            le == lo.scale(),
            hs < 0x20_0000_0000_0000,
            ls < 0x20_0000_0000_0000,
            le <= he <= 2045,
            he > 0 ==> hs >= 0x10_0000_0000_0000,
        ensures
            r == hi.add_spec(lo),
    {
        proof {
            reveal(Binary64::add_spec);
        }
        let gap: u32 = he - le;
        let ghost unit = pow2(le as nat);
        proof {
            lemma_pow2_pos(le as nat);
            lemma_pow2_adds(le as nat, gap as nat);
            lemma_pow2_pos(gap as nat);
            lemma_hidden();
        }
        if gap <= 70 {
            let p = power_of_two(gap);
            proof {
                if gap < 70 {
                    lemma_pow2_strictly_increases(gap as nat, 70);
                }
                assert(hs * p <= 0x1F_FFFF_FFFF_FFFF * 0x40_0000_0000_0000_0000)
                    by (nonlinear_arith)
                    requires
                        hs <= 0x1F_FFFF_FFFF_FFFF,
                        p <= 0x40_0000_0000_0000_0000,
                ;
            }
            let big: u128 = hs * p;
            assert(hi.magnitude() == big * unit) by (nonlinear_arith)
                requires
                    hi.magnitude() == hs * pow2(he as nat),
                    pow2(he as nat) == unit * p,
                    big == hs * p,
            ;
            let (negative, sum): (bool, u128) = if h_neg == l_neg {
                (h_neg, big + ls)
            } else if big >= ls {
                (h_neg, big - ls)
            } else {
                (l_neg, ls - big)
            };
            let ghost v = hi.value() + lo.value();
            assert(v == if negative { -(sum * unit) } else { sum * unit }) by (nonlinear_arith)
                requires
                    v == hi.value() + lo.value(),
                    hi.value() == if h_neg { -(big * unit) } else { big * unit },
                    lo.value() == if l_neg { -(ls * unit) } else { ls * unit },
                    (h_neg == l_neg && negative == h_neg && sum == big + ls) || (h_neg != l_neg
                        && negative == h_neg && sum == big - ls) || (h_neg != l_neg && negative
                        == l_neg && sum == ls - big),
            ;
            assert(sum * unit == 0 <==> sum == 0) by (nonlinear_arith)
                requires
                    unit > 0,
            ;
            if sum == 0 {
                return Self::signed(h_neg && l_neg, 0);
            }
            assert(sum * unit > 0) by (nonlinear_arith)
                requires
                    unit > 0,
                    sum > 0,
            ;
            let ghost num = (sum * unit) as nat;
            let (sig, s) = widen(format(), sum);
            proof {
                assert(num * pow2(s as nat) == sig * (1 * unit)) by (nonlinear_arith)
                    requires
                        num == sum * unit,
                        sig == sum * pow2(s as nat),
                ;
                lemma_fundamental_div_mod_converse(
                    (num * pow2(s as nat)) as int,
                    (1 * unit) as int,
                    sig as int,
                    0,
                );
                lemma_nearest_bound(double(), num, 1);
            }
            let low = round_scaled(format(), sig, false, s, le, Ghost(num), Ghost(1));
            Self::signed(negative, low)
        } else {
            Self::add_far(hi, lo, h_neg, hs, he, l_neg, ls, le)
        }
    }

    /// Adds two finite numbers whose scales are more than 70 binary places apart.
    fn add_far(
        hi: Binary64,
        lo: Binary64,
        h_neg: bool,
        hs: u128,
        he: u32,
        l_neg: bool,
        ls: u128,
        le: u32,
    ) -> (r: Binary64)
        requires
            hi.is_finite_spec(),
            lo.is_finite_spec(),
            h_neg == hi.negative(),
            l_neg == lo.negative(),
            hs == hi.significand(),
            he == hi.scale(),
            ls == lo.significand(),
            le == lo.scale(),
            0x10_0000_0000_0000 <= hs < 0x20_0000_0000_0000,
            ls < 0x20_0000_0000_0000,
            le + 70 < he <= 2045,
        ensures
            r == hi.add_spec(lo),
    {
        proof {
            reveal(Binary64::add_spec);
            lemma_hidden();
        }
        let g: u32 = he - le - 70;
        let (q, r): (u128, u128) = if g >= 53 {
            proof {
                if g > 53 {
                    lemma_pow2_strictly_increases(53, g as nat);
                }
                lemma_small(ls as nat, pow2(g as nat));
            }
            (0, ls)
        } else {
            let p = power_of_two(g);
            proof {
                lemma_pow2_pos(g as nat);
            }
            (ls / p, ls % p)
        };
        let ghost pg = pow2(g as nat);
        let ghost unit = pow2(le as nat);
        let ghost mid = pow2((le + g) as nat);
        proof {
            lemma_pow2_pos(g as nat);
            lemma_pow2_pos(le as nat);
            lemma_pow2_pos((le + g) as nat);
            lemma_pow2_adds(le as nat, g as nat);
            lemma_pow2_adds((le + g) as nat, 70);
            lemma_fundamental_div_mod(ls as int, pg as int);
            lemma_mod_pos_bound(ls as int, pg as int);
            assert(q <= ls) by (nonlinear_arith)
                requires
                    ls == pg * q + r,
                    pg >= 1,
            ;
        }
        let big: u128 = hs * 0x40_0000_0000_0000_0000;
        let ghost hm: int = hi.magnitude() as int;
        let ghost lm: int = lo.magnitude() as int;
        assert(hm == big * mid) by (nonlinear_arith)
            requires
                hm == hs * pow2(he as nat),
                pow2(he as nat) == mid * 0x40_0000_0000_0000_0000,
                big == hs * 0x40_0000_0000_0000_0000,
        ;
        assert(lm == q * mid + r * unit) by (nonlinear_arith)
            requires
                lm == ls * unit,
                ls == pg * q + r,
                mid == unit * pg,
        ;
        assert(r * unit < mid) by (nonlinear_arith)
            requires
                r < pg,
                mid == unit * pg,
                unit > 0,
        ;
        assert(r * unit == 0 <==> r == 0) by (nonlinear_arith)
            requires
                unit > 0,
        ;
        let ghost rest: int = r * unit;
        let same = h_neg == l_neg;
        let sig: u128 = if same {
            big + q
        } else if r == 0 {
            big - q
        } else {
            big - q - 1
        };
        let ghost num: int = if same {
            hm + lm
        } else {
            hm - lm
        };
        let ghost left: int = if same {
            rest
        } else if r == 0 {
            0
        } else {
            mid - rest
        };
        proof {
            assert(num == sig * mid + left) by (nonlinear_arith)
                requires
                    hm == big * mid,
                    lm == q * mid + rest,
                    num == if same { hm + lm } else { hm - lm },
                    (same && sig == big + q && left == rest) || (!same && r == 0 && rest == 0 && sig
                        == big - q && left == 0) || (!same && r != 0 && sig == big - q - 1 && left
                        == mid - rest),
            ;
            assert(num > 0) by (nonlinear_arith)
                requires
                    num == sig * mid + left,
                    sig > 0,
                    mid > 0,
                    left >= 0,
            ;
            let n = num as nat;
            lemma_pow2_unfold_all(0);
            assert(n * pow2(0) == n && 1 * mid == mid) by (nonlinear_arith)
                requires
                    pow2(0) == 1,
            ;
            lemma_fundamental_div_mod_converse(n as int, mid as int, sig as int, left);
            lemma_nearest_bound(double(), n, 1);
        }
        let low = round_scaled(format(), sig, r != 0, 0, le + g, Ghost(num as nat), Ghost(1));
        Self::signed(h_neg, low)
    }

    /// The quotient, correctly rounded.
    pub fn div(self, other: Binary64) -> (r: Binary64)
        ensures
            r == self.div_spec(other),
    {
        proof {
            reveal(Binary64::div_spec);
        }
        let negative = (self.bits >= SIGN_BIT) != (other.bits >= SIGN_BIT);
        let a_low: u64 = self.bits % SIGN_BIT;
        let b_low: u64 = other.bits % SIGN_BIT;
        if a_low > INFINITY_BITS || b_low > INFINITY_BITS {
            return Binary64 { bits: NAN_BITS };
        }
        if a_low == INFINITY_BITS {
            if b_low == INFINITY_BITS {
                return Binary64 { bits: NAN_BITS };
            }
            return Self::signed(negative, INFINITY_BITS);
        }
        if b_low == INFINITY_BITS {
            return Self::signed(negative, 0);
        }
        if b_low == 0 {
            if a_low == 0 {
                return Binary64 { bits: NAN_BITS };
            }
            return Self::signed(negative, INFINITY_BITS);
        }
        let (sa, ea) = self.parts();
        let (sb, eb) = other.parts();
        let ghost num = self.magnitude() * pow2(1074);
        let ghost den = other.magnitude();
        proof {
            lemma_pow2_pos(eb as nat);
            assert(den > 0) by (nonlinear_arith)
                requires
                    den == sb * pow2(eb as nat),
                    sb > 0,
                    pow2(eb as nat) > 0,
            ;
        }
        if sa == 0 {
            proof {
                assert(num == 0) by (nonlinear_arith)
                    requires
                        num == (sa * pow2(ea as nat)) * pow2(1074),
                        sa == 0,
                ;
                lemma_nearest_zero(double(), den);
            }
            return Self::signed(negative, 0);
        }
        let (wide, s) = widen(format(), sa);
        let top: u128 = wide * 0x1_0000_0000_0000_0000;
        let sig: u128 = top / sb;
        let sticky = top % sb != 0;
        let up: u32 = eb + s + 64;
        let down: u32 = ea + 1074;
        proof {
            assert(0x40_0000_0000_0000 <= sig) by (nonlinear_arith)
                requires
                    top >= 0x40_0000_0000_0000u128 * 0x1_0000_0000_0000_0000,
                    0 < sb < 0x20_0000_0000_0000,
                    sig == top / sb,
            ;
            assert(sig < TOP) by (nonlinear_arith)
                requires
                    top < TOP,
                    0 < sb,
                    sig == top / sb,
            ;
            lemma_hidden();
            let c = pow2(eb as nat) * pow2(down as nat);
            lemma_pow2_pos(down as nat);
            assert(c > 0) by (nonlinear_arith)
                requires
                    c == pow2(eb as nat) * pow2(down as nat),
                    pow2(eb as nat) > 0,
                    pow2(down as nat) > 0,
            ;
            lemma_pow2_adds(ea as nat, 1074);
            lemma_pow2_adds(eb as nat, (s + 64) as nat);
            lemma_pow2_adds(s as nat, 64);
            assert(num * pow2(up as nat) == top * c) by (nonlinear_arith)
                requires
                    num == (sa * pow2(ea as nat)) * pow2(1074),
                    top == wide * 0x1_0000_0000_0000_0000,
                    wide == sa * pow2(s as nat),
                    c == pow2(eb as nat) * pow2(down as nat),
                    pow2(down as nat) == pow2(ea as nat) * pow2(1074),
                    pow2(up as nat) == pow2(eb as nat) * (pow2(s as nat)
                        * 0x1_0000_0000_0000_0000),
            ;
            assert(den * pow2(down as nat) == sb * c) by (nonlinear_arith)
                requires
                    den == sb * pow2(eb as nat),
                    c == pow2(eb as nat) * pow2(down as nat),
            ;
            lemma_scale(top as nat, sb as nat, c);
            let r0 = (top % sb) as nat;
            assert(r0 * c != 0 <==> r0 != 0) by (nonlinear_arith)
                requires
                    c > 0,
            ;
            lemma_nearest_bound(double(), num, den);
        }
        let low = round_scaled(format(), sig, sticky, up, down, Ghost(num), Ghost(den));
        Self::signed(negative, low)
    }

    /// The pattern without sign of `n` times two to the power `e`, in smallest units.
    fn low_of(n: u128, e: u32) -> (low: u64)
        requires
            n < TOP,
            e <= 1500,
        ensures
            low == double().nearest(n as nat * pow2(e as nat), 1),
            low <= INFINITY_BITS,
    {
        let ghost unit = pow2(e as nat);
        let ghost num = n as nat * unit;
        if n == 0 {
            proof {
                assert(num == 0) by (nonlinear_arith)
                    requires
                        num == n as nat * unit,
                        n == 0,
                ;
                lemma_nearest_zero(double(), 1);
            }
            return 0;
        }
        let (sig, s) = widen(format(), n);
        proof {
            lemma_pow2_pos(e as nat);
            assert(num * pow2(s as nat) == sig * (1 * unit)) by (nonlinear_arith)
                requires
                    num == n as nat * unit,
                    sig == n * pow2(s as nat),
            ;
            lemma_fundamental_div_mod_converse(
                (num * pow2(s as nat)) as int,
                (1 * unit) as int,
                sig as int,
                0,
            );
            lemma_nearest_bound(double(), num, 1);
        }
        round_scaled(format(), sig, false, s, e, Ghost(num), Ghost(1))
    }

    /// The number nearest to `n`.
    pub fn from_u64(n: u64) -> (r: Binary64)
        ensures
            r == Self::of_nat(n as nat),
    {
        Binary64 { bits: Self::low_of(n as u128, 1074) }
    }

    /// The same number in double precision.
    pub fn from_single(x: Binary32) -> (r: Binary64)
        ensures
            r == Self::of_single(x),
    {
        let negative = x.bits >= crate::binary32::SIGN_BIT;
        if x.is_nan() {
            return Binary64 { bits: NAN_BITS };
        }
        if !x.is_finite() {
            return Self::signed(negative, INFINITY_BITS);
        }
        let (sig, scale) = x.parts();
        proof {
            lemma_pow2_adds(scale as nat, 925);
            assert(sig as nat * pow2((scale + 925) as nat) == x.magnitude() * pow2(925))
                by (nonlinear_arith)
                requires
                    x.magnitude() == sig * pow2(scale as nat),
                    pow2((scale + 925) as nat) == pow2(scale as nat) * pow2(925),
            ;
        }
        Self::signed(negative, Self::low_of(sig as u128, scale + 925))
    }

    /// The nearest number in single precision.
    pub fn to_single(self) -> (r: Binary32)
        ensures
            r == self.single_spec(),
    {
        let negative = self.bits >= SIGN_BIT;
        let low: u64 = self.bits % SIGN_BIT;
        if low > INFINITY_BITS {
            return Binary32 { bits: crate::binary32::NAN_BITS };
        }
        if low == INFINITY_BITS {
            return Binary32::signed(negative, crate::binary32::INFINITY_BITS);
        }
        let (n, e) = self.parts();
        let ghost num = self.magnitude();
        let ghost den = pow2(925);
        proof {
            lemma_pow2_pos(925);
            crate::binary32::lemma_nearest_bound(num, den);
        }
        if n == 0 {
            proof {
                assert(num == 0) by (nonlinear_arith)
                    requires
                        num == n * pow2(e as nat),
                        n == 0,
                ;
                lemma_nearest_zero(crate::binary32::single(), den);
            }
            return Binary32::signed(negative, 0);
        }
        let (sig, s) = widen(crate::binary32::format(), n);
        let up: u32 = 925 + s;
        proof {
            let c = den * pow2(e as nat);
            lemma_pow2_pos(e as nat);
            assert(c > 0) by (nonlinear_arith)
                requires
                    c == den * pow2(e as nat),
                    den > 0,
                    pow2(e as nat) > 0,
            ;
            lemma_pow2_adds(925, s as nat);
            assert(num * pow2(up as nat) == sig * c) by (nonlinear_arith)
                requires
                    num == n * pow2(e as nat),
                    sig == n * pow2(s as nat),
                    c == den * pow2(e as nat),
                    pow2(up as nat) == den * pow2(s as nat),
            ;
            lemma_fundamental_div_mod_converse(
                (num * pow2(up as nat)) as int,
                c as int,
                sig as int,
                0,
            );
        }
        let low = round_scaled(
            crate::binary32::format(),
            sig,
            false,
            up,
            e,
            Ghost(num),
            Ghost(den),
        );
        Binary32::signed(negative, low as u32)
    }
}

// ── Order ────────────────────────────────────────────────────────────────────

/// Rounding leaves a number that has a pattern alone.
pub proof fn lemma_pattern_is_exact(x: Binary64)
    requires
        x.is_finite_spec(),
    ensures
        double().nearest(x.magnitude(), 1) == x.low(),
{
    lemma_hidden();
    let (e, hidden) = (x.scale(), double().hidden());
    assert(e * hidden == e * 0x10_0000_0000_0000) by (nonlinear_arith)
        requires
            hidden == 0x10_0000_0000_0000,
    ;
    lemma_nearest_exact(double(), x.significand(), e);
}

/// A larger pattern without sign is not a smaller magnitude.
pub proof fn lemma_magnitude_order(x: Binary64, y: Binary64)
    requires
        x.is_finite_spec(),
        y.is_finite_spec(),
        x.low() <= y.low(),
    ensures
        x.magnitude() <= y.magnitude(),
{
    lemma_hidden();
    if y.magnitude() < x.magnitude() {
        lemma_pattern_is_exact(x);
        lemma_pattern_is_exact(y);
        lemma_nearest_mono(double(), y.magnitude(), x.magnitude(), 1);
        assert(x.low() == y.low());
    }
}

/// A magnitude that is not larger than a number is not rounded to a larger one.
pub proof fn lemma_rounded_at_most(negative: bool, num: nat, den: nat, y: Binary64)
    requires
        y.is_finite_spec(),
        den > 0,
        num <= y.magnitude() * den,
    ensures
        rounded(negative, num, den).is_finite_spec(),
        rounded(negative, num, den).magnitude() <= y.magnitude(),
        rounded(negative, num, den).negative() == negative,
{
    lemma_hidden();
    let m = y.magnitude();
    lemma_nearest_mono(double(), num, m * den, den);
    crate::rounding::lemma_nearest_scale(double(), m, 1, den);
    assert(1 * den == den);
    lemma_pattern_is_exact(y);
    let z = rounded(negative, num, den);
    assert(z.low() == double().nearest(num, den));
    lemma_magnitude_order(z, y);
}

/// A number of up to 53 binary digits has a pattern.
pub proof fn lemma_representable(m: nat, e: nat) -> (y: Binary64)
    requires
        0 < m < 0x20_0000_0000_0000,
        53 <= e <= 1900,
    ensures
        y.is_finite_spec(),
        !y.negative(),
        y.magnitude() == m * pow2(e),
{
    lemma_hidden();
    crate::rounding::lemma_bit_len_bounds(m);
    crate::rounding::lemma_bit_len_upper(m, 53);
    let len = crate::rounding::bit_len(m);
    let up = (53 - len) as nat;
    let t = (e - up) as nat;
    let sig = m * pow2(up);
    lemma_pow2_pos(up);
    lemma_pow2_adds((len - 1) as nat, up);
    lemma_pow2_adds(len, up);
    lemma_pow2_adds(up, t);
    assert(0x10_0000_0000_0000 <= sig < 0x20_0000_0000_0000) by (nonlinear_arith)
        requires
            pow2((len - 1) as nat) <= m < pow2(len),
            sig == m * pow2(up),
            pow2((len - 1) as nat) * pow2(up) == 0x10_0000_0000_0000,
            pow2(len) * pow2(up) == 0x20_0000_0000_0000,
            pow2(up) > 0,
    ;
    assert(sig * pow2(t) == m * pow2(e)) by (nonlinear_arith)
        requires
            sig == m * pow2(up),
            pow2(e) == pow2(up) * pow2(t),
    ;
    let y = Binary64 { bits: (t * 0x10_0000_0000_0000 + sig) as u64 };
    assert(y.low() == t * 0x10_0000_0000_0000 + sig);
    assert(y.significand() == sig);
    assert(y.scale() == t);
    y
}

/// A sum is not rounded beyond a number that is at least as large as the magnitudes together.
pub proof fn lemma_add_at_most(a: Binary64, b: Binary64, y: Binary64)
    requires
        a.is_finite_spec(),
        b.is_finite_spec(),
        y.is_finite_spec(),
        a.magnitude() + b.magnitude() <= y.magnitude(),
    ensures
        a.add_spec(b).is_finite_spec(),
        a.add_spec(b).magnitude() <= y.magnitude(),
{
    reveal(Binary64::add_spec);
    let v = a.value() + b.value();
    if v == 0 {
        let z = Binary64::zero_of(a.negative() && b.negative());
        assert(z.magnitude() == 0) by (nonlinear_arith)
            requires
                z.magnitude() == z.significand() * pow2(z.scale()),
                z.significand() == 0,
        ;
    } else if v < 0 {
        lemma_rounded_at_most(true, (-v) as nat, 1, y);
    } else {
        lemma_rounded_at_most(false, v as nat, 1, y);
    }
}

/// What is added to a power of two is lost if it is below a quarter of the last binary digit.
proof fn lemma_small_part_is_lost(e: nat, part: nat)
    requires
        54 <= e,
        part <= pow2((e - 54) as nat),
    ensures
        double().nearest(pow2(e) + part, 1) == double().nearest(pow2(e), 1),
{
    reveal(Format::nearest);
    lemma_hidden();
    let t = (e - 52) as nat;
    let unit = pow2(t);
    lemma_pow2_pos(t);
    lemma_pow2_adds(2, (e - 54) as nat);
    lemma_pow2_adds(52, t);
    lemma_pow2_adds(1, e);
    vstd::arithmetic::power2::lemma2_to64();
    let q: nat = 0x10_0000_0000_0000;
    vstd::arithmetic::power2::lemma2_to64_rest();
    assert(pow2(e) == q * unit);
    let low = t * double().hidden() + q;
    assert forall|d: nat| 4 * d <= unit implies #[trigger] double().nearest(pow2(e) + d, 1) == (
    if low >= double().infinity {
        double().infinity as nat
    } else {
        low
    }) by {
        let n = pow2(e) + d;
        assert(n / 1 == n);
        assert(unit <= pow2(e)) by (nonlinear_arith)
            requires
                pow2(e) == q * unit,
                q >= 1,
        ;
        crate::rounding::lemma_bit_len_unique(n, e + 1);
        vstd::arithmetic::div_mod::lemma_fundamental_div_mod_converse(
            n as int,
            unit as int,
            q as int,
            d as int,
        );
        assert(1 * unit == unit);
    }
    assert(double().nearest(pow2(e) + 0, 1) == double().nearest(pow2(e) + part, 1));
}

/// A sum does not leave a power of two behind if what is added is small enough against it.
pub proof fn lemma_sum_stays(a: Binary64, b: Binary64, e: nat)
    requires
        a.is_finite_spec(),
        b.is_finite_spec(),
        107 <= e <= 1900,
        a.magnitude() <= pow2(e),
        b.magnitude() <= pow2((e - 54) as nat),
    ensures
        a.add_spec(b).is_finite_spec(),
        a.add_spec(b).magnitude() <= pow2(e),
{
    reveal(Binary64::add_spec);
    lemma_hidden();
    let y = lemma_representable(1, e);
    let m = pow2(e);
    assert(1 * m == m);
    lemma_pattern_is_exact(y);
    lemma_small_part_is_lost(e, b.magnitude());
    let v = a.value() + b.value();
    let n: nat = if v < 0 {
        (-v) as nat
    } else {
        v as nat
    };
    lemma_nearest_mono(double(), n, m + b.magnitude(), 1);
    let z = a.add_spec(b);
    if v == 0 {
        assert(z.magnitude() == 0) by (nonlinear_arith)
            requires
                z.magnitude() == z.significand() * pow2(z.scale()),
                z.significand() == 0,
        ;
    } else {
        assert(z.low() == double().nearest(n, 1));
        lemma_magnitude_order(z, y);
    }
}

} // verus!
