//! IEEE 754 single-precision numbers carried as bit patterns.
//!
//! Feature vectors are single-precision numbers. [`Binary32`] holds such a number as its 32 bits
//! and computes the operations that the vectoriser and the quantiser need in integer arithmetic,
//! so that each result is known down to the last bit.

use vstd::prelude::*;
#[allow(unused_imports)]
use vstd::arithmetic::power2::{
    lemma_pow2_adds, lemma_pow2_pos, lemma_pow2_strictly_increases, pow2,
};
#[allow(unused_imports)]
use vstd::arithmetic::div_mod::{
    lemma_fundamental_div_mod, lemma_fundamental_div_mod_converse, lemma_mod_pos_bound,
};

use crate::rounding::{power_of_two, round_scaled, widen, Format};
#[allow(unused_imports)]
use crate::rounding::{
    bit_len, div_half_even, lemma_bit_len_bounds, lemma_bit_len_upper, lemma_pow2_unfold_all,
    lemma_scale, lemma_small,
};

verus! {

/// The bit that holds the sign.
pub const SIGN_BIT: u32 = 0x8000_0000;

/// Positive infinity; every larger pattern without the sign is not a number.
pub const INFINITY_BITS: u32 = 0x7F80_0000;

/// The pattern that stands for an undefined result.
pub const NAN_BITS: u32 = 0x7FC0_0000;

/// The pattern of the number one.
pub const ONE_BITS: u32 = 0x3F80_0000;

/// The number of fraction bits is 23: this is two to that power.
pub const HIDDEN_BIT: u32 = 0x0080_0000;

/// A single-precision number, by its bits.
#[derive(Clone, Copy, Debug, PartialEq, Eq, Structural)]
pub struct Binary32 {
    pub bits: u32,
}

/// The single-precision format: 24 binary digits.
pub open spec fn single() -> Format {
    Format { digits: 24, infinity: 0x7F80_0000 }
}

pub(crate) fn format() -> (f: Format)
    ensures
        f == single(),
        f.valid(),
        f.hidden() == 0x80_0000,
{
    proof {
        lemma_pow2_63();
    }
    Format { digits: 24, infinity: 0x7F80_0000 }
}

/// The pattern, without its sign, of the number nearest to `num / den` smallest units, ties to
/// the even one: 24 significant binary digits are kept, and what is too large is infinite.
/// The smallest unit is two to the power -149.
pub open spec fn nearest(num: nat, den: nat) -> nat {
    single().nearest(num, den)
}

/// The number nearest to `num / den` smallest units, with the given sign.
pub open spec fn rounded(negative: bool, num: nat, den: nat) -> Binary32 {
    Binary32 { bits: (if negative { 0x8000_0000int } else { 0int } + nearest(num, den)) as u32 }
}

/// `n / d` rounded to the nearest integer, a tie away from zero.
pub open spec fn div_half_up(n: nat, d: nat) -> nat {
    (2 * n + d) / (2 * d)
}

impl Binary32 {
    pub open spec fn negative(self) -> bool {
        self.bits >= SIGN_BIT
    }

    /// The pattern without its sign.
    pub open spec fn low(self) -> nat {
        (self.bits % 0x8000_0000) as nat
    }

    pub open spec fn is_nan_spec(self) -> bool {
        self.low() > 0x7F80_0000
    }

    pub open spec fn is_infinite_spec(self) -> bool {
        self.low() == 0x7F80_0000
    }

    pub open spec fn is_finite_spec(self) -> bool {
        self.low() < 0x7F80_0000
    }

    /// The significand of a finite number, an integer below two to the power 24.
    pub open spec fn significand(self) -> nat {
        if self.low() < 0x80_0000 {
            self.low()
        } else {
            self.low() % 0x80_0000 + 0x80_0000
        }
    }

    /// The power of two that the significand is scaled by, in smallest units.
    pub open spec fn scale(self) -> nat {
        if self.low() < 0x80_0000 {
            0
        } else {
            (self.low() / 0x80_0000 - 1) as nat
        }
    }

    /// The distance of a finite number from zero, in smallest units.
    pub open spec fn magnitude(self) -> nat {
        self.significand() * pow2(self.scale())
    }

    /// A finite number in smallest units.
    pub open spec fn value(self) -> int {
        if self.negative() {
            -(self.magnitude() as int)
        } else {
            self.magnitude() as int
        }
    }

    pub open spec fn zero_of(negative: bool) -> Binary32 {
        Binary32 { bits: if negative { 0x8000_0000 } else { 0 } }
    }

    pub open spec fn infinity_of(negative: bool) -> Binary32 {
        Binary32 { bits: if negative { 0xFF80_0000 } else { 0x7F80_0000 } }
    }

    pub open spec fn nan() -> Binary32 {
        Binary32 { bits: NAN_BITS }
    }

    /// The product, correctly rounded.
    #[verifier::opaque]
    pub open spec fn mul_spec(self, other: Binary32) -> Binary32 {
        let negative = self.negative() != other.negative();
        if self.is_nan_spec() || other.is_nan_spec() {
            Self::nan()
        } else if self.is_infinite_spec() || other.is_infinite_spec() {
            if self.low() == 0 || other.low() == 0 {
                Self::nan()
            } else {
                Self::infinity_of(negative)
            }
        } else {
            rounded(negative, self.magnitude() * other.magnitude(), pow2(149))
        }
    }

    /// The square of the number plus `acc`, which is not negative, rounded once.
    #[verifier::opaque]
    pub open spec fn square_add_spec(self, acc: Binary32) -> Binary32 {
        if self.is_nan_spec() || acc.is_nan_spec() {
            Self::nan()
        } else if self.is_infinite_spec() || acc.is_infinite_spec() {
            Self::infinity_of(false)
        } else {
            rounded(
                false,
                self.magnitude() * self.magnitude() + acc.magnitude() * pow2(149),
                pow2(149),
            )
        }
    }

    /// The quotient, correctly rounded.
    #[verifier::opaque]
    pub open spec fn div_spec(self, other: Binary32) -> Binary32 {
        let negative = self.negative() != other.negative();
        if self.is_nan_spec() || other.is_nan_spec() {
            Self::nan()
        } else if self.is_infinite_spec() {
            if other.is_infinite_spec() {
                Self::nan()
            } else {
                Self::infinity_of(negative)
            }
        } else if other.is_infinite_spec() {
            Self::zero_of(negative)
        } else if other.low() == 0 {
            if self.low() == 0 {
                Self::nan()
            } else {
                Self::infinity_of(negative)
            }
        } else {
            rounded(negative, self.magnitude() * pow2(149), other.magnitude())
        }
    }

    /// The sum, correctly rounded; an exact zero is negative only where both operands are.
    #[verifier::opaque]
    pub open spec fn add_spec(self, other: Binary32) -> Binary32 {
        if self.is_nan_spec() || other.is_nan_spec() {
            Self::nan()
        } else if self.is_infinite_spec() {
            if other.is_infinite_spec() && self.negative() != other.negative() {
                Self::nan()
            } else {
                self
            }
        } else if other.is_infinite_spec() {
            other
        } else {
            let v = self.value() + other.value();
            if v == 0 {
                Self::zero_of(self.negative() && other.negative())
            } else if v < 0 {
                rounded(true, (-v) as nat, 1)
            } else {
                rounded(false, v as nat, 1)
            }
        }
    }

    /// The number with its sign flipped.
    pub open spec fn neg_spec(self) -> Binary32 {
        Binary32 {
            bits: if self.negative() {
                (self.bits - 0x8000_0000) as u32
            } else {
                (self.bits + 0x8000_0000) as u32
            },
        }
    }

    /// The difference, correctly rounded.
    pub open spec fn sub_spec(self, other: Binary32) -> Binary32 {
        self.add_spec(other.neg_spec())
    }

    /// The number nearest to an integer.
    pub open spec fn of_int(n: int) -> Binary32 {
        let magnitude = if n < 0 {
            -n
        } else {
            n
        };
        rounded(n < 0, magnitude as nat * pow2(149), 1)
    }

    /// `self < other`; never with an operand that is not a number.
    pub open spec fn lt_spec(self, other: Binary32) -> bool {
        if self.is_nan_spec() || other.is_nan_spec() {
            false
        } else {
            self.order_key() < other.order_key()
        }
    }

    /// An integer that orders everything but the patterns that are not a number; both zeros
    /// have the same.
    pub open spec fn order_key(self) -> int {
        if self.negative() {
            -(self.low() as int)
        } else {
            self.low() as int
        }
    }

    /// The number limited to the interval from zero to one; what is not a number stays.
    pub open spec fn clamp01_spec(self) -> Binary32 {
        if self.lt_spec(Self::zero_of(false)) {
            Self::zero_of(false)
        } else if (Binary32 { bits: ONE_BITS }).lt_spec(self) {
            Binary32 { bits: ONE_BITS }
        } else {
            self
        }
    }

    /// The nearest integer, a tie away from zero; of a finite number.
    pub open spec fn round_spec(self) -> int {
        let r = div_half_up(self.magnitude(), pow2(149)) as int;
        if self.negative() {
            -r
        } else {
            r
        }
    }

    /// The nearest integer limited to `[lo, hi]`; zero for what is not a number.
    pub open spec fn round_within(self, lo: int, hi: int) -> int {
        if self.is_nan_spec() {
            0
        } else if self.is_infinite_spec() {
            if self.negative() {
                lo
            } else {
                hi
            }
        } else if self.round_spec() < lo {
            lo
        } else if self.round_spec() > hi {
            hi
        } else {
            self.round_spec()
        }
    }
}

// ── Rounding ─────────────────────────────────────────────────────────────────

proof fn lemma_pow2_63()
    ensures
        pow2(23) == 0x80_0000,
        pow2(24) == 0x100_0000,
        pow2(25) == 0x200_0000,
        pow2(62) == 0x4000_0000_0000_0000,
        pow2(63) == 0x8000_0000_0000_0000,
        pow2(64) == 0x1_0000_0000_0000_0000,
{
    vstd::arithmetic::power2::lemma2_to64();
    vstd::arithmetic::power2::lemma2_to64_rest();
}

/// The rounded pattern of `num / den`, read off a scaled quotient `sig` of `len` binary digits, of
/// which `shift` are dropped.
pub proof fn lemma_rounding(
    num: nat,
    den: nat,
    up: nat,
    down: nat,
    sig: nat,
    len: nat,
    t: nat,
    shift: nat,
)
    requires
        den > 0,
        len >= 26,
        sig == (num * pow2(up)) / (den * pow2(down)),
        pow2((len - 1) as nat) <= sig < pow2(len),
        t == if len + down - up > 24 {
            len + down - up - 24
        } else {
            0
        },
        shift == t + up - down,
    ensures
        shift >= 2,
        nearest(num, den) == ({
            let half = pow2((shift - 1) as nat);
            let q = sig / (2 * half);
            let r = sig % (2 * half);
            let sticky = (num * pow2(up)) % (den * pow2(down)) != 0;
            let m = if r < half || (r == half && !sticky && q % 2 == 0) {
                q
            } else {
                q + 1
            };
            if t * 0x80_0000 + m >= 0x7F80_0000 {
                0x7F80_0000
            } else {
                t * 0x80_0000 + m
            }
        }),
{
    lemma_pow2_63();
    crate::rounding::lemma_rounding(single(), num, den, up, down, sig, len, t, shift);
}

proof fn lemma_nearest_zero(den: nat)
    requires
        den > 0,
    ensures
        nearest(0, den) == 0,
{
    crate::rounding::lemma_nearest_zero(single(), den);
}

/// The nearest pattern never exceeds infinity.
pub proof fn lemma_nearest_bound(num: nat, den: nat)
    ensures
        nearest(num, den) <= 0x7F80_0000,
{
    crate::rounding::lemma_nearest_bound(single(), num, den);
}

/// Two to the power `e`.
fn small_power(e: u32) -> (p: u64)
    requires
        e < 64,
    ensures
        p == pow2(e as nat),
{
    proof {
        lemma_pow2_63();
        if e < 63 {
            lemma_pow2_strictly_increases(e as nat, 63);
        }
    }
    power_of_two(e) as u64
}

/// The pattern of `hs * 2^he + ls * 2^le` units of two to the power -298, for `he >= le`.
fn low_of_sum(hs: u64, he: u32, ls: u64, le: u32) -> (low: u32)
    requires
        hs < 0x1_0000_0000_0000,
        ls < 0x1_0000_0000_0000,
        le <= he <= 600,
    ensures
        low == nearest(hs as nat * pow2(he as nat) + ls as nat * pow2(le as nat), pow2(149)),
{
    let gap: u32 = he - le;
    let ghost unit = pow2(le as nat);
    let ghost num: nat = (hs * pow2(he as nat) + ls * unit) as nat;
    let ghost den = pow2(149);
    proof {
        lemma_pow2_pos(le as nat);
        lemma_pow2_pos(he as nat);
        lemma_pow2_pos(149);
        lemma_pow2_adds(le as nat, gap as nat);
        lemma_nearest_bound(num, den);
        assert(hs * pow2(he as nat) >= 0 && ls * unit >= 0) by (nonlinear_arith);
    }
    if gap <= 70 || hs == 0 {
        let shift: u32 = if hs == 0 {
            0
        } else {
            gap
        };
        proof {
            lemma_pow2_top(shift as nat);
        }
        let p: u128 = power_of_two(shift);
        assert(0 <= hs * p <= 0x1_0000_0000_0000 * 0x40_0000_0000_0000_0000) by (nonlinear_arith)
            requires
                0 <= hs <= 0x1_0000_0000_0000,
                0 <= p <= 0x40_0000_0000_0000_0000,
        ;
        let sum: u128 = hs as u128 * p + ls as u128;
        assert(num == sum * unit) by (nonlinear_arith)
            requires
                num == hs * pow2(he as nat) + ls * unit,
                sum == hs * p + ls,
                hs == 0 || pow2(he as nat) == unit * p,
        ;
        if sum == 0 {
            proof {
                assert(num == 0) by (nonlinear_arith)
                    requires
                        num == sum * unit,
                        sum == 0,
                ;
                lemma_nearest_zero(den);
            }
            return 0;
        }
        let (sig, s) = widen(format(), sum);
        let up: u32 = 149 + s;
        proof {
            let c = den * unit;
            assert(c > 0) by (nonlinear_arith)
                requires
                    c == den * unit,
                    den > 0,
                    unit > 0,
            ;
            lemma_pow2_adds(149, s as nat);
            assert(num * pow2(up as nat) == sig * c) by (nonlinear_arith)
                requires
                    num == sum * unit,
                    sig == sum * pow2(s as nat),
                    c == den * unit,
                    pow2(up as nat) == den * pow2(s as nat),
            ;
            lemma_fundamental_div_mod_converse(
                (num * pow2(up as nat)) as int,
                c as int,
                sig as int,
                0,
            );
        }
        round_scaled(format(), sig, false, up, le, Ghost(num), Ghost(den)) as u32
    } else {
        let g: u32 = gap - 70;
        let (q, r): (u64, u64) = if g >= 48 {
            proof {
                lemma_pow2_48(g as nat);
                lemma_small(ls as nat, pow2(g as nat));
            }
            (0, ls)
        } else {
            let p = small_power(g);
            proof {
                lemma_pow2_pos(g as nat);
            }
            (ls / p, ls % p)
        };
        let ghost pg = pow2(g as nat);
        let ghost mid = pow2((le + g) as nat);
        proof {
            lemma_pow2_pos(g as nat);
            lemma_pow2_pos((le + g) as nat);
            lemma_pow2_adds(le as nat, g as nat);
            lemma_pow2_adds((le + g) as nat, 70);
            lemma_pow2_top(70);
            lemma_fundamental_div_mod(ls as int, pg as int);
            lemma_mod_pos_bound(ls as int, pg as int);
            assert(q <= ls) by (nonlinear_arith)
                requires
                    ls == pg * q + r,
                    pg >= 1,
                    q >= 0,
                    r >= 0,
            ;
        }
        let sig: u128 = hs as u128 * 0x40_0000_0000_0000_0000 + q as u128;
        proof {
            let rest: int = r * unit;
            assert(num == sig * mid + rest) by (nonlinear_arith)
                requires
                    num == hs * pow2(he as nat) + ls * unit,
                    pow2(he as nat) == mid * 0x40_0000_0000_0000_0000,
                    sig == hs * 0x40_0000_0000_0000_0000 + q,
                    ls == pg * q + r,
                    mid == unit * pg,
                    rest == r * unit,
            ;
            assert(0 <= rest < mid) by (nonlinear_arith)
                requires
                    0 <= r < pg,
                    mid == unit * pg,
                    unit > 0,
                    rest == r * unit,
            ;
            assert(rest == 0 <==> r == 0) by (nonlinear_arith)
                requires
                    unit > 0,
                    rest == r * unit,
            ;
            let n = (num * den) as int;
            let c = (den * mid) as int;
            let left = rest * den;
            assert(n == sig * c + left && 0 <= left < c && (left == 0 <==> rest == 0))
                by (nonlinear_arith)
                requires
                    n == num * den,
                    num == sig * mid + rest,
                    c == den * mid,
                    left == rest * den,
                    den > 0,
                    0 <= rest < mid,
            ;
            lemma_fundamental_div_mod_converse(n, c, sig as int, left);
        }
        round_scaled(format(), sig, r != 0, 149, le + g, Ghost(num), Ghost(den)) as u32
    }
}

proof fn lemma_pow2_top(e: nat)
    requires
        e <= 70,
    ensures
        1 <= pow2(e) <= 0x40_0000_0000_0000_0000,
        pow2(70) == 0x40_0000_0000_0000_0000,
{
    vstd::arithmetic::power2::lemma2_to64();
    vstd::arithmetic::power2::lemma2_to64_rest();
    lemma_pow2_adds(6, 64);
    lemma_pow2_pos(e);
    if e < 70 {
        lemma_pow2_strictly_increases(e, 70);
    }
}

proof fn lemma_pow2_48(e: nat)
    requires
        e >= 48,
    ensures
        pow2(e) >= 0x1_0000_0000_0000,
{
    vstd::arithmetic::power2::lemma2_to64_rest();
    if e > 48 {
        lemma_pow2_strictly_increases(48, e);
    }
}

impl Binary32 {
    pub fn is_nan(self) -> (r: bool)
        ensures
            r == self.is_nan_spec(),
    {
        self.bits % 0x8000_0000 > INFINITY_BITS
    }

    pub fn is_finite(self) -> (r: bool)
        ensures
            r == self.is_finite_spec(),
    {
        self.bits % 0x8000_0000 < INFINITY_BITS
    }

    /// Significand and scale of a finite number.
    pub(crate) fn parts(self) -> (r: (u64, u32))
        requires
            self.is_finite_spec(),
        ensures
            r.0 == self.significand(),
            r.1 == self.scale(),
            r.0 < 0x100_0000,
            r.1 <= 253,
            r.1 > 0 ==> r.0 >= 0x80_0000,
            r.0 == 0 <==> self.low() == 0,
    {
        let low: u32 = self.bits % 0x8000_0000;
        if low < HIDDEN_BIT {
            (low as u64, 0)
        } else {
            ((low % HIDDEN_BIT + HIDDEN_BIT) as u64, low / HIDDEN_BIT - 1)
        }
    }

    pub(crate) fn signed(negative: bool, low: u32) -> (r: Self)
        requires
            low <= 0x7FFF_FFFF,
        ensures
            r.bits == if negative { 0x8000_0000int } else { 0int } + low,
    {
        Binary32 { bits: if negative { SIGN_BIT + low } else { low } }
    }

    /// The product, correctly rounded.
    pub fn mul(self, other: Binary32) -> (r: Binary32)
        ensures
            r == self.mul_spec(other),
    {
        proof {
            reveal(Binary32::mul_spec);
        }
        let negative = (self.bits >= SIGN_BIT) != (other.bits >= SIGN_BIT);
        let a_low: u32 = self.bits % 0x8000_0000;
        let b_low: u32 = other.bits % 0x8000_0000;
        if a_low > INFINITY_BITS || b_low > INFINITY_BITS {
            return Binary32 { bits: NAN_BITS };
        }
        if a_low == INFINITY_BITS || b_low == INFINITY_BITS {
            if a_low == 0 || b_low == 0 {
                return Binary32 { bits: NAN_BITS };
            }
            return Self::signed(negative, INFINITY_BITS);
        }
        let (sa, ea) = self.parts();
        let (sb, eb) = other.parts();
        let ghost num = self.magnitude() * other.magnitude();
        proof {
            lemma_pow2_pos(149);
        }
        if sa == 0 || sb == 0 {
            proof {
                assert(num == 0) by (nonlinear_arith)
                    requires
                        num == (sa * pow2(ea as nat)) * (sb * pow2(eb as nat)),
                        sa == 0 || sb == 0,
                ;
                lemma_nearest_zero(pow2(149));
            }
            return Self::signed(negative, 0);
        }
        assert(0 < sa * sb <= 0x1_0000_0000_0000) by (nonlinear_arith)
            requires
                0 < sa < 0x100_0000,
                0 < sb < 0x100_0000,
        ;
        let (sig, s) = widen(format(), (sa * sb) as u128);
        let up: u32 = 149 + s;
        let down: u32 = ea + eb;
        proof {
            let c = pow2(149) * pow2(down as nat);
            lemma_pow2_pos(down as nat);
            assert(c > 0) by (nonlinear_arith)
                requires
                    c == pow2(149) * pow2(down as nat),
                    pow2(149) > 0,
                    pow2(down as nat) > 0,
            ;
            lemma_pow2_adds(149, s as nat);
            lemma_pow2_adds(ea as nat, eb as nat);
            assert(num * pow2(up as nat) == sig * c) by (nonlinear_arith)
                requires
                    num == (sa * pow2(ea as nat)) * (sb * pow2(eb as nat)),
                    sig == (sa * sb) * pow2(s as nat),
                    c == pow2(149) * pow2(down as nat),
                    pow2(down as nat) == pow2(ea as nat) * pow2(eb as nat),
                    pow2(up as nat) == pow2(149) * pow2(s as nat),
            ;
            lemma_fundamental_div_mod_converse(
                (num * pow2(up as nat)) as int,
                c as int,
                sig as int,
                0,
            );
            lemma_nearest_bound(num, pow2(149));
        }
        let low = round_scaled(format(), sig, false, up, down, Ghost(num), Ghost(pow2(149))) as u32;
        Self::signed(negative, low)
    }

    /// The square of the number plus `acc`, which is not negative, rounded once.
    pub fn square_add(self, acc: Binary32) -> (r: Binary32)
        requires
            !acc.negative(),
        ensures
            r == self.square_add_spec(acc),
            !r.negative(),
    {
        proof {
            reveal(Binary32::square_add_spec);
        }
        let a_low: u32 = self.bits % 0x8000_0000;
        if a_low > INFINITY_BITS || acc.bits > INFINITY_BITS {
            return Binary32 { bits: NAN_BITS };
        }
        if a_low == INFINITY_BITS || acc.bits == INFINITY_BITS {
            return Self::signed(false, INFINITY_BITS);
        }
        let (sa, ea) = self.parts();
        let (sc, ec) = acc.parts();
        let ghost product = self.magnitude() * self.magnitude();
        let ghost addend = acc.magnitude() * pow2(149);
        assert(0 <= sa * sa < 0x1_0000_0000_0000) by (nonlinear_arith)
            requires
                0 <= sa < 0x100_0000,
        ;
        let sp: u64 = sa * sa;
        let ep: u32 = 2 * ea;
        let eq: u32 = ec + 149;
        proof {
            lemma_pow2_adds(ea as nat, ea as nat);
            assert(product == sp * pow2(ep as nat)) by (nonlinear_arith)
                requires
                    product == (sa * pow2(ea as nat)) * (sa * pow2(ea as nat)),
                    sp == sa * sa,
                    pow2(ep as nat) == pow2(ea as nat) * pow2(ea as nat),
            ;
            lemma_pow2_adds(ec as nat, 149);
            assert(addend == sc * pow2(eq as nat)) by (nonlinear_arith)
                requires
                    addend == (sc * pow2(ec as nat)) * pow2(149),
                    pow2(eq as nat) == pow2(ec as nat) * pow2(149),
            ;
            lemma_nearest_bound(product + addend, pow2(149));
        }
        let low = if ep >= eq {
            low_of_sum(sp, ep, sc, eq)
        } else {
            low_of_sum(sc, eq, sp, ep)
        };
        Self::signed(false, low)
    }

    /// The quotient, correctly rounded.
    pub fn div(self, other: Binary32) -> (r: Binary32)
        ensures
            r == self.div_spec(other),
    {
        proof {
            reveal(Binary32::div_spec);
        }
        let negative = (self.bits >= SIGN_BIT) != (other.bits >= SIGN_BIT);
        let a_low: u32 = self.bits % 0x8000_0000;
        let b_low: u32 = other.bits % 0x8000_0000;
        if a_low > INFINITY_BITS || b_low > INFINITY_BITS {
            return Binary32 { bits: NAN_BITS };
        }
        if a_low == INFINITY_BITS {
            if b_low == INFINITY_BITS {
                return Binary32 { bits: NAN_BITS };
            }
            return Self::signed(negative, INFINITY_BITS);
        }
        if b_low == INFINITY_BITS {
            return Self::signed(negative, 0);
        }
        if b_low == 0 {
            if a_low == 0 {
                return Binary32 { bits: NAN_BITS };
            }
            return Self::signed(negative, INFINITY_BITS);
        }
        let (sa, ea) = self.parts();
        let (sb, eb) = other.parts();
        let ghost num = self.magnitude() * pow2(149);
        let ghost den = other.magnitude();
        proof {
            lemma_pow2_pos(eb as nat);
            assert(den > 0) by (nonlinear_arith)
                requires
                    den == sb * pow2(eb as nat),
                    sb > 0,
                    pow2(eb as nat) > 0,
            ;
        }
        if sa == 0 {
            proof {
                assert(num == 0) by (nonlinear_arith)
                    requires
                        num == (sa * pow2(ea as nat)) * pow2(149),
                        sa == 0,
                ;
                lemma_nearest_zero(den);
            }
            return Self::signed(negative, 0);
        }
        let (wide, s) = widen(format(), sa as u128);
        let top: u128 = wide * 0x10_0000_0000;
        let divisor = sb as u128;
        let sig: u128 = top / divisor;
        let sticky = top % divisor != 0;
        let up: u32 = eb + s + 36;
        let down: u32 = ea + 149;
        proof {
            assert(0x200_0000 <= sig) by (nonlinear_arith)
                requires
                    top >= 0x200_0000u128 * 0x10_0000_0000,
                    0 < divisor < 0x100_0000,
                    sig == top / divisor,
            ;
            assert(sig < 0x8000_0000_0000_0000) by (nonlinear_arith)
                requires
                    top < 0x8000_0000_0000_0000,
                    0 < divisor,
                    sig == top / divisor,
            ;
            vstd::arithmetic::power2::lemma2_to64_rest();
            let c = pow2(eb as nat) * pow2(down as nat);
            lemma_pow2_pos(down as nat);
            assert(c > 0) by (nonlinear_arith)
                requires
                    c == pow2(eb as nat) * pow2(down as nat),
                    pow2(eb as nat) > 0,
                    pow2(down as nat) > 0,
            ;
            lemma_pow2_adds(ea as nat, 149);
            lemma_pow2_adds(eb as nat, (s + 36) as nat);
            lemma_pow2_adds(s as nat, 36);
            assert(pow2(36) == 0x10_0000_0000);
            assert(num * pow2(up as nat) == top * c) by (nonlinear_arith)
                requires
                    num == (sa * pow2(ea as nat)) * pow2(149),
                    top == wide * 0x10_0000_0000,
                    wide == sa * pow2(s as nat),
                    c == pow2(eb as nat) * pow2(down as nat),
                    pow2(down as nat) == pow2(ea as nat) * pow2(149),
                    pow2(up as nat) == pow2(eb as nat) * (pow2(s as nat) * 0x10_0000_0000),
            ;
            assert(den * pow2(down as nat) == sb * c) by (nonlinear_arith)
                requires
                    den == sb * pow2(eb as nat),
                    c == pow2(eb as nat) * pow2(down as nat),
            ;
            lemma_scale(top as nat, sb as nat, c);
            let r0 = (top % divisor) as nat;
            assert(r0 * c != 0 <==> r0 != 0) by (nonlinear_arith)
                requires
                    c > 0,
            ;
            lemma_nearest_bound(num, den);
        }
        let low = round_scaled(format(), sig, sticky, up, down, Ghost(num), Ghost(den)) as u32;
        Self::signed(negative, low)
    }

    /// The number with its sign flipped.
    pub fn neg(self) -> (r: Binary32)
        ensures
            r == self.neg_spec(),
    {
        Binary32 {
            bits: if self.bits >= SIGN_BIT {
                self.bits - SIGN_BIT
            } else {
                self.bits + SIGN_BIT
            },
        }
    }

    /// The difference, correctly rounded.
    pub fn sub(self, other: Binary32) -> (r: Binary32)
        ensures
            r == self.sub_spec(other),
    {
        self.add(other.neg())
    }

    /// The sum, correctly rounded.
    pub fn add(self, other: Binary32) -> (r: Binary32)
        ensures
            r == self.add_spec(other),
    {
        proof {
            reveal(Binary32::add_spec);
        }
        let a_low: u32 = self.bits % 0x8000_0000;
        let b_low: u32 = other.bits % 0x8000_0000;
        if a_low > INFINITY_BITS || b_low > INFINITY_BITS {
            return Binary32 { bits: NAN_BITS };
        }
        let a_neg = self.bits >= SIGN_BIT;
        let b_neg = other.bits >= SIGN_BIT;
        if a_low == INFINITY_BITS {
            if b_low == INFINITY_BITS && a_neg != b_neg {
                return Binary32 { bits: NAN_BITS };
            }
            return self;
        }
        if b_low == INFINITY_BITS {
            return other;
        }
        let (sa, ea) = self.parts();
        let (sb, eb) = other.parts();
        if ea >= eb {
            Self::add_parts(self, other, a_neg, sa, ea, b_neg, sb, eb)
        } else {
            Self::add_parts(other, self, b_neg, sb, eb, a_neg, sa, ea)
        }
    }

    /// Adds two finite numbers, the one with the larger scale first.
    fn add_parts(
        hi: Binary32,
        lo: Binary32,
        h_neg: bool,
        hs: u64,
        he: u32,
        l_neg: bool,
        ls: u64,
        le: u32,
    ) -> (r: Binary32)
        requires
            hi.is_finite_spec(),
            lo.is_finite_spec(),
            h_neg == hi.negative(),
            l_neg == lo.negative(),
            hs == hi.significand(),
            he == hi.scale(),
            ls == lo.significand(),
            le == lo.scale(),
            hs < 0x100_0000,
            ls < 0x100_0000,
            le <= he <= 253,
            he > 0 ==> hs >= 0x80_0000,
        ensures
            r == hi.add_spec(lo),
    {
        proof {
            reveal(Binary32::add_spec);
        }
        let gap: u32 = he - le;
        let ghost unit = pow2(le as nat);
        proof {
            lemma_pow2_pos(le as nat);
            lemma_pow2_adds(le as nat, gap as nat);
            lemma_pow2_pos(gap as nat);
        }
        if gap <= 38 {
            proof {
                vstd::arithmetic::power2::lemma2_to64_rest();
                if gap < 38 {
                    lemma_pow2_strictly_increases(gap as nat, 38);
                }
            }
            let p = small_power(gap);
            proof {
                assert(hs * p <= 0xFF_FFFF * 0x40_0000_0000) by (nonlinear_arith)
                    requires
                        hs <= 0xFF_FFFF,
                        p <= 0x40_0000_0000,
                ;
            }
            let big: u64 = hs * p;
            assert(hi.magnitude() == big * unit) by (nonlinear_arith)
                requires
                    hi.magnitude() == hs * pow2(he as nat),
                    pow2(he as nat) == unit * p,
                    big == hs * p,
            ;
            let (negative, sum): (bool, u64) = if h_neg == l_neg {
                (h_neg, big + ls)
            } else if big >= ls {
                (h_neg, big - ls)
            } else {
                (l_neg, ls - big)
            };
            let ghost v = hi.value() + lo.value();
            assert(v == if negative { -(sum * unit) } else { sum * unit }) by (nonlinear_arith)
                requires
                    v == hi.value() + lo.value(),
                    hi.value() == if h_neg { -(big * unit) } else { big * unit },
                    lo.value() == if l_neg { -(ls * unit) } else { ls * unit },
                    (h_neg == l_neg && negative == h_neg && sum == big + ls) || (h_neg != l_neg
                        && negative == h_neg && sum == big - ls) || (h_neg != l_neg && negative
                        == l_neg && sum == ls - big),
            ;
            assert(sum * unit == 0 <==> sum == 0) by (nonlinear_arith)
                requires
                    unit > 0,
            ;
            if sum == 0 {
                return Self::signed(h_neg && l_neg, 0);
            }
            assert(sum * unit > 0) by (nonlinear_arith)
                requires
                    unit > 0,
                    sum > 0,
            ;
            let ghost num = (sum * unit) as nat;
            let (sig, s) = widen(format(), sum as u128);
            proof {
                assert(num * pow2(s as nat) == sig * (1 * unit)) by (nonlinear_arith)
                    requires
                        num == sum * unit,
                        sig == sum * pow2(s as nat),
                ;
                lemma_fundamental_div_mod_converse(
                    (num * pow2(s as nat)) as int,
                    (1 * unit) as int,
                    sig as int,
                    0,
                );
                lemma_nearest_bound(num, 1);
            }
            let low = round_scaled(format(), sig, false, s, le, Ghost(num), Ghost(1)) as u32;
            Self::signed(negative, low)
        } else {
            Self::add_far(hi, lo, h_neg, hs, he, l_neg, ls, le)
        }
    }

    /// Adds two finite numbers whose scales are more than 38 binary places apart.
    fn add_far(
        hi: Binary32,
        lo: Binary32,
        h_neg: bool,
        hs: u64,
        he: u32,
        l_neg: bool,
        ls: u64,
        le: u32,
    ) -> (r: Binary32)
        requires
            hi.is_finite_spec(),
            lo.is_finite_spec(),
            h_neg == hi.negative(),
            l_neg == lo.negative(),
            hs == hi.significand(),
            he == hi.scale(),
            ls == lo.significand(),
            le == lo.scale(),
            0x80_0000 <= hs < 0x100_0000,
            ls < 0x100_0000,
            le + 38 < he <= 253,
        ensures
            r == hi.add_spec(lo),
    {
        proof {
            reveal(Binary32::add_spec);
        }
        let g: u32 = he - le - 38;
        let (q, r): (u64, u64) = if g >= 24 {
            proof {
                lemma_pow2_63();
                if g > 24 {
                    lemma_pow2_strictly_increases(24, g as nat);
                }
                lemma_small(ls as nat, pow2(g as nat));
            }
            (0, ls)
        } else {
            let p = small_power(g);
            proof {
                lemma_pow2_pos(g as nat);
            }
            (ls / p, ls % p)
        };
        let ghost pg = pow2(g as nat);
        let ghost unit = pow2(le as nat);
        let ghost mid = pow2((le + g) as nat);
        proof {
            vstd::arithmetic::power2::lemma2_to64_rest();
            lemma_pow2_pos(g as nat);
            lemma_pow2_pos(le as nat);
            lemma_pow2_pos((le + g) as nat);
            lemma_pow2_adds(le as nat, g as nat);
            lemma_pow2_adds((le + g) as nat, 38);
            lemma_fundamental_div_mod(ls as int, pg as int);
            lemma_mod_pos_bound(ls as int, pg as int);
            assert(q <= ls) by (nonlinear_arith)
                requires
                    ls == pg * q + r,
                    pg >= 1,
            ;
        }
        let big: u64 = hs * 0x40_0000_0000;
        let ghost hm: int = hi.magnitude() as int;
        let ghost lm: int = lo.magnitude() as int;
        assert(hm == big * mid) by (nonlinear_arith)
            requires
                hm == hs * pow2(he as nat),
                pow2(he as nat) == mid * 0x40_0000_0000,
                big == hs * 0x40_0000_0000,
        ;
        assert(lm == q * mid + r * unit) by (nonlinear_arith)
            requires
                lm == ls * unit,
                ls == pg * q + r,
                mid == unit * pg,
        ;
        assert(r * unit < mid) by (nonlinear_arith)
            requires
                r < pg,
                mid == unit * pg,
                unit > 0,
        ;
        assert(r * unit == 0 <==> r == 0) by (nonlinear_arith)
            requires
                unit > 0,
        ;
        let ghost rest: int = r * unit;
        let same = h_neg == l_neg;
        let sig: u64 = if same {
            big + q
        } else if r == 0 {
            big - q
        } else {
            big - q - 1
        };
        let ghost num: int = if same {
            hm + lm
        } else {
            hm - lm
        };
        let ghost left: int = if same {
            rest
        } else if r == 0 {
            0
        } else {
            mid - rest
        };
        proof {
            assert(num == sig * mid + left) by (nonlinear_arith)
                requires
                    hm == big * mid,
                    lm == q * mid + rest,
                    num == if same { hm + lm } else { hm - lm },
                    (same && sig == big + q && left == rest) || (!same && r == 0 && rest == 0 && sig
                        == big - q && left == 0) || (!same && r != 0 && sig == big - q - 1 && left
                        == mid - rest),
            ;
            assert(num > 0) by (nonlinear_arith)
                requires
                    num == sig * mid + left,
                    sig > 0,
                    mid > 0,
                    left >= 0,
            ;
            let n = num as nat;
            lemma_pow2_unfold_all(0);
            assert(n * pow2(0) == n && 1 * mid == mid) by (nonlinear_arith)
                requires
                    pow2(0) == 1,
            ;
            lemma_fundamental_div_mod_converse(n as int, mid as int, sig as int, left);
            lemma_nearest_bound(n, 1);
        }
        let low = round_scaled(format(), sig as u128, r != 0, 0, le + g, Ghost(num as nat), Ghost(1)) as u32;
        Self::signed(h_neg, low)
    }

    /// The pattern without sign of the number nearest to `n`.
    fn low_of(n: u64) -> (low: u32)
        requires
            n < 0x8000_0000_0000_0000,
        ensures
            low == nearest(n as nat * pow2(149), 1),
    {
        let ghost num = n as nat * pow2(149);
        if n == 0 {
            proof {
                assert(num == 0) by (nonlinear_arith)
                    requires
                        num == n as nat * pow2(149),
                        n == 0,
                ;
                lemma_nearest_zero(1);
            }
            return 0;
        }
        let (sig, s) = widen(format(), n as u128);
        proof {
            lemma_pow2_pos(149);
            assert(num * pow2(s as nat) == sig * (1 * pow2(149))) by (nonlinear_arith)
                requires
                    num == n as nat * pow2(149),
                    sig == n * pow2(s as nat),
            ;
            lemma_fundamental_div_mod_converse(
                (num * pow2(s as nat)) as int,
                (1 * pow2(149)) as int,
                sig as int,
                0,
            );
            lemma_nearest_bound(num, 1);
        }
        round_scaled(format(), sig, false, s, 149, Ghost(num), Ghost(1)) as u32
    }

    /// The number nearest to `n`.
    pub fn from_u32(n: u32) -> (r: Binary32)
        ensures
            r == Self::of_int(n as int),
    {
        proof {
            lemma_nearest_bound(n as nat * pow2(149), 1);
        }
        Binary32 { bits: Self::low_of(n as u64) }
    }

    /// The number nearest to `n`.
    pub fn from_i64(n: i64) -> (r: Binary32)
        requires
            n > i64::MIN,
        ensures
            r == Self::of_int(n as int),
    {
        let magnitude: u64 = if n < 0 {
            (-n) as u64
        } else {
            n as u64
        };
        proof {
            lemma_nearest_bound(magnitude as nat * pow2(149), 1);
        }
        let low = Self::low_of(magnitude);
        Self::signed(n < 0, low)
    }

    fn key(self) -> (k: i64)
        ensures
            k == self.order_key(),
            -0x8000_0000 < k < 0x8000_0000,
    {
        let low = (self.bits % 0x8000_0000) as i64;
        if self.bits >= SIGN_BIT {
            -low
        } else {
            low
        }
    }

    /// Whether `self < other`.
    pub fn lt(self, other: Binary32) -> (r: bool)
        ensures
            r == self.lt_spec(other),
    {
        if self.is_nan() || other.is_nan() {
            false
        } else {
            self.key() < other.key()
        }
    }

    /// The number limited to the interval from zero to one.
    pub fn clamp01(self) -> (r: Binary32)
        ensures
            r == self.clamp01_spec(),
    {
        let zero = Binary32 { bits: 0 };
        let one = Binary32 { bits: ONE_BITS };
        if self.lt(zero) {
            zero
        } else if one.lt(self) {
            one
        } else {
            self
        }
    }

    /// The nearest integer, a tie away from zero, limited to `[lo, hi]`; zero for what is not a
    /// number.
    pub fn round_clamped(self, lo: i32, hi: i32) -> (r: i32)
        requires
            -0x40_0000 <= lo <= 0,
            0 <= hi <= 0x40_0000,
        ensures
            r == self.round_within(lo as int, hi as int),
    {
        let low: u32 = self.bits % 0x8000_0000;
        if low > INFINITY_BITS {
            return 0;
        }
        let negative = self.bits >= SIGN_BIT;
        if low == INFINITY_BITS {
            return if negative {
                lo
            } else {
                hi
            };
        }
        let (sig, scale) = self.parts();
        let near: i64 = Self::rounded_part(sig, scale, Ghost(self));
        if negative {
            if near > -(lo as i64) {
                lo
            } else {
                (-near) as i32
            }
        } else {
            if near > hi as i64 {
                hi
            } else {
                near as i32
            }
        }
    }

    /// The nearest integer to a magnitude, or some integer from 4194305 up if it is larger.
    fn rounded_part(sig: u64, scale: u32, Ghost(x): Ghost<Binary32>) -> (r: i64)
        requires
            x.is_finite_spec(),
            sig == x.significand(),
            scale == x.scale(),
            sig < 0x100_0000,
            scale <= 253,
            scale > 0 ==> sig >= 0x80_0000,
        ensures
            0 <= r <= 0x100_0000,
            r == div_half_up(x.magnitude(), pow2(149)) || (r > 0x40_0000 && div_half_up(
                x.magnitude(),
                pow2(149),
            ) > 0x40_0000),
    {
        let ghost m = x.magnitude();
        proof {
            lemma_pow2_pos(149);
            lemma_pow2_pos(scale as nat);
            lemma_pow2_63();
        }
        if scale >= 149 {
            proof {
                let gap = (scale - 149) as nat;
                lemma_pow2_adds(149, gap);
                lemma_pow2_pos(gap);
                let whole = sig * pow2(gap);
                assert(whole >= 0x80_0000) by (nonlinear_arith)
                    requires
                        whole == sig * pow2(gap),
                        sig >= 0x80_0000,
                        pow2(gap) >= 1,
                ;
                assert(2 * m + pow2(149) == whole * (2 * pow2(149)) + pow2(149)) by (nonlinear_arith)
                    requires
                        m == sig * pow2(scale as nat),
                        pow2(scale as nat) == pow2(149) * pow2(gap),
                        whole == sig * pow2(gap),
                ;
                lemma_fundamental_div_mod_converse(
                    (2 * m + pow2(149)) as int,
                    (2 * pow2(149)) as int,
                    whole as int,
                    pow2(149) as int,
                );
            }
            return 0x80_0000;
        }
        let gap: u32 = 149 - scale;
        proof {
            lemma_pow2_adds(scale as nat, gap as nat);
            lemma_pow2_pos(gap as nat);
        }
        if gap >= 40 {
            proof {
                if gap > 40 {
                    lemma_pow2_strictly_increases(40, gap as nat);
                }
                vstd::arithmetic::power2::lemma2_to64_rest();
                assert(2 * m < pow2(149)) by (nonlinear_arith)
                    requires
                        m == sig * pow2(scale as nat),
                        pow2(149) == pow2(scale as nat) * pow2(gap as nat),
                        2 * sig < pow2(gap as nat),
                        pow2(scale as nat) > 0,
                ;
                lemma_small((2 * m + pow2(149)) as nat, (2 * pow2(149)) as nat);
            }
            return 0;
        }
        let p = small_power(gap);
        proof {
            lemma_pow2_strictly_increases(gap as nat, 40);
            vstd::arithmetic::power2::lemma2_to64_rest();
            let c = pow2(scale as nat);
            lemma_scale((2 * sig + p) as nat, (2 * p) as nat, c);
            assert((2 * sig + p) * c == 2 * m + pow2(149)) by (nonlinear_arith)
                requires
                    m == sig * c,
                    pow2(149) == c * p,
            ;
            assert((2 * p) * c == 2 * pow2(149)) by (nonlinear_arith)
                requires
                    pow2(149) == c * p,
            ;
        }
        let r: u64 = (2 * sig + p) / (2 * p);
        proof {
            assert(r <= 0x100_0000) by (nonlinear_arith)
                requires
                    r == (2 * sig + p) / (2 * p),
                    sig < 0x100_0000,
                    p >= 1,
            ;
        }
        r as i64
    }
}

// ── Order ────────────────────────────────────────────────────────────────────

/// Rounding keeps the order.
pub proof fn lemma_nearest_mono_over(a: nat, b: nat, den: nat)
    requires
        a <= b,
        den > 0,
    ensures
        nearest(a, den) <= nearest(b, den),
{
    crate::rounding::lemma_nearest_mono(single(), a, b, den);
}

/// Rounding keeps the order.
pub proof fn lemma_nearest_mono(a: nat, b: nat)
    requires
        a <= b,
    ensures
        nearest(a, 1) <= nearest(b, 1),
{
    lemma_nearest_mono_over(a, b, 1);
}

/// Rounding leaves a number that has a pattern alone.
pub proof fn lemma_nearest_exact(x: Binary32)
    requires
        x.is_finite_spec(),
    ensures
        nearest(x.magnitude(), 1) == x.low(),
{
    lemma_pow2_63();
    let (e, hidden) = (x.scale(), single().hidden());
    assert(e * hidden == e * 0x80_0000) by (nonlinear_arith)
        requires
            hidden == 0x80_0000,
    ;
    crate::rounding::lemma_nearest_exact(single(), x.significand(), e);
}

/// A larger pattern without sign is a larger magnitude, and the other way round.
pub proof fn lemma_magnitude_order(x: Binary32, y: Binary32)
    requires
        x.is_finite_spec(),
        y.is_finite_spec(),
    ensures
        x.low() <= y.low() <==> x.magnitude() <= y.magnitude(),
        x.low() == y.low() <==> x.magnitude() == y.magnitude(),
{
    lemma_nearest_exact(x);
    lemma_nearest_exact(y);
    if x.magnitude() <= y.magnitude() {
        lemma_nearest_mono(x.magnitude(), y.magnitude());
    }
    if y.magnitude() <= x.magnitude() {
        lemma_nearest_mono(y.magnitude(), x.magnitude());
    }
}

/// `x < y` compares the numbers that the patterns stand for.
pub proof fn law_order_is_that_of_values(x: Binary32, y: Binary32)
    requires
        x.is_finite_spec(),
        y.is_finite_spec(),
    ensures
        x.lt_spec(y) <==> x.value() < y.value(),
{
    lemma_magnitude_order(x, y);
    lemma_magnitude_order(y, x);
    let zero = Binary32 { bits: 0 };
    assert(zero.magnitude() == 0) by (nonlinear_arith)
        requires
            zero.magnitude() == zero.significand() * pow2(zero.scale()),
            zero.significand() == 0,
    ;
    lemma_magnitude_order(x, zero);
    lemma_magnitude_order(y, zero);
}

/// Numerator and denominator can share any factor.
pub proof fn lemma_nearest_scale(num: nat, den: nat, c: nat)
    requires
        den > 0,
        c > 0,
    ensures
        nearest(num * c, den * c) == nearest(num, den),
{
    crate::rounding::lemma_nearest_scale(single(), num, den, c);
}

/// An integer below two to the power 24 is represented exactly.
pub proof fn lemma_of_int_exact(n: int)
    requires
        -0x100_0000 < n < 0x100_0000,
    ensures
        Binary32::of_int(n).is_finite_spec(),
        Binary32::of_int(n).value() == n * pow2(149),
        Binary32::of_int(n).negative() == (n < 0),
{
    let a: nat = (if n < 0 {
        -n
    } else {
        n
    }) as nat;
    let x = Binary32::of_int(n);
    let num = a * pow2(149);
    if a == 0 {
        assert(num == 0) by (nonlinear_arith)
            requires
                num == a * pow2(149),
                a == 0,
        ;
        lemma_nearest_zero(1);
        assert(x.magnitude() == 0) by (nonlinear_arith)
            requires
                x.magnitude() == x.significand() * pow2(x.scale()),
                x.significand() == 0,
        ;
        assert(n * pow2(149) == 0) by (nonlinear_arith)
            requires
                n == 0,
        ;
    } else {
        lemma_pow2_63();
        lemma_bit_len_bounds(a);
        lemma_bit_len_upper(a, 24);
        let len = bit_len(a);
        let up = (24 - len) as nat;
        let t = (125 + len) as nat;
        let m = a * pow2(up);
        lemma_pow2_pos(up);
        lemma_pow2_pos(t);
        lemma_pow2_pos(149);
        lemma_pow2_adds((len - 1) as nat, up);
        lemma_pow2_adds(len, up);
        lemma_pow2_adds(up, t);
        assert(0x80_0000 <= m < 0x100_0000) by (nonlinear_arith)
            requires
                pow2((len - 1) as nat) <= a < pow2(len),
                m == a * pow2(up),
                pow2((len - 1) as nat) * pow2(up) == 0x80_0000,
                pow2(len) * pow2(up) == 0x100_0000,
                pow2(up) > 0,
        ;
        assert(num == m * pow2(t)) by (nonlinear_arith)
            requires
                num == a * pow2(149),
                m == a * pow2(up),
                pow2(149) == pow2(up) * pow2(t),
        ;
        crate::rounding::lemma_nearest_exact(single(), m, t);
        assert(nearest(num, 1) == t * 0x80_0000 + m);
        assert(x.low() == t * 0x80_0000 + m);
        assert(x.significand() == m);
        assert(x.scale() == t);
        assert(n * pow2(149) == if n < 0 { -(num as int) } else { num as int }) by (nonlinear_arith)
            requires
                num == a * pow2(149),
                a == if n < 0 { -n } else { n },
        ;
    }
}

/// A sum of small integers is the integer sum rounded.
pub proof fn law_integer_sum(a: int, b: int)
    requires
        -0x100_0000 < a < 0x100_0000,
        -0x100_0000 < b < 0x100_0000,
    ensures
        Binary32::of_int(a).add_spec(Binary32::of_int(b)) == Binary32::of_int(a + b),
{
    reveal(Binary32::add_spec);
    lemma_of_int_exact(a);
    lemma_of_int_exact(b);
    let unit = pow2(149);
    assert(a * unit + b * unit == (a + b) * unit) by (nonlinear_arith);
    lemma_rounded_value(a + b);
}

proof fn lemma_neg_of_int(b: int)
    requires
        -0x100_0000 < b < 0x100_0000,
    ensures
        Binary32::of_int(b).neg_spec().is_finite_spec(),
        Binary32::of_int(b).neg_spec().negative() == !(b < 0),
        Binary32::of_int(b).neg_spec().value() == -(b * pow2(149)),
{
    lemma_of_int_exact(b);
    let y = Binary32::of_int(b);
    assert(y.neg_spec().low() == y.low());
}

/// A difference of small integers is the integer difference rounded.
pub proof fn law_integer_difference(a: int, b: int)
    requires
        -0x100_0000 < a < 0x100_0000,
        -0x100_0000 < b < 0x100_0000,
    ensures
        Binary32::of_int(a).sub_spec(Binary32::of_int(b)) == Binary32::of_int(a - b),
{
    reveal(Binary32::add_spec);
    lemma_of_int_exact(a);
    lemma_neg_of_int(b);
    let unit = pow2(149);
    assert(a * unit - b * unit == (a - b) * unit) by (nonlinear_arith);
    lemma_rounded_value(a - b);
}

/// A square of a small integer is the integer square rounded.
pub proof fn law_integer_square(a: int)
    requires
        -0x100_0000 < a < 0x100_0000,
    ensures
        Binary32::of_int(a).mul_spec(Binary32::of_int(a)) == Binary32::of_int(a * a),
{
    reveal(Binary32::mul_spec);
    lemma_of_int_exact(a);
    let x = Binary32::of_int(a);
    let unit = pow2(149);
    lemma_pow2_pos(149);
    let m = x.magnitude();
    let p: nat = (a * a) as nat;
    assert(a * a >= 0) by (nonlinear_arith);
    assert(m * m == (p * unit) * unit) by (nonlinear_arith)
        requires
            a * unit == m || a * unit == -m,
            p == a * a,
    ;
    lemma_nearest_scale(p * unit, 1, unit);
    assert(1 * unit == unit);
}

/// What a sum of exact integers is rounded to.
proof fn lemma_rounded_value(n: int)
    ensures
        ({
            let v = n * pow2(149);
            &&& v == 0 <==> n == 0
            &&& v < 0 <==> n < 0
            &&& n < 0 ==> rounded(true, (-v) as nat, 1) == Binary32::of_int(n)
            &&& n > 0 ==> rounded(false, v as nat, 1) == Binary32::of_int(n)
            &&& Binary32::of_int(0) == Binary32::zero_of(false)
        }),
{
    lemma_pow2_pos(149);
    let v = n * pow2(149);
    assert((v == 0 <==> n == 0) && (v < 0 <==> n < 0)) by (nonlinear_arith)
        requires
            v == n * pow2(149),
            pow2(149) > 0,
    ;
    assert(-v == (-n) * pow2(149)) by (nonlinear_arith)
        requires
            v == n * pow2(149),
    ;
    lemma_nearest_zero(1);
    assert(0 * pow2(149) == 0);
}

// ── Fifths ───────────────────────────────────────────────────────────────────

/// The pattern of `n / 5` for `n` up to five.
pub open spec fn fifth_bits(n: nat) -> u32 {
    if n == 0 {
        0
    } else if n == 1 {
        0x3E4C_CCCD
    } else if n == 2 {
        0x3ECC_CCCD
    } else if n == 3 {
        0x3F19_999A
    } else if n == 4 {
        0x3F4C_CCCD
    } else {
        0x3F80_0000
    }
}

/// The pattern of `n / 5`, where `sig` is the integer part of `n * 2^28 / 5`.
proof fn lemma_fifth_pattern(n: nat, sig: nat, len: nat, whole: nat)
    requires
        1 <= n <= 4,
        sig == n * 0x1000_0000 / 5,
        26 <= len <= 28,
        pow2((len - 1) as nat) <= sig < pow2(len),
        whole == pow2((len - 24) as nat),
        2 * (sig % whole) > whole,
        sig / whole <= 0x100_0000,
    ensures
        nearest(n * pow2(149), 5) == (len + 97) * 0x80_0000 + sig / whole + 1,
{
    let num = n * pow2(149);
    vstd::arithmetic::power2::lemma2_to64();
    lemma_pow2_adds(28, 121);
    lemma_pow2_pos(121);
    lemma_pow2_unfold_all(0);
    lemma_pow2_unfold_all((len - 24) as nat);
    let c = pow2(121);
    assert(num * pow2(0) == (n * 0x1000_0000) * c) by (nonlinear_arith)
        requires
            num == n * pow2(149),
            pow2(149) == 0x1000_0000 * c,
            pow2(0) == 1,
    ;
    lemma_scale(n * 0x1000_0000, 5, c);
    lemma_rounding(num, 5, 0, 121, sig, len, (len + 97) as nat, (len - 24) as nat);
}

/// A count up to five, divided by five.
pub proof fn lemma_fifth(n: nat)
    requires
        n <= 5,
    ensures
        Binary32::of_int(n as int).div_spec(Binary32::of_int(5)).bits == fifth_bits(n),
{
    reveal(Binary32::div_spec);
    lemma_of_int_exact(n as int);
    lemma_of_int_exact(5);
    lemma_pow2_pos(149);
    let unit = pow2(149);
    let (x, y) = (Binary32::of_int(n as int), Binary32::of_int(5));
    assert(x.magnitude() == n * unit && y.magnitude() == 5 * unit);
    assert(y.low() != 0) by {
        if y.low() == 0 {
            assert(y.magnitude() == 0) by (nonlinear_arith)
                requires
                    y.magnitude() == y.significand() * pow2(y.scale()),
                    y.significand() == 0,
            ;
            assert(5 * unit > 0) by (nonlinear_arith)
                requires
                    unit > 0,
            ;
        }
    }
    lemma_nearest_scale(n * unit, 5, unit);
    assert(nearest(n * unit, 5) == fifth_bits(n)) by {
        vstd::arithmetic::power2::lemma2_to64();
        if n == 0 {
            lemma_nearest_zero(5);
            assert(0 * unit == 0);
        } else if n == 1 {
            lemma_fifth_pattern(1, 53687091, 26, 4);
        } else if n == 2 {
            lemma_fifth_pattern(2, 107374182, 27, 8);
        } else if n == 3 {
            lemma_fifth_pattern(3, 161061273, 28, 16);
        } else if n == 4 {
            lemma_fifth_pattern(4, 214748364, 28, 16);
        } else {
            let one = Binary32 { bits: ONE_BITS };
            lemma_nearest_scale(unit, 1, 5);
            assert(unit * 5 == 5 * unit);
            lemma_nearest_exact(one);
            assert(one.significand() == 0x80_0000);
            assert(one.scale() == 126);
            lemma_pow2_adds(23, 126);
        }
    }
}

/// Five times a fifth is the count again.
pub proof fn lemma_five_fifths(n: nat)
    requires
        n <= 5,
    ensures
        (Binary32 { bits: fifth_bits(n) }).mul_spec(Binary32::of_int(5)) == Binary32::of_int(
            n as int,
        ),
{
    reveal(Binary32::mul_spec);
    lemma_of_int_exact(5);
    lemma_of_int_exact(n as int);
    let unit = pow2(149);
    lemma_pow2_pos(149);
    let x = Binary32 { bits: fifth_bits(n) };
    let y = Binary32::of_int(5);
    let m = x.magnitude();
    assert(y.magnitude() == 5 * unit);
    assert(m * y.magnitude() == (m * 5) * unit) by (nonlinear_arith)
        requires
            y.magnitude() == 5 * unit,
    ;
    lemma_nearest_scale(m * 5, 1, unit);
    assert(1 * unit == unit);
    assert(nearest(m * 5, 1) == Binary32::of_int(n as int).low()) by {
        vstd::arithmetic::power2::lemma2_to64();
        if n == 0 {
            assert(m == 0) by (nonlinear_arith)
                requires
                    m == x.significand() * pow2(x.scale()),
                    x.significand() == 0,
            ;
            lemma_nearest_zero(1);
            assert(0 * unit == 0);
        } else {
            let s = x.significand() * 5;
            let e = x.scale();
            lemma_pow2_pos(e);
            lemma_pow2_unfold_all(0);
            let c = pow2(e);
            assert(m * 5 * pow2(0) == s * c) by (nonlinear_arith)
                requires
                    m == x.significand() * c,
                    s == x.significand() * 5,
                    pow2(0) == 1,
            ;
            assert(1 * c == c);
            lemma_fundamental_div_mod_converse((s * c) as int, c as int, s as int, 0);
            let len: nat = if n == 3 || n == 5 {
                26
            } else {
                27
            };
            lemma_rounding(m * 5, 1, 0, e, s, len, (len + e - 24) as nat, (len - 24) as nat);
            lemma_pow2_unfold_all((len - 24) as nat);
            assert(nearest(m * 5, 1) == of_int_bits(n));
            lemma_small_int_bits(n);
        }
    }
    assert(x.negative() == false);
}

/// The pattern of a whole number up to five.
spec fn of_int_bits(n: nat) -> nat {
    if n == 0 {
        0
    } else if n == 1 {
        0x3F80_0000
    } else if n == 2 {
        0x4000_0000
    } else if n == 3 {
        0x4040_0000
    } else if n == 4 {
        0x4080_0000
    } else {
        0x40A0_0000
    }
}

proof fn lemma_small_int_bits(n: nat)
    requires
        1 <= n <= 5,
    ensures
        Binary32::of_int(n as int).bits == of_int_bits(n),
{
    let z = Binary32 { bits: of_int_bits(n) as u32 };
    lemma_of_int_exact(n as int);
    vstd::arithmetic::power2::lemma2_to64();
    let e = z.scale();
    assert(e == 126 || e == 127 || e == 128);
    lemma_pow2_adds(23, 126);
    lemma_pow2_adds(22, 127);
    lemma_pow2_adds(21, 128);
    let sig = z.significand();
    let unit = pow2(149);
    assert(sig * pow2(e) == n * unit) by (nonlinear_arith)
        requires
            (n == 1 && sig == 0x80_0000 && unit == 0x80_0000 * pow2(e)) || (n == 2 && sig
                == 0x80_0000 && unit == 0x40_0000 * pow2(e)) || (n == 3 && sig == 0xC0_0000 && unit
                == 0x40_0000 * pow2(e)) || (n == 4 && sig == 0x80_0000 && unit == 0x20_0000 * pow2(
                e,
            )) || (n == 5 && sig == 0xA0_0000 && unit == 0x20_0000 * pow2(e)),
    ;
    lemma_magnitude_order(z, Binary32::of_int(n as int));
}

/// The integer nearest to a whole number is that number.
pub proof fn lemma_round_of_int(n: int)
    requires
        -0x100_0000 < n < 0x100_0000,
    ensures
        Binary32::of_int(n).round_spec() == n,
{
    lemma_of_int_exact(n);
    lemma_pow2_pos(149);
    let unit = pow2(149) as int;
    let m = Binary32::of_int(n).magnitude() as int;
    let a = if n < 0 {
        -n
    } else {
        n
    };
    assert(m == a * unit) by (nonlinear_arith)
        requires
            n * unit == if n < 0 { -m } else { m },
            a == if n < 0 { -n } else { n },
    ;
    assert(2 * m + unit == a * (2 * unit) + unit) by (nonlinear_arith)
        requires
            m == a * unit,
    ;
    lemma_fundamental_div_mod_converse(2 * m + unit, 2 * unit, a, unit);
}

/// A number divided by one that is not smaller lies in the unit interval.
pub proof fn lemma_quotient_in_unit(x: Binary32, y: Binary32)
    requires
        y.is_finite_spec(),
        y.low() != 0,
        !x.negative(),
        !y.negative(),
        x.low() <= y.low(),
    ensures
        x.div_spec(y).bits <= ONE_BITS,
{
    reveal(Binary32::div_spec);
    lemma_pow2_pos(149);
    let unit = pow2(149);
    lemma_magnitude_order(x, y);
    let (a, b) = (x.magnitude(), y.magnitude());
    let zero = Binary32 { bits: 0 };
    assert(zero.magnitude() == 0) by (nonlinear_arith)
        requires
            zero.magnitude() == zero.significand() * pow2(zero.scale()),
            zero.significand() == 0,
    ;
    lemma_magnitude_order(y, zero);
    assert(a * unit <= b * unit) by (nonlinear_arith)
        requires
            a <= b,
    ;
    lemma_nearest_mono_over(a * unit, b * unit, b);
    lemma_nearest_scale(unit, 1, b);
    assert(unit * b == b * unit && 1 * b == b) by (nonlinear_arith);
    let one = Binary32 { bits: ONE_BITS };
    lemma_nearest_exact(one);
    assert(one.significand() == 0x80_0000);
    assert(one.scale() == 126);
    vstd::arithmetic::power2::lemma2_to64();
    lemma_pow2_adds(23, 126);
}

/// A whole number divided by one that is not smaller lies in the unit interval.
pub proof fn lemma_share_of_whole(n: nat, whole: nat)
    requires
        n <= whole,
        0 < whole <= 0x1_0000_0000,
    ensures
        Binary32::of_int(n as int).div_spec(Binary32::of_int(whole as int)).bits <= ONE_BITS,
{
    let unit = pow2(149);
    let (x, y) = (Binary32::of_int(n as int), Binary32::of_int(whole as int));
    assert(n * unit <= whole * unit <= 0x1_0000_0000 * unit && unit <= whole * unit)
        by (nonlinear_arith)
        requires
            n <= whole,
            1 <= whole <= 0x1_0000_0000,
            unit >= 0,
    ;
    lemma_nearest_mono(n * unit, whole * unit);
    lemma_nearest_mono(unit, whole * unit);
    lemma_nearest_mono(whole * unit, 0x1_0000_0000 * unit);
    lemma_pow2_63();
    vstd::arithmetic::power2::lemma2_to64();
    vstd::arithmetic::power2::lemma2_to64_rest();
    lemma_pow2_adds(23, 158);
    lemma_pow2_adds(32, 149);
    lemma_pow2_adds(23, 126);
    crate::rounding::lemma_nearest_exact(single(), 0x80_0000, 158);
    crate::rounding::lemma_nearest_exact(single(), 0x80_0000, 126);
    lemma_quotient_in_unit(x, y);
}

/// A quotient is a number if the operands are and the divisor is finite and not zero.
pub proof fn lemma_quotient_is_number(x: Binary32, y: Binary32)
    requires
        !x.is_nan_spec(),
        y.is_finite_spec(),
        y.low() != 0,
    ensures
        !x.div_spec(y).is_nan_spec(),
{
    reveal(Binary32::div_spec);
    lemma_nearest_bound(x.magnitude() * pow2(149), y.magnitude());
}

/// A whole number other than zero is not zero.
pub proof fn lemma_of_int_not_zero(n: int)
    requires
        -0x100_0000 < n < 0x100_0000,
        n != 0,
    ensures
        Binary32::of_int(n).is_finite_spec(),
        Binary32::of_int(n).low() != 0,
{
    lemma_of_int_exact(n);
    lemma_pow2_pos(149);
    let x = Binary32::of_int(n);
    assert(n * pow2(149) != 0) by (nonlinear_arith)
        requires
            n != 0,
            pow2(149) > 0,
    ;
    if x.low() == 0 {
        assert(x.magnitude() == 0) by (nonlinear_arith)
            requires
                x.magnitude() == x.significand() * pow2(x.scale()),
                x.significand() == 0,
        ;
    }
}

/// Rounding to the nearest multiple is off by at most half of it.
proof fn lemma_half_even_error(n: nat, d: nat)
    requires
        d > 0,
    ensures
        -(d as int) <= 2 * (div_half_even(n, d) * d - n) <= d,
{
    lemma_fundamental_div_mod(n as int, d as int);
    lemma_mod_pos_bound(n as int, d as int);
    let q = n / d;
    let r = n % d;
    assert(q * d == n - r) by (nonlinear_arith)
        requires
            n == d * q + r,
    ;
    assert((q + 1) * d == q * d + d) by (nonlinear_arith);
}

/// The error of rounding: a number below two to the power `p`, in smallest units, is off by at
/// most half of the last of its 24 binary digits.
pub proof fn lemma_rounding_error(num: nat, den: nat, p: nat)
    requires
        den > 0,
        24 <= p <= 200,
        num < den * pow2(p),
    ensures
        nearest(num, den) < 0x7F80_0000,
        ({
            let x = Binary32 { bits: nearest(num, den) as u32 };
            let off = x.magnitude() * den - num;
            -(den * pow2((p - 24) as nat)) <= 2 * off <= den * pow2((p - 24) as nat)
        }),
{
    reveal(Format::nearest);
    lemma_pow2_63();
    lemma_pow2_unfold_all(0);
    let n = num / den;
    let f = single();
    let t = crate::rounding::dropped_bits(n, 24);
    let top = pow2(p);
    lemma_fundamental_div_mod(num as int, den as int);
    lemma_mod_pos_bound(num as int, den as int);
    assert(n < top) by (nonlinear_arith)
        requires
            num == den * n + num % den,
            0 <= num % den,
            num < den * top,
            den > 0,
    ;
    lemma_bit_len_upper(n, p);
    assert(t <= p - 24);
    crate::rounding::lemma_rounded_significand(f, num, den);
    let unit = pow2(t);
    lemma_pow2_pos(t);
    let m = div_half_even(num, den * unit);
    lemma_half_even_error(num, den * unit);
    let hidden = f.hidden();
    assert(t * hidden == t * 0x80_0000) by (nonlinear_arith)
        requires
            hidden == 0x80_0000,
    ;
    let low = t * 0x80_0000 + m;
    assert(nearest(num, den) == low);
    let x = Binary32 { bits: low as u32 };
    assert(x.magnitude() == m * unit) by {
        if m < 0x80_0000 {
            assert(t == 0);
        } else if m < 0x100_0000 {
            assert(x.scale() == t && x.significand() == m);
        } else {
            assert(x.scale() == t + 1 && x.significand() == 0x80_0000);
            lemma_pow2_unfold_all(t + 1);
            assert(0x80_0000 * pow2(t + 1) == 0x100_0000 * unit) by (nonlinear_arith)
                requires
                    pow2(t + 1) == 2 * unit,
            ;
        }
    }
    assert((m * unit) * den == m * (den * unit)) by (nonlinear_arith);
    let most = pow2((p - 24) as nat);
    if t < p - 24 {
        lemma_pow2_strictly_increases(t, (p - 24) as nat);
    }
    assert(den * unit <= den * most) by (nonlinear_arith)
        requires
            unit <= most,
    ;
}

} // verus!
