//! Correct rounding to a fixed number of binary digits.
//!
//! The floating-point formats share one rule: a number is rounded to the nearest one of a fixed
//! number of binary digits, a tie to the even one, and what is too large is infinite. This module
//! states the rule once and carries it out in integer arithmetic.

use vstd::prelude::*;
#[allow(unused_imports)]
use vstd::arithmetic::power2::{
    lemma_pow2_adds, lemma_pow2_pos, lemma_pow2_strictly_increases, lemma_pow2_unfold, pow2,
};
#[allow(unused_imports)]
use vstd::arithmetic::div_mod::{
    lemma_fundamental_div_mod, lemma_fundamental_div_mod_converse, lemma_mod_pos_bound,
};

verus! {

/// The number of binary digits of `n`; zero has none.
pub open spec fn bit_len(n: nat) -> nat
    decreases n,
{
    if n == 0 {
        0
    } else {
        1 + bit_len(n / 2)
    }
}

/// `n / d` rounded to the nearest integer, a tie to the even one.
pub open spec fn div_half_even(n: nat, d: nat) -> nat {
    let q = n / d;
    let r = n % d;
    if 2 * r < d || (2 * r == d && q % 2 == 0) {
        q
    } else {
        q + 1
    }
}

/// How many low binary digits a number whose integer part is `q` loses when `digits` are kept.
pub open spec fn dropped_bits(q: nat, digits: nat) -> nat {
    if bit_len(q) > digits {
        (bit_len(q) - digits) as nat
    } else {
        0
    }
}

/// A floating-point format: how many binary digits a number has, and the pattern of infinity.
/// A pattern without its sign counts the numbers from zero up; its upper part, above the lowest
/// `digits - 1` binary digits, tells the scale.
#[derive(Clone, Copy, Debug)]
pub struct Format {
    pub digits: u32,
    pub infinity: u64,
}

impl Format {
    pub open spec fn valid(self) -> bool {
        2 <= self.digits <= 53
    }

    /// What the scale is counted in.
    pub open spec fn hidden(self) -> nat {
        pow2((self.digits - 1) as nat)
    }

    /// The pattern, without its sign, of the number nearest to `num / den` smallest units, ties
    /// to the even one: `digits` binary digits are kept, and what is too large is infinite.
    #[verifier::opaque]
    pub open spec fn nearest(self, num: nat, den: nat) -> nat {
        let t = dropped_bits(num / den, self.digits as nat);
        let low = t * self.hidden() + div_half_even(num, den * pow2(t));
        if low >= self.infinity {
            self.infinity as nat
        } else {
            low
        }
    }
}

/// The binary length of `n` is the one `k` with `n` from `2^(k-1)` to below `2^k`.
pub proof fn lemma_bit_len_unique(n: nat, k: nat)
    requires
        k > 0 ==> pow2((k - 1) as nat) <= n,
        n < pow2(k),
    ensures
        bit_len(n) == k,
    decreases n,
{
    lemma_pow2_unfold_all(0);
    if n == 0 {
        if k > 0 {
            lemma_pow2_pos((k - 1) as nat);
        }
    } else {
        assert(k > 0);
        lemma_pow2_unfold_all(k);
        if k > 1 {
            lemma_pow2_unfold_all((k - 1) as nat);
        }
        lemma_bit_len_unique(n / 2, (k - 1) as nat);
    }
}

pub proof fn lemma_pow2_unfold_all(e: nat)
    ensures
        pow2(0) == 1,
        e > 0 ==> pow2(e) == 2 * pow2((e - 1) as nat),
        pow2(e) >= 1,
{
    lemma_pow2_pos(e);
    vstd::arithmetic::power::lemma_pow0(2);
    if e > 0 {
        lemma_pow2_unfold(e);
    }
}

pub proof fn lemma_bit_len_upper(n: nat, k: nat)
    requires
        n < pow2(k),
    ensures
        bit_len(n) <= k,
    decreases n,
{
    lemma_pow2_unfold_all(k);
    if n > 0 {
        lemma_bit_len_upper(n / 2, (k - 1) as nat);
    }
}

pub proof fn lemma_bit_len_bounds(n: nat)
    requires
        n > 0,
    ensures
        bit_len(n) >= 1,
        pow2((bit_len(n) - 1) as nat) <= n < pow2(bit_len(n)),
    decreases n,
{
    lemma_pow2_unfold_all(bit_len(n));
    if n > 1 {
        lemma_bit_len_bounds(n / 2);
        lemma_pow2_unfold_all((bit_len(n) - 1) as nat);
    } else {
        assert(bit_len(0) == 0);
    }
}

/// Quotient and remainder scale with a common factor.
pub proof fn lemma_scale(n: nat, d: nat, c: nat)
    requires
        d > 0,
        c > 0,
    ensures
        d * c > 0,
        (n * c) / (d * c) == n / d,
        (n * c) % (d * c) == (n % d) * c,
{
    let q = n / d;
    let r = n % d;
    lemma_fundamental_div_mod(n as int, d as int);
    lemma_mod_pos_bound(n as int, d as int);
    assert(n * c == q * (d * c) + r * c) by (nonlinear_arith)
        requires
            n == d * q + r,
    ;
    assert(0 <= r * c < d * c) by (nonlinear_arith)
        requires
            0 <= r < d,
            c > 0,
    ;
    lemma_fundamental_div_mod_converse((n * c) as int, (d * c) as int, q as int, (r * c) as int);
}

pub proof fn lemma_half_even_scale(n: nat, d: nat, c: nat)
    requires
        d > 0,
        c > 0,
    ensures
        div_half_even(n * c, d * c) == div_half_even(n, d),
{
    lemma_scale(n, d, c);
    let r = n % d;
    assert(2 * (r * c) < d * c <==> 2 * r < d) by (nonlinear_arith)
        requires
            c > 0,
    ;
    assert(2 * (r * c) == d * c <==> 2 * r == d) by (nonlinear_arith)
        requires
            c > 0,
    ;
}

/// Rounding `n / (d * p)` from the integer part of `n / d` and whether a remainder is left.
pub proof fn lemma_half_even_from_floor(n: nat, d: nat, half: nat)
    requires
        d > 0,
        half > 0,
    ensures
        ({
            let p = 2 * half;
            let s = n / d;
            let sticky = n % d != 0;
            let q = s / p;
            let r = s % p;
            &&& d * p > 0
            &&& div_half_even(n, d * p) == if r < half || (r == half && !sticky && q % 2 == 0) {
                q
            } else {
                q + 1
            }
        }),
{
    let p = 2 * half;
    let s = n / d;
    let r0 = n % d;
    let q = s / p;
    let r = s % p;
    lemma_fundamental_div_mod(n as int, d as int);
    lemma_mod_pos_bound(n as int, d as int);
    lemma_fundamental_div_mod(s as int, p as int);
    lemma_mod_pos_bound(s as int, p as int);
    let rest: nat = r * d + r0;
    assert(n == q * (d * p) + rest) by (nonlinear_arith)
        requires
            n == d * s + r0,
            s == p * q + r,
            rest == r * d + r0,
    ;
    assert(rest < d * p) by (nonlinear_arith)
        requires
            rest == r * d + r0,
            r0 < d,
            r < p,
    ;
    assert(d * p > 0) by (nonlinear_arith)
        requires
            d > 0,
            p > 0,
    ;
    lemma_fundamental_div_mod_converse(n as int, (d * p) as int, q as int, rest as int);
    assert(2 * rest < d * p <==> (r < half)) by (nonlinear_arith)
        requires
            rest == r * d + r0,
            r0 < d,
            p == 2 * half,
    ;
    assert(2 * rest == d * p <==> (r == half && r0 == 0)) by (nonlinear_arith)
        requires
            rest == r * d + r0,
            r0 < d,
            p == 2 * half,
    ;
}

/// The digits dropped from `num / den`, read off the length of a scaled quotient `sig`.
pub proof fn lemma_dropped_bits(
    num: nat,
    den: nat,
    up: nat,
    down: nat,
    sig: nat,
    len: nat,
    digits: nat,
)
    requires
        den > 0,
        len >= 1,
        sig == (num * pow2(up)) / (den * pow2(down)),
        pow2((len - 1) as nat) <= sig < pow2(len),
    ensures
        dropped_bits(num / den, digits) == if len + down - up > digits {
            len + down - up - digits
        } else {
            0
        },
{
    lemma_pow2_pos(up);
    lemma_pow2_pos(down);
    let n = num * pow2(up);
    let d = den * pow2(down);
    assert(d > 0) by (nonlinear_arith)
        requires
            den > 0,
            pow2(down) > 0,
            d == den * pow2(down),
    ;
    lemma_fundamental_div_mod(n as int, d as int);
    lemma_mod_pos_bound(n as int, d as int);
    lemma_fundamental_div_mod(num as int, den as int);
    lemma_mod_pos_bound(num as int, den as int);
    let lo = pow2((len - 1) as nat);
    let hi = pow2(len);
    assert(n < d * hi) by (nonlinear_arith)
        requires
            n == d * sig + n % d,
            n % d < d,
            sig + 1 <= hi,
            d > 0,
    ;
    assert(d * lo <= n) by (nonlinear_arith)
        requires
            n == d * sig + n % d,
            0 <= n % d,
            lo <= sig,
            d > 0,
    ;
    let k: int = len + down - up;
    if k > digits {
        let kk = k as nat;
        // n < den * 2^(down + len) == den * 2^k * 2^up
        lemma_pow2_adds(down, len);
        lemma_pow2_adds(kk, up);
        assert(down + len == kk + up);
        let top = pow2(kk);
        assert(num < den * top) by (nonlinear_arith)
            requires
                num * pow2(up) < (den * pow2(down)) * hi,
                pow2(down) * hi == top * pow2(up),
                pow2(up) > 0,
        ;
        lemma_pow2_adds(down, (len - 1) as nat);
        lemma_pow2_adds((kk - 1) as nat, up);
        assert(down + len - 1 == kk - 1 + up);
        let bottom = pow2((kk - 1) as nat);
        assert(den * bottom <= num) by (nonlinear_arith)
            requires
                (den * pow2(down)) * lo <= num * pow2(up),
                pow2(down) * lo == bottom * pow2(up),
                pow2(up) > 0,
        ;
        let q = num / den;
        assert(q < top) by (nonlinear_arith)
            requires
                num == den * q + num % den,
                0 <= num % den,
                num < den * top,
                den > 0,
        ;
        assert(bottom <= q) by (nonlinear_arith)
            requires
                num == den * q + num % den,
                num % den < den,
                den * bottom <= num,
                den > 0,
        ;
        lemma_bit_len_unique(q, kk);
    } else {
        // n < den * 2^(down + len) <= den * 2^digits * 2^up
        let gap = (digits + up - (down + len)) as nat;
        lemma_pow2_adds(down, len);
        lemma_pow2_adds(down + len, gap);
        lemma_pow2_adds(digits, up);
        lemma_pow2_pos(gap);
        let top = pow2(digits);
        assert(num < den * top) by (nonlinear_arith)
            requires
                num * pow2(up) < (den * pow2(down)) * hi,
                pow2(down) * hi == pow2(down + len),
                pow2(down + len) * pow2(gap) == top * pow2(up),
                pow2(gap) >= 1,
                pow2(up) > 0,
                den > 0,
        ;
        let q = num / den;
        assert(q < top) by (nonlinear_arith)
            requires
                num == den * q + num % den,
                0 <= num % den,
                num < den * top,
                den > 0,
        ;
        lemma_bit_len_upper(q, digits);
    }
}

/// Two to the power `e`.
pub fn power_of_two(e: u32) -> (p: u128)
    requires
        e < 128,
    ensures
        p == pow2(e as nat),
{
    let mut p: u128 = 1;
    let mut i: u32 = 0;
    proof {
        lemma_pow2_unfold_all(0);
        lemma_pow2_127();
    }
    while i < e
        invariant
            i <= e < 128,
            p == pow2(i as nat),
            pow2(127) == TOP,
        decreases e - i,
    {
        proof {
            lemma_pow2_unfold_all((i + 1) as nat);
            if i + 1 < 127 {
                lemma_pow2_strictly_increases((i + 1) as nat, 127);
            }
        }
        p = p * 2;
        i = i + 1;
    }
    p
}

/// Two to the power 127: numbers below it are rounded here.
pub const TOP: u128 = 0x8000_0000_0000_0000_0000_0000_0000_0000;

pub proof fn lemma_pow2_127()
    ensures
        pow2(126) == 0x4000_0000_0000_0000_0000_0000_0000_0000,
        pow2(127) == TOP,
        pow2(128) == 2 * TOP,
{
    vstd::arithmetic::power2::lemma2_to64();
    vstd::arithmetic::power2::lemma2_to64_rest();
    lemma_pow2_adds(63, 63);
    lemma_pow2_adds(63, 64);
    lemma_pow2_adds(64, 64);
    assert(0x8000_0000_0000_0000 * 0x8000_0000_0000_0000
        == 0x4000_0000_0000_0000_0000_0000_0000_0000) by (nonlinear_arith);
    assert(0x8000_0000_0000_0000 * 0x1_0000_0000_0000_0000 == TOP) by (nonlinear_arith);
    assert(0x1_0000_0000_0000_0000 * 0x1_0000_0000_0000_0000 == 2 * TOP) by (nonlinear_arith);
}

/// The binary length of `n`.
pub fn bit_length(n: u128) -> (len: u32)
    requires
        0 < n < TOP,
    ensures
        1 <= len <= 127,
        pow2((len - 1) as nat) <= n < pow2(len as nat),
{
    let mut top: u128 = 2;
    let mut len: u32 = 1;
    proof {
        lemma_pow2_127();
        lemma_pow2_unfold_all(0);
        lemma_pow2_unfold_all(1);
    }
    while top <= n
        invariant
            1 <= len <= 127,
            top == pow2(len as nat),
            pow2((len - 1) as nat) <= n,
            n < TOP,
            pow2(127) == TOP,
        decreases 127 - len,
    {
        proof {
            lemma_pow2_unfold_all((len + 1) as nat);
            if len + 1 < 127 {
                lemma_pow2_strictly_increases((len + 1) as nat, 127);
            }
        }
        len = len + 1;
        if len == 127 {
            proof {
                assert(pow2(126) <= n);
            }
            return 127;
        }
        top = top * 2;
    }
    len
}

/// The rounded pattern of `num / den`, read off a scaled quotient `sig` of `len` binary digits, of
/// which `shift` are dropped.
pub proof fn lemma_rounding(
    f: Format,
    num: nat,
    den: nat,
    up: nat,
    down: nat,
    sig: nat,
    len: nat,
    t: nat,
    shift: nat,
)
    requires
        f.valid(),
        den > 0,
        len >= f.digits + 2,
        sig == (num * pow2(up)) / (den * pow2(down)),
        pow2((len - 1) as nat) <= sig < pow2(len),
        t == if len + down - up > f.digits {
            len + down - up - f.digits
        } else {
            0
        },
        shift == t + up - down,
    ensures
        shift >= 2,
        f.nearest(num, den) == ({
            let half = pow2((shift - 1) as nat);
            let q = sig / (2 * half);
            let r = sig % (2 * half);
            let sticky = (num * pow2(up)) % (den * pow2(down)) != 0;
            let m = if r < half || (r == half && !sticky && q % 2 == 0) {
                q
            } else {
                q + 1
            };
            if t * f.hidden() + m >= f.infinity {
                f.infinity as nat
            } else {
                t * f.hidden() + m
            }
        }),
{
    reveal(Format::nearest);
    lemma_dropped_bits(num, den, up, down, sig, len, f.digits as nat);
    let n = num * pow2(up);
    let d = den * pow2(down);
    lemma_pow2_pos(up);
    lemma_pow2_pos(down);
    lemma_pow2_pos(t);
    assert(d > 0) by (nonlinear_arith)
        requires
            den > 0,
            pow2(down) > 0,
            d == den * pow2(down),
    ;
    // Dropping t digits of num / den drops shift digits of n / d.
    assert(den * pow2(t) > 0) by (nonlinear_arith)
        requires
            den > 0,
            pow2(t) > 0,
    ;
    lemma_half_even_scale(num, den * pow2(t), pow2(up));
    lemma_pow2_adds(t, up);
    lemma_pow2_adds(down, shift);
    assert((den * pow2(t)) * pow2(up) == d * pow2(shift)) by (nonlinear_arith)
        requires
            pow2(t) * pow2(up) == pow2(down) * pow2(shift),
            d == den * pow2(down),
    ;
    lemma_pow2_unfold_all(shift);
    lemma_half_even_from_floor(n, d, pow2((shift - 1) as nat));
}

/// Rounds `num / den` smallest units to a pattern without sign. `sig` is the integer part of
/// `num * 2^up / (den * 2^down)`, with at least two binary digits more than the format has, and
/// `sticky` tells whether that division left a remainder.
pub fn round_scaled(
    f: Format,
    sig: u128,
    sticky: bool,
    up: u32,
    down: u32,
    Ghost(num): Ghost<nat>,
    Ghost(den): Ghost<nat>,
) -> (low: u64)
    requires
        f.valid(),
        den > 0,
        up <= 3000,
        down <= 5000,
        4 * f.hidden() <= sig < TOP,
        sig == (num * pow2(up as nat)) / (den * pow2(down as nat)),
        sticky <==> (num * pow2(up as nat)) % (den * pow2(down as nat)) != 0,
    ensures
        low == f.nearest(num, den),
{
    proof {
        lemma_pow2_pos((f.digits - 1) as nat);
    }
    let len = bit_length(sig);
    proof {
        lemma_pow2_127();
        lemma_pow2_unfold_all(f.digits as nat);
        lemma_pow2_unfold_all((f.digits + 1) as nat);
        if len < f.digits + 2 {
            if len < f.digits + 1 {
                lemma_pow2_strictly_increases(len as nat, (f.digits + 1) as nat);
            }
            assert(false);
        }
    }
    let t: u32 = if len + down > f.digits + up {
        len + down - up - f.digits
    } else {
        0
    };
    assert(t + up - down >= 2);
    let shift: u32 = t + up - down;
    proof {
        lemma_rounding(
            f,
            num,
            den,
            up as nat,
            down as nat,
            sig as nat,
            len as nat,
            t as nat,
            shift as nat,
        );
        lemma_pow2_unfold_all(shift as nat);
    }
    let m: u128 = if shift >= 128 {
        proof {
            if shift > 128 {
                lemma_pow2_strictly_increases(128, shift as nat);
            }
            lemma_small(sig as nat, pow2(shift as nat));
        }
        0
    } else {
        let half = power_of_two(shift - 1);
        proof {
            if shift - 1 < 126 {
                lemma_pow2_strictly_increases((shift - 1) as nat, 126);
            }
        }
        let whole: u128 = 2 * half;
        let q = sig / whole;
        let r = sig % whole;
        if r < half || (r == half && !sticky && q % 2 == 0) {
            q
        } else {
            q + 1
        }
    };
    let hidden = power_of_two(f.digits - 1);
    proof {
        vstd::arithmetic::power2::lemma2_to64();
        vstd::arithmetic::power2::lemma2_to64_rest();
        if f.digits - 1 < 52 {
            lemma_pow2_strictly_increases((f.digits - 1) as nat, 52);
        }
        assert(0 <= t * hidden <= 6000 * 0x10_0000_0000_0000) by (nonlinear_arith)
            requires
                t <= 6000,
                hidden <= 0x10_0000_0000_0000,
        ;
    }
    let low: u128 = t as u128 * hidden + m;
    if low >= f.infinity as u128 {
        f.infinity
    } else {
        low as u64
    }
}

pub proof fn lemma_small(n: nat, d: nat)
    requires
        n < d,
    ensures
        n / d == 0,
        n % d == n,
{
    lemma_fundamental_div_mod_converse(n as int, d as int, 0, n as int);
}

pub proof fn lemma_nearest_zero(f: Format, den: nat)
    requires
        den > 0,
    ensures
        f.nearest(0, den) == 0,
{
    reveal(Format::nearest);
    lemma_small(0, den);
    assert(0 * f.hidden() == 0) by (nonlinear_arith);
    lemma_pow2_unfold_all(0);
    assert(den * pow2(0) == den) by (nonlinear_arith)
        requires
            pow2(0) == 1,
    ;
}

/// The nearest pattern never exceeds infinity.
pub proof fn lemma_nearest_bound(f: Format, num: nat, den: nat)
    ensures
        f.nearest(num, den) <= f.infinity,
{
    reveal(Format::nearest);
}

/// Doubles `n` until it has at least two binary digits more than the format, and counts the
/// doublings.
pub fn widen(f: Format, n: u128) -> (r: (u128, u32))
    requires
        f.valid(),
        0 < n < TOP,
    ensures
        4 * f.hidden() <= r.0 < TOP,
        r.1 <= f.digits + 1,
        r.0 == n * pow2(r.1 as nat),
        n < 8 * f.hidden() ==> r.0 < 8 * f.hidden(),
{
    let target = power_of_two(f.digits + 1);
    let mut w: u128 = n;
    let mut s: u32 = 0;
    proof {
        lemma_pow2_unfold_all(0);
        assert(n * pow2(0) == n) by (nonlinear_arith)
            requires
                pow2(0) == 1,
        ;
        lemma_pow2_127();
        lemma_pow2_unfold_all(f.digits as nat);
        lemma_pow2_unfold_all((f.digits + 1) as nat);
        lemma_pow2_strictly_increases((f.digits + 1) as nat, 126);
    }
    while w < target
        invariant
            f.valid(),
            n > 0,
            0 < w < TOP,
            s <= f.digits + 1,
            w == n * pow2(s as nat),
            target == pow2((f.digits + 1) as nat),
            target == 4 * f.hidden(),
            2 * target < TOP,
            n < 8 * f.hidden() ==> w < 8 * f.hidden(),
        decreases 2 * target - w,
    {
        proof {
            lemma_pow2_unfold_all((s + 1) as nat);
            assert(n * pow2((s + 1) as nat) == 2 * (n * pow2(s as nat))) by (nonlinear_arith)
                requires
                    pow2((s + 1) as nat) == 2 * pow2(s as nat),
            ;
            assert(w >= pow2(s as nat)) by (nonlinear_arith)
                requires
                    w == n * pow2(s as nat),
                    n >= 1,
            ;
            assert(s != f.digits + 1);
        }
        w = w * 2;
        s = s + 1;
    }
    (w, s)
}

pub proof fn lemma_half_even_mono(n1: nat, n2: nat, d: nat)
    requires
        d > 0,
        n1 <= n2,
    ensures
        div_half_even(n1, d) <= div_half_even(n2, d),
{
    lemma_fundamental_div_mod(n1 as int, d as int);
    lemma_mod_pos_bound(n1 as int, d as int);
    lemma_fundamental_div_mod(n2 as int, d as int);
    lemma_mod_pos_bound(n2 as int, d as int);
    let (q1, q2) = (n1 / d, n2 / d);
    if q1 > q2 {
        assert(d * q1 >= d * q2 + d) by (nonlinear_arith)
            requires
                q1 >= q2 + 1,
                d > 0,
        ;
    }
    if q1 == q2 {
        assert(d * q1 == d * q2);
    }
}

/// How a rounded significand is bounded by the length of the number.
pub proof fn lemma_rounded_significand(f: Format, num: nat, den: nat)
    requires
        f.valid(),
        den > 0,
    ensures
        ({
            let t = dropped_bits(num / den, f.digits as nat);
            let m = div_half_even(num, den * pow2(t));
            &&& den * pow2(t) > 0
            &&& m <= 2 * f.hidden()
            &&& t > 0 ==> m >= f.hidden()
        }),
{
    let n = num / den;
    let t = dropped_bits(n, f.digits as nat);
    let p = pow2(t);
    lemma_pow2_pos(t);
    let hidden = f.hidden();
    let digits = f.digits as nat;
    lemma_pow2_unfold_all(digits);
    assert(den * p > 0) by (nonlinear_arith)
        requires
            den > 0,
            p > 0,
    ;
    let q = num / (den * p);
    vstd::arithmetic::div_mod::lemma_div_denominator(num as int, den as int, p as int);
    assert(q == n / p);
    lemma_fundamental_div_mod(n as int, p as int);
    lemma_mod_pos_bound(n as int, p as int);
    if n > 0 {
        lemma_bit_len_bounds(n);
        let len = bit_len(n);
        if t > 0 {
            lemma_pow2_adds(t, digits);
            lemma_pow2_adds(t, (digits - 1) as nat);
            assert(q < 2 * hidden) by (nonlinear_arith)
                requires
                    n == p * q + n % p,
                    n % p >= 0,
                    n < p * (2 * hidden),
                    p > 0,
            ;
            assert(q >= hidden) by (nonlinear_arith)
                requires
                    n == p * q + n % p,
                    n % p < p,
                    n >= p * hidden,
                    p > 0,
            ;
        } else {
            lemma_pow2_unfold_all(0);
            if len < digits {
                lemma_pow2_strictly_increases(len, digits);
            }
            assert(q == n) by (nonlinear_arith)
                requires
                    p == 1,
                    n == p * q + n % p,
                    0 <= n % p < 1,
            ;
        }
    } else {
        lemma_small(0, p);
    }
}

pub proof fn lemma_bit_len_mono(a: nat, b: nat)
    requires
        a <= b,
    ensures
        bit_len(a) <= bit_len(b),
    decreases a,
{
    if a > 0 {
        lemma_bit_len_mono(a / 2, b / 2);
    }
}

/// Rounding keeps the order.
pub proof fn lemma_nearest_mono(f: Format, a: nat, b: nat, den: nat)
    requires
        f.valid(),
        a <= b,
        den > 0,
    ensures
        f.nearest(a, den) <= f.nearest(b, den),
{
    reveal(Format::nearest);
    let digits = f.digits as nat;
    vstd::arithmetic::div_mod::lemma_div_is_ordered(a as int, b as int, den as int);
    lemma_bit_len_mono(a / den, b / den);
    lemma_rounded_significand(f, a, den);
    lemma_rounded_significand(f, b, den);
    let (ta, tb) = (dropped_bits(a / den, digits), dropped_bits(b / den, digits));
    if ta == tb {
        lemma_half_even_mono(a, b, den * pow2(ta));
    } else {
        assert((ta + 1) * f.hidden() <= tb * f.hidden()) by (nonlinear_arith)
            requires
                ta + 1 <= tb,
                f.hidden() >= 0,
        ;
        assert((ta + 1) * f.hidden() == ta * f.hidden() + f.hidden()) by (nonlinear_arith);
    }
}

/// Rounding leaves a number of no more digits than the format has alone.
pub proof fn lemma_nearest_exact(f: Format, sig: nat, e: nat)
    requires
        f.valid(),
        sig < 2 * f.hidden(),
        e > 0 ==> sig >= f.hidden(),
        e * f.hidden() + sig < f.infinity,
    ensures
        f.nearest(sig * pow2(e), 1) == e * f.hidden() + sig,
{
    reveal(Format::nearest);
    let n = sig * pow2(e);
    let digits = f.digits as nat;
    let hidden = f.hidden();
    assert(n / 1 == n);
    lemma_pow2_pos(e);
    lemma_pow2_unfold_all(digits);
    lemma_pow2_unfold_all(0);
    if e > 0 {
        lemma_pow2_adds((digits - 1) as nat, e);
        lemma_pow2_adds(digits, e);
        assert(hidden * pow2(e) <= n < (2 * hidden) * pow2(e)) by (nonlinear_arith)
            requires
                hidden <= sig < 2 * hidden,
                n == sig * pow2(e),
                pow2(e) > 0,
        ;
        lemma_bit_len_unique(n, digits + e);
    } else {
        assert(n == sig) by (nonlinear_arith)
            requires
                n == sig * pow2(e),
                pow2(e) == 1,
        ;
        lemma_bit_len_upper(n, digits);
    }
    assert(dropped_bits(n, digits) == e);
    assert(1 * pow2(e) == pow2(e));
    assert(n == sig * pow2(e) + 0);
    lemma_fundamental_div_mod_converse(n as int, pow2(e) as int, sig as int, 0);
}

/// Numerator and denominator can share any factor.
pub proof fn lemma_nearest_scale(f: Format, num: nat, den: nat, c: nat)
    requires
        den > 0,
        c > 0,
    ensures
        f.nearest(num * c, den * c) == f.nearest(num, den),
{
    reveal(Format::nearest);
    lemma_scale(num, den, c);
    let t = dropped_bits(num / den, f.digits as nat);
    let p = pow2(t);
    lemma_pow2_pos(t);
    assert(den * p > 0) by (nonlinear_arith)
        requires
            den > 0,
            p > 0,
    ;
    lemma_half_even_scale(num, den * p, c);
    assert((den * p) * c == (den * c) * p) by (nonlinear_arith);
}

} // verus!
