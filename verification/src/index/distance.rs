//! Squared distances in quantised space, as single-precision sums of squares.

use vstd::prelude::*;
#[allow(unused_imports)]
use vstd::arithmetic::power2::{lemma_pow2_adds, lemma_pow2_pos, pow2};

use crate::binary32::Binary32;
#[allow(unused_imports)]
use crate::binary32::{
    law_integer_sum, lemma_magnitude_order, lemma_nearest_bound, lemma_nearest_exact,
    lemma_nearest_mono, lemma_nearest_scale, lemma_of_int_exact, nearest,
};

verus! {

/// The largest finite number; it marks a distance that was not computed.
pub const MAX_BITS: u32 = 0x7F7F_FFFF;

/// The largest finite number.
pub open spec fn max_dist() -> Binary32 {
    Binary32 { bits: MAX_BITS }
}

pub open spec fn square(n: int) -> nat {
    (n * n) as nat
}

/// The sum of integers in single precision: each is rounded, then added in order, and each
/// partial sum is rounded.
pub open spec fn sum_ints(terms: Seq<nat>) -> Binary32
    decreases terms.len(),
{
    if terms.len() == 0 {
        Binary32 { bits: 0 }
    } else {
        sum_ints(terms.drop_last()).add_spec(Binary32::of_int(terms.last() as int))
    }
}

/// An integer added to a number that is not negative, rounded once.
pub open spec fn fused_add(acc: Binary32, n: nat) -> Binary32 {
    Binary32 { bits: nearest(acc.magnitude() + n * pow2(149), 1) as u32 }
}

/// The sum of every fourth integer from position `lane` on, each added with one rounding.
pub open spec fn lane_sum(terms: Seq<nat>, lane: int) -> Binary32
    decreases terms.len(),
{
    if terms.len() == 0 {
        Binary32 { bits: 0 }
    } else if (terms.len() - 1) % 4 == lane {
        fused_add(lane_sum(terms.drop_last(), lane), terms.last())
    } else {
        lane_sum(terms.drop_last(), lane)
    }
}

/// The sum of integers in single precision, in the order of a machine that multiplies and adds
/// with one rounding: in four lanes, which are then added in pairs.
pub open spec fn sum_lanes(terms: Seq<nat>) -> Binary32 {
    lane_sum(terms, 0).add_spec(lane_sum(terms, 1)).add_spec(
        lane_sum(terms, 2).add_spec(lane_sum(terms, 3)),
    )
}

/// The sum of integers in single precision, with or without fused multiplication and addition.
pub open spec fn sum_terms(fma: bool, terms: Seq<nat>) -> Binary32 {
    if fma {
        sum_lanes(terms)
    } else {
        sum_ints(terms)
    }
}

/// Each term is below two to the power 34, and there are at most 16.
pub open spec fn small_terms(terms: Seq<nat>) -> bool {
    &&& terms.len() <= 16
    &&& forall|i: int| 0 <= i < terms.len() ==> #[trigger] terms[i] <= 0x4_0000_0000
}

/// A number that is neither negative nor as large as two to the power 51.
pub open spec fn is_dist(x: Binary32) -> bool {
    x.bits <= 0x5900_0000
}

/// Two to the power `k`.
spec fn two_to(k: nat) -> Binary32 {
    Binary32 { bits: ((k + 127) * 0x80_0000) as u32 }
}

proof fn lemma_two_to(k: nat)
    requires
        k <= 100,
    ensures
        two_to(k).bits == (k + 127) * 0x80_0000,
        two_to(k).is_finite_spec(),
        two_to(k).magnitude() == pow2(k + 149),
{
    let x = two_to(k);
    assert(x.bits == (k + 127) * 0x80_0000);
    assert(x.low() == x.bits);
    assert(x.significand() == 0x80_0000);
    assert(x.scale() == k + 126);
    vstd::arithmetic::power2::lemma2_to64();
    lemma_pow2_adds(23, k + 126);
    assert(pow2(23) == 0x80_0000);
}

/// The pattern of a sum of two numbers that are not negative.
pub proof fn lemma_add_nonneg(x: Binary32, y: Binary32)
    requires
        x.bits < 0x7F80_0000,
        y.bits < 0x7F80_0000,
    ensures
        x.add_spec(y).bits == nearest(x.magnitude() + y.magnitude(), 1),
{
    reveal(Binary32::add_spec);
    lemma_nearest_bound(x.magnitude() + y.magnitude(), 1);
    lemma_nearest_zero();
}

proof fn lemma_nearest_zero()
    ensures
        nearest(0, 1) == 0,
{
    let zero = Binary32 { bits: 0 };
    lemma_nearest_exact(zero);
    lemma_zero_magnitude();
}

proof fn lemma_zero_magnitude()
    ensures
        (Binary32 { bits: 0 }).magnitude() == 0,
{
    let zero = Binary32 { bits: 0 };
    assert(zero.magnitude() == 0) by (nonlinear_arith)
        requires
            zero.magnitude() == zero.significand() * pow2(zero.scale()),
            zero.significand() == 0,
    ;
}

/// Addition of numbers that are not negative keeps the order.
pub proof fn lemma_add_mono(x: Binary32, y: Binary32, x2: Binary32, y2: Binary32)
    requires
        x.bits <= x2.bits < 0x7F80_0000,
        y.bits <= y2.bits < 0x7F80_0000,
    ensures
        x.add_spec(y).bits <= x2.add_spec(y2).bits,
{
    lemma_add_nonneg(x, y);
    lemma_add_nonneg(x2, y2);
    lemma_magnitude_order(x, x2);
    lemma_magnitude_order(y, y2);
    lemma_nearest_mono(x.magnitude() + y.magnitude(), x2.magnitude() + y2.magnitude());
}

/// Adding a number that is not negative makes nothing smaller, and adding zero changes nothing.
pub proof fn lemma_add_grows(x: Binary32, y: Binary32)
    requires
        x.bits < 0x7F80_0000,
        y.bits < 0x7F80_0000,
    ensures
        x.bits <= x.add_spec(y).bits,
        y.bits == 0 ==> x.add_spec(y) == x,
{
    lemma_add_nonneg(x, y);
    lemma_nearest_exact(x);
    lemma_nearest_mono(x.magnitude(), x.magnitude() + y.magnitude());
    lemma_zero_magnitude();
}

/// Rounding an integer keeps the order, and zero stays zero.
pub proof fn lemma_of_int_mono(a: nat, b: nat)
    requires
        a <= b,
    ensures
        Binary32::of_int(a as int).bits <= Binary32::of_int(b as int).bits,
        Binary32::of_int(b as int).bits <= 0x7F80_0000,
        Binary32::of_int(0).bits == 0,
{
    assert(a as nat * pow2(149) <= b as nat * pow2(149)) by (nonlinear_arith)
        requires
            a <= b,
    ;
    lemma_nearest_mono(a * pow2(149), b * pow2(149));
    lemma_nearest_bound(a * pow2(149), 1);
    lemma_nearest_bound(b * pow2(149), 1);
    lemma_nearest_zero();
    assert(0 * pow2(149) == 0);
}

/// A term of a small sum is at most two to the power 34.
proof fn lemma_term_bound(n: nat)
    requires
        n <= 0x4_0000_0000,
    ensures
        Binary32::of_int(n as int).bits <= two_to(34).bits,
{
    lemma_two_to(34);
    lemma_of_int_mono(n, 0x4_0000_0000);
    vstd::arithmetic::power2::lemma2_to64_rest();
    lemma_pow2_adds(34, 149);
    lemma_nearest_exact(two_to(34));
}

proof fn lemma_sum_bound(terms: Seq<nat>)
    requires
        small_terms(terms),
    ensures
        sum_ints(terms).bits <= two_to(34 + terms.len()).bits,
    decreases terms.len(),
{
    let n = terms.len();
    lemma_two_to(34 + n);
    if n > 0 {
        let head = terms.drop_last();
        assert forall|i: int| 0 <= i < head.len() implies #[trigger] head[i] <= 0x4_0000_0000 by {
            assert(head[i] == terms[i]);
        }
        lemma_sum_bound(head);
        let k: nat = (33 + n) as nat;
        lemma_two_to(k);
        lemma_two_to(34);
        let x = sum_ints(head);
        let y = Binary32::of_int(terms.last() as int);
        lemma_term_bound(terms.last());
        lemma_add_mono(x, y, two_to(k), two_to(k));
        lemma_add_nonneg(two_to(k), two_to(k));
        vstd::arithmetic::power2::lemma_pow2_unfold(k + 150);
        lemma_nearest_exact(two_to(34 + n));
    }
}

/// A small sum, added in order, is a distance.
proof fn lemma_ints_are_dist(terms: Seq<nat>)
    requires
        small_terms(terms),
    ensures
        is_dist(sum_ints(terms)),
{
    lemma_sum_bound(terms);
    lemma_two_to(34 + terms.len());
}

/// Sums in order of the same number of terms are ordered if their terms are.
proof fn lemma_ints_mono(a: Seq<nat>, b: Seq<nat>)
    requires
        small_terms(b),
        a.len() == b.len(),
        forall|i: int| 0 <= i < a.len() ==> #[trigger] a[i] <= b[i],
    ensures
        sum_ints(a).bits <= sum_ints(b).bits,
    decreases a.len(),
{
    if a.len() > 0 {
        let (ha, hb) = (a.drop_last(), b.drop_last());
        assert forall|i: int| 0 <= i < ha.len() implies #[trigger] ha[i] <= hb[i] by {
            assert(a[i] <= b[i]);
        }
        assert forall|i: int| 0 <= i < hb.len() implies #[trigger] hb[i] <= 0x4_0000_0000 by {
            assert(hb[i] == b[i]);
        }
        lemma_ints_mono(ha, hb);
        lemma_ints_are_dist(hb);
        assert(a[a.len() - 1] <= b[b.len() - 1]);
        lemma_of_int_mono(a.last(), b.last());
        lemma_term_bound(b.last());
        lemma_two_to(34);
        lemma_add_mono(
            sum_ints(ha),
            Binary32::of_int(a.last() as int),
            sum_ints(hb),
            Binary32::of_int(b.last() as int),
        );
    }
}

/// Leading terms, added in order, sum to no more than all of them.
proof fn lemma_ints_prefix(terms: Seq<nat>, n: nat)
    requires
        small_terms(terms),
        n <= terms.len(),
    ensures
        sum_ints(terms.take(n as int)).bits <= sum_ints(terms).bits,
        (forall|i: int| n <= i < terms.len() ==> #[trigger] terms[i] == 0) ==> sum_ints(
            terms.take(n as int),
        ) == sum_ints(terms),
    decreases terms.len(),
{
    if n == terms.len() {
        assert(terms.take(n as int) =~= terms);
    } else {
        let head = terms.drop_last();
        assert forall|i: int| 0 <= i < head.len() implies #[trigger] head[i] <= 0x4_0000_0000 by {
            assert(head[i] == terms[i]);
        }
        assert(head.take(n as int) =~= terms.take(n as int));
        lemma_ints_prefix(head, n);
        lemma_ints_are_dist(head);
        lemma_term_bound(terms.last());
        lemma_two_to(34);
        lemma_of_int_mono(0, terms.last());
        lemma_add_grows(sum_ints(head), Binary32::of_int(terms.last() as int));
        if forall|i: int| n <= i < terms.len() ==> #[trigger] terms[i] == 0 {
            assert forall|i: int| n <= i < head.len() implies #[trigger] head[i] == 0 by {
                assert(head[i] == terms[i]);
            }
            assert(terms[terms.len() - 1] == 0);
        }
    }
}

// ── Sums in lanes ────────────────────────────────────────────────────────────

/// An addition with one rounding keeps the order, adds nothing where zero is added, and makes
/// nothing smaller.
proof fn lemma_fused_add(x: Binary32, a: nat, y: Binary32, b: nat)
    requires
        x.bits <= y.bits < 0x7F80_0000,
        a <= b,
    ensures
        fused_add(x, a).bits <= fused_add(y, b).bits <= 0x7F80_0000,
        x.bits <= fused_add(x, a).bits,
        a == 0 ==> fused_add(x, a) == x,
{
    lemma_magnitude_order(x, y);
    assert(a * pow2(149) <= b * pow2(149)) by (nonlinear_arith)
        requires
            a <= b,
    ;
    let (m, n) = (x.magnitude() + a * pow2(149), y.magnitude() + b * pow2(149));
    lemma_nearest_mono(m, n);
    lemma_nearest_bound(m, 1);
    lemma_nearest_bound(n, 1);
    lemma_nearest_exact(x);
    lemma_nearest_mono(x.magnitude(), m);
    assert(a == 0 ==> a * pow2(149) == 0) by (nonlinear_arith);
}

/// How many terms a lane holds.
spec fn lane_len(len: nat, lane: int) -> nat {
    ((len + 3 - lane) / 4) as nat
}

proof fn lemma_lane_bound(terms: Seq<nat>, lane: int)
    requires
        small_terms(terms),
        0 <= lane < 4,
    ensures
        lane_sum(terms, lane).bits <= two_to(34 + lane_len(terms.len(), lane)).bits,
        lane_sum(terms, lane).bits <= two_to(38).bits,
    decreases terms.len(),
{
    let n = terms.len();
    let count = lane_len(n, lane);
    lemma_two_to(34 + count);
    lemma_two_to(38);
    if n > 0 {
        let head = terms.drop_last();
        assert(small_terms(head)) by {
            assert forall|i: int| 0 <= i < head.len() implies #[trigger] head[i]
                <= 0x4_0000_0000 by {
                assert(head[i] == terms[i]);
            }
        }
        lemma_lane_bound(head, lane);
        if (n - 1) % 4 == lane {
            let k: nat = (33 + count) as nat;
            assert(lane_len((n - 1) as nat, lane) == count - 1);
            lemma_two_to(k);
            let x = lane_sum(head, lane);
            lemma_fused_add(x, terms.last(), two_to(k), 0x4_0000_0000);
            // Two to the power 34 is no more than two to the power `k`.
            vstd::arithmetic::power2::lemma2_to64_rest();
            lemma_pow2_adds(34, 149);
            if k > 34 {
                vstd::arithmetic::power2::lemma_pow2_strictly_increases(34 + 149, k + 149);
            }
            vstd::arithmetic::power2::lemma_pow2_unfold(k + 150);
            lemma_nearest_exact(two_to(34 + count));
            lemma_nearest_mono(
                two_to(k).magnitude() + 0x4_0000_0000 * pow2(149),
                two_to(34 + count).magnitude(),
            );
        } else {
            assert(lane_len((n - 1) as nat, lane) == count);
        }
    }
}

proof fn lemma_lane_mono(a: Seq<nat>, b: Seq<nat>, lane: int)
    requires
        small_terms(b),
        a.len() == b.len(),
        forall|i: int| 0 <= i < a.len() ==> #[trigger] a[i] <= b[i],
        0 <= lane < 4,
    ensures
        lane_sum(a, lane).bits <= lane_sum(b, lane).bits,
    decreases a.len(),
{
    if a.len() > 0 {
        let (ha, hb) = (a.drop_last(), b.drop_last());
        assert forall|i: int| 0 <= i < ha.len() implies #[trigger] ha[i] <= hb[i] by {
            assert(a[i] <= b[i]);
        }
        assert forall|i: int| 0 <= i < hb.len() implies #[trigger] hb[i] <= 0x4_0000_0000 by {
            assert(hb[i] == b[i]);
        }
        lemma_lane_mono(ha, hb, lane);
        lemma_lane_bound(hb, lane);
        lemma_two_to(38);
        assert(a[a.len() - 1] <= b[b.len() - 1]);
        lemma_fused_add(lane_sum(ha, lane), a.last(), lane_sum(hb, lane), b.last());
    }
}

proof fn lemma_lane_prefix(terms: Seq<nat>, n: nat, lane: int)
    requires
        small_terms(terms),
        n <= terms.len(),
        0 <= lane < 4,
    ensures
        lane_sum(terms.take(n as int), lane).bits <= lane_sum(terms, lane).bits,
        (forall|i: int| n <= i < terms.len() ==> #[trigger] terms[i] == 0) ==> lane_sum(
            terms.take(n as int),
            lane,
        ) == lane_sum(terms, lane),
    decreases terms.len(),
{
    if n == terms.len() {
        assert(terms.take(n as int) =~= terms);
    } else {
        let head = terms.drop_last();
        assert forall|i: int| 0 <= i < head.len() implies #[trigger] head[i] <= 0x4_0000_0000 by {
            assert(head[i] == terms[i]);
        }
        assert(head.take(n as int) =~= terms.take(n as int));
        lemma_lane_prefix(head, n, lane);
        lemma_lane_bound(head, lane);
        lemma_two_to(38);
        let x = lane_sum(head, lane);
        lemma_fused_add(x, terms.last(), x, terms.last());
        if forall|i: int| n <= i < terms.len() ==> #[trigger] terms[i] == 0 {
            assert forall|i: int| n <= i < head.len() implies #[trigger] head[i] == 0 by {
                assert(head[i] == terms[i]);
            }
            assert(terms[terms.len() - 1] == 0);
        }
    }
}

/// Sums of four lanes are ordered if the lanes are, and are distances.
proof fn lemma_lanes(a: Seq<nat>, b: Seq<nat>)
    requires
        small_terms(b),
        forall|lane: int|
            0 <= lane < 4 ==> #[trigger] lane_sum(a, lane).bits <= lane_sum(b, lane).bits,
    ensures
        sum_lanes(a).bits <= sum_lanes(b).bits,
        is_dist(sum_lanes(b)),
{
    let (a0, a1, a2, a3) = (lane_sum(a, 0), lane_sum(a, 1), lane_sum(a, 2), lane_sum(a, 3));
    let (b0, b1, b2, b3) = (lane_sum(b, 0), lane_sum(b, 1), lane_sum(b, 2), lane_sum(b, 3));
    lemma_lane_bound(b, 0);
    lemma_lane_bound(b, 1);
    lemma_lane_bound(b, 2);
    lemma_lane_bound(b, 3);
    let (p, q) = (two_to(38), two_to(39));
    lemma_two_to(38);
    lemma_two_to(39);
    lemma_two_to(40);
    lemma_add_mono(b0, b1, p, p);
    lemma_add_mono(b2, b3, p, p);
    lemma_add_nonneg(p, p);
    vstd::arithmetic::power2::lemma_pow2_unfold(188);
    lemma_nearest_exact(q);
    lemma_add_mono(a0, a1, b0, b1);
    lemma_add_mono(a2, a3, b2, b3);
    lemma_add_mono(a0.add_spec(a1), a2.add_spec(a3), b0.add_spec(b1), b2.add_spec(b3));
    lemma_add_mono(b0.add_spec(b1), b2.add_spec(b3), q, q);
    lemma_add_nonneg(q, q);
    vstd::arithmetic::power2::lemma_pow2_unfold(189);
    lemma_nearest_exact(two_to(40));
}

// ── Exact sums ───────────────────────────────────────────────────────────────

/// The sum without rounding.
pub open spec fn total(terms: Seq<nat>) -> nat
    decreases terms.len(),
{
    if terms.len() == 0 {
        0
    } else {
        total(terms.drop_last()) + terms.last()
    }
}

/// The sum of every fourth integer from position `lane` on, without rounding.
spec fn lane_total(terms: Seq<nat>, lane: int) -> nat
    decreases terms.len(),
{
    if terms.len() == 0 {
        0
    } else if (terms.len() - 1) % 4 == lane {
        lane_total(terms.drop_last(), lane) + terms.last()
    } else {
        lane_total(terms.drop_last(), lane)
    }
}

proof fn lemma_lane_totals(terms: Seq<nat>)
    ensures
        lane_total(terms, 0) + lane_total(terms, 1) + lane_total(terms, 2) + lane_total(terms, 3)
            == total(terms),
    decreases terms.len(),
{
    if terms.len() > 0 {
        lemma_lane_totals(terms.drop_last());
    }
}

proof fn lemma_exact_ints(terms: Seq<nat>)
    requires
        total(terms) < 0x100_0000,
    ensures
        sum_ints(terms) == Binary32::of_int(total(terms) as int),
    decreases terms.len(),
{
    lemma_of_int_mono(0, 0);
    if terms.len() > 0 {
        lemma_exact_ints(terms.drop_last());
        law_integer_sum(total(terms.drop_last()) as int, terms.last() as int);
    }
}

proof fn lemma_exact_lane(terms: Seq<nat>, lane: int)
    requires
        lane_total(terms, lane) < 0x100_0000,
    ensures
        lane_sum(terms, lane) == Binary32::of_int(lane_total(terms, lane) as int),
    decreases terms.len(),
{
    lemma_of_int_mono(0, 0);
    if terms.len() > 0 {
        let head = terms.drop_last();
        lemma_exact_lane(head, lane);
        if (terms.len() - 1) % 4 == lane {
            let (a, n) = (lane_total(head, lane), terms.last());
            lemma_of_int_exact(a as int);
            let unit = pow2(149);
            assert(a * unit + n * unit == (a + n) * unit) by (nonlinear_arith);
            assert(a * unit >= 0) by (nonlinear_arith);
            lemma_nearest_bound((a + n) * unit, 1);
        }
    }
}

/// A sum below two to the power 24 is exact, in either order.
pub proof fn lemma_exact_sum(fma: bool, terms: Seq<nat>)
    requires
        total(terms) < 0x100_0000,
    ensures
        sum_terms(fma, terms) == Binary32::of_int(total(terms) as int),
{
    if fma {
        lemma_lane_totals(terms);
        let (a, b) = (lane_total(terms, 0) as int, lane_total(terms, 1) as int);
        let (c, d) = (lane_total(terms, 2) as int, lane_total(terms, 3) as int);
        lemma_exact_lane(terms, 0);
        lemma_exact_lane(terms, 1);
        lemma_exact_lane(terms, 2);
        lemma_exact_lane(terms, 3);
        law_integer_sum(a, b);
        law_integer_sum(c, d);
        law_integer_sum(a + b, c + d);
    } else {
        lemma_exact_ints(terms);
    }
}

// ── Sums in either order ─────────────────────────────────────────────────────

/// A small sum is a distance.
pub proof fn lemma_sum_is_dist(fma: bool, terms: Seq<nat>)
    requires
        small_terms(terms),
    ensures
        is_dist(sum_terms(fma, terms)),
{
    if fma {
        lemma_lanes(terms, terms);
    } else {
        lemma_ints_are_dist(terms);
    }
}

/// Sums of the same number of terms are ordered if their terms are.
pub proof fn lemma_sum_mono(fma: bool, a: Seq<nat>, b: Seq<nat>)
    requires
        small_terms(b),
        a.len() == b.len(),
        forall|i: int| 0 <= i < a.len() ==> #[trigger] a[i] <= b[i],
    ensures
        sum_terms(fma, a).bits <= sum_terms(fma, b).bits,
{
    if fma {
        assert forall|lane: int| 0 <= lane < 4 implies #[trigger] lane_sum(a, lane).bits
            <= lane_sum(b, lane).bits by {
            lemma_lane_mono(a, b, lane);
        }
        lemma_lanes(a, b);
    } else {
        lemma_ints_mono(a, b);
    }
}

/// Leading terms sum to no more than all of them.
pub proof fn lemma_sum_prefix(fma: bool, terms: Seq<nat>, n: nat)
    requires
        small_terms(terms),
        n <= terms.len(),
    ensures
        sum_terms(fma, terms.take(n as int)).bits <= sum_terms(fma, terms).bits,
        (forall|i: int| n <= i < terms.len() ==> #[trigger] terms[i] == 0) ==> sum_terms(
            fma,
            terms.take(n as int),
        ) == sum_terms(fma, terms),
{
    if fma {
        let head = terms.take(n as int);
        assert forall|lane: int| 0 <= lane < 4 implies #[trigger] lane_sum(head, lane).bits
            <= lane_sum(terms, lane).bits by {
            lemma_lane_prefix(terms, n, lane);
        }
        lemma_lanes(head, terms);
        lemma_lane_prefix(terms, n, 0);
        lemma_lane_prefix(terms, n, 1);
        lemma_lane_prefix(terms, n, 2);
        lemma_lane_prefix(terms, n, 3);
    } else {
        lemma_ints_prefix(terms, n);
    }
}

/// The difference of two quantised values, squared and rounded.
pub fn square_diff(a: i16, b: i16) -> (r: Binary32)
    ensures
        r == Binary32::of_int(square(a - b) as int),
        square(a - b) <= 0x4_0000_0000,
{
    let diff: i64 = a as i64 - b as i64;
    proof {
        assert(0 <= diff * diff <= 65535 * 65535) by (nonlinear_arith)
            requires
                -65535 <= diff <= 65535,
        ;
    }
    let sq: i64 = diff * diff;
    Binary32::from_u32(sq as u32)
}

/// A lane of a small sum is finite and not negative.
pub proof fn lemma_lane_is_finite(terms: Seq<nat>, lane: int)
    requires
        small_terms(terms),
        0 <= lane < 4,
    ensures
        lane_sum(terms, lane).bits < 0x7F80_0000,
{
    lemma_lane_bound(terms, lane);
    lemma_two_to(38);
}

/// Squaring an integer and adding it with one rounding.
pub proof fn lemma_square_of_int(n: int, acc: Binary32)
    requires
        -65535 <= n <= 65535,
        acc.bits < 0x7F80_0000,
    ensures
        Binary32::of_int(n).square_add_spec(acc) == fused_add(acc, square(n)),
{
    reveal(Binary32::square_add_spec);
    lemma_of_int_exact(n);
    let x = Binary32::of_int(n);
    let unit = pow2(149);
    lemma_pow2_pos(149);
    let k: nat = if n < 0 {
        (-n) as nat
    } else {
        n as nat
    };
    assert(k * k == n * n && n * n >= 0) by (nonlinear_arith)
        requires
            k == n || k == -n,
    ;
    assert(x.magnitude() == k * unit) by (nonlinear_arith)
        requires
            x.value() == n * unit,
            x.value() == x.magnitude() || x.value() == -x.magnitude(),
            x.magnitude() >= 0,
            k == n || k == -n,
            k >= 0,
            unit > 0,
    ;
    let total = square(n) * unit + acc.magnitude();
    assert(x.magnitude() * x.magnitude() + acc.magnitude() * unit == total * unit)
        by (nonlinear_arith)
        requires
            x.magnitude() == k * unit,
            k * k == square(n),
            total == square(n) * unit + acc.magnitude(),
    ;
    lemma_nearest_scale(total, 1, unit);
    assert(1 * unit == unit);
    lemma_nearest_bound(total, 1);
}

/// The square of an integer added with one rounding.
pub fn add_square(acc: Binary32, n: i64) -> (r: Binary32)
    requires
        acc.bits < 0x7F80_0000,
        -65535 <= n <= 65535,
    ensures
        r == fused_add(acc, square(n as int)),
{
    proof {
        lemma_square_of_int(n as int, acc);
    }
    Binary32::from_i64(n).square_add(acc)
}

/// Two numbers that are not negative are ordered as their bits.
pub proof fn lemma_order_of_nonneg(x: Binary32, y: Binary32)
    requires
        x.bits < 0x7F80_0000,
        y.bits < 0x7F80_0000,
    ensures
        x.lt_spec(y) <==> x.bits < y.bits,
{
}

/// What is below a distance is below a larger one.
pub proof fn lemma_lt_larger(t: Binary32, x: Binary32, y: Binary32)
    requires
        x.bits <= y.bits,
        is_dist(y),
    ensures
        t.lt_spec(x) ==> t.lt_spec(y),
{
}

} // verus!
