//! What holds of every training: it is determined by its draws, from finite vectors it always gets
//! through, and a centroid that is drawn by its distance is a new one.

use vstd::prelude::*;
#[allow(unused_imports)]
use vstd::arithmetic::power2::{lemma_pow2_adds, lemma_pow2_pos, pow2};

#[allow(unused_imports)]
use crate::binary32::Binary32;
#[allow(unused_imports)]
use crate::binary64::{
    lemma_add_at_most, lemma_representable, lemma_rounded_at_most, lemma_sum_stays, Binary64,
};
#[allow(unused_imports)]
use crate::index::clusters::{centroid_dists, l2sq};
#[allow(unused_imports)]
use crate::index::kmeans::{
    all_comparable, are_means, assigned, chosen, comparable, coordinate_sum, is_run,
    law_centroids_are_vectors, mean_coordinate, members, near_dists, nearest_all, not_positive,
    sum_of, weighted_pick,
};
#[allow(unused_imports)]
use crate::index::layout::N_DIMS;

verus! {

/// The draws determine the training: two runs of the same length are the same.
pub proof fn law_run_is_determined(
    vectors: Seq<[Binary32; N_DIMS]>,
    nlist: nat,
    first: int,
    draws: Seq<Binary32>,
    a: Seq<Seq<[Binary32; N_DIMS]>>,
    b: Seq<Seq<[Binary32; N_DIMS]>>,
)
    requires
        is_run(vectors, nlist, first, draws, a),
        is_run(vectors, nlist, first, draws, b),
        a.len() == b.len(),
    ensures
        a == b,
    decreases a.len(),
{
    if a.len() > 1 {
        let (a0, b0) = (a.drop_last(), b.drop_last());
        assert forall|k: int| 0 < k < a0.len() implies are_means(
            vectors,
            nearest_all(vectors, a0[k - 1]),
            nlist,
            a0[k - 1],
            #[trigger] a0[k],
        ) by {
            assert(a0[k] == a[k]);
        }
        assert forall|k: int| 0 < k < b0.len() implies are_means(
            vectors,
            nearest_all(vectors, b0[k - 1]),
            nlist,
            b0[k - 1],
            #[trigger] b0[k],
        ) by {
            assert(b0[k] == b[k]);
        }
        law_run_is_determined(vectors, nlist, first, draws, a0, b0);
        let k = a.len() - 1;
        assert(a0[k - 1] == a[k - 1] && b0[k - 1] == b[k - 1]);
        let (x, y) = (a[k], b[k]);
        assert forall|c: int| 0 <= c < nlist implies x[c] == y[c] by {
            assert forall|d: int| 0 <= d < 14 implies x[c]@[d] == y[c]@[d] by {}
            assert(x[c]@ =~= y[c]@);
            assert(x[c] =~= y[c]);
        }
        assert(x =~= y);
        assert(a =~= a0.push(x));
        assert(b =~= b0.push(y));
    } else {
        assert(a =~= b);
    }
}

/// An empty cluster keeps its centroid.
pub proof fn law_empty_cluster_keeps_centroid(
    vectors: Seq<[Binary32; N_DIMS]>,
    assignments: Seq<u32>,
    nlist: nat,
    prev: Seq<[Binary32; N_DIMS]>,
    centroids: Seq<[Binary32; N_DIMS]>,
    c: int,
)
    requires
        are_means(vectors, assignments, nlist, prev, centroids),
        0 <= c < nlist,
        members(assignments, c, assigned(vectors, assignments)) == 0,
    ensures
        centroids[c] == prev[c],
{
    assert(centroids[c]@ =~= prev[c]@) by {
        assert forall|d: int| 0 <= d < 14 implies centroids[c]@[d] == prev[c]@[d] by {}
    }
    assert(centroids[c] =~= prev[c]);
}

/// Every coordinate is a number or an infinity.
pub open spec fn no_nan_in(vectors: Seq<[Binary32; N_DIMS]>) -> bool {
    forall|i: int, d: int|
        0 <= i < vectors.len() && 0 <= d < 14 ==> !(#[trigger] vectors[i]@[d]).is_nan_spec()
}

/// Every coordinate is a finite number.
pub open spec fn all_finite(vectors: Seq<[Binary32; N_DIMS]>) -> bool {
    forall|i: int, d: int|
        0 <= i < vectors.len() && 0 <= d < 14 ==> (#[trigger] vectors[i]@[d]).is_finite_spec()
}

/// The largest magnitude of a single-precision number, in double-precision smallest units, is
/// this significand times two to the power 1178.
spec fn widest() -> nat {
    0xFF_FFFF
}

proof fn lemma_single_magnitude(x: Binary32)
    requires
        x.is_finite_spec(),
    ensures
        x.magnitude() <= widest() * pow2(253),
{
    let most = Binary32 { bits: 0x7F7F_FFFF };
    crate::binary32::lemma_magnitude_order(x, most);
}

/// Widening gives a finite number that is not beyond the largest single-precision one.
proof fn lemma_widened(x: Binary32)
    requires
        x.is_finite_spec(),
    ensures
        Binary64::of_single(x).is_finite_spec(),
        Binary64::of_single(x).magnitude() <= widest() * pow2(1178),
{
    lemma_single_magnitude(x);
    let y = lemma_representable(widest(), 1178);
    lemma_pow2_adds(253, 925);
    lemma_pow2_pos(925);
    assert(x.magnitude() * pow2(925) <= widest() * pow2(1178)) by (nonlinear_arith)
        requires
            x.magnitude() <= widest() * pow2(253),
            pow2(1178) == pow2(253) * pow2(925),
            pow2(925) > 0,
    ;
    lemma_rounded_at_most(x.negative(), x.magnitude() * pow2(925), 1, y);
}

/// A sum of members is not beyond as many times the largest single-precision number.
proof fn lemma_coordinate_sum(
    vectors: Seq<[Binary32; N_DIMS]>,
    assignments: Seq<u32>,
    c: int,
    d: int,
    n: nat,
)
    requires
        all_finite(vectors),
        n <= vectors.len(),
        n < 0x2000_0000,
        0 <= d < 14,
    ensures
        members(assignments, c, n) <= n,
        coordinate_sum(vectors, assignments, c, d, n).is_finite_spec(),
        coordinate_sum(vectors, assignments, c, d, n).magnitude() <= (members(assignments, c, n)
            * widest()) * pow2(1178),
    decreases n,
{
    if n == 0 {
        let z = Binary64 { bits: 0 };
        assert(z.magnitude() == 0) by (nonlinear_arith)
            requires
                z.magnitude() == z.significand() * pow2(z.scale()),
                z.significand() == 0,
        ;
        assert((0 * widest()) * pow2(1178) == 0) by (nonlinear_arith);
    } else {
        lemma_coordinate_sum(vectors, assignments, c, d, (n - 1) as nat);
        if assignments[n - 1] == c {
            let before = coordinate_sum(vectors, assignments, c, d, (n - 1) as nat);
            let x = vectors[n - 1]@[d];
            lemma_widened(x);
            let count = members(assignments, c, n);
            let unit = pow2(1178);
            assert(0 < count * widest() < 0x20_0000_0000_0000) by (nonlinear_arith)
                requires
                    0 < count < 0x2000_0000,
                    widest() == 0xFF_FFFF,
            ;
            let y = lemma_representable(count * widest(), 1178);
            assert(((count - 1) * widest()) * unit + widest() * unit == (count * widest()) * unit)
                by (nonlinear_arith);
            lemma_add_at_most(before, Binary64::of_single(x), y);
        }
    }
}

/// The mean of finite numbers is finite.
proof fn lemma_mean_is_finite(
    vectors: Seq<[Binary32; N_DIMS]>,
    assignments: Seq<u32>,
    c: int,
    d: int,
    n: nat,
)
    requires
        all_finite(vectors),
        n <= vectors.len(),
        n < 0x2000_0000,
        0 <= d < 14,
        members(assignments, c, n) > 0,
    ensures
        coordinate_sum(vectors, assignments, c, d, n).div_spec(
            Binary64::of_nat(members(assignments, c, n)),
        ).single_spec().is_finite_spec(),
{
    lemma_coordinate_sum(vectors, assignments, c, d, n);
    let sum = coordinate_sum(vectors, assignments, c, d, n);
    let count = members(assignments, c, n);
    // The count is exact.
    let whole = lemma_representable(count, 1074);
    crate::binary64::lemma_pattern_is_exact(whole);
    let den = Binary64::of_nat(count);
    assert(den == whole);
    lemma_pow2_pos(1074);
    assert(den.magnitude() > 0) by (nonlinear_arith)
        requires
            den.magnitude() == count * pow2(1074),
            count > 0,
            pow2(1074) > 0,
    ;
    assert(den.low() != 0) by {
        if den.low() == 0 {
            assert(den.magnitude() == 0) by (nonlinear_arith)
                requires
                    den.magnitude() == den.significand() * pow2(den.scale()),
                    den.significand() == 0,
            ;
        }
    }
    reveal(Binary64::div_spec);
    let y = lemma_representable(widest(), 1178);
    assert(sum.magnitude() * pow2(1074) <= y.magnitude() * den.magnitude()) by (nonlinear_arith)
        requires
            sum.magnitude() <= (count * widest()) * pow2(1178),
            y.magnitude() == widest() * pow2(1178),
            den.magnitude() == count * pow2(1074),
    ;
    lemma_rounded_at_most(
        sum.negative(),
        sum.magnitude() * pow2(1074),
        den.magnitude(),
        y,
    );
    let mean = sum.div_spec(den);
    // Narrowing stays at or below the largest single-precision number.
    let most = Binary32 { bits: 0x7F7F_FFFF };
    assert(most.significand() == widest() && most.scale() == 253);
    lemma_pow2_adds(253, 925);
    lemma_pow2_pos(925);
    let unit = pow2(925);
    assert(mean.magnitude() <= most.magnitude() * unit) by (nonlinear_arith)
        requires
            mean.magnitude() <= widest() * pow2(1178),
            most.magnitude() == widest() * pow2(253),
            pow2(1178) == pow2(253) * unit,
    ;
    crate::binary32::lemma_nearest_mono_over(mean.magnitude(), most.magnitude() * unit, unit);
    crate::binary32::lemma_nearest_scale(most.magnitude(), 1, unit);
    assert(1 * unit == unit);
    crate::binary32::lemma_nearest_exact(most);
}

/// A sum of members of any number is finite: what is added to a sum that is large enough is lost.
proof fn lemma_coordinate_sum_is_finite(
    vectors: Seq<[Binary32; N_DIMS]>,
    assignments: Seq<u32>,
    c: int,
    d: int,
    n: nat,
)
    requires
        all_finite(vectors),
        n <= vectors.len(),
        0 <= d < 14,
    ensures
        coordinate_sum(vectors, assignments, c, d, n).is_finite_spec(),
        coordinate_sum(vectors, assignments, c, d, n).magnitude() <= pow2(1256),
    decreases n,
{
    if n == 0 {
        let z = Binary64 { bits: 0 };
        assert(z.magnitude() == 0) by (nonlinear_arith)
            requires
                z.magnitude() == z.significand() * pow2(z.scale()),
                z.significand() == 0,
        ;
    } else {
        lemma_coordinate_sum_is_finite(vectors, assignments, c, d, (n - 1) as nat);
        if assignments[n - 1] == c {
            let before = coordinate_sum(vectors, assignments, c, d, (n - 1) as nat);
            let x = vectors[n - 1]@[d];
            lemma_widened(x);
            lemma_pow2_adds(24, 1178);
            vstd::arithmetic::power2::lemma2_to64();
            assert(widest() * pow2(1178) <= pow2(24) * pow2(1178)) by (nonlinear_arith)
                requires
                    widest() <= pow2(24),
            ;
            lemma_sum_stays(before, Binary64::of_single(x), 1256);
        }
    }
}

/// The mean of finite numbers is a number, whatever their count; it may round to an infinity.
proof fn lemma_mean_is_number(
    vectors: Seq<[Binary32; N_DIMS]>,
    assignments: Seq<u32>,
    c: int,
    d: int,
    n: nat,
)
    requires
        all_finite(vectors),
        n <= vectors.len(),
        0 <= d < 14,
        members(assignments, c, n) > 0,
    ensures
        !coordinate_sum(vectors, assignments, c, d, n).div_spec(
            Binary64::of_nat(members(assignments, c, n)),
        ).single_spec().is_nan_spec(),
{
    lemma_coordinate_sum_is_finite(vectors, assignments, c, d, n);
    let sum = coordinate_sum(vectors, assignments, c, d, n);
    let count = members(assignments, c, n);
    let den = Binary64::of_nat(count);
    lemma_count_is_positive(count);
    reveal(Binary64::div_spec);
    let mean = sum.div_spec(den);
    crate::rounding::lemma_nearest_bound(
        crate::binary64::double(),
        sum.magnitude() * pow2(1074),
        den.magnitude(),
    );
    assert(!mean.is_nan_spec());
    crate::binary32::lemma_nearest_bound(mean.magnitude(), pow2(925));
}

/// A count that is not zero is not rounded to zero.
proof fn lemma_count_is_positive(count: nat)
    requires
        count > 0,
    ensures
        !Binary64::of_nat(count).is_nan_spec(),
        Binary64::of_nat(count).low() != 0,
{
    let one = lemma_representable(1, 1074);
    crate::binary64::lemma_pattern_is_exact(one);
    lemma_pow2_pos(1074);
    let unit = pow2(1074);
    assert(1 * unit == unit);
    assert(unit <= count * unit) by (nonlinear_arith)
        requires
            count >= 1,
    ;
    crate::rounding::lemma_nearest_mono(crate::binary64::double(), unit, count * unit, 1);
    crate::rounding::lemma_nearest_bound(crate::binary64::double(), count * unit, 1);
    if one.low() == 0 {
        assert(one.magnitude() == 0) by (nonlinear_arith)
            requires
                one.magnitude() == one.significand() * pow2(one.scale()),
                one.significand() == 0,
        ;
    }
}

/// The squared distance from a finite vector to one without undefined coordinates is a number or
/// an infinity.
proof fn lemma_distance_is_number(a: Seq<Binary32>, b: Seq<Binary32>, n: nat)
    requires
        n <= 14,
        forall|d: int| 0 <= d < 14 ==> (#[trigger] a[d]).is_finite_spec(),
        forall|d: int| 0 <= d < 14 ==> !(#[trigger] b[d]).is_nan_spec(),
    ensures
        !l2sq(a, b, n).is_nan_spec(),
        !l2sq(a, b, n).negative(),
    decreases n,
{
    if n > 0 {
        lemma_distance_is_number(a, b, (n - 1) as nat);
        let (x, y) = (a[n - 1], b[n - 1]);
        assert(x.is_finite_spec() && !y.is_nan_spec());
        reveal(Binary32::add_spec);
        reveal(Binary32::mul_spec);
        let m = y.neg_spec();
        assert(m.low() == y.low());
        let v = x.value() + m.value();
        let d = x.sub_spec(y);
        crate::binary32::lemma_nearest_bound(v as nat, 1);
        crate::binary32::lemma_nearest_bound((-v) as nat, 1);
        assert(!d.is_nan_spec());
        crate::binary32::lemma_nearest_bound(d.magnitude() * d.magnitude(), pow2(149));
        let sq = d.mul_spec(d);
        assert(!sq.is_nan_spec() && !sq.negative());
        let before = l2sq(a, b, (n - 1) as nat);
        let w = before.value() + sq.value();
        crate::binary32::lemma_nearest_bound(w as nat, 1);
    }
}

/// Finite vectors have distances to centroids without undefined coordinates that can be compared.
pub proof fn law_finite_distances_compare(
    vectors: Seq<[Binary32; N_DIMS]>,
    centroids: Seq<[Binary32; N_DIMS]>,
)
    requires
        all_finite(vectors),
        no_nan_in(centroids),
    ensures
        all_comparable(vectors, centroids),
{
    assert forall|i: int| 0 <= i < vectors.len() implies comparable(
        centroid_dists((#[trigger] vectors[i])@, centroids),
    ) by {
        let dists = centroid_dists(vectors[i]@, centroids);
        assert forall|j: int| 0 <= j < dists.len() implies !(#[trigger] dists[j]).is_nan_spec() by {
            let (a, b) = (vectors[i]@, centroids[j]@);
            assert forall|d: int| 0 <= d < 14 implies (#[trigger] a[d]).is_finite_spec() by {
                assert(vectors[i]@[d].is_finite_spec());
            }
            assert forall|d: int| 0 <= d < 14 implies !(#[trigger] b[d]).is_nan_spec() by {
                assert(!centroids[j]@[d].is_nan_spec());
            }
            lemma_distance_is_number(a, b, 14);
        }
    }
}

/// A training on finite vectors gets through, however many they are: no coordinate of a centroid
/// is undefined, so that every distance can be compared. With fewer than two to the power 29
/// vectors all centroids are finite; the rounding of longer sums can drift beyond the largest
/// number.
pub proof fn law_finite_training_gets_through(
    vectors: Seq<[Binary32; N_DIMS]>,
    nlist: nat,
    first: int,
    draws: Seq<Binary32>,
    run: Seq<Seq<[Binary32; N_DIMS]>>,
)
    requires
        all_finite(vectors),
        0 <= first < vectors.len(),
        is_run(vectors, nlist, first, draws, run),
    ensures
        nlist > 0 ==> run.last().len() == nlist,
        no_nan_in(run.last()),
        vectors.len() < 0x2000_0000 ==> all_finite(run.last()),
        all_comparable(vectors, run.last()),
    decreases run.len(),
{
    let last = run.last();
    let few = vectors.len() < 0x2000_0000;
    if run.len() == 1 {
        assert forall|c: int, d: int| 0 <= c < last.len() && 0 <= d < 14 implies (
        #[trigger] last[c]@[d]).is_finite_spec() by {
            law_centroids_are_vectors(vectors, first, draws, c as nat);
            let i = chosen(vectors, first, draws, c as nat);
            assert(last[c] == vectors[i]);
            assert(vectors[i]@[d].is_finite_spec());
        }
        assert forall|c: int, d: int| 0 <= c < last.len() && 0 <= d < 14 implies !(
        #[trigger] last[c]@[d]).is_nan_spec() by {
            assert(last[c]@[d].is_finite_spec());
        }
    } else {
        let before = run.drop_last();
        assert forall|k: int| 0 < k < before.len() implies are_means(
            vectors,
            nearest_all(vectors, before[k - 1]),
            nlist,
            before[k - 1],
            #[trigger] before[k],
        ) by {
            assert(before[k] == run[k]);
        }
        law_finite_training_gets_through(vectors, nlist, first, draws, before);
        let prev = before.last();
        let k = run.len() - 1;
        assert(prev == run[k - 1]);
        let assignments = nearest_all(vectors, prev);
        assert(are_means(vectors, assignments, nlist, prev, run[k]));
        let n = vectors.len();
        assert forall|c: int, d: int| 0 <= c < last.len() && 0 <= d < 14 implies !(
        #[trigger] last[c]@[d]).is_nan_spec() && (few ==> last[c]@[d].is_finite_spec()) by {
            assert(last[c]@[d] == mean_coordinate(vectors, assignments, prev, c, d));
            if members(assignments, c, n) == 0 {
                assert(!prev[c]@[d].is_nan_spec());
            } else {
                lemma_mean_is_number(vectors, assignments, c, d, n);
                if few {
                    lemma_mean_is_finite(vectors, assignments, c, d, n);
                }
            }
        }
        assert(no_nan_in(last));
    }
    law_finite_distances_compare(vectors, last);
}

// ── New centroids ────────────────────────────────────────────────────────────

/// A number above zero.
pub open spec fn is_positive(x: Binary32) -> bool {
    !x.is_nan_spec() && x.order_key() > 0
}

/// A pick from position `i` on uses its threshold up, so that it does not fall through to the
/// last position.
pub open spec fn used_up(weights: Seq<Binary32>, threshold: Binary32, i: int) -> bool
    decreases weights.len() - i,
{
    if i < 0 || i >= weights.len() {
        false
    } else {
        let rest = threshold.sub_spec(weights[i]);
        not_positive(rest) || used_up(weights, rest, i + 1)
    }
}

proof fn lemma_nan_is_not_used_up(weights: Seq<Binary32>, threshold: Binary32, i: int)
    requires
        threshold.is_nan_spec(),
    ensures
        !used_up(weights, threshold, i),
    decreases weights.len() - i,
{
    if 0 <= i < weights.len() {
        reveal(Binary32::add_spec);
        lemma_nan_is_not_used_up(weights, threshold.sub_spec(weights[i]), i + 1);
    }
}

/// Taking off a zero changes nothing.
proof fn lemma_zero_taken_off(x: Binary32, zero: Binary32)
    requires
        is_positive(x),
        zero.low() == 0,
    ensures
        x.sub_spec(zero) == x,
{
    reveal(Binary32::add_spec);
    let z = zero.neg_spec();
    assert(z.low() == 0);
    if x.is_finite_spec() {
        assert(z.magnitude() == 0) by (nonlinear_arith)
            requires
                z.magnitude() == z.significand() * pow2(z.scale()),
                z.significand() == 0,
        ;
        let none = Binary32 { bits: 0 };
        assert(none.magnitude() == 0) by (nonlinear_arith)
            requires
                none.magnitude() == none.significand() * pow2(none.scale()),
                none.significand() == 0,
        ;
        crate::binary32::lemma_magnitude_order(x, none);
        crate::binary32::lemma_nearest_exact(x);
    }
}

/// What is picked from a positive threshold that is used up has a positive weight.
pub proof fn law_pick_has_weight(weights: Seq<Binary32>, threshold: Binary32, i: int)
    requires
        forall|j: int|
            0 <= j < weights.len() ==> !(#[trigger] weights[j]).is_nan_spec()
                && weights[j].order_key() >= 0,
        is_positive(threshold),
        used_up(weights, threshold, i),
    ensures
        0 <= weighted_pick(weights, threshold, i) < weights.len(),
        is_positive(weights[weighted_pick(weights, threshold, i)]),
    decreases weights.len() - i,
{
    let w = weights[i];
    let rest = threshold.sub_spec(w);
    assert(!weights[i].is_nan_spec());
    if not_positive(rest) {
        if w.order_key() == 0 {
            lemma_zero_taken_off(threshold, w);
        }
    } else {
        if rest.is_nan_spec() {
            lemma_nan_is_not_used_up(weights, rest, i + 1);
        }
        law_pick_has_weight(weights, rest, i + 1);
    }
}

/// A finite vector has no distance to itself.
proof fn lemma_distance_to_itself(a: Seq<Binary32>, n: nat)
    requires
        n <= 14,
        forall|d: int| 0 <= d < 14 ==> (#[trigger] a[d]).is_finite_spec(),
    ensures
        l2sq(a, a, n).bits == 0,
    decreases n,
{
    if n > 0 {
        lemma_distance_to_itself(a, (n - 1) as nat);
        reveal(Binary32::add_spec);
        reveal(Binary32::mul_spec);
        let x = a[n - 1];
        assert(x.is_finite_spec());
        let m = x.neg_spec();
        assert(m.low() == x.low());
        let d = x.sub_spec(x);
        assert(d.bits == 0);
        assert(d.magnitude() == 0) by (nonlinear_arith)
            requires
                d.magnitude() == d.significand() * pow2(d.scale()),
                d.significand() == 0,
        ;
        assert(d.magnitude() * d.magnitude() == 0 * pow2(149)) by (nonlinear_arith)
            requires
                d.magnitude() == 0,
        ;
        lemma_pow2_pos(149);
        crate::binary32::lemma_nearest_scale(0, 1, pow2(149));
        crate::binary32::lemma_nearest_exact(d);
        assert(0 * pow2(149) == 0 && 1 * pow2(149) == pow2(149)) by (nonlinear_arith);
        let sq = d.mul_spec(d);
        assert(sq.bits == 0);
    }
}

/// The distance to the nearest centroid so far is not larger than that to any of them.
proof fn lemma_near_dist(
    vectors: Seq<[Binary32; N_DIMS]>,
    first: int,
    draws: Seq<Binary32>,
    n: nat,
    i: int,
    j: nat,
)
    requires
        all_finite(vectors),
        0 <= first < vectors.len(),
        0 <= i < vectors.len(),
        j < n,
    ensures
        near_dists(vectors, first, draws, n).len() == vectors.len(),
        ({
            let near = near_dists(vectors, first, draws, n)[i];
            let d = l2sq(vectors[i]@, vectors[chosen(vectors, first, draws, j)]@, 14);
            !near.is_nan_spec() && 0 <= near.order_key() <= d.order_key()
        }),
    decreases n,
{
    let c = chosen(vectors, first, draws, (n - 1) as nat);
    law_centroids_are_vectors(vectors, first, draws, (n - 1) as nat);
    let (a, b) = (vectors[i]@, vectors[c]@);
    assert forall|d: int| 0 <= d < 14 implies (#[trigger] a[d]).is_finite_spec() by {
        assert(vectors[i]@[d].is_finite_spec());
    }
    assert forall|d: int| 0 <= d < 14 implies (#[trigger] b[d]).is_finite_spec() by {
        assert(vectors[c]@[d].is_finite_spec());
    }
    lemma_distance_is_number(a, b, 14);
    if n > 1 {
        let k = if j < n - 1 {
            j
        } else {
            0
        };
        lemma_near_dist(vectors, first, draws, (n - 1) as nat, i, k);
    }
}

/// A centroid that is picked from a positive threshold which is used up differs from all
/// centroids before it, if the vectors are finite.
pub proof fn law_new_centroid_is_new(
    vectors: Seq<[Binary32; N_DIMS]>,
    first: int,
    draws: Seq<Binary32>,
    n: nat,
    j: nat,
)
    requires
        all_finite(vectors),
        0 <= first < vectors.len(),
        j < n,
        ({
            let dists = near_dists(vectors, first, draws, n);
            let threshold = draws[n - 1].mul_spec(sum_of(dists, dists.len()));
            is_positive(threshold) && used_up(dists, threshold, 0)
        }),
    ensures
        vectors[chosen(vectors, first, draws, n)] != vectors[chosen(vectors, first, draws, j)],
{
    let dists = near_dists(vectors, first, draws, n);
    let threshold = draws[n - 1].mul_spec(sum_of(dists, dists.len()));
    lemma_near_dist(vectors, first, draws, n, 0, j);
    assert forall|i: int| 0 <= i < dists.len() implies !(#[trigger] dists[i]).is_nan_spec()
        && dists[i].order_key() >= 0 by {
        lemma_near_dist(vectors, first, draws, n, i, j);
    }
    law_pick_has_weight(dists, threshold, 0);
    let i = chosen(vectors, first, draws, n);
    assert(i == weighted_pick(dists, threshold, 0));
    lemma_near_dist(vectors, first, draws, n, i, j);
    let a = vectors[i]@;
    assert forall|d: int| 0 <= d < 14 implies (#[trigger] a[d]).is_finite_spec() by {
        assert(vectors[i]@[d].is_finite_spec());
    }
    lemma_distance_to_itself(a, 14);
}

} // verus!
