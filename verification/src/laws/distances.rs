//! What a distance is, operation by operation.

use vstd::prelude::*;

use crate::binary32::Binary32;
#[allow(unused_imports)]
use crate::binary32::{law_integer_difference, law_integer_square};
#[allow(unused_imports)]
use crate::index::bbox::{
    box_terms, in_box, law_padding_contributes_nothing, lower_bound, outside, padded_lanes,
    zero_padded,
};
#[allow(unused_imports)]
use crate::index::distance::{
    fused_add, lane_sum, lemma_lane_is_finite, square, sum_ints, sum_lanes, sum_terms,
};
use crate::index::layout::Bbox;
#[allow(unused_imports)]
use crate::index::simd::{
    diff_terms, law_lane_steps_are_fused, law_terms_are_products, lemma_diff_terms_small,
    vector_dist,
};

verus! {

/// The difference of two coordinates in single precision.
pub open spec fn difference(q: Seq<i16>, v: Seq<i16>, d: int) -> Binary32 {
    Binary32::of_int(v[d] as int).sub_spec(Binary32::of_int(q[d] as int))
}

/// Without fused operations a distance is the squares of the differences, added one after the
/// other from the first dimension on, in single precision.
pub proof fn law_distance_adds_squares(q: Seq<i16>, v: Seq<i16>)
    ensures
        vector_dist(false, q, v) == Seq::new(
            v.len(),
            |d: int| difference(q, v, d).mul_spec(difference(q, v, d)),
        ).fold_left(Binary32 { bits: 0 }, |sum: Binary32, term: Binary32| sum.add_spec(term)),
{
    lemma_adds(q, v, v.len() as int);
    let squares = Seq::new(
        v.len(),
        |d: int| difference(q, v, d).mul_spec(difference(q, v, d)),
    );
    assert(squares.take(v.len() as int) =~= squares);
    assert(diff_terms(q, v).take(v.len() as int) =~= diff_terms(q, v));
}

proof fn lemma_adds(q: Seq<i16>, v: Seq<i16>, n: int)
    requires
        0 <= n <= v.len(),
    ensures
        sum_ints(diff_terms(q, v).take(n)) == Seq::new(
            v.len(),
            |d: int| difference(q, v, d).mul_spec(difference(q, v, d)),
        ).take(n).fold_left(
            Binary32 { bits: 0 },
            |sum: Binary32, term: Binary32| sum.add_spec(term),
        ),
    decreases n,
{
    let terms = diff_terms(q, v).take(n);
    let squares = Seq::new(
        v.len(),
        |d: int| difference(q, v, d).mul_spec(difference(q, v, d)),
    ).take(n);
    if n > 0 {
        lemma_adds(q, v, n - 1);
        assert(terms.drop_last() =~= diff_terms(q, v).take(n - 1));
        assert(squares.drop_last() =~= Seq::new(
            v.len(),
            |d: int| difference(q, v, d).mul_spec(difference(q, v, d)),
        ).take(n - 1));
        law_terms_are_products(v[n - 1], q[n - 1]);
        assert(squares.last() == Binary32::of_int(terms.last() as int));
    }
}

/// With fused operations a distance is four sums, each of every fourth dimension: the square of
/// a difference and its addition are rounded together. The four are added in pairs.
pub proof fn law_distance_adds_four_lanes(q: Seq<i16>, v: Seq<i16>)
    requires
        q.len() == 14,
        v.len() == 14,
    ensures
        ({
            let zero = Binary32 { bits: 0 };
            let a = difference(q, v, 12).square_add_spec(
                difference(q, v, 8).square_add_spec(
                    difference(q, v, 4).square_add_spec(difference(q, v, 0).square_add_spec(zero)),
                ),
            );
            let b = difference(q, v, 13).square_add_spec(
                difference(q, v, 9).square_add_spec(
                    difference(q, v, 5).square_add_spec(difference(q, v, 1).square_add_spec(zero)),
                ),
            );
            let c = difference(q, v, 10).square_add_spec(
                difference(q, v, 6).square_add_spec(difference(q, v, 2).square_add_spec(zero)),
            );
            let d = difference(q, v, 11).square_add_spec(
                difference(q, v, 7).square_add_spec(difference(q, v, 3).square_add_spec(zero)),
            );
            vector_dist(true, q, v) == a.add_spec(b).add_spec(c.add_spec(d))
        }),
{
    let terms = diff_terms(q, v);
    assert(terms.take(14) =~= terms);
    lemma_lane(q, v, 0, 12);
    lemma_lane(q, v, 1, 13);
    lemma_lane(q, v, 2, 14);
    lemma_lane(q, v, 3, 14);
    lemma_lane(q, v, 0, 14);
    lemma_lane(q, v, 1, 14);
    lemma_lane(q, v, 0, 0);
    lemma_lane(q, v, 1, 1);
    lemma_lane(q, v, 2, 2);
    lemma_lane(q, v, 3, 3);
    lemma_lane(q, v, 0, 4);
    lemma_lane(q, v, 1, 5);
    lemma_lane(q, v, 2, 6);
    lemma_lane(q, v, 3, 7);
    lemma_lane(q, v, 0, 8);
    lemma_lane(q, v, 1, 9);
    lemma_lane(q, v, 2, 10);
    lemma_lane(q, v, 3, 11);
}

/// One dimension more, of the lane or of another.
proof fn lemma_lane(q: Seq<i16>, v: Seq<i16>, lane: int, n: int)
    requires
        q.len() == 14,
        v.len() == 14,
        0 <= lane < 4,
        0 <= n <= 14,
    ensures
        n <= lane ==> lane_sum(diff_terms(q, v).take(n), lane).bits == 0,
        n > lane && n >= 1 ==> lane_sum(diff_terms(q, v).take(n), lane) == ({
            let d = n - 1 - (n - 1 - lane) % 4;
            difference(q, v, d).square_add_spec(lane_sum(diff_terms(q, v).take(d), lane))
        }),
    decreases n,
{
    let terms = diff_terms(q, v).take(n);
    if n > 0 {
        assert(terms.drop_last() =~= diff_terms(q, v).take(n - 1));
        if n - 1 >= lane && (n - 1) % 4 == lane {
            assert((n - 1 - lane) % 4 == 0);
            lemma_diff_terms_small(q, v);
            let before = diff_terms(q, v).take(n - 1);
            assert(crate::index::distance::small_terms(before)) by {
                assert forall|i: int| 0 <= i < before.len() implies #[trigger] before[i]
                    <= 0x4_0000_0000 by {
                    assert(before[i] == diff_terms(q, v)[i]);
                }
            }
            lemma_lane_is_finite(before, lane);
            law_lane_steps_are_fused(lane_sum(before, lane), v[n - 1], q[n - 1]);
            assert(terms.last() == square(v[n - 1] - q[n - 1]));
        } else {
            lemma_lane(q, v, lane, n - 1);
        }
    }
}

/// A distance does not depend on which of the two vectors is the query, and that of a vector to
/// itself is zero.
pub proof fn law_distance_is_symmetric(fma: bool, a: Seq<i16>, b: Seq<i16>)
    requires
        a.len() == b.len(),
    ensures
        vector_dist(fma, a, b) == vector_dist(fma, b, a),
{
    assert forall|d: int| 0 <= d < a.len() implies diff_terms(a, b)[d] == #[trigger] diff_terms(
        b,
        a,
    )[d] by {
        assert((b[d] - a[d]) * (b[d] - a[d]) == (a[d] - b[d]) * (a[d] - b[d])) by (nonlinear_arith);
    }
    assert(diff_terms(a, b) =~= diff_terms(b, a));
}

/// The lower bound of a box is the distance to its nearest point: the query itself where it lies
/// between the bounds, and else the nearer bound.
pub proof fn law_lower_bound_is_a_distance(fma: bool, q: Seq<i16>, min: Bbox, max: Bbox)
    requires
        q.len() == 14,
        forall|d: int| 0 <= d < 14 ==> #[trigger] min.data@[d] <= max.data@[d],
        min.data@[14] == 0,
        min.data@[15] == 0,
        max.data@[14] == 0,
        max.data@[15] == 0,
    ensures
        lower_bound(fma, padded_lanes(q), min, max) == vector_dist(
            fma,
            q,
            Seq::new(
                14,
                |d: int|
                    if q[d] < min.data@[d] {
                        min.data@[d]
                    } else if q[d] > max.data@[d] {
                        max.data@[d]
                    } else {
                        q[d]
                    },
            ),
        ),
{
    let p = Seq::new(
        14,
        |d: int|
            if q[d] < min.data@[d] {
                min.data@[d]
            } else if q[d] > max.data@[d] {
                max.data@[d]
            } else {
                q[d]
            },
    );
    law_padding_contributes_nothing(fma, q, min, max);
    let terms = box_terms(padded_lanes(q), min, max).take(14);
    assert forall|d: int| 0 <= d < 14 implies #[trigger] terms[d] == diff_terms(q, p)[d] by {
        assert(min.data@[d] <= max.data@[d]);
        let n = outside(q[d] as int, min.data@[d] as int, max.data@[d] as int);
        let m = p[d] - q[d];
        assert(n == m || n == -m);
        assert(n * n == m * m) by (nonlinear_arith)
            requires
                n == m || n == -m,
        ;
    }
    assert(terms =~= diff_terms(q, p));
}

/// Bounds that are the wrong way round are told by the farther of the two.
pub proof fn law_crossed_bounds_count_the_farther(q: int, min: int, max: int)
    requires
        min > max,
    ensures
        min - q >= q - max ==> outside(q, min, max) == min - q,
        min - q < q - max ==> outside(q, min, max) == q - max,
{
}

/// The terms of one lane, in order.
pub open spec fn lane_terms(q: Seq<i16>, v: Seq<i16>, lane: int) -> Seq<Binary32> {
    Seq::new(((v.len() + 3 - lane) / 4) as nat, |j: int| difference(q, v, lane + 4 * j))
}

/// With fused operations a distance over any number of dimensions is that of four lanes, each of
/// every fourth dimension from the lane on, added in pairs.
pub proof fn law_distance_adds_lanes(q: Seq<i16>, v: Seq<i16>)
    requires
        v.len() <= 16,
    ensures
        ({
            let lane = |k: int|
                lane_terms(q, v, k).fold_left(
                    Binary32 { bits: 0 },
                    |sum: Binary32, x: Binary32| x.square_add_spec(sum),
                );
            vector_dist(true, q, v) == lane(0).add_spec(lane(1)).add_spec(
                lane(2).add_spec(lane(3)),
            )
        }),
{
    let n = v.len() as int;
    assert(diff_terms(q, v).take(n) =~= diff_terms(q, v));
    assert(v.take(n) =~= v);
    lemma_lane_fold(q, v, 0, n);
    lemma_lane_fold(q, v, 1, n);
    lemma_lane_fold(q, v, 2, n);
    lemma_lane_fold(q, v, 3, n);
}

proof fn lemma_lane_fold(q: Seq<i16>, v: Seq<i16>, lane: int, n: int)
    requires
        0 <= lane < 4,
        0 <= n <= v.len() <= 16,
    ensures
        lane_sum(diff_terms(q, v).take(n), lane) == lane_terms(q, v.take(n), lane).fold_left(
            Binary32 { bits: 0 },
            |sum: Binary32, x: Binary32| x.square_add_spec(sum),
        ),
    decreases n,
{
    let f = |sum: Binary32, x: Binary32| x.square_add_spec(sum);
    let terms = diff_terms(q, v).take(n);
    let these = lane_terms(q, v.take(n), lane);
    if n == 0 {
        assert(these =~= seq![]);
    } else {
        lemma_lane_fold(q, v, lane, n - 1);
        let before = lane_terms(q, v.take(n - 1), lane);
        assert(terms.drop_last() =~= diff_terms(q, v).take(n - 1));
        if (n - 1) % 4 == lane {
            let less = diff_terms(q, v).take(n - 1);
            lemma_diff_terms_small(q, v);
            assert(crate::index::distance::small_terms(less)) by {
                assert forall|i: int| 0 <= i < less.len() implies #[trigger] less[i]
                    <= 0x4_0000_0000 by {
                    assert(less[i] == diff_terms(q, v)[i]);
                }
            }
            lemma_lane_is_finite(less, lane);
            law_lane_steps_are_fused(lane_sum(less, lane), v[n - 1], q[n - 1]);
            assert(terms.last() == square(v[n - 1] - q[n - 1]));
            assert(these.len() == before.len() + 1);
            assert(lane + 4 * before.len() == n - 1);
            assert(these.last() == difference(q, v, n - 1));
            assert(these.drop_last() =~= before);
        } else {
            assert(these.len() == before.len());
            assert(these =~= before);
        }
    }
}

/// The lower bound of a box of sixteen lanes is the distance from the lanes to their nearest
/// point within the bounds.
pub proof fn law_lower_bound_over_lanes(fma: bool, lanes: Seq<i16>, min: Bbox, max: Bbox)
    requires
        lanes.len() == 16,
        forall|d: int| 0 <= d < 16 ==> #[trigger] min.data@[d] <= max.data@[d],
    ensures
        lower_bound(fma, lanes, min, max) == vector_dist(
            fma,
            lanes,
            Seq::new(
                16,
                |d: int|
                    if lanes[d] < min.data@[d] {
                        min.data@[d]
                    } else if lanes[d] > max.data@[d] {
                        max.data@[d]
                    } else {
                        lanes[d]
                    },
            ),
        ),
{
    let p = Seq::new(
        16,
        |d: int|
            if lanes[d] < min.data@[d] {
                min.data@[d]
            } else if lanes[d] > max.data@[d] {
                max.data@[d]
            } else {
                lanes[d]
            },
    );
    let terms = box_terms(lanes, min, max);
    assert forall|d: int| 0 <= d < 16 implies #[trigger] terms[d] == diff_terms(lanes, p)[d] by {
        assert(min.data@[d] <= max.data@[d]);
        let n = outside(lanes[d] as int, min.data@[d] as int, max.data@[d] as int);
        let m = p[d] - lanes[d];
        assert(n == m || n == -m);
        assert(n * n == m * m) by (nonlinear_arith)
            requires
                n == m || n == -m,
        ;
    }
    assert(terms =~= diff_terms(lanes, p));
}

/// Each lane counts the square of how far it lies outside its bounds, whatever the bounds are.
pub proof fn law_lower_bound_sums_lanes(fma: bool, lanes: Seq<i16>, min: Bbox, max: Bbox)
    ensures
        lower_bound(fma, lanes, min, max) == sum_terms(
            fma,
            Seq::new(
                16,
                |d: int|
                    {
                        let n = outside(
                            lanes[d] as int,
                            min.data@[d] as int,
                            max.data@[d] as int,
                        );
                        (n * n) as nat
                    },
            ),
        ),
{
    assert(box_terms(lanes, min, max) =~= Seq::new(
        16,
        |d: int|
            {
                let n = outside(lanes[d] as int, min.data@[d] as int, max.data@[d] as int);
                (n * n) as nat
            },
    ));
}

/// A query fills the lanes of a box with its features and two zeros.
pub proof fn law_query_fills_lanes(q: Seq<i16>, d: int)
    requires
        q.len() == 14,
        0 <= d < 16,
    ensures
        padded_lanes(q).len() == 16,
        padded_lanes(q)[d] == if d < 14 {
            q[d]
        } else {
            0
        },
{
}

} // verus!
