//! Lower bounds on the distance from a query to the vectors of a cluster.

use vstd::prelude::*;

use crate::binary32::Binary32;
use crate::index::distance::add_square;
#[allow(unused_imports)]
use crate::index::distance::{
    is_dist, lane_sum, lemma_lane_is_finite, lemma_sum_is_dist, lemma_sum_mono, lemma_sum_prefix,
    small_terms, square, sum_ints, sum_terms,
};
use crate::index::layout::{Bbox, BBOX_LANES, N_DIMS};
#[allow(unused_imports)]
use crate::index::simd::{diff_terms, lemma_diff_terms_small, vector_dist};

verus! {

/// How far `q` lies outside `[min, max]`.
pub open spec fn outside(q: int, min: int, max: int) -> int {
    if min - q >= q - max && min - q > 0 {
        min - q
    } else if q - max > 0 {
        q - max
    } else {
        0
    }
}

/// The squared distances to the box, lane by lane.
pub open spec fn box_terms(lanes: Seq<i16>, min: Bbox, max: Bbox) -> Seq<nat> {
    Seq::new(
        16,
        |l: int| square(outside(lanes[l] as int, min.data@[l] as int, max.data@[l] as int)),
    )
}

/// The lower bound of a cluster, added up in single precision in the order of the distances.
pub open spec fn lower_bound(fma: bool, lanes: Seq<i16>, min: Bbox, max: Bbox) -> Binary32 {
    sum_terms(fma, box_terms(lanes, min, max))
}

/// The query with the padding lanes of a box.
pub open spec fn padded_lanes(query: Seq<i16>) -> Seq<i16> {
    Seq::new(
        16,
        |l: int|
            if l < 14 {
                query[l]
            } else {
                0
            },
    )
}

/// Every dimension of the vector lies between the bounds.
pub open spec fn in_box(v: Seq<i16>, min: Bbox, max: Bbox) -> bool {
    forall|d: int| 0 <= d < 14 ==> min.data@[d] <= #[trigger] v[d] <= max.data@[d]
}

/// The padding lanes of both bounds are zero.
pub open spec fn zero_padded(min: Bbox, max: Bbox) -> bool {
    &&& min.data@[14] == 0
    &&& min.data@[15] == 0
    &&& max.data@[14] == 0
    &&& max.data@[15] == 0
}

proof fn lemma_box_terms_small(lanes: Seq<i16>, min: Bbox, max: Bbox)
    ensures
        small_terms(box_terms(lanes, min, max)),
{
    let terms = box_terms(lanes, min, max);
    assert forall|l: int| 0 <= l < terms.len() implies #[trigger] terms[l] <= 0x4_0000_0000 by {
        let n = outside(lanes[l] as int, min.data@[l] as int, max.data@[l] as int);
        assert(0 <= n * n <= 65535 * 65535) by (nonlinear_arith)
            requires
                0 <= n <= 65535,
        ;
    }
}

/// A lower bound is finite and not negative.
pub proof fn law_lower_bound_in_range(fma: bool, lanes: Seq<i16>, min: Bbox, max: Bbox)
    ensures
        is_dist(lower_bound(fma, lanes, min, max)),
{
    lemma_box_terms_small(lanes, min, max);
    lemma_sum_is_dist(fma, box_terms(lanes, min, max));
}

/// No vector within the bounds is nearer to the query than the lower bound.
pub proof fn law_lower_bound(fma: bool, query: Seq<i16>, v: Seq<i16>, min: Bbox, max: Bbox)
    requires
        query.len() == 14,
        v.len() == 14,
        in_box(v, min, max),
        zero_padded(min, max),
    ensures
        lower_bound(fma, padded_lanes(query), min, max).bits <= vector_dist(fma, query, v).bits,
{
    let lanes = padded_lanes(query);
    let a = box_terms(lanes, min, max);
    let b = diff_terms(query, v);
    lemma_box_terms_small(lanes, min, max);
    lemma_diff_terms_small(query, v);
    assert(a[14] == 0 && a[15] == 0);
    lemma_sum_prefix(fma, a, 14);
    let head = a.take(14);
    assert forall|d: int| 0 <= d < head.len() implies #[trigger] head[d] <= b[d] by {
        let q = query[d] as int;
        let x = v[d] as int;
        let n = outside(q, min.data@[d] as int, max.data@[d] as int);
        assert(min.data@[d] <= v[d] <= max.data@[d]);
        assert(n * n <= (x - q) * (x - q)) by (nonlinear_arith)
            requires
                0 <= n,
                n <= x - q || n <= q - x,
        ;
        assert(n * n >= 0) by (nonlinear_arith);
    }
    lemma_sum_mono(fma, head, b);
}

/// The padding lanes contribute nothing to the lower bound.
pub proof fn law_padding_contributes_nothing(fma: bool, query: Seq<i16>, min: Bbox, max: Bbox)
    requires
        query.len() == 14,
        zero_padded(min, max),
    ensures
        lower_bound(fma, padded_lanes(query), min, max) == sum_terms(
            fma,
            box_terms(padded_lanes(query), min, max).take(14),
        ),
{
    let lanes = padded_lanes(query);
    let a = box_terms(lanes, min, max);
    lemma_box_terms_small(lanes, min, max);
    assert(a[14] == 0 && a[15] == 0);
    lemma_sum_prefix(fma, a, 14);
}

/// Pads a quantised query to the lanes of a box.
pub fn query_to_bbox_lanes(query_i16: &[i16; N_DIMS]) -> (r: [i16; BBOX_LANES])
    ensures
        r@ == padded_lanes(query_i16@),
{
    let mut lanes: [i16; BBOX_LANES] = [0i16;BBOX_LANES];
    let mut d: usize = 0;
    while d < N_DIMS
        invariant
            d <= 14,
            forall|l: int| 0 <= l < d ==> #[trigger] lanes@[l] == query_i16@[l],
            forall|l: int| d <= l < 16 ==> #[trigger] lanes@[l] == 0,
        decreases 14 - d,
    {
        lanes[d] = query_i16[d];
        d = d + 1;
    }
    assert(lanes@ =~= padded_lanes(query_i16@));
    lanes
}

/// How far `q` lies outside `[min, max]`.
fn gap(q: i16, min: i16, max: i16) -> (r: i64)
    ensures
        r == outside(q as int, min as int, max as int),
        0 <= r <= 65535,
{
    let below: i64 = min as i64 - q as i64;
    let above: i64 = q as i64 - max as i64;
    if below >= above && below > 0 {
        below
    } else if above > 0 {
        above
    } else {
        0
    }
}

/// Lower bound on the squared distance from the query to any vector within the bounds, added up
/// as the distances are on a machine with or without fused multiplication and addition.
pub fn bbox_lower_bound(q_lanes: &[i16; BBOX_LANES], min: &Bbox, max: &Bbox, fma: bool) -> (r:
    Binary32)
    ensures
        r == lower_bound(fma, q_lanes@, *min, *max),
{
    if fma {
        fused_lower_bound(q_lanes, min, max)
    } else {
        plain_lower_bound(q_lanes, min, max)
    }
}

fn plain_lower_bound(q_lanes: &[i16; BBOX_LANES], min: &Bbox, max: &Bbox) -> (r: Binary32)
    ensures
        r == lower_bound(false, q_lanes@, *min, *max),
{
    let ghost terms = box_terms(q_lanes@, *min, *max);
    let mut sum = Binary32 { bits: 0 };
    let mut l: usize = 0;
    while l < BBOX_LANES
        invariant
            l <= 16,
            terms == box_terms(q_lanes@, *min, *max),
            sum == sum_ints(terms.take(l as int)),
        decreases 16 - l,
    {
        let n = gap(q_lanes[l], min.data[l], max.data[l]);
        proof {
            assert(0 <= n * n <= 65535 * 65535) by (nonlinear_arith)
                requires
                    0 <= n <= 65535,
            ;
            assert(terms.take(l + 1).drop_last() =~= terms.take(l as int));
            assert(terms.take(l + 1).last() == terms[l as int]);
        }
        let sq: i64 = n * n;
        sum = sum.add(Binary32::from_u32(sq as u32));
        l = l + 1;
    }
    assert(terms.take(16) =~= terms);
    sum
}

fn fused_lower_bound(q_lanes: &[i16; BBOX_LANES], min: &Bbox, max: &Bbox) -> (r: Binary32)
    ensures
        r == lower_bound(true, q_lanes@, *min, *max),
{
    let ghost terms = box_terms(q_lanes@, *min, *max);
    let mut sums: [Binary32; 4] = [Binary32 { bits: 0 };4];
    let mut l: usize = 0;
    while l < BBOX_LANES
        invariant
            l <= 16,
            terms == box_terms(q_lanes@, *min, *max),
            forall|k: int|
                0 <= k < 4 ==> #[trigger] sums@[k] == lane_sum(terms.take(l as int), k),
        decreases 16 - l,
    {
        let n = gap(q_lanes[l], min.data[l], max.data[l]);
        proof {
            lemma_box_terms_small(q_lanes@, *min, *max);
            let part = terms.take(l as int);
            assert forall|i: int| 0 <= i < part.len() implies #[trigger] part[i]
                <= 0x4_0000_0000 by {
                assert(part[i] == terms[i]);
            }
            lemma_lane_is_finite(part, l as int % 4);
            assert(terms.take(l + 1).drop_last() =~= part);
            assert(terms.take(l + 1).last() == terms[l as int]);
        }
        let sum = add_square(sums[l % 4], n);
        sums[l % 4] = sum;
        l = l + 1;
    }
    assert(terms.take(16) =~= terms);
    sums[0].add(sums[1]).add(sums[2].add(sums[3]))
}

} // verus!
