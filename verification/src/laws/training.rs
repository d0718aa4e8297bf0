//! How the clusters of an index come about, and which are nearest.

use vstd::prelude::*;

use crate::binary32::Binary32;
use crate::binary64::Binary64;
#[allow(unused_imports)]
use crate::index::clusters::{
    centroid_dists, dists_of, indices_of, insertion_sorted, l2sq, l2sq_lane, l2sq_lanes, l2sq_on,
    law_nearest_clusters, lemma_max_is_max, lemma_selected_len, lemma_selected_nearest,
    max_index, nearest_clusters, no_nan, probe_count, query_dists, selected, square_at,
    with_front,
};
#[allow(unused_imports)]
use crate::index::kmeans::{
    are_means, assigned, chosen, comparable, coordinate_sum, initial, is_run, law_min_index,
    mean_coordinate, members, min_index, near_dists, nearest_all, not_positive, own_dists, sum_of,
    trained, weighted_pick,
};
use crate::index::layout::N_DIMS;
#[allow(unused_imports)]
use crate::index::search::{insert_pos, lemma_insert_pos_bounds};

verus! {

// ── Sums ─────────────────────────────────────────────────────────────────────

/// A sum adds the numbers one after the other, starting from zero.
pub proof fn law_sum_adds_in_order(s: Seq<Binary32>, n: nat)
    requires
        n <= s.len(),
    ensures
        sum_of(s, n) == s.take(n as int).fold_left(
            Binary32 { bits: 0 },
            |sum: Binary32, x: Binary32| sum.add_spec(x),
        ),
    decreases n,
{
    if n > 0 {
        law_sum_adds_in_order(s, (n - 1) as nat);
        assert(s.take(n as int).drop_last() =~= s.take(n - 1));
    }
}

/// The squared distance of two vectors adds the squares of their differences, one after the
/// other.
pub proof fn law_squared_distance_adds_in_order(a: Seq<Binary32>, b: Seq<Binary32>, n: nat)
    ensures
        l2sq(a, b, n) == Seq::new(
            n,
            |d: int| a[d].sub_spec(b[d]).mul_spec(a[d].sub_spec(b[d])),
        ).fold_left(Binary32 { bits: 0 }, |sum: Binary32, x: Binary32| sum.add_spec(x)),
    decreases n,
{
    if n > 0 {
        law_squared_distance_adds_in_order(a, b, (n - 1) as nat);
        let terms = Seq::new(n, |d: int| a[d].sub_spec(b[d]).mul_spec(a[d].sub_spec(b[d])));
        assert(terms.drop_last() =~= Seq::new(
            (n - 1) as nat,
            |d: int| a[d].sub_spec(b[d]).mul_spec(a[d].sub_spec(b[d])),
        ));
    }
}

/// The distance of a query to a centroid is told dimension by dimension, or, with fused
/// operations, in four lanes of three dimensions and a rest of two.
pub proof fn law_query_distance(a: Seq<Binary32>, b: Seq<Binary32>)
    ensures
        l2sq_on(false, a, b) == l2sq(a, b, 14),
        l2sq_on(true, a, b) == ({
            let diff = |d: int| a[d].sub_spec(b[d]);
            let square = |d: int| diff(d).mul_spec(diff(d));
            let lane = |k: int| diff(k + 8).square_add_spec(square(k)).add_spec(square(k + 4));
            lane(0).add_spec(lane(1)).add_spec(lane(2).add_spec(lane(3))).add_spec(
                square(12).add_spec(square(13)),
            )
        }),
{
}

/// The distances of a query are those to the centroids, in their order.
pub proof fn law_query_distances_are_in_order(
    fma: bool,
    q: Seq<Binary32>,
    centroids: Seq<[Binary32; N_DIMS]>,
    c: int,
)
    ensures
        query_dists(fma, q, centroids).len() == centroids.len(),
        centroid_dists(q, centroids).len() == centroids.len(),
        0 <= c < centroids.len() ==> query_dists(fma, q, centroids)[c] == l2sq_on(
            fma,
            q,
            centroids[c]@,
        ) && centroid_dists(q, centroids)[c] == l2sq(q, centroids[c]@, 14),
{
}

// ── First centroids ──────────────────────────────────────────────────────────

/// What is left of a threshold after the first weights are taken off, one after the other.
pub open spec fn left_of(threshold: Binary32, weights: Seq<Binary32>) -> Binary32 {
    weights.fold_left(threshold, |t: Binary32, w: Binary32| t.sub_spec(w))
}

/// Zero or below zero.
pub open spec fn used_up(x: Binary32) -> bool {
    x.bits == 0 || 0x8000_0000 <= x.bits <= 0xFF80_0000
}

/// The pick is the first position at which the weights up to and with it use up the threshold,
/// and the last position where they never do.
pub proof fn law_pick_uses_up_the_threshold(
    weights: Seq<Binary32>,
    threshold: Binary32,
    j: int,
)
    requires
        weights.len() > 0,
    ensures
        ({
            let p = weighted_pick(weights, threshold, 0);
            &&& 0 <= p < weights.len()
            &&& p < weights.len() - 1 ==> used_up(
                weights.take(p + 1).fold_left(
                    threshold,
                    |t: Binary32, w: Binary32| t.sub_spec(w),
                ),
            )
            &&& 0 <= j < p ==> !used_up(
                weights.take(j + 1).fold_left(
                    threshold,
                    |t: Binary32, w: Binary32| t.sub_spec(w),
                ),
            )
        }),
{
    assert(weights.take(0) =~= seq![]);
    lemma_pick_from(weights, threshold, 0, j);
}

proof fn lemma_pick_from(weights: Seq<Binary32>, threshold: Binary32, i: int, j: int)
    requires
        0 <= i <= weights.len(),
        weights.len() > 0,
    ensures
        ({
            let p = weighted_pick(weights, left_of(threshold, weights.take(i)), i);
            &&& i <= p < weights.len() || (i == weights.len() && p == i - 1)
            &&& i <= p < weights.len() - 1 ==> used_up(left_of(threshold, weights.take(p + 1)))
            &&& i <= j < p ==> !used_up(left_of(threshold, weights.take(j + 1)))
        }),
    decreases weights.len() - i,
{
    if i < weights.len() {
        assert(weights.take(i + 1).drop_last() =~= weights.take(i));
        assert(weights.take(i + 1).last() == weights[i]);
        let rest = left_of(threshold, weights.take(i)).sub_spec(weights[i]);
        assert(rest == left_of(threshold, weights.take(i + 1)));
        assert(not_positive(rest) == used_up(rest)) by {
            assert(rest.low() == rest.bits % 0x8000_0000);
        }
        lemma_pick_from(weights, threshold, i + 1, j);
    }
}

/// The first centroid is the vector that was named. Each further one is picked with the weights
/// of the distances to the nearest centroid so far: a draw says which share of their sum is to be
/// used up.
pub proof fn law_centroids_are_picked_by_distance(
    vectors: Seq<[Binary32; N_DIMS]>,
    nlist: nat,
    first: int,
    draws: Seq<Binary32>,
    n: nat,
)
    requires
        0 <= first < vectors.len(),
        n < nlist,
    ensures
        initial(vectors, nlist, first, draws).len() == nlist,
        initial(vectors, 0, first, draws).len() == 1,
        initial(vectors, 0, first, draws)[0] == vectors[first],
        initial(vectors, nlist, first, draws)[0] == vectors[first],
        n > 0 ==> {
            let dists = near_dists(vectors, first, draws, n);
            let sum = dists.fold_left(
                Binary32 { bits: 0 },
                |sum: Binary32, x: Binary32| sum.add_spec(x),
            );
            &&& dists.len() == vectors.len()
            &&& initial(vectors, nlist, first, draws)[n as int] == vectors[weighted_pick(
                dists,
                draws[n - 1].mul_spec(sum),
                0,
            )]
        },
{
    if n > 0 {
        let dists = near_dists(vectors, first, draws, n);
        law_sum_adds_in_order(dists, dists.len());
        assert(dists.take(dists.len() as int) =~= dists);
    }
}

/// The distance to the nearest of the first centroids is that to the only one, and one more
/// centroid replaces it where it is nearer, and only there.
pub proof fn law_nearer_centroid_replaces_distance(
    vectors: Seq<[Binary32; N_DIMS]>,
    nlist: nat,
    first: int,
    draws: Seq<Binary32>,
    n: nat,
    i: int,
)
    requires
        0 < n < nlist,
        0 <= i < vectors.len(),
    ensures
        near_dists(vectors, first, draws, 1)[i] == l2sq(vectors[i]@, vectors[first]@, 14),
        ({
            let new = l2sq(
                vectors[i]@,
                initial(vectors, nlist, first, draws)[n as int]@,
                14,
            );
            let before = near_dists(vectors, first, draws, n)[i];
            near_dists(vectors, first, draws, n + 1)[i] == if new.lt_spec(before) {
                new
            } else {
                before
            }
        }),
{
    reveal_with_fuel(near_dists, 2);
    reveal_with_fuel(chosen, 2);
}

// ── Means ────────────────────────────────────────────────────────────────────

/// The members of a cluster are the assignments to it.
pub proof fn law_members_are_counted(assignments: Seq<u32>, c: u32, n: nat)
    requires
        n <= assignments.len(),
    ensures
        members(assignments, c as int, n) == assignments.take(n as int).to_multiset().count(c),
    decreases n,
{
    broadcast use vstd::seq_lib::group_to_multiset_ensures;
    broadcast use vstd::multiset::group_multiset_axioms;

    if n > 0 {
        law_members_are_counted(assignments, c, (n - 1) as nat);
        assert(assignments.take(n as int) =~= assignments.take(n - 1).push(assignments[n - 1]));
    } else {
        assert(assignments.take(0) =~= seq![]);
        assert(assignments.take(0).to_multiset() =~= vstd::multiset::Multiset::empty());
    }
}

/// The sum of a coordinate over a cluster adds, in double precision, those of its members in
/// their order, and of no others.
pub proof fn law_coordinates_of_members_are_added(
    vectors: Seq<[Binary32; N_DIMS]>,
    assignments: Seq<u32>,
    c: int,
    d: int,
    n: nat,
)
    requires
        n <= vectors.len(),
        n <= assignments.len(),
    ensures
        coordinate_sum(vectors, assignments, c, d, n) == Seq::new(
            n,
            |i: int| (assignments[i], vectors[i]@[d]),
        ).filter(|e: (u32, Binary32)| e.0 == c).fold_left(
            Binary64 { bits: 0 },
            |sum: Binary64, e: (u32, Binary32)| sum.add_spec(Binary64::of_single(e.1)),
        ),
    decreases n,
{
    let pairs = Seq::new(n, |i: int| (assignments[i], vectors[i]@[d]));
    let keep = |e: (u32, Binary32)| e.0 == c;
    reveal(Seq::filter);
    if n > 0 {
        law_coordinates_of_members_are_added(vectors, assignments, c, d, (n - 1) as nat);
        let h = Seq::new((n - 1) as nat, |i: int| (assignments[i], vectors[i]@[d]));
        assert(pairs.drop_last() =~= h);
        if assignments[n - 1] == c {
            let f = pairs.filter(keep);
            assert(f == h.filter(keep).push(pairs.last()));
            assert(f.drop_last() =~= h.filter(keep));
        }
    }
}

/// A centroid is, in each coordinate, the sum over the members of its cluster divided by their
/// number in double precision, as a single-precision number; a cluster without members keeps its
/// centroid.
pub proof fn law_centroids_become_means(
    vectors: Seq<[Binary32; N_DIMS]>,
    assignments: Seq<u32>,
    prev: Seq<[Binary32; N_DIMS]>,
    centroids: Seq<[Binary32; N_DIMS]>,
    nlist: nat,
    c: int,
    d: int,
)
    requires
        are_means(vectors, assignments, nlist, prev, centroids),
        0 <= c < nlist,
        0 <= d < 14,
    ensures
        ({
            let all = if vectors.len() <= assignments.len() {
                vectors.len()
            } else {
                assignments.len()
            };
            let n = members(assignments, c, all);
            let sum = coordinate_sum(vectors, assignments, c, d, all);
            &&& centroids.len() == nlist
            &&& n == 0 ==> centroids[c]@[d] == prev[c]@[d]
            &&& n > 0 ==> centroids[c]@[d] == sum.div_spec(Binary64::of_nat(n)).single_spec()
        }),
{
}

// ── Nearest centroids ────────────────────────────────────────────────────────

/// A vector is assigned to the nearest centroid, the first of several at the same distance.
pub proof fn law_assigned_centroid_is_nearest(
    vectors: Seq<[Binary32; N_DIMS]>,
    centroids: Seq<[Binary32; N_DIMS]>,
    i: int,
    c: int,
)
    requires
        0 <= i < vectors.len(),
        0 <= c < centroids.len() <= u32::MAX,
        centroids.len() == 1 || forall|k: int|
            0 <= k < centroids.len() ==> !l2sq(
                vectors[i]@,
                (#[trigger] centroids[k])@,
                14,
            ).is_nan_spec(),
    ensures
        ({
            let a = nearest_all(vectors, centroids)[i] as int;
            let own = l2sq(vectors[i]@, centroids[a]@, 14);
            let other = l2sq(vectors[i]@, centroids[c]@, 14);
            &&& nearest_all(vectors, centroids).len() == vectors.len()
            &&& 0 <= a < centroids.len()
            &&& !other.lt_spec(own)
            &&& c < a ==> own.lt_spec(other)
        }),
{
    let dists = centroid_dists(vectors[i]@, centroids);
    assert(comparable(dists)) by {
        if dists.len() != 1 {
            assert forall|k: int| 0 <= k < dists.len() implies !(
            #[trigger] dists[k]).is_nan_spec() by {
                assert(!l2sq(vectors[i]@, centroids[k]@, 14).is_nan_spec());
            }
        }
    }
    law_min_index(dists);
    assert(!dists[c].lt_spec(dists[min_index(dists)]));
}

/// Where some distances are not numbers, the first position that no later one beats stays: one
/// more distance is taken if it is smaller than that of the position so far, and only then.
pub proof fn law_smaller_distance_takes_over(dists: Seq<Binary32>, d: Binary32)
    requires
        dists.len() > 0,
    ensures
        min_index(seq![d]) == 0,
        max_index(seq![d]) == 0,
        min_index(dists.push(d)) == if d.lt_spec(dists[min_index(dists)]) {
            dists.len() as int
        } else {
            min_index(dists)
        },
        max_index(dists.push(d)) == if dists[max_index(dists)].lt_spec(d) {
            dists.len() as int
        } else {
            max_index(dists)
        },
{
    assert(dists.push(d).drop_last() =~= dists);
    lemma_min_bounds(dists);
}

proof fn lemma_min_bounds(dists: Seq<Binary32>)
    requires
        dists.len() > 0,
    ensures
        0 <= min_index(dists) < dists.len(),
        0 <= max_index(dists) < dists.len(),
    decreases dists.len(),
{
    if dists.len() > 1 {
        lemma_min_bounds(dists.drop_last());
    }
}

/// Each vector is assigned to the position that takes over among its distances.
pub proof fn law_assignment_is_by_distance(
    vectors: Seq<[Binary32; N_DIMS]>,
    centroids: Seq<[Binary32; N_DIMS]>,
    i: int,
)
    requires
        0 < centroids.len() <= u32::MAX,
    ensures
        nearest_all(vectors, centroids).len() == vectors.len(),
        0 <= i < vectors.len() ==> nearest_all(vectors, centroids)[i] == min_index(
            Seq::new(centroids.len(), |c: int| l2sq(vectors[i]@, centroids[c]@, 14)),
        ),
{
    if 0 <= i < vectors.len() {
        let dists = Seq::new(centroids.len(), |c: int| l2sq(vectors[i]@, centroids[c]@, 14));
        assert(centroid_dists(vectors[i]@, centroids) =~= dists);
        lemma_min_bounds(dists);
    }
}

// ── Training ─────────────────────────────────────────────────────────────────

/// A run starts from the first centroids, and each round assigns every vector to its nearest
/// centroid and moves the centroids to the means of the vectors that were assigned to them.
pub proof fn law_rounds_assign_and_move(
    vectors: Seq<[Binary32; N_DIMS]>,
    nlist: nat,
    first: int,
    draws: Seq<Binary32>,
    run: Seq<Seq<[Binary32; N_DIMS]>>,
    k: int,
)
    requires
        is_run(vectors, nlist, first, draws, run),
    ensures
        run.len() > 0,
        run[0] == initial(vectors, nlist, first, draws),
        0 < k < run.len() ==> are_means(vectors, nearest_all(vectors, run[k - 1]), nlist, run[k - 1], run[k]),
{
}

/// Training gives the centroids of the last round, the assignments that they are the means of, and
/// for each round the sum of the distances of all vectors to the new centroids of their clusters.
/// Without a round every vector is assigned to the first cluster.
pub proof fn law_training_gives_the_last_round(
    vectors: Seq<[Binary32; N_DIMS]>,
    run: Seq<Seq<[Binary32; N_DIMS]>>,
    centroids: Seq<[Binary32; N_DIMS]>,
    assignments: Seq<u32>,
    inertias: Seq<Binary32>,
    i: int,
    k: int,
)
    requires
        run.len() > 0,
        trained(vectors, run, centroids, assignments, inertias),
    ensures
        centroids == run[run.len() - 1],
        assignments.len() == vectors.len(),
        0 <= i < vectors.len() && run.len() == 1 ==> assignments[i] == 0,
        0 <= i < vectors.len() && run.len() > 1 ==> assignments[i] == nearest_all(
            vectors,
            run[run.len() - 2],
        )[i],
        inertias.len() == run.len() - 1,
        0 <= k < inertias.len() ==> inertias[k] == Seq::new(
            vectors.len(),
            |j: int|
                l2sq(
                    vectors[j]@,
                    run[k + 1][nearest_all(vectors, run[k])[j] as int]@,
                    14,
                ),
        ).fold_left(Binary32 { bits: 0 }, |sum: Binary32, x: Binary32| sum.add_spec(x)),
{
    if 0 <= k < inertias.len() {
        let own = own_dists(vectors, nearest_all(vectors, run[k]), run[k + 1]);
        let dists = Seq::new(
            vectors.len(),
            |j: int|
                l2sq(vectors[j]@, run[k + 1][nearest_all(vectors, run[k])[j] as int]@, 14),
        );
        assert(inertias[k] == sum_of(own, vectors.len()));
        assert(own =~= dists);
        law_sum_adds_in_order(dists, vectors.len());
        assert(dists.take(vectors.len() as int) =~= dists);
    }
}

/// The inertia of an assignment is taken over the vectors that have one.
pub proof fn law_inertia_is_over_assigned_vectors(
    vectors: Seq<[Binary32; N_DIMS]>,
    assignments: Seq<u32>,
    centroids: Seq<[Binary32; N_DIMS]>,
    i: int,
)
    ensures
        vectors.len() <= assignments.len() ==> assigned(vectors, assignments) == vectors.len(),
        vectors.len() >= assignments.len() ==> assigned(vectors, assignments) == assignments.len(),
        own_dists(vectors, assignments, centroids).len() == assigned(vectors, assignments),
        0 <= i < assigned(vectors, assignments) ==> own_dists(vectors, assignments, centroids)[i]
            == l2sq(vectors[i]@, centroids[assignments[i] as int]@, 14),
{
}

// ── Selection of clusters ────────────────────────────────────────────────────

/// As many clusters are probed as are asked for, there are, and there is room for.
pub proof fn law_probes_fit(nprobe: nat, n: nat, a: nat, b: nat)
    ensures
        ({
            let k = probe_count(nprobe, n, a, b);
            &&& k <= nprobe && k <= n && k <= a && k <= b
            &&& k == nprobe || k == n || k == a || k == b
        }),
{
}

/// The clusters selected are different, each comes with its own distance, they are in ascending
/// order of distance, and no other cluster is nearer than one of them.
pub proof fn law_selected_clusters_are_nearest(dists: Seq<Binary32>, k: nat, i: int, j: int, x: int)
    requires
        k <= dists.len() <= usize::MAX,
        forall|i: int| 0 <= i < dists.len() ==> !(#[trigger] dists[i]).is_nan_spec(),
        0 <= x < dists.len(),
    ensures
        nearest_clusters(dists, k).len() == k,
        0 <= i < k && 0 <= j < k ==> ({
            let r = nearest_clusters(dists, k);
            &&& indices_of(r)[i] < dists.len()
            &&& dists_of(r)[i] == dists[indices_of(r)[i] as int]
            &&& i != j ==> indices_of(r)[i] != indices_of(r)[j]
            &&& i < j ==> !dists_of(r)[j].lt_spec(dists_of(r)[i])
            &&& dists[x].lt_spec(dists_of(r)[i]) ==> exists|y: int|
                0 <= y < k && indices_of(r)[y] == x
        }),
{
    law_nearest_clusters(dists, k);
    let r = nearest_clusters(dists, k);
    assert(no_nan(dists));
    if 0 <= i < k && 0 <= j < k {
        assert(r[i].1 < dists.len() && r[j].1 < dists.len());
        if i < j {
            assert(r[i].1 != r[j].1);
            assert(!r[j].0.lt_spec(r[i].0));
        } else if j < i {
            assert(r[j].1 != r[i].1);
        }
        if dists[x].lt_spec(r[i].0) {
            assert(crate::index::clusters::picked(r, x));
            let y = choose|y: int| 0 <= y < r.len() && (#[trigger] r[y]).1 == x;
            assert(indices_of(r)[y] == x);
        }
    }
}

/// Whatever the distances are, a selection starts with the first clusters, each further one takes
/// the place of the one at the largest distance if it is nearer, and the clusters selected in the
/// end are sorted.
pub proof fn law_selection_step(dists: Seq<Binary32>, k: nat, n: nat)
    requires
        0 < k <= n < dists.len() <= usize::MAX,
    ensures
        ({
            let s = selected(dists, k, n);
            let w = max_index(s.map_values(|e: (Binary32, usize)| e.0));
            &&& selected(dists, k, k) == Seq::new(k, |i: int| (dists[i], i as usize))
            &&& s.len() == k
            &&& dists[n as int].lt_spec(s[w].0) ==> selected(dists, k, n + 1) == s.update(
                w,
                (dists[n as int], n as usize),
            )
            &&& !dists[n as int].lt_spec(s[w].0) ==> selected(dists, k, n + 1) == s
            &&& nearest_clusters(dists, k) == insertion_sorted(selected(dists, k, dists.len()))
        }),
{
    lemma_selected_len(dists, k, n);
}

/// The first `k` clusters are selected to begin with. Each further one takes the place of the
/// first of the farthest if it is nearer, and only then.
pub proof fn law_nearer_cluster_takes_the_farthest(
    dists: Seq<Binary32>,
    k: nat,
    n: nat,
) -> (w: int)
    requires
        0 < k <= n < dists.len() <= usize::MAX,
        forall|i: int| 0 <= i < dists.len() ==> !(#[trigger] dists[i]).is_nan_spec(),
    ensures
        ({
            let s = selected(dists, k, n);
            &&& selected(dists, k, k) == Seq::new(k, |i: int| (dists[i], i as usize))
            &&& s.len() == k
            &&& 0 <= w < k
            &&& forall|i: int| 0 <= i < k ==> !s[w].0.lt_spec((#[trigger] s[i]).0)
            &&& forall|i: int| 0 <= i < w ==> (#[trigger] s[i]).0.lt_spec(s[w].0)
            &&& dists[n as int].lt_spec(s[w].0) ==> selected(dists, k, n + 1) == s.update(
                w,
                (dists[n as int], n as usize),
            )
            &&& !dists[n as int].lt_spec(s[w].0) ==> selected(dists, k, n + 1) == s
        }),
{
    let s = selected(dists, k, n);
    lemma_selected_nearest(dists, k, n);
    let values = dists_of(s);
    assert(no_nan(values)) by {
        assert forall|i: int| 0 <= i < values.len() implies !(
        #[trigger] values[i]).is_nan_spec() by {
            assert(s[i].0 == dists[s[i].1 as int]);
        }
    }
    lemma_max_is_max(values);
    lemma_first_max(values);
    let w = max_index(values);
    assert forall|i: int| 0 <= i < k implies !s[w].0.lt_spec((#[trigger] s[i]).0) by {
        assert(!values[w].lt_spec(values[i]));
    }
    assert forall|i: int| 0 <= i < w implies (#[trigger] s[i]).0.lt_spec(s[w].0) by {
        assert(values[i].lt_spec(values[w]));
    }
    w
}

proof fn lemma_first_max(values: Seq<Binary32>)
    requires
        values.len() > 0,
        no_nan(values),
    ensures
        0 <= max_index(values) < values.len(),
        forall|i: int|
            0 <= i < max_index(values) ==> (#[trigger] values[i]).lt_spec(
                values[max_index(values)],
            ),
    decreases values.len(),
{
    if values.len() > 1 {
        let h = values.drop_last();
        assert(no_nan(h)) by {
            assert forall|i: int| 0 <= i < h.len() implies !(#[trigger] h[i]).is_nan_spec() by {
                assert(!values[i].is_nan_spec());
            }
        }
        lemma_first_max(h);
        lemma_max_is_max(h);
        let m = max_index(h);
        assert(!values[m].is_nan_spec() && !values[values.len() - 1].is_nan_spec());
        if values[m].lt_spec(values.last()) {
            assert forall|i: int| 0 <= i < max_index(values) implies (
            #[trigger] values[i]).lt_spec(values[max_index(values)]) by {
                assert(h[i] == values[i]);
                assert(!h[m].lt_spec(h[i]));
                assert(!values[i].is_nan_spec());
            }
        } else {
            assert forall|i: int| 0 <= i < m implies (#[trigger] values[i]).lt_spec(
                values[m],
            ) by {
                assert(h[i].lt_spec(h[m]));
            }
        }
    }
}

/// Sorting by distance puts each entry behind those before it that are not farther, and before
/// those that are; the others keep their order.
pub proof fn law_sorting_inserts_behind_equals(
    s: Seq<(Binary32, usize)>,
    e: (Binary32, usize),
) -> (at: int)
    ensures
        ({
            let r = insertion_sorted(s);
            &&& insertion_sorted(seq![]) == Seq::<(Binary32, usize)>::empty()
            &&& 0 <= at <= r.len()
            &&& r.len() == s.len()
            &&& insertion_sorted(s.push(e)) == r.insert(at, e)
            &&& forall|i: int| at <= i < r.len() ==> e.0.lt_spec((#[trigger] r[i]).0)
            &&& at > 0 ==> !e.0.lt_spec(r[at - 1].0)
        }),
{
    let r = insertion_sorted(s);
    crate::index::clusters::lemma_sorted_len(s);
    assert(s.push(e).drop_last() =~= s);
    lemma_insert_at(r, e.0);
    insert_pos(r, e.0)
}

proof fn lemma_insert_at(r: Seq<(Binary32, usize)>, d: Binary32)
    ensures
        0 <= insert_pos(r, d) <= r.len(),
        forall|i: int| insert_pos(r, d) <= i < r.len() ==> d.lt_spec((#[trigger] r[i]).0),
        insert_pos(r, d) > 0 ==> !d.lt_spec(r[insert_pos(r, d) - 1].0),
    decreases r.len(),
{
    if r.len() > 0 && d.lt_spec(r.last().0) {
        let h = r.drop_last();
        lemma_insert_at(h, d);
        assert forall|i: int| insert_pos(r, d) <= i < r.len() implies d.lt_spec(
            (#[trigger] r[i]).0,
        ) by {
            if i < h.len() {
                assert(h[i] == r[i]);
            }
        }
    }
}

/// Only the front of a buffer is replaced.
pub proof fn law_rest_of_buffer_stays(s: Seq<usize>, front: Seq<usize>, i: int)
    requires
        front.len() <= s.len(),
        0 <= i < s.len(),
    ensures
        with_front(s, front).len() == s.len(),
        with_front(s, front)[i] == if i < front.len() {
            front[i]
        } else {
            s[i]
        },
{
}

} // verus!
