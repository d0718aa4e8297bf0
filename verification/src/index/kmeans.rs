//! K-means clustering of feature vectors.

use rayon::iter::{IntoParallelRefIterator, ParallelIterator};
use vstd::prelude::*;

use crate::binary32::Binary32;
use crate::binary64::Binary64;
#[allow(unused_imports)]
use crate::index::clusters::{centroid_dists, l2sq, no_nan};
use crate::index::clusters::l2sq_f32_scalar;
use crate::index::layout::N_DIMS;

verus! {

// ── Initialisation ───────────────────────────────────────────────────────────

/// The sum of the first `n` numbers in single precision, from the first on.
pub open spec fn sum_of(s: Seq<Binary32>, n: nat) -> Binary32
    decreases n,
{
    if n == 0 {
        Binary32 { bits: 0 }
    } else {
        sum_of(s, (n - 1) as nat).add_spec(s[n - 1])
    }
}

/// A number that is zero or less.
pub open spec fn not_positive(x: Binary32) -> bool {
    !x.is_nan_spec() && x.order_key() <= 0
}

/// The first position, from `i` on, at which the threshold is used up if each weight is taken
/// off it in turn; the last position if it never is.
pub open spec fn weighted_pick(weights: Seq<Binary32>, threshold: Binary32, i: int) -> int
    decreases weights.len() - i,
{
    if i < 0 || i >= weights.len() {
        weights.len() - 1
    } else {
        let rest = threshold.sub_spec(weights[i]);
        if not_positive(rest) {
            i
        } else {
            weighted_pick(weights, rest, i + 1)
        }
    }
}

/// The squared distance of each vector to the nearest of the first `n` centroids.
pub open spec fn near_dists(
    vectors: Seq<[Binary32; N_DIMS]>,
    first: int,
    draws: Seq<Binary32>,
    n: nat,
) -> Seq<Binary32>
    decreases n, 0nat,
{
    if n == 0 {
        seq![]
    } else {
        let c = vectors[chosen(vectors, first, draws, (n - 1) as nat)]@;
        let before = near_dists(vectors, first, draws, (n - 1) as nat);
        Seq::new(
            vectors.len(),
            |i: int|
                {
                    let d = l2sq(vectors[i]@, c, 14);
                    if n == 1 || d.lt_spec(before[i]) {
                        d
                    } else {
                        before[i]
                    }
                },
        )
    }
}

/// The vector that becomes centroid `n`: the first is given, and each one after that is picked
/// with the squared distances to the nearest centroid so far as weights, by a draw from the unit
/// interval.
pub open spec fn chosen(
    vectors: Seq<[Binary32; N_DIMS]>,
    first: int,
    draws: Seq<Binary32>,
    n: nat,
) -> int
    decreases n, 1nat,
{
    if n == 0 {
        first
    } else {
        let dists = near_dists(vectors, first, draws, n);
        weighted_pick(dists, draws[n - 1].mul_spec(sum_of(dists, dists.len())), 0)
    }
}

proof fn lemma_pick_bounds(weights: Seq<Binary32>, threshold: Binary32, i: int)
    requires
        weights.len() > 0,
    ensures
        0 <= weighted_pick(weights, threshold, i) < weights.len(),
    decreases weights.len() - i,
{
    if 0 <= i < weights.len() {
        lemma_pick_bounds(weights, threshold.sub_spec(weights[i]), i + 1);
    }
}

/// Every centroid is one of the vectors.
pub proof fn law_centroids_are_vectors(
    vectors: Seq<[Binary32; N_DIMS]>,
    first: int,
    draws: Seq<Binary32>,
    n: nat,
)
    requires
        0 <= first < vectors.len(),
    ensures
        0 <= chosen(vectors, first, draws, n) < vectors.len(),
{
    if n > 0 {
        let dists = near_dists(vectors, first, draws, n);
        lemma_pick_bounds(dists, draws[n - 1].mul_spec(sum_of(dists, dists.len())), 0);
    }
}

fn total(s: &Vec<Binary32>) -> (r: Binary32)
    ensures
        r == sum_of(s@, s@.len()),
{
    let mut sum = Binary32 { bits: 0 };
    let mut i: usize = 0;
    while i < s.len()
        invariant
            i <= s@.len(),
            sum == sum_of(s@, i as nat),
        decreases s.len() - i,
    {
        sum = sum.add(s[i]);
        i = i + 1;
    }
    sum
}

fn pick(weights: &Vec<Binary32>, threshold: Binary32) -> (r: usize)
    requires
        weights@.len() > 0,
    ensures
        r == weighted_pick(weights@, threshold, 0),
        r < weights@.len(),
{
    let mut rest = threshold;
    let mut i: usize = 0;
    while i < weights.len()
        invariant
            i <= weights@.len(),
            weights@.len() > 0,
            weighted_pick(weights@, threshold, 0) == weighted_pick(weights@, rest, i as int),
        decreases weights.len() - i,
    {
        rest = rest.sub(weights[i]);
        let zero = Binary32 { bits: 0 };
        if !rest.is_nan() && !zero.lt(rest) {
            return i;
        }
        i = i + 1;
    }
    weights.len() - 1
}

/// The initial centroids; there is always one.
pub open spec fn initial(
    vectors: Seq<[Binary32; N_DIMS]>,
    nlist: nat,
    first: int,
    draws: Seq<Binary32>,
) -> Seq<[Binary32; N_DIMS]> {
    Seq::new(
        if nlist > 0 {
            nlist
        } else {
            1
        },
        |n: int| vectors[chosen(vectors, first, draws, n as nat)],
    )
}

/// Chooses the initial centroids: the first is the vector at `first`, and each one after that is
/// picked with probability proportional to its squared distance to the nearest one so far.
/// `draws` holds one number of the unit interval for each centroid after the first.
pub fn kmeans_plus_plus_init(
    vectors: &[[Binary32; N_DIMS]],
    nlist: usize,
    first: usize,
    draws: &[Binary32],
) -> (r: Vec<[Binary32; N_DIMS]>)
    requires
        vectors.len() > 0,
        nlist <= vectors.len(),
        first < vectors.len(),
        nlist <= draws.len() + 1,
    ensures
        r@ == initial(vectors@, nlist as nat, first as int, draws@),
{
    let ghost want = |n: int| vectors@[chosen(vectors@, first as int, draws@, n as nat)];
    let mut centroids: Vec<[Binary32; N_DIMS]> = Vec::new();
    centroids.push(vectors[first]);
    let mut dists: Vec<Binary32> = Vec::new();
    let mut i: usize = 0;
    while i < vectors.len()
        invariant
            i <= vectors.len(),
            first < vectors.len(),
            centroids@ == seq![vectors@[first as int]],
            dists@.len() == i,
            forall|j: int|
                0 <= j < i ==> #[trigger] dists@[j] == l2sq(
                    vectors@[j]@,
                    vectors@[first as int]@,
                    14,
                ),
        decreases vectors.len() - i,
    {
        dists.push(l2sq_f32_scalar(&vectors[i], &centroids[0]));
        i = i + 1;
    }
    proof {
        reveal_with_fuel(near_dists, 2);
        reveal_with_fuel(chosen, 2);
    }
    assert(dists@ =~= near_dists(vectors@, first as int, draws@, 1));
    assert(centroids@ =~= Seq::new(1, want));
    let mut n: usize = 1;
    while n < nlist
        invariant
            1 <= n,
            n <= nlist || (nlist == 0 && n == 1),
            nlist <= draws.len() + 1,
            first < vectors.len(),
            want == (|n: int| vectors@[chosen(vectors@, first as int, draws@, n as nat)]),
            dists@ == near_dists(vectors@, first as int, draws@, n as nat),
            dists@.len() == vectors@.len(),
            centroids@ == Seq::new(n as nat, want),
        decreases nlist - n,
    {
        let threshold = draws[n - 1].mul(total(&dists));
        let index = pick(&dists, threshold);
        let new_centroid = vectors[index];
        centroids.push(new_centroid);
        assert(centroids@ =~= Seq::new((n + 1) as nat, want));
        let ghost before = dists@;
        let mut i: usize = 0;
        while i < vectors.len()
            invariant
                i <= vectors.len(),
                dists@.len() == vectors@.len(),
                before.len() == vectors@.len(),
                forall|j: int|
                    0 <= j < i ==> #[trigger] dists@[j] == ({
                        let d = l2sq(vectors@[j]@, new_centroid@, 14);
                        if d.lt_spec(before[j]) {
                            d
                        } else {
                            before[j]
                        }
                    }),
                forall|j: int| i <= j < vectors@.len() ==> #[trigger] dists@[j] == before[j],
            decreases vectors.len() - i,
        {
            let d = l2sq_f32_scalar(&vectors[i], &new_centroid);
            if d.lt(dists[i]) {
                dists.set(i, d);
            }
            i = i + 1;
        }
        proof {
            reveal_with_fuel(near_dists, 2);
            reveal_with_fuel(chosen, 2);
        }
        assert(dists@ =~= near_dists(vectors@, first as int, draws@, (n + 1) as nat));
        n = n + 1;
    }
    assert(centroids@ =~= initial(vectors@, nlist as nat, first as int, draws@));
    centroids
}

// ── Assignment ───────────────────────────────────────────────────────────────

/// The first position of the smallest number.
pub open spec fn min_index(dists: Seq<Binary32>) -> int
    decreases dists.len(),
{
    if dists.len() <= 1 {
        0
    } else {
        let m = min_index(dists.drop_last());
        if dists.last().lt_spec(dists[m]) {
            dists.len() - 1
        } else {
            m
        }
    }
}

/// The distances to the centroids can be compared: there is only one, or all are numbers.
pub open spec fn comparable(dists: Seq<Binary32>) -> bool {
    dists.len() == 1 || no_nan(dists)
}

/// The first smallest is smaller than all before it and not larger than any.
pub proof fn law_min_index(dists: Seq<Binary32>)
    requires
        dists.len() > 0,
        comparable(dists),
    ensures
        0 <= min_index(dists) < dists.len(),
        forall|i: int|
            0 <= i < dists.len() ==> !(#[trigger] dists[i]).lt_spec(dists[min_index(dists)]),
        forall|i: int|
            0 <= i < min_index(dists) ==> dists[min_index(dists)].lt_spec(#[trigger] dists[i]),
    decreases dists.len(),
{
    if dists.len() > 1 {
        let h = dists.drop_last();
        assert(no_nan(h)) by {
            assert forall|i: int| 0 <= i < h.len() implies !(#[trigger] h[i]).is_nan_spec() by {
                assert(!dists[i].is_nan_spec());
            }
        }
        law_min_index(h);
        let m = min_index(h);
        assert(!dists[m].is_nan_spec());
        assert(!dists[dists.len() - 1].is_nan_spec());
        assert forall|i: int| 0 <= i < dists.len() implies !(#[trigger] dists[i]).lt_spec(
            dists[min_index(dists)],
        ) by {
            assert(!dists[i].is_nan_spec());
            if i < h.len() {
                assert(!h[i].lt_spec(h[m]));
            }
        }
        assert forall|i: int| 0 <= i < min_index(dists) implies dists[min_index(dists)].lt_spec(
            #[trigger] dists[i],
        ) by {
            assert(!dists[i].is_nan_spec());
            assert(!h[i].lt_spec(h[m]));
            if i < m {
                assert(h[m].lt_spec(h[i]));
            }
        }
    }
}

/// The nearest centroid of a vector; of several that are as near, the first.
pub fn nearest_centroid(v: &[Binary32; N_DIMS], centroids: &[[Binary32; N_DIMS]]) -> (r: u32)
    requires
        0 < centroids.len() <= u32::MAX,
        comparable(centroid_dists(v@, centroids@)),
    ensures
        r == min_index(centroid_dists(v@, centroids@)),
        r < centroids@.len(),
{
    let ghost dists = centroid_dists(v@, centroids@);
    let mut best: usize = 0;
    let mut best_dist = l2sq_f32_scalar(v, &centroids[0]);
    let mut i: usize = 1;
    while i < centroids.len()
        invariant
            1 <= i <= centroids.len(),
            best < i,
            dists == centroid_dists(v@, centroids@),
            best == min_index(dists.take(i as int)),
            best_dist == dists[best as int],
        decreases centroids.len() - i,
    {
        let d = l2sq_f32_scalar(v, &centroids[i]);
        proof {
            assert(dists.take(i + 1).drop_last() =~= dists.take(i as int));
        }
        if d.lt(best_dist) {
            best = i;
            best_dist = d;
        }
        i = i + 1;
    }
    assert(dists.take(centroids@.len() as int) =~= dists);
    best as u32
}

/// The nearest centroid of each vector, computed in parallel by the parallel iterator of the
/// crate `rayon`: mapping and collecting an indexed iterator (`par_iter`, `map` and `collect`)
/// gives the result for each item at the position of the item.
#[verifier::external_body]
fn par_nearest(vectors: &[[Binary32; N_DIMS]], centroids: &[[Binary32; N_DIMS]]) -> (r: Vec<u32>)
    requires
        vectors.len() > 0 ==> 0 < centroids.len() <= u32::MAX,
        forall|i: int|
            0 <= i < vectors@.len() ==> comparable(
                centroid_dists((#[trigger] vectors@[i])@, centroids@),
            ),
    ensures
        r@.len() == vectors@.len(),
        forall|i: int|
            0 <= i < vectors@.len() ==> #[trigger] r@[i] == min_index(
                centroid_dists(vectors@[i]@, centroids@),
            ),
{
    vectors.par_iter().map(|v| nearest_centroid(v, centroids)).collect()
}

/// Assigns each vector to its nearest centroid. Returns the cluster of each vector.
pub fn assign_clusters(vectors: &[[Binary32; N_DIMS]], centroids: &[[Binary32; N_DIMS]]) -> (r: Vec<
    u32,
>)
    requires
        vectors.len() > 0 ==> 0 < centroids.len() <= u32::MAX,
        forall|i: int|
            0 <= i < vectors@.len() ==> comparable(
                centroid_dists((#[trigger] vectors@[i])@, centroids@),
            ),
    ensures
        r@.len() == vectors@.len(),
        forall|i: int|
            0 <= i < vectors@.len() ==> #[trigger] r@[i] == min_index(
                centroid_dists(vectors@[i]@, centroids@),
            ) && r@[i] < centroids@.len(),
{
    let r = par_nearest(vectors, centroids);
    proof {
        assert forall|i: int| 0 <= i < vectors@.len() implies #[trigger] r@[i] < centroids@.len() by {
            assert(vectors@[i]@.len() == 14);
            law_min_index(centroid_dists(vectors@[i]@, centroids@));
        }
    }
    r
}

// ── Means ────────────────────────────────────────────────────────────────────

/// How many of the first `n` vectors are in cluster `c`.
pub open spec fn members(assignments: Seq<u32>, c: int, n: nat) -> nat
    decreases n,
{
    if n == 0 {
        0
    } else {
        members(assignments, c, (n - 1) as nat) + if assignments[n - 1] == c {
            1nat
        } else {
            0
        }
    }
}

/// The sum, in double precision, of coordinate `d` over those of the first `n` vectors that are in
/// cluster `c`.
pub open spec fn coordinate_sum(
    vectors: Seq<[Binary32; N_DIMS]>,
    assignments: Seq<u32>,
    c: int,
    d: int,
    n: nat,
) -> Binary64
    decreases n,
{
    if n == 0 {
        Binary64 { bits: 0 }
    } else {
        let before = coordinate_sum(vectors, assignments, c, d, (n - 1) as nat);
        if assignments[n - 1] == c {
            before.add_spec(Binary64::of_single(vectors[n - 1]@[d]))
        } else {
            before
        }
    }
}

/// How many vectors have an assignment.
pub open spec fn assigned(vectors: Seq<[Binary32; N_DIMS]>, assignments: Seq<u32>) -> nat {
    if vectors.len() <= assignments.len() {
        vectors.len()
    } else {
        assignments.len()
    }
}

/// Coordinate `d` of the mean of cluster `c`; an empty cluster keeps its centroid.
pub open spec fn mean_coordinate(
    vectors: Seq<[Binary32; N_DIMS]>,
    assignments: Seq<u32>,
    prev: Seq<[Binary32; N_DIMS]>,
    c: int,
    d: int,
) -> Binary32 {
    let n = assigned(vectors, assignments);
    let count = members(assignments, c, n);
    if count == 0 {
        prev[c]@[d]
    } else {
        coordinate_sum(vectors, assignments, c, d, n).div_spec(
            Binary64::of_nat(count),
        ).single_spec()
    }
}

/// The centroids are the means of their clusters.
pub open spec fn are_means(
    vectors: Seq<[Binary32; N_DIMS]>,
    assignments: Seq<u32>,
    nlist: nat,
    prev: Seq<[Binary32; N_DIMS]>,
    centroids: Seq<[Binary32; N_DIMS]>,
) -> bool {
    &&& centroids.len() == nlist
    &&& forall|c: int, d: int|
        0 <= c < nlist && 0 <= d < 14 ==> #[trigger] centroids[c]@[d] == mean_coordinate(
            vectors,
            assignments,
            prev,
            c,
            d,
        )
}

/// A cluster has no more members than there are vectors.
pub proof fn lemma_members_bound(assignments: Seq<u32>, c: int, n: nat)
    ensures
        members(assignments, c, n) <= n,
    decreases n,
{
    if n > 0 {
        lemma_members_bound(assignments, c, (n - 1) as nat);
    }
}

/// Recomputes the centroids as the means of the assigned vectors. An empty cluster keeps its
/// previous centroid.
pub fn update_centroids(
    vectors: &[[Binary32; N_DIMS]],
    assignments: &[u32],
    nlist: usize,
    prev_centroids: &[[Binary32; N_DIMS]],
) -> (r: Vec<[Binary32; N_DIMS]>)
    requires
        forall|i: int|
            0 <= i < assigned(vectors@, assignments@) ==> #[trigger] assignments@[i] < nlist,
        forall|c: int|
            0 <= c < nlist && #[trigger] members(
                assignments@,
                c,
                assigned(vectors@, assignments@),
            ) == 0 ==> c < prev_centroids@.len(),
    ensures
        are_means(vectors@, assignments@, nlist as nat, prev_centroids@, r@),
{
    let ghost n = assigned(vectors@, assignments@);
    let zero = Binary64 { bits: 0 };
    let mut sums: Vec<[Binary64; N_DIMS]> = Vec::new();
    let mut counts: Vec<u64> = Vec::new();
    let mut k: usize = 0;
    while k < nlist
        invariant
            k <= nlist,
            zero.bits == 0,
            sums@.len() == k,
            counts@.len() == k,
            forall|c: int| 0 <= c < k ==> #[trigger] counts@[c] == 0,
            forall|c: int, d: int| 0 <= c < k && 0 <= d < 14 ==> #[trigger] sums@[c]@[d] == zero,
        decreases nlist - k,
    {
        let row: [Binary64; N_DIMS] = [zero; N_DIMS];
        sums.push(row);
        counts.push(0);
        k = k + 1;
    }
    let mut i: usize = 0;
    while i < vectors.len() && i < assignments.len()
        invariant
            n == assigned(vectors@, assignments@),
            i <= n,
            sums@.len() == nlist,
            counts@.len() == nlist,
            forall|j: int| 0 <= j < n ==> #[trigger] assignments@[j] < nlist,
            forall|c: int|
                0 <= c < nlist ==> #[trigger] counts@[c] == members(assignments@, c, i as nat),
            forall|c: int, d: int|
                0 <= c < nlist && 0 <= d < 14 ==> #[trigger] sums@[c]@[d] == coordinate_sum(
                    vectors@,
                    assignments@,
                    c,
                    d,
                    i as nat,
                ),
        decreases vectors.len() - i,
    {
        assert(assignments@[i as int] < nlist);
        let ci: usize = assignments[i] as usize;
        let ghost before = sums@;
        let mut row: [Binary64; N_DIMS] = sums[ci];
        let mut d: usize = 0;
        while d < N_DIMS
            invariant
                d <= 14,
                i < vectors@.len(),
                i < assignments@.len(),
                ci == assignments@[i as int],
                ci < nlist,
                before.len() == nlist,
                forall|e: int|
                    0 <= e < d ==> #[trigger] row@[e] == before[ci as int]@[e].add_spec(
                        Binary64::of_single(vectors@[i as int]@[e]),
                    ),
                forall|e: int| d <= e < 14 ==> #[trigger] row@[e] == before[ci as int]@[e],
            decreases 14 - d,
        {
            row[d] = row[d].add(Binary64::from_single(vectors[i][d]));
            d = d + 1;
        }
        sums.set(ci, row);
        proof {
            lemma_members_bound(assignments@, ci as int, i as nat);
        }
        counts.set(ci, counts[ci] + 1);
        assert forall|c: int, d: int| 0 <= c < nlist && 0 <= d < 14 implies #[trigger] sums@[c]@[d]
            == coordinate_sum(vectors@, assignments@, c, d, (i + 1) as nat) by {
            assert(before[c]@[d] == coordinate_sum(vectors@, assignments@, c, d, i as nat));
        }
        i = i + 1;
    }
    assert(i == n);
    let mut centroids: Vec<[Binary32; N_DIMS]> = Vec::new();
    let mut c: usize = 0;
    while c < nlist
        invariant
            c <= nlist,
            n == assigned(vectors@, assignments@),
            sums@.len() == nlist,
            counts@.len() == nlist,
            forall|c: int|
                0 <= c < nlist && #[trigger] members(assignments@, c, n) == 0 ==> c
                    < prev_centroids@.len(),
            forall|c: int| 0 <= c < nlist ==> #[trigger] counts@[c] == members(assignments@, c, n),
            forall|c: int, d: int|
                0 <= c < nlist && 0 <= d < 14 ==> #[trigger] sums@[c]@[d] == coordinate_sum(
                    vectors@,
                    assignments@,
                    c,
                    d,
                    n,
                ),
            centroids@.len() == c,
            forall|k: int, d: int|
                0 <= k < c && 0 <= d < 14 ==> #[trigger] centroids@[k]@[d] == mean_coordinate(
                    vectors@,
                    assignments@,
                    prev_centroids@,
                    k,
                    d,
                ),
        decreases nlist - c,
    {
        if counts[c] == 0 {
            assert(members(assignments@, c as int, n) == 0);
            centroids.push(prev_centroids[c]);
        } else {
            let count = Binary64::from_u64(counts[c]);
            let mut row: [Binary32; N_DIMS] = [Binary32 { bits: 0 };N_DIMS];
            let mut d: usize = 0;
            while d < N_DIMS
                invariant
                    d <= 14,
                    c < nlist,
                    sums@.len() == nlist,
                    n == assigned(vectors@, assignments@),
                    members(assignments@, c as int, n) != 0,
                    count == Binary64::of_nat(members(assignments@, c as int, n)),
                    forall|c: int, d: int|
                        0 <= c < nlist && 0 <= d < 14 ==> #[trigger] sums@[c]@[d]
                            == coordinate_sum(vectors@, assignments@, c, d, n),
                    forall|e: int|
                        0 <= e < d ==> #[trigger] row@[e] == mean_coordinate(
                            vectors@,
                            assignments@,
                            prev_centroids@,
                            c as int,
                            e,
                        ),
                decreases 14 - d,
            {
                row[d] = sums[c][d].div(count).to_single();
                d = d + 1;
            }
            centroids.push(row);
        }
        c = c + 1;
    }
    centroids
}

// ── Training ─────────────────────────────────────────────────────────────────

/// The nearest centroid of each vector.
pub open spec fn nearest_all(
    vectors: Seq<[Binary32; N_DIMS]>,
    centroids: Seq<[Binary32; N_DIMS]>,
) -> Seq<u32> {
    Seq::new(vectors.len(), |i: int| min_index(centroid_dists(vectors[i]@, centroids)) as u32)
}

/// The distances of every vector to the centroids can be compared.
pub open spec fn all_comparable(
    vectors: Seq<[Binary32; N_DIMS]>,
    centroids: Seq<[Binary32; N_DIMS]>,
) -> bool {
    forall|i: int|
        0 <= i < vectors.len() ==> comparable(
            centroid_dists((#[trigger] vectors[i])@, centroids),
        )
}

/// The centroids of a training, iteration by iteration: first the initial ones, then always the
/// means of the clusters of the ones before.
pub open spec fn is_run(
    vectors: Seq<[Binary32; N_DIMS]>,
    nlist: nat,
    first: int,
    draws: Seq<Binary32>,
    run: Seq<Seq<[Binary32; N_DIMS]>>,
) -> bool {
    &&& run.len() > 0
    &&& run[0] == initial(vectors, nlist, first, draws)
    &&& forall|k: int|
        0 < k < run.len() ==> are_means(
            vectors,
            nearest_all(vectors, run[k - 1]),
            nlist,
            run[k - 1],
            #[trigger] run[k],
        )
}

/// The squared distance of each vector to the centroid of its cluster.
pub open spec fn own_dists(
    vectors: Seq<[Binary32; N_DIMS]>,
    assignments: Seq<u32>,
    centroids: Seq<[Binary32; N_DIMS]>,
) -> Seq<Binary32> {
    Seq::new(
        assigned(vectors, assignments),
        |i: int| l2sq(vectors[i]@, centroids[assignments[i] as int]@, 14),
    )
}

/// How far the vectors are from the centroids of their clusters, all in all.
pub fn inertia(
    vectors: &[[Binary32; N_DIMS]],
    assignments: &[u32],
    centroids: &[[Binary32; N_DIMS]],
) -> (r: Binary32)
    requires
        forall|i: int|
            0 <= i < assigned(vectors@, assignments@) ==> #[trigger] assignments@[i]
                < centroids@.len(),
    ensures
        r == sum_of(
            own_dists(vectors@, assignments@, centroids@),
            assigned(vectors@, assignments@),
        ),
{
    let ghost dists = own_dists(vectors@, assignments@, centroids@);
    let mut sum = Binary32 { bits: 0 };
    let mut i: usize = 0;
    while i < vectors.len() && i < assignments.len()
        invariant
            i <= assigned(vectors@, assignments@),
            dists == own_dists(vectors@, assignments@, centroids@),
            forall|i: int|
                0 <= i < assigned(vectors@, assignments@) ==> #[trigger] assignments@[i]
                    < centroids@.len(),
            sum == sum_of(dists, i as nat),
        decreases vectors.len() - i,
    {
        assert(assignments@[i as int] < centroids@.len());
        sum = sum.add(l2sq_f32_scalar(&vectors[i], &centroids[assignments[i] as usize]));
        i = i + 1;
    }
    sum
}

/// What a training gives for its run: the last centroids, the clusters that they are the means
/// of, and the inertia after each iteration.
pub open spec fn trained(
    vectors: Seq<[Binary32; N_DIMS]>,
    run: Seq<Seq<[Binary32; N_DIMS]>>,
    centroids: Seq<[Binary32; N_DIMS]>,
    assignments: Seq<u32>,
    inertias: Seq<Binary32>,
) -> bool {
    &&& centroids == run.last()
    &&& assignments == if run.len() == 1 {
        Seq::new(vectors.len(), |i: int| 0u32)
    } else {
        nearest_all(vectors, run[run.len() - 2])
    }
    &&& inertias.len() == run.len() - 1
    &&& forall|k: int|
        0 <= k < inertias.len() ==> #[trigger] inertias[k] == sum_of(
            own_dists(vectors, nearest_all(vectors, run[k]), run[k + 1]),
            vectors.len(),
        )
}

/// Clusters the vectors: chooses initial centroids with the draws (see
/// [`kmeans_plus_plus_init`]) and then, `n_iter` times, assigns each vector to its nearest
/// centroid and moves the centroids to the means of their clusters.
///
/// Returns the centroids, the cluster of each vector, and the inertia after each iteration.
pub fn kmeans(
    vectors: &[[Binary32; N_DIMS]],
    nlist: usize,
    n_iter: usize,
    first: usize,
    draws: &[Binary32],
) -> (r: (Vec<[Binary32; N_DIMS]>, Vec<u32>, Vec<Binary32>))
    requires
        vectors.len() > 0,
        nlist <= vectors.len(),
        nlist <= u32::MAX,
        n_iter > 0 ==> nlist > 0,
        first < vectors.len(),
        nlist <= draws.len() + 1,
        forall|run: Seq<Seq<[Binary32; N_DIMS]>>| #[trigger]
            is_run(vectors@, nlist as nat, first as int, draws@, run) && run.len() <= n_iter
                ==> all_comparable(vectors@, run.last()),
    ensures
        exists|run: Seq<Seq<[Binary32; N_DIMS]>>| #[trigger]
            is_run(vectors@, nlist as nat, first as int, draws@, run) && run.len() == n_iter + 1
                && trained(vectors@, run, r.0@, r.1@, r.2@),
{
    let mut centroids = kmeans_plus_plus_init(vectors, nlist, first, draws);
    let ghost mut run = seq![centroids@];
    let mut assignments: Vec<u32> = Vec::new();
    let mut i: usize = 0;
    while i < vectors.len()
        invariant
            i <= vectors@.len(),
            assignments@ == Seq::new(i as nat, |j: int| 0u32),
        decreases vectors.len() - i,
    {
        assignments.push(0);
        assert(assignments@ =~= Seq::new((i + 1) as nat, |j: int| 0u32));
        i = i + 1;
    }
    let mut inertias: Vec<Binary32> = Vec::new();
    let mut iter: usize = 0;
    while iter < n_iter
        invariant
            iter <= n_iter,
            vectors.len() > 0,
            nlist <= u32::MAX,
            n_iter > 0 ==> nlist > 0,
            run.len() == iter + 1,
            n_iter > 0 ==> centroids@.len() == nlist,
            is_run(vectors@, nlist as nat, first as int, draws@, run),
            trained(vectors@, run, centroids@, assignments@, inertias@),
            forall|run: Seq<Seq<[Binary32; N_DIMS]>>| #[trigger]
                is_run(vectors@, nlist as nat, first as int, draws@, run) && run.len() <= n_iter
                    ==> all_comparable(vectors@, run.last()),
        decreases n_iter - iter,
    {
        assert(all_comparable(vectors@, run.last()));
        let new_assignments = assign_clusters(vectors, centroids.as_slice());
        assert(new_assignments@ =~= nearest_all(vectors@, run.last()));
        let new_centroids = update_centroids(
            vectors,
            new_assignments.as_slice(),
            nlist,
            centroids.as_slice(),
        );
        inertias.push(
            inertia(vectors, new_assignments.as_slice(), new_centroids.as_slice()),
        );
        let ghost before = run;
        proof {
            run = run.push(new_centroids@);
            assert forall|k: int| 0 < k < run.len() implies are_means(
                vectors@,
                nearest_all(vectors@, run[k - 1]),
                nlist as nat,
                run[k - 1],
                #[trigger] run[k],
            ) by {
                if k < before.len() {
                    assert(before[k] == run[k]);
                }
            }
            assert forall|k: int| 0 <= k < inertias@.len() implies #[trigger] inertias@[k]
                == sum_of(
                own_dists(vectors@, nearest_all(vectors@, run[k]), run[k + 1]),
                vectors@.len(),
            ) by {
                if k + 1 < before.len() {
                    assert(before[k] == run[k] && before[k + 1] == run[k + 1]);
                }
            }
        }
        assignments = new_assignments;
        centroids = new_centroids;
        iter = iter + 1;
    }
    (centroids, assignments, inertias)
}

} // verus!
