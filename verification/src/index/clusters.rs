//! Selection of the clusters whose centroids are nearest to a query.

use vstd::prelude::*;
#[allow(unused_imports)]
use vstd::arithmetic::power2::pow2;
use vstd::slice::slice_subrange;

use crate::binary32::Binary32;
use crate::index::layout::N_DIMS;
#[allow(unused_imports)]
use crate::index::search::{insert_pos, lemma_insert_pos_bounds};

verus! {

// ── Distance ─────────────────────────────────────────────────────────────────

/// The squared distance over the first `n` dimensions, in single precision.
pub open spec fn l2sq(a: Seq<Binary32>, b: Seq<Binary32>, n: nat) -> Binary32
    decreases n,
{
    if n == 0 {
        Binary32 { bits: 0 }
    } else {
        let d = a[n - 1].sub_spec(b[n - 1]);
        l2sq(a, b, (n - 1) as nat).add_spec(d.mul_spec(d))
    }
}

/// The squared distance between two feature vectors, added up from the first dimension on.
pub fn l2sq_f32_scalar(a: &[Binary32; N_DIMS], b: &[Binary32; N_DIMS]) -> (r: Binary32)
    ensures
        r == l2sq(a@, b@, 14),
{
    let mut s = Binary32 { bits: 0 };
    let mut i: usize = 0;
    while i < N_DIMS
        invariant
            i <= 14,
            s == l2sq(a@, b@, i as nat),
        decreases 14 - i,
    {
        let d = a[i].sub(b[i]);
        s = s.add(d.mul(d));
        i = i + 1;
    }
    s
}

/// The square of one coordinate of a difference.
pub open spec fn square_at(a: Seq<Binary32>, b: Seq<Binary32>, d: int) -> Binary32 {
    let x = a[d].sub_spec(b[d]);
    x.mul_spec(x)
}

/// One of four lanes: dimensions `k`, `k + 8` and `k + 4`, the second squared and added with one
/// rounding.
pub open spec fn l2sq_lane(a: Seq<Binary32>, b: Seq<Binary32>, k: int) -> Binary32 {
    a[k + 8].sub_spec(b[k + 8]).square_add_spec(square_at(a, b, k)).add_spec(
        square_at(a, b, k + 4),
    )
}

/// The squared distance in the order of a machine that multiplies and adds with one rounding:
/// twelve dimensions in four lanes, which are added in pairs, and then the last two.
pub open spec fn l2sq_lanes(a: Seq<Binary32>, b: Seq<Binary32>) -> Binary32 {
    l2sq_lane(a, b, 0).add_spec(l2sq_lane(a, b, 1)).add_spec(
        l2sq_lane(a, b, 2).add_spec(l2sq_lane(a, b, 3)),
    ).add_spec(square_at(a, b, 12).add_spec(square_at(a, b, 13)))
}

fn l2sq_lane_exec(a: &[Binary32; N_DIMS], b: &[Binary32; N_DIMS], k: usize) -> (r: Binary32)
    requires
        k < 4,
    ensures
        r == l2sq_lane(a@, b@, k as int),
{
    let x = a[k].sub(b[k]);
    let y = a[k + 4].sub(b[k + 4]);
    let z = a[k + 8].sub(b[k + 8]);
    proof {
        lemma_square_not_negative(x);
    }
    z.square_add(x.mul(x)).add(y.mul(y))
}

proof fn lemma_square_not_negative(x: Binary32)
    ensures
        !x.mul_spec(x).negative(),
{
    reveal(Binary32::mul_spec);
    crate::binary32::lemma_nearest_bound(x.magnitude() * x.magnitude(), pow2(149));
}

/// The squared distance between two feature vectors, in four lanes.
fn l2sq_f32_lanes(a: &[Binary32; N_DIMS], b: &[Binary32; N_DIMS]) -> (r: Binary32)
    ensures
        r == l2sq_lanes(a@, b@),
{
    let total = l2sq_lane_exec(a, b, 0).add(l2sq_lane_exec(a, b, 1)).add(
        l2sq_lane_exec(a, b, 2).add(l2sq_lane_exec(a, b, 3)),
    );
    let x = a[12].sub(b[12]);
    let y = a[13].sub(b[13]);
    total.add(x.mul(x).add(y.mul(y)))
}

/// The squared distance between two feature vectors, with or without fused multiplication and
/// addition.
pub open spec fn l2sq_on(fma: bool, a: Seq<Binary32>, b: Seq<Binary32>) -> Binary32 {
    if fma {
        l2sq_lanes(a, b)
    } else {
        l2sq(a, b, 14)
    }
}

/// The squared distance between two feature vectors, on a machine with or without fused
/// multiplication and addition.
pub fn l2sq_f32(a: &[Binary32; N_DIMS], b: &[Binary32; N_DIMS], fma: bool) -> (r: Binary32)
    ensures
        r == l2sq_on(fma, a@, b@),
{
    if fma {
        l2sq_f32_lanes(a, b)
    } else {
        l2sq_f32_scalar(a, b)
    }
}

/// The squared distances from a query to the centroids, on a machine with or without fused
/// multiplication and addition.
pub open spec fn query_dists(
    fma: bool,
    query: Seq<Binary32>,
    centroids: Seq<[Binary32; N_DIMS]>,
) -> Seq<Binary32> {
    centroids.map_values(|c: [Binary32; N_DIMS]| l2sq_on(fma, query, c@))
}

/// The squared distances from a vector to the centroids, each added up from the first dimension
/// on.
pub open spec fn centroid_dists(query: Seq<Binary32>, centroids: Seq<[Binary32; N_DIMS]>) -> Seq<
    Binary32,
> {
    centroids.map_values(|c: [Binary32; N_DIMS]| l2sq(query, c@, 14))
}

// ── Selection ────────────────────────────────────────────────────────────────

/// The first position of the largest value.
pub open spec fn max_index(values: Seq<Binary32>) -> int
    decreases values.len(),
{
    if values.len() <= 1 {
        0
    } else {
        let m = max_index(values.drop_last());
        if values[m].lt_spec(values.last()) {
            values.len() - 1
        } else {
            m
        }
    }
}

pub open spec fn dists_of(s: Seq<(Binary32, usize)>) -> Seq<Binary32> {
    s.map_values(|e: (Binary32, usize)| e.0)
}

/// The `k` nearest of the first `n`: one that is nearer than the farthest takes its place.
pub open spec fn selected(dists: Seq<Binary32>, k: nat, n: nat) -> Seq<(Binary32, usize)>
    decreases n,
{
    if n <= k || k == 0 {
        Seq::new(k, |i: int| (dists[i], i as usize))
    } else {
        let s = selected(dists, k, (n - 1) as nat);
        let w = max_index(dists_of(s));
        if dists[n - 1].lt_spec(s[w].0) {
            s.update(w, (dists[n - 1], (n - 1) as usize))
        } else {
            s
        }
    }
}

/// The entries in ascending order of distance, where entries of equal distance keep their order.
pub open spec fn insertion_sorted(s: Seq<(Binary32, usize)>) -> Seq<(Binary32, usize)>
    decreases s.len(),
{
    if s.len() == 0 {
        s
    } else {
        let r = insertion_sorted(s.drop_last());
        r.insert(insert_pos(r, s.last().0), s.last())
    }
}

/// The `k` nearest, nearest first.
pub open spec fn nearest_clusters(dists: Seq<Binary32>, k: nat) -> Seq<(Binary32, usize)> {
    insertion_sorted(selected(dists, k, dists.len()))
}

proof fn lemma_max_index_bounds(values: Seq<Binary32>)
    requires
        values.len() > 0,
    ensures
        0 <= max_index(values) < values.len(),
    decreases values.len(),
{
    if values.len() > 1 {
        lemma_max_index_bounds(values.drop_last());
    }
}

/// The first position of the largest value.
pub fn max_pos(values: &[Binary32]) -> (r: usize)
    ensures
        r == max_index(values@),
        values@.len() > 0 ==> r < values@.len(),
{
    let mut max_i: usize = 0;
    let mut i: usize = 1;
    while i < values.len()
        invariant
            i <= values.len() || values.len() == 0,
            1 <= i,
            max_i < i,
            values.len() > 0 ==> max_i == max_index(values@.take(i as int)),
            values.len() == 0 ==> max_i == 0,
        decreases values.len() - i,
    {
        proof {
            assert(values@.take(i + 1).drop_last() =~= values@.take(i as int));
        }
        if values[max_i].lt(values[i]) {
            max_i = i;
        }
        i = i + 1;
    }
    assert(values@.take(values@.len() as int) =~= values@);
    max_i
}

/// The entries in two slices of the same order.
pub open spec fn zipped(dists: Seq<Binary32>, indices: Seq<usize>, len: nat) -> Seq<
    (Binary32, usize),
> {
    Seq::new(len, |i: int| (dists[i], indices[i]))
}

/// The slice with its first entries replaced.
pub open spec fn with_front<T>(s: Seq<T>, front: Seq<T>) -> Seq<T> {
    front + s.skip(front.len() as int)
}

pub open spec fn indices_of(s: Seq<(Binary32, usize)>) -> Seq<usize> {
    s.map_values(|e: (Binary32, usize)| e.1)
}

/// Puts the first `len` entries of two slices in ascending order of distance.
#[verifier::spinoff_prover]
pub fn sort_by_dist(indices: &mut [usize], dists: &mut [Binary32], len: usize)
    requires
        len <= old(indices).len(),
        len <= old(dists).len(),
    ensures
        final(indices)@.len() == old(indices)@.len(),
        final(dists)@.len() == old(dists)@.len(),
        zipped(final(dists)@, final(indices)@, len as nat) == insertion_sorted(
            zipped(old(dists)@, old(indices)@, len as nat),
        ),
        forall|i: int| len <= i < old(indices)@.len() ==> final(indices)@[i] == old(indices)@[i],
        forall|i: int| len <= i < old(dists)@.len() ==> final(dists)@[i] == old(dists)@[i],
{
    let ghost d0 = dists@;
    let ghost x0 = indices@;
    let ghost all = zipped(d0, x0, len as nat);
    let mut i: usize = 0;
    assert(zipped(dists@, indices@, 0) =~= insertion_sorted(all.take(0)));
    while i < len
        invariant
            i <= len,
            len <= x0.len(),
            len <= d0.len(),
            indices@.len() == x0.len(),
            dists@.len() == d0.len(),
            all == zipped(d0, x0, len as nat),
            zipped(dists@, indices@, i as nat) == insertion_sorted(all.take(i as int)),
            forall|j: int| i <= j < x0.len() ==> indices@[j] == x0[j],
            forall|j: int| i <= j < d0.len() ==> dists@[j] == d0[j],
        decreases len - i,
    {
        let idx_key = indices[i];
        let dist_key = dists[i];
        let ghost s = zipped(dists@, indices@, i as nat);
        let mut j: usize = i;
        assert(s.take(i as int) =~= s);
        while j > 0 && dist_key.lt(dists[j - 1])
            invariant
                j <= i < len,
                len <= x0.len(),
                len <= d0.len(),
                indices@.len() == x0.len(),
                dists@.len() == d0.len(),
                s.len() == i,
                insert_pos(s, dist_key) == insert_pos(s.take(j as int), dist_key),
                forall|e: int|
                    0 <= e < j ==> (#[trigger] dists@[e]) == s[e].0 && indices@[e] == s[e].1,
                forall|e: int|
                    j < e <= i ==> (#[trigger] dists@[e]) == s[e - 1].0 && indices@[e] == s[e
                        - 1].1,
                forall|e: int| i < e < x0.len() ==> indices@[e] == x0[e],
                forall|e: int| i < e < d0.len() ==> dists@[e] == d0[e],
            decreases j,
        {
            proof {
                assert(s.take(j as int).drop_last() =~= s.take(j - 1));
                assert(s.take(j as int).last() == s[j - 1]);
            }
            let ghost d1 = dists@;
            let ghost x1 = indices@;
            assert forall|e: int| 0 <= e < j implies (#[trigger] d1[e]) == s[e].0 && x1[e]
                == s[e].1 by {
                assert(dists@[e] == s[e].0);
            }
            indices[j] = indices[j - 1];
            dists[j] = dists[j - 1];
            proof {
                assert forall|e: int| 0 <= e < j - 1 implies (#[trigger] dists@[e]) == s[e].0
                    && indices@[e] == s[e].1 by {
                    assert(d1[e] == s[e].0);
                }
            }
            j = j - 1;
        }
        proof {
            if j > 0 {
                assert(s.take(j as int).last() == s[j - 1]);
            }
            assert(insert_pos(s, dist_key) == j);
        }
        indices[j] = idx_key;
        dists[j] = dist_key;
        proof {
            assert(all.take(i + 1).drop_last() =~= all.take(i as int));
            assert(all.take(i + 1).last() == (dist_key, idx_key));
            assert(zipped(dists@, indices@, (i + 1) as nat) =~= s.insert(
                j as int,
                (dist_key, idx_key),
            ));
        }
        i = i + 1;
    }
    assert(all.take(len as int) =~= all);
}

/// The number of clusters to probe that two buffers can hold.
pub open spec fn probe_count(nprobe: nat, n: nat, a: nat, b: nat) -> nat {
    let k = if nprobe < n {
        nprobe
    } else {
        n
    };
    let k = if k < a {
        k
    } else {
        a
    };
    if k < b {
        k
    } else {
        b
    }
}

/// Writes the indices of the `nprobe` nearest centroids and their distances to two buffers,
/// nearest first, as far as these hold them. Returns how many there are.
pub fn find_nearest_clusters_inplace(
    query: &[Binary32; N_DIMS],
    centroids: &[[Binary32; N_DIMS]],
    nprobe: usize,
    out_indices: &mut [usize],
    out_dists: &mut [Binary32],
    fma: bool,
) -> (r: usize)
    ensures
        r == probe_count(
            nprobe as nat,
            centroids@.len(),
            old(out_indices)@.len(),
            old(out_dists)@.len(),
        ),
        final(out_indices)@ == with_front(
            old(out_indices)@,
            indices_of(nearest_clusters(query_dists(fma, query@, centroids@), r as nat)),
        ),
        final(out_dists)@ == with_front(
            old(out_dists)@,
            dists_of(nearest_clusters(query_dists(fma, query@, centroids@), r as nat)),
        ),
{
    let ghost x0 = out_indices@;
    let ghost d0 = out_dists@;
    let ghost dists = query_dists(fma, query@, centroids@);
    let mut k: usize = nprobe;
    if centroids.len() < k {
        k = centroids.len();
    }
    if out_indices.len() < k {
        k = out_indices.len();
    }
    if out_dists.len() < k {
        k = out_dists.len();
    }
    if k == 0 {
        proof {
            lemma_selected_len(dists, 0, dists.len());
            assert(nearest_clusters(dists, 0) =~= seq![]);
            assert(x0 =~= with_front(x0, indices_of(nearest_clusters(dists, 0))));
            assert(d0 =~= with_front(d0, dists_of(nearest_clusters(dists, 0))));
        }
        return 0;
    }
    let mut i: usize = 0;
    while i < k
        invariant
            i <= k <= centroids.len(),
            k <= x0.len(),
            k <= d0.len(),
            out_indices@.len() == x0.len(),
            out_dists@.len() == d0.len(),
            dists == query_dists(fma, query@, centroids@),
            forall|j: int|
                0 <= j < i ==> (#[trigger] out_indices@[j]) == j && out_dists@[j] == dists[j],
            forall|j: int| i <= j < x0.len() ==> out_indices@[j] == x0[j],
            forall|j: int| i <= j < d0.len() ==> out_dists@[j] == d0[j],
        decreases k - i,
    {
        out_indices[i] = i;
        out_dists[i] = l2sq_f32(query, &centroids[i], fma);
        i = i + 1;
    }
    assert(zipped(out_dists@, out_indices@, k as nat) =~= selected(dists, k as nat, k as nat));
    let mut n: usize = k;
    while n < centroids.len()
        invariant
            0 < k <= n <= centroids.len(),
            k <= x0.len(),
            k <= d0.len(),
            out_indices@.len() == x0.len(),
            out_dists@.len() == d0.len(),
            dists == query_dists(fma, query@, centroids@),
            zipped(out_dists@, out_indices@, k as nat) == selected(dists, k as nat, n as nat),
            forall|j: int| k <= j < x0.len() ==> out_indices@[j] == x0[j],
            forall|j: int| k <= j < d0.len() ==> out_dists@[j] == d0[j],
        decreases centroids.len() - n,
    {
        let worst_pos = max_pos(slice_subrange(out_dists, 0, k));
        let d = l2sq_f32(query, &centroids[n], fma);
        let ghost s = selected(dists, k as nat, n as nat);
        proof {
            assert(s.len() == k);
            assert(out_dists@.subrange(0, k as int) =~= dists_of(s)) by {
                assert forall|j: int| 0 <= j < k implies out_dists@[j] == s[j].0 by {
                    assert(zipped(out_dists@, out_indices@, k as nat)[j] == s[j]);
                }
            }
            assert(s[worst_pos as int] == (
                out_dists@[worst_pos as int],
                out_indices@[worst_pos as int],
            ));
        }
        if d.lt(out_dists[worst_pos]) {
            out_dists[worst_pos] = d;
            out_indices[worst_pos] = n;
            assert(zipped(out_dists@, out_indices@, k as nat) =~= s.update(
                worst_pos as int,
                (d, n),
            )) by {
                assert forall|j: int| 0 <= j < k implies zipped(
                    out_dists@,
                    out_indices@,
                    k as nat,
                )[j] == s.update(worst_pos as int, (d, n))[j] by {
                }
            }
        }
        n = n + 1;
    }
    sort_by_dist(out_indices, out_dists, k);
    proof {
        let r = nearest_clusters(dists, k as nat);
        let z = zipped(out_dists@, out_indices@, k as nat);
        assert(z == r);
        assert(out_indices@ =~= with_front(x0, indices_of(r))) by {
            assert forall|j: int| 0 <= j < k implies out_indices@[j] == r[j].1 by {
                assert(z[j] == r[j]);
            }
        }
        assert(out_dists@ =~= with_front(d0, dists_of(r))) by {
            assert forall|j: int| 0 <= j < k implies out_dists@[j] == r[j].0 by {
                assert(z[j] == r[j]);
            }
        }
    }
    k
}

pub proof fn lemma_selected_len(dists: Seq<Binary32>, k: nat, n: nat)
    ensures
        selected(dists, k, n).len() == k,
    decreases n,
{
    if n > k && k > 0 {
        lemma_selected_len(dists, k, (n - 1) as nat);
        lemma_max_index_bounds(dists_of(selected(dists, k, (n - 1) as nat)));
    }
}

/// Returns the indices of the `nprobe` nearest centroids, nearest first.
pub fn find_nearest_clusters(
    query: &[Binary32; N_DIMS],
    centroids: &[[Binary32; N_DIMS]],
    nprobe: usize,
    fma: bool,
) -> (r: Vec<usize>)
    ensures
        r@ == indices_of(
            nearest_clusters(
                query_dists(fma, query@, centroids@),
                probe_count(
                    nprobe as nat,
                    centroids@.len(),
                    centroids@.len(),
                    centroids@.len(),
                ),
            ),
        ),
{
    let k: usize = if nprobe < centroids.len() {
        nprobe
    } else {
        centroids.len()
    };
    let mut idx: Vec<usize> = vec![0usize; k];
    let mut dists: Vec<Binary32> = vec![Binary32 { bits: 0 }; k];
    let used = find_nearest_clusters_inplace(
        query,
        centroids,
        nprobe,
        idx.as_mut_slice(),
        dists.as_mut_slice(),
        fma,
    );
    idx.truncate(used);
    proof {
        let near_dists = query_dists(fma, query@, centroids@);
        let near = nearest_clusters(near_dists, k as nat);
        lemma_selected_len(near_dists, k as nat, centroids@.len());
        lemma_sorted_len(selected(near_dists, k as nat, centroids@.len()));
        assert(idx@ =~= indices_of(near));
    }
    idx
}

pub proof fn lemma_sorted_len(s: Seq<(Binary32, usize)>)
    ensures
        insertion_sorted(s).len() == s.len(),
    decreases s.len(),
{
    if s.len() > 0 {
        let r = insertion_sorted(s.drop_last());
        lemma_sorted_len(s.drop_last());
        lemma_insert_pos_bounds(r, s.last().0);
    }
}

// ── What is selected ─────────────────────────────────────────────────────────

/// Each entry holds its own distance, and no index occurs twice.
pub open spec fn picks(s: Seq<(Binary32, usize)>, dists: Seq<Binary32>, n: nat) -> bool {
    &&& forall|i: int|
        0 <= i < s.len() ==> (#[trigger] s[i]).1 < n && s[i].0 == dists[s[i].1 as int]
    &&& forall|i: int, j: int|
        0 <= i < j < s.len() ==> (#[trigger] s[i]).1 != (#[trigger] s[j]).1
}

/// Whether an index is among the entries.
pub open spec fn picked(s: Seq<(Binary32, usize)>, x: int) -> bool {
    exists|i: int| 0 <= i < s.len() && (#[trigger] s[i]).1 == x
}

/// Nothing that is left out of the first `n` is nearer than an entry.
pub open spec fn rest_not_nearer(s: Seq<(Binary32, usize)>, dists: Seq<Binary32>, n: nat) -> bool {
    forall|x: int, i: int|
        0 <= x < n && 0 <= i < s.len() && !picked(s, x) ==> !(#[trigger] dists[x]).lt_spec(
            (#[trigger] s[i]).0,
        )
}

pub open spec fn no_nan(dists: Seq<Binary32>) -> bool {
    forall|i: int| 0 <= i < dists.len() ==> !(#[trigger] dists[i]).is_nan_spec()
}

pub proof fn lemma_max_is_max(values: Seq<Binary32>)
    requires
        values.len() > 0,
        no_nan(values),
    ensures
        0 <= max_index(values) < values.len(),
        forall|i: int|
            0 <= i < values.len() ==> !values[max_index(values)].lt_spec(#[trigger] values[i]),
    decreases values.len(),
{
    if values.len() > 1 {
        let h = values.drop_last();
        assert(no_nan(h)) by {
            assert forall|i: int| 0 <= i < h.len() implies !(#[trigger] h[i]).is_nan_spec() by {
                assert(!values[i].is_nan_spec());
            }
        }
        lemma_max_is_max(h);
        let m = max_index(values);
        assert forall|i: int| 0 <= i < values.len() implies !values[m].lt_spec(
            #[trigger] values[i],
        ) by {
            assert(!values[i].is_nan_spec());
            assert(!values[m].is_nan_spec());
            assert(!values[max_index(h)].is_nan_spec());
            if i < h.len() {
                assert(!h[max_index(h)].lt_spec(h[i]));
            }
        }
    }
}

pub proof fn lemma_selected_nearest(dists: Seq<Binary32>, k: nat, n: nat)
    requires
        k <= n <= dists.len() <= usize::MAX,
    ensures
        selected(dists, k, n).len() == k,
        picks(selected(dists, k, n), dists, n),
        no_nan(dists) ==> rest_not_nearer(selected(dists, k, n), dists, n),
    decreases n,
{
    let r = selected(dists, k, n);
    if n <= k || k == 0 {
        assert forall|x: int, i: int| 0 <= x < n && 0 <= i < r.len() && !picked(r, x) implies !(
        #[trigger] dists[x]).lt_spec((#[trigger] r[i]).0) by {
            assert(r[x].1 == x);
        }
    } else {
        let m = (n - 1) as nat;
        let s = selected(dists, k, m);
        lemma_selected_nearest(dists, k, m);
        let w = max_index(dists_of(s));
        let d = dists[n - 1];
        lemma_max_index_bounds(dists_of(s));
        if no_nan(dists) {
            assert(no_nan(dists_of(s))) by {
                assert forall|i: int| 0 <= i < s.len() implies !(#[trigger] dists_of(
                    s,
                )[i]).is_nan_spec() by {
                    assert(s[i].0 == dists[s[i].1 as int]);
                }
            }
            lemma_max_is_max(dists_of(s));
            assert forall|x: int, i: int|
                0 <= x < n && 0 <= i < r.len() && !picked(r, x) implies !(
            #[trigger] dists[x]).lt_spec((#[trigger] r[i]).0) by {
                let top = s[w].0;
                assert(dists_of(s)[w] == top);
                assert(!top.lt_spec(dists_of(s)[i]));
                assert(!dists[x].is_nan_spec());
                assert(!dists_of(s)[w].is_nan_spec());
                assert(!dists_of(s)[i].is_nan_spec());
                // What is left out is not nearer than the farthest of before.
                assert(!dists[x].lt_spec(top)) by {
                    if x < m {
                        if picked(s, x) {
                            let p = choose|p: int| 0 <= p < s.len() && (#[trigger] s[p]).1 == x;
                            if p != w {
                                assert(r[p].1 == x);
                            }
                        }
                    } else {
                        if d.lt_spec(top) {
                            assert(r[w].1 == x);
                        }
                    }
                }
            }
        }
    }
}

#[verifier::spinoff_prover]
proof fn lemma_sorted_picks(s: Seq<(Binary32, usize)>, dists: Seq<Binary32>, n: nat)
    requires
        picks(s, dists, n),
        n <= dists.len(),
    ensures
        insertion_sorted(s).len() == s.len(),
        picks(insertion_sorted(s), dists, n),
        forall|x: int| #[trigger] picked(insertion_sorted(s), x) <==> picked(s, x),
        forall|e: (Binary32, usize)|
            #[trigger] insertion_sorted(s).contains(e) <==> s.contains(e),
        no_nan(dists) ==> forall|i: int, j: int|
            0 <= i < j < s.len() ==> !(#[trigger] insertion_sorted(s)[j]).0.lt_spec(
                (#[trigger] insertion_sorted(s)[i]).0,
            ),
    decreases s.len(),
{
    if s.len() > 0 {
        let h = s.drop_last();
        let e = s.last();
        assert(picks(h, dists, n)) by {
            assert forall|i: int| 0 <= i < h.len() implies (#[trigger] h[i]).1 < n && h[i].0
                == dists[h[i].1 as int] by {
                assert(h[i] == s[i]);
            }
            assert forall|i: int, j: int| 0 <= i < j < h.len() implies (#[trigger] h[i]).1 != (
            #[trigger] h[j]).1 by {
                assert(s[i].1 != s[j].1);
            }
        }
        lemma_sorted_picks(h, dists, n);
        let q = insertion_sorted(h);
        let p = insert_pos(q, e.0);
        let r = insertion_sorted(s);
        lemma_insert_pos_bounds(q, e.0);
        assert(r == q.insert(p, e));
        assert(e == s[s.len() - 1]);
        // Where the old entries stand now.
        assert forall|i: int| 0 <= i < r.len() && i != p implies (#[trigger] r[i]) == q[if i < p {
            i
        } else {
            i - 1
        }] by {}
        assert forall|i: int| 0 <= i < q.len() implies (#[trigger] q[i]) == r[if i < p {
            i
        } else {
            i + 1
        }] by {}
        // The new index is not among the old ones.
        assert forall|i: int| 0 <= i < q.len() implies (#[trigger] q[i]).1 != e.1 by {
            assert(q.contains(q[i]));
            assert(h.contains(q[i]));
            let t = choose|t: int| 0 <= t < h.len() && h[t] == q[i];
            assert(s[t].1 != s[s.len() - 1].1);
        }
        assert forall|i: int| 0 <= i < r.len() implies (#[trigger] r[i]).1 < n && r[i].0
            == dists[r[i].1 as int] by {}
        assert forall|i: int, j: int| 0 <= i < j < r.len() implies (#[trigger] r[i]).1 != (
        #[trigger] r[j]).1 by {}
        assert forall|f: (Binary32, usize)| #[trigger] r.contains(f) <==> s.contains(f) by {
            if r.contains(f) {
                let t = choose|t: int| 0 <= t < r.len() && r[t] == f;
                if t == p {
                    assert(s[s.len() - 1] == f);
                } else {
                    assert(q.contains(f));
                    assert(h.contains(f));
                    let u = choose|u: int| 0 <= u < h.len() && h[u] == f;
                    assert(s[u] == f);
                }
            }
            if s.contains(f) {
                let t = choose|t: int| 0 <= t < s.len() && s[t] == f;
                if t == s.len() - 1 {
                    assert(r[p] == f);
                } else {
                    assert(h[t] == f);
                    assert(h.contains(f));
                    assert(q.contains(f));
                    let u = choose|u: int| 0 <= u < q.len() && q[u] == f;
                    assert(q[u] == f);
                }
            }
        }
        assert forall|x: int| #[trigger] picked(r, x) <==> picked(s, x) by {
            if picked(r, x) {
                let t = choose|t: int| 0 <= t < r.len() && (#[trigger] r[t]).1 == x;
                assert(r.contains(r[t]));
                assert(s.contains(r[t]));
                let u = choose|u: int| 0 <= u < s.len() && s[u] == r[t];
                assert(s[u].1 == x);
            }
            if picked(s, x) {
                let t = choose|t: int| 0 <= t < s.len() && (#[trigger] s[t]).1 == x;
                assert(s.contains(s[t]));
                assert(r.contains(s[t]));
                let u = choose|u: int| 0 <= u < r.len() && r[u] == s[t];
                assert(r[u].1 == x);
            }
        }
        if no_nan(dists) {
            lemma_insert_order(q, dists, n, e);
        }
    } else {
        assert(insertion_sorted(s) == s);
    }
}

proof fn lemma_insert_order(
    q: Seq<(Binary32, usize)>,
    dists: Seq<Binary32>,
    n: nat,
    e: (Binary32, usize),
)
    requires
        no_nan(dists),
        n <= dists.len(),
        picks(q, dists, n),
        e.1 < n,
        e.0 == dists[e.1 as int],
        forall|i: int, j: int|
            0 <= i < j < q.len() ==> !(#[trigger] q[j]).0.lt_spec((#[trigger] q[i]).0),
    ensures
        ({
            let r = q.insert(insert_pos(q, e.0), e);
            forall|i: int, j: int|
                0 <= i < j < r.len() ==> !(#[trigger] r[j]).0.lt_spec((#[trigger] r[i]).0)
        }),
{
    let p = insert_pos(q, e.0);
    lemma_insert_splits(q, dists, n, e.0);
    let r = q.insert(p, e);
    assert(!dists[e.1 as int].is_nan_spec());
    assert forall|i: int, j: int| 0 <= i < j < r.len() implies !(#[trigger] r[j]).0.lt_spec(
        (#[trigger] r[i]).0,
    ) by {
        let qi = if i < p {
            q[i]
        } else {
            q[i - 1]
        };
        let qj = if j < p {
            q[j]
        } else {
            q[j - 1]
        };
    }
}

proof fn lemma_insert_splits(
    q: Seq<(Binary32, usize)>,
    dists: Seq<Binary32>,
    n: nat,
    d: Binary32,
)
    requires
        no_nan(dists),
        n <= dists.len(),
        picks(q, dists, n),
        !d.is_nan_spec(),
        forall|i: int, j: int|
            0 <= i < j < q.len() ==> !(#[trigger] q[j]).0.lt_spec((#[trigger] q[i]).0),
    ensures
        0 <= insert_pos(q, d) <= q.len(),
        forall|i: int| 0 <= i < insert_pos(q, d) ==> !d.lt_spec((#[trigger] q[i]).0),
        forall|i: int| insert_pos(q, d) <= i < q.len() ==> d.lt_spec((#[trigger] q[i]).0),
    decreases q.len(),
{
    if q.len() > 0 {
        let last = q.last();
        assert(last == q[q.len() - 1]);
        assert(!dists[last.1 as int].is_nan_spec());
        if d.lt_spec(last.0) {
            let h = q.drop_last();
            assert(picks(h, dists, n)) by {
                assert forall|i: int| 0 <= i < h.len() implies (#[trigger] h[i]).1 < n && h[i].0
                    == dists[h[i].1 as int] by {
                    assert(h[i] == q[i]);
                }
                assert forall|i: int, j: int| 0 <= i < j < h.len() implies (#[trigger] h[i]).1 != (
                #[trigger] h[j]).1 by {
                    assert(q[i].1 != q[j].1);
                }
            }
            assert forall|i: int, j: int| 0 <= i < j < h.len() implies !(
            #[trigger] h[j]).0.lt_spec((#[trigger] h[i]).0) by {
                assert(!q[j].0.lt_spec(q[i].0));
            }
            lemma_insert_splits(h, dists, n, d);
            assert forall|i: int| 0 <= i < insert_pos(q, d) implies !d.lt_spec(
                (#[trigger] q[i]).0,
            ) by {
                assert(h[i] == q[i]);
            }
            assert forall|i: int| insert_pos(q, d) <= i < q.len() implies d.lt_spec(
                (#[trigger] q[i]).0,
            ) by {
                if i < h.len() {
                    assert(h[i] == q[i]);
                }
            }
        } else {
            assert forall|i: int| 0 <= i < q.len() implies !d.lt_spec((#[trigger] q[i]).0) by {
                assert(!dists[q[i].1 as int].is_nan_spec());
                if i < q.len() - 1 {
                    assert(!q[q.len() - 1].0.lt_spec(q[i].0));
                }
            }
        }
    }
}

/// The clusters that are selected are as many as asked for, all different, in ascending order of
/// distance, and no other is nearer than one of them. The last two need distances that are
/// numbers.
pub proof fn law_nearest_clusters(dists: Seq<Binary32>, k: nat)
    requires
        k <= dists.len() <= usize::MAX,
    ensures
        nearest_clusters(dists, k).len() == k,
        picks(nearest_clusters(dists, k), dists, dists.len()),
        no_nan(dists) ==> forall|i: int, j: int|
            0 <= i < j < k ==> !(#[trigger] nearest_clusters(dists, k)[j]).0.lt_spec(
                (#[trigger] nearest_clusters(dists, k)[i]).0,
            ),
        no_nan(dists) ==> rest_not_nearer(nearest_clusters(dists, k), dists, dists.len()),
{
    let s = selected(dists, k, dists.len());
    lemma_selected_nearest(dists, k, dists.len());
    lemma_sorted_picks(s, dists, dists.len());
    let r = nearest_clusters(dists, k);
    if no_nan(dists) {
        assert forall|x: int, i: int|
            0 <= x < dists.len() && 0 <= i < r.len() && !picked(r, x) implies !(
        #[trigger] dists[x]).lt_spec((#[trigger] r[i]).0) by {
            assert(!picked(s, x));
            assert(r.contains(r[i]));
            assert(s.contains(r[i]));
            let t = choose|t: int| 0 <= t < s.len() && s[t] == r[i];
            assert(!dists[x].lt_spec(s[t].0));
        }
    }
}

} // verus!
