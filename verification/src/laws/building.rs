//! What an index that is built holds.

use vstd::prelude::*;

use crate::binary32::Binary32;
#[allow(unused_imports)]
use crate::build_index::{
    at_most, bounds_of, by_cluster, cluster_stored, first_mark, found, grouped_rows, is_blank, label_code,
    layout_stores, lemma_starts, padded, padded_start, raw_start, rows_of, sample_step,
    sizes_by_assignment, slot_empty, slot_holds, tight, Grouped, LOG_EVERY,
};
#[allow(unused_imports)]
use crate::index::bbox::zero_padded;
#[allow(unused_imports)]
use crate::index::kmeans::members;
use crate::index::layout::{IndexLayout, N_DIMS};
#[allow(unused_imports)]
use crate::index::quantize::{quantized, quantized_vector};
#[allow(unused_imports)]
use crate::index::simd::{block_value, block_vector};

verus! {

// ── Records ──────────────────────────────────────────────────────────────────

/// A record counts as fraud exactly if its label is the five letters of the word, in lower case.
pub proof fn law_fraud_is_one(label: Seq<char>)
    ensures
        label == seq!['f', 'r', 'a', 'u', 'd'] ==> label_code(label) == 1,
        label != seq!['f', 'r', 'a', 'u', 'd'] ==> label_code(label) == 0,
{
    reveal_strlit("fraud");
    assert("fraud"@ =~= seq!['f', 'r', 'a', 'u', 'd']);
}

/// White space before the first mark is a space, a tab, a line feed, a form feed or a carriage
/// return.
pub proof fn law_blank_bytes(b: u8)
    ensures
        is_blank(b) <==> b == 32 || b == 9 || b == 10 || b == 12 || b == 13,
        LOG_EVERY == 500_000,
{
}

// ── Places ───────────────────────────────────────────────────────────────────

/// A cluster is padded to whole blocks of eight with as few slots as that takes.
pub proof fn law_padding_fills_blocks(n: int)
    ensures
        padded(n) % 8 == 0,
        n <= padded(n) < n + 8,
{
}

/// The clusters follow each other without a gap: in the vectors by their sizes, and in the slots
/// by their padded sizes.
pub proof fn law_clusters_follow_each_other(sizes: Seq<usize>, ci: nat)
    requires
        ci < sizes.len(),
    ensures
        raw_start(sizes, 0) == 0,
        padded_start(sizes, 0) == 0,
        raw_start(sizes, ci + 1) - raw_start(sizes, ci) == sizes[ci as int],
        padded_start(sizes, ci + 1) - padded_start(sizes, ci) == padded(sizes[ci as int] as int),
{
}

/// A built index holds every vector of every cluster, quantised, with its label, in the order of
/// the vectors; the slots that fill up a block are zero and not fraud.
pub proof fn law_built_index_holds_its_vectors(
    l: IndexLayout,
    vectors: Seq<[Binary32; N_DIMS]>,
    labels: Seq<u8>,
    sizes: Seq<usize>,
    ci: int,
    local: int,
    d: int,
)
    requires
        layout_stores(l, vectors, labels, sizes),
        0 <= ci < sizes.len(),
        0 <= local,
        0 <= d < 14,
    ensures
        ({
            let slot = padded_start(sizes, ci as nat) + local;
            let i = raw_start(sizes, ci as nat) + local;
            let place = l.blocks@[slot / 8].data@[8 * d + slot % 8];
            &&& local < sizes[ci] ==> place == quantized(vectors[i]@[d]) && l.labels@[slot]
                == labels[i]
            &&& sizes[ci] <= local < (sizes[ci] + 7) / 8 * 8 ==> place == 0 && l.labels@[slot] == 0
        }),
{
    let slot = padded_start(sizes, ci as nat) + local;
    let i = raw_start(sizes, ci as nat) + local;
    assert(cluster_stored(l.blocks@, l.labels@, vectors, labels, sizes, ci));
    let v = block_vector(l.blocks@[slot / 8], slot % 8);
    assert(v[d] == l.blocks@[slot / 8].data@[8 * d + slot % 8]);
    if local < sizes[ci] {
        assert(slot_holds(l.blocks@, l.labels@, slot, vectors[i]@, labels[i]));
        assert(quantized_vector(vectors[i]@)[d] == quantized(vectors[i]@[d]));
    } else if local < padded(sizes[ci] as int) {
        assert(slot_empty(l.blocks@, l.labels@, slot));
        assert(Seq::new(14, |d: int| 0i16)[d] == 0);
    }
}

/// The bounds of a cluster are, in each dimension, the least and the greatest quantised value of
/// its vectors: none lies outside, and each bound is the value of one. An empty cluster has zero
/// bounds, and so do the two lanes that no dimension uses.
pub proof fn law_built_bounds_are_least_and_greatest(
    l: IndexLayout,
    vectors: Seq<[Binary32; N_DIMS]>,
    labels: Seq<u8>,
    sizes: Seq<usize>,
    ci: int,
    local: int,
    d: int,
)
    requires
        layout_stores(l, vectors, labels, sizes),
        0 <= ci < sizes.len(),
        0 <= d < 16,
    ensures
        ({
            let start = raw_start(sizes, ci as nat);
            let min = l.bbox_mins@[ci].data@[d];
            let max = l.bbox_maxes@[ci].data@[d];
            &&& d < 14 && 0 <= local < sizes[ci] ==> min <= quantized(vectors[start + local]@[d])
                <= max
            &&& d < 14 && sizes[ci] > 0 ==> {
                &&& exists|i: int|
                    start <= i < start + sizes[ci] && quantized((#[trigger] vectors[i])@[d]) == min
                &&& exists|i: int|
                    start <= i < start + sizes[ci] && quantized((#[trigger] vectors[i])@[d]) == max
            }
            &&& d >= 14 || sizes[ci] == 0 ==> min == 0 && max == 0
        }),
{
    let start = raw_start(sizes, ci as nat);
    assert(raw_start(sizes, (ci + 1) as nat) == start + sizes[ci]);
    assert(bounds_of(
        vectors,
        start,
        start + sizes[ci],
        l.bbox_mins@[ci],
        l.bbox_maxes@[ci],
    ));
    let (min, max) = (l.bbox_mins@[ci], l.bbox_maxes@[ci]);
    if d >= 14 {
        assert(d == 14 || d == 15);
        assert(zero_padded(min, max));
    } else if sizes[ci] > 0 {
        assert(tight(vectors, start, start + sizes[ci], d, min.data@[d], max.data@[d]));
        if 0 <= local < sizes[ci] {
            let v = vectors[start + local];
            assert(min.data@[d] <= quantized(v@[d]) <= max.data@[d]);
        }
    } else {
        assert(min.data@[d] == 0);
    }
}

/// The header and the sizes of a built index: the sizes are padded, and the header counts the
/// clusters and all their slots.
pub proof fn law_built_sizes_are_padded(
    l: IndexLayout,
    vectors: Seq<[Binary32; N_DIMS]>,
    labels: Seq<u8>,
    sizes: Seq<usize>,
    ci: int,
)
    requires
        layout_stores(l, vectors, labels, sizes),
        sizes.len() <= u32::MAX,
        padded_start(sizes, sizes.len()) <= u64::MAX,
    ensures
        l.header.magic == 0x49564632,
        l.header.version == 3,
        l.header.nprobe == 8,
        l.header.nlist == sizes.len(),
        l.header.n_vectors == padded_start(sizes, sizes.len()),
        l.cluster_sizes@.len() == sizes.len(),
        0 <= ci < sizes.len() ==> l.cluster_sizes@[ci] == (sizes[ci] + 7) / 8 * 8,
        l.bbox_mins@.len() == sizes.len(),
        l.bbox_maxes@.len() == sizes.len(),
        l.blocks@.len() == l.header.n_vectors / 8,
        l.labels@.len() == l.header.n_vectors,
{
    lemma_starts(sizes, sizes.len(), sizes.len());
}

// ── Groups ───────────────────────────────────────────────────────────────────

/// The size of a cluster is the number of assignments to it.
pub proof fn law_sizes_count_assignments(assignments: Seq<u32>, nlist: nat, c: u32)
    requires
        c < nlist,
        assignments.len() <= usize::MAX,
    ensures
        sizes_by_assignment(assignments, nlist).len() == nlist,
        sizes_by_assignment(assignments, nlist)[c as int] == assignments.to_multiset().count(c),
{
    broadcast use vstd::seq_lib::group_to_multiset_ensures;

    crate::laws::training::law_members_are_counted(assignments, c, assignments.len());
    assert(assignments.take(assignments.len() as int) =~= assignments);
    lemma_members_at_most(assignments, c as int, assignments.len());
}

proof fn lemma_members_at_most(assignments: Seq<u32>, c: int, n: nat)
    ensures
        members(assignments, c, n) <= n,
    decreases n,
{
    if n > 0 {
        lemma_members_at_most(assignments, c, (n - 1) as nat);
    }
}

/// Grouping keeps each vector with its label and its cluster: the rows are those that came in,
/// none more and none less, in ascending order of cluster.
pub proof fn law_grouping_keeps_rows(
    rows: Seq<(u32, [Binary32; N_DIMS], u8)>,
    assignments: Seq<u32>,
    vectors: Seq<[Binary32; N_DIMS]>,
    labels: Seq<u8>,
    g: Grouped,
    i: int,
    j: int,
)
    requires
        vectors.len() == assignments.len(),
        labels.len() == assignments.len(),
        grouped_rows(rows, rows_of(assignments, vectors, labels), g),
    ensures
        rows.len() == assignments.len(),
        g.vectors@.len() == assignments.len(),
        g.labels@.len() == assignments.len(),
        rows.to_multiset() == Seq::new(
            assignments.len(),
            |k: int| (assignments[k], vectors[k], labels[k]),
        ).to_multiset(),
        0 <= i < rows.len() ==> g.vectors@[i] == rows[i].1 && g.labels@[i] == rows[i].2,
        0 <= i <= j < rows.len() ==> rows[i].0 <= rows[j].0,
        0 <= i < rows.len() ==> exists|k: int|
            #![trigger assignments[k]]
            0 <= k < assignments.len() && rows[i].0 == assignments[k] && g.vectors@[i] == vectors[k]
                && g.labels@[i] == labels[k],
{
    broadcast use vstd::seq_lib::group_to_multiset_ensures;

    let before = rows_of(assignments, vectors, labels);
    assert(before =~= Seq::new(
        assignments.len(),
        |k: int| (assignments[k], vectors[k], labels[k]),
    ));
    assert(rows.len() == rows.to_multiset().len());
    assert(before.len() == before.to_multiset().len());
    if 0 <= i < rows.len() {
        assert(rows.contains(rows[i]));
        assert(before.to_multiset().count(rows[i]) > 0);
        assert(before.contains(rows[i]));
        let k = choose|k: int| 0 <= k < before.len() && before[k] == rows[i];
        assert(assignments[k] == rows[i].0);
    }
}

/// The rows of a cluster stand where its vectors start and end: row `i` is of cluster `c` exactly
/// if it lies behind the clusters before `c` and not behind `c`.
pub proof fn law_groups_stand_by_size(
    rows: Seq<(u32, [Binary32; N_DIMS], u8)>,
    assignments: Seq<u32>,
    vectors: Seq<[Binary32; N_DIMS]>,
    labels: Seq<u8>,
    g: Grouped,
    nlist: nat,
    c: u32,
    i: int,
)
    requires
        vectors.len() == assignments.len(),
        labels.len() == assignments.len(),
        assignments.len() <= usize::MAX,
        grouped_rows(rows, rows_of(assignments, vectors, labels), g),
        c < nlist,
        ({
            let sizes = sizes_by_assignment(assignments, nlist);
            raw_start(sizes, c as nat) <= i < raw_start(sizes, c as nat + 1)
        }),
    ensures
        0 <= i < rows.len(),
        rows[i].0 == c,
{
    let before = rows_of(assignments, vectors, labels);
    let cluster = |row: (u32, [Binary32; N_DIMS], u8)| row.0;
    let ids = rows.map_values(cluster);
    crate::index::knn::lemma_renamed(rows, before, cluster, c);
    lemma_same_ids(rows, before);
    assert(before.map_values(cluster) =~= assignments);
    assert(ids.to_multiset() == assignments.to_multiset());
    lemma_ids_below(ids, assignments, nlist, c as nat);
    lemma_ids_below(ids, assignments, nlist, c as nat + 1);
    lemma_sorted_below(ids, c as nat, i);
    lemma_sorted_below(ids, c as nat + 1, i);
}

proof fn lemma_same_ids(
    rows: Seq<(u32, [Binary32; N_DIMS], u8)>,
    before: Seq<(u32, [Binary32; N_DIMS], u8)>,
)
    requires
        rows.to_multiset() == before.to_multiset(),
    ensures
        rows.map_values(|row: (u32, [Binary32; N_DIMS], u8)| row.0).to_multiset()
            == before.map_values(|row: (u32, [Binary32; N_DIMS], u8)| row.0).to_multiset(),
{
    let cluster = |row: (u32, [Binary32; N_DIMS], u8)| row.0;
    let (a, b) = (rows.map_values(cluster), before.map_values(cluster));
    broadcast use vstd::multiset::group_multiset_axioms;

    assert forall|c: u32| a.to_multiset().count(c) == b.to_multiset().count(c) by {
        crate::index::knn::lemma_renamed(rows, before, cluster, c);
        crate::index::knn::lemma_renamed(before, rows, cluster, c);
    }
    assert(a.to_multiset() =~= b.to_multiset());
}

/// How many numbers are below a bound.
spec fn below(s: Seq<u32>, bound: nat) -> nat
    decreases s.len(),
{
    if s.len() == 0 {
        0
    } else {
        below(s.drop_last(), bound) + if s.last() < bound {
            1nat
        } else {
            0
        }
    }
}

proof fn lemma_below_counts(s: Seq<u32>, c: u32)
    ensures
        below(s, c as nat + 1) == below(s, c as nat) + s.to_multiset().count(c),
        below(s, 0) == 0,
    decreases s.len(),
{
    broadcast use vstd::seq_lib::group_to_multiset_ensures;
    broadcast use vstd::multiset::group_multiset_axioms;

    if s.len() > 0 {
        lemma_below_counts(s.drop_last(), c);
        assert(s =~= s.drop_last().push(s.last()));
    } else {
        assert(s.to_multiset() =~= vstd::multiset::Multiset::empty());
    }
}

/// The clusters before a cluster have as many rows as it takes to get to its start.
proof fn lemma_ids_below(ids: Seq<u32>, assignments: Seq<u32>, nlist: nat, c: nat)
    requires
        ids.to_multiset() == assignments.to_multiset(),
        assignments.len() <= usize::MAX,
        c <= nlist,
        c <= 0x1_0000_0000,
    ensures
        below(ids, c) == raw_start(sizes_by_assignment(assignments, nlist), c),
    decreases c,
{
    lemma_below_counts(ids, 0);
    if c > 0 {
        lemma_ids_below(ids, assignments, nlist, (c - 1) as nat);
        lemma_below_counts(ids, (c - 1) as u32);
        law_sizes_count_assignments(assignments, nlist, (c - 1) as u32);
    }
}

/// In ascending order the numbers below a bound come first.
proof fn lemma_sorted_below(s: Seq<u32>, bound: nat, i: int)
    requires
        forall|i: int, j: int| 0 <= i <= j < s.len() ==> (#[trigger] s[i]) <= (#[trigger] s[j]),
    ensures
        below(s, bound) <= s.len(),
        0 <= i < below(s, bound) ==> s[i] < bound,
        below(s, bound) <= i < s.len() ==> s[i] >= bound,
    decreases s.len(),
{
    if s.len() > 0 {
        let h = s.drop_last();
        assert forall|i: int, j: int| 0 <= i <= j < h.len() implies (#[trigger] h[i]) <= (
        #[trigger] h[j]) by {
            assert(s[i] <= s[j]);
        }
        lemma_sorted_below(h, bound, i);
        if s.last() < bound {
            if h.len() > 0 {
                lemma_sorted_below(h, bound, h.len() - 1);
                assert(s[h.len() - 1] <= s[s.len() - 1]);
            }
        }
    }
}

// ── Samples ──────────────────────────────────────────────────────────────────

/// A check takes as many vectors as it is to take, or all where there are fewer, and spreads them
/// over all: at the same distance, and none behind the last.
pub proof fn law_samples_are_spread(n: nat, limit: nat, j: nat)
    ensures
        at_most(n, limit) <= n && at_most(n, limit) <= limit,
        at_most(n, limit) == n || at_most(n, limit) == limit,
        0 < limit <= n ==> limit * sample_step(n, limit) <= n < limit * (sample_step(n, limit) + 1),
        0 < limit && n < limit ==> sample_step(n, limit) == 1,
{
    if 0 < limit {
        let step = n / limit;
        vstd::arithmetic::div_mod::lemma_fundamental_div_mod(n as int, limit as int);
        vstd::arithmetic::div_mod::lemma_mod_pos_bound(n as int, limit as int);
        assert(limit * (step + 1) == limit * step + limit) by (nonlinear_arith);
        if limit <= n {
            if step == 0 {
                assert(limit * step == 0) by (nonlinear_arith)
                    requires
                        step == 0,
                ;
            }
            assert(step >= 1);
        } else {
            assert(step < 1) by (nonlinear_arith)
                requires
                    n == limit * step + n % limit,
                    n % limit >= 0,
                    n < limit,
            ;
        }
    }
}

/// A sample is found if the search for it gives results, and each sample counts once.
pub proof fn law_found_samples_are_counted(
    fma: bool,
    l: IndexLayout,
    vectors: Seq<[Binary32; N_DIMS]>,
    step: nat,
    j: nat,
)
    ensures
        found(fma, l, vectors, step, 0) == 0,
        found(fma, l, vectors, step, j + 1) - found(fma, l, vectors, step, j) == if l.nearest_five(
            fma,
            Seq::new(14, |d: int| quantized(vectors[j * step as int]@[d])),
        ).len() > 0 {
            1int
        } else {
            0
        },
{
    let v = vectors[j * step as int]@;
    assert(quantized_vector(v) =~= Seq::new(14, |d: int| quantized(vectors[j * step as int]@[d])));
}

/// The first mark of a text is the first byte that is not white space.
pub proof fn law_first_mark_is_not_blank(buf: Seq<u8>, i: int)
    ensures
        first_mark(buf, i) <==> 0 <= i < buf.len() && !is_blank(buf[i]) && forall|j: int|
            0 <= j < i ==> is_blank(#[trigger] buf[j]),
{
}

} // verus!
