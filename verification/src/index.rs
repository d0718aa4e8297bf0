//! The inverted-file index: its file format and the search over it.

use vstd::prelude::*;
#[allow(unused_imports)]
use vstd::relations::{sorted_by, total_ordering};
use vstd::slice::slice_subrange;

use crate::binary32::Binary32;
#[allow(unused_imports)]
use crate::binary32::fifth_bits;
#[allow(unused_imports)]
use crate::index::bbox::{lower_bound, padded_lanes};
use crate::index::bbox::{bbox_lower_bound, query_to_bbox_lanes};
#[allow(unused_imports)]
use crate::index::distance::max_dist;
#[allow(unused_imports)]
use crate::index::layout::{defect, defect_at, sizes_at, u32_at, IndexError};
use crate::index::layout::{IndexLayout, N_DIMS};
use crate::index::quantize::quantize_query;
#[allow(unused_imports)]
use crate::index::quantize::quantized_vector;
#[allow(unused_imports)]
use crate::index::search::{candidates, frauds, kept_all, offered_all};
use crate::index::search::{update_top5_blocks, update_top_k_blocks, DistF32, MaxHeap, Top5};
#[allow(unused_imports)]
use crate::laws::neighbours::{law_results_are_slots, law_score_tells_labels};

pub mod bbox;
pub mod clusters;
pub mod distance;
pub mod kmeans;
pub mod knn;
pub mod layout;
pub mod nearest;
pub mod quantize;
pub mod search;
pub mod simd;
pub mod training;
pub mod writer;

verus! {

/// Upper bound on the number of clusters.
pub const MAX_NLIST: usize = 16_384;

// ── Clusters ─────────────────────────────────────────────────────────────────

/// The block at which cluster `i` starts: the blocks of the clusters before it.
pub open spec fn block_offset(sizes: Seq<u32>, i: nat) -> nat
    decreases i,
{
    if i == 0 {
        0
    } else {
        block_offset(sizes, (i - 1) as nat) + (sizes[i - 1] / 8) as nat
    }
}

/// The clusters follow each other.
pub proof fn law_offsets_ascend(sizes: Seq<u32>, i: nat, j: nat)
    requires
        i <= j,
    ensures
        block_offset(sizes, i) <= block_offset(sizes, j),
    decreases j,
{
    if i < j {
        law_offsets_ascend(sizes, i, (j - 1) as nat);
    }
}

proof fn lemma_offset_bound(sizes: Seq<u32>, i: nat)
    ensures
        block_offset(sizes, i) <= i * 0x2000_0000,
    decreases i,
{
    if i > 0 {
        lemma_offset_bound(sizes, (i - 1) as nat);
    }
}

/// Starting block of each cluster, and the total at the end.
pub fn build_cluster_block_offsets(cluster_sizes: &[u32]) -> (r: Vec<usize>)
    requires
        block_offset(cluster_sizes@, cluster_sizes@.len()) <= usize::MAX,
    ensures
        r@.len() == cluster_sizes@.len() + 1,
        forall|i: int|
            0 <= i <= cluster_sizes@.len() ==> #[trigger] r@[i] == block_offset(
                cluster_sizes@,
                i as nat,
            ),
{
    let mut offsets: Vec<usize> = Vec::new();
    offsets.push(0);
    let mut i: usize = 0;
    while i < cluster_sizes.len()
        invariant
            i <= cluster_sizes.len(),
            block_offset(cluster_sizes@, cluster_sizes@.len()) <= usize::MAX,
            offsets@.len() == i + 1,
            forall|j: int|
                0 <= j <= i ==> #[trigger] offsets@[j] == block_offset(cluster_sizes@, j as nat),
        decreases cluster_sizes.len() - i,
    {
        proof {
            law_offsets_ascend(cluster_sizes@, (i + 1) as nat, cluster_sizes@.len());
        }
        let next: usize = offsets[i] + (cluster_sizes[i] / 8) as usize;
        offsets.push(next);
        i = i + 1;
    }
    offsets
}

// ── Order of visits ──────────────────────────────────────────────────────────

/// A cluster with its lower bound as one number, which orders by bound and then by cluster: the
/// bits of numbers that are not negative are ordered as the numbers.
pub open spec fn visit_key(bound: Binary32, cluster: int) -> u64 {
    (bound.bits * 0x1_0000_0000 + cluster) as u64
}

pub open spec fn ascending() -> spec_fn(u64, u64) -> bool {
    |a: u64, b: u64| a <= b
}

/// Sorts ascending, by the slice method `sort_unstable` of the standard library: the entries
/// stay the same and each is at most as large as the next. Equal entries cannot be told apart.
#[verifier::external_body]
fn sort_ascending(keys: &mut Vec<u64>)
    ensures
        final(keys)@.to_multiset() == old(keys)@.to_multiset(),
        forall|i: int, j: int|
            0 <= i <= j < final(keys)@.len() ==> final(keys)@[i] <= final(keys)@[j],
{
    keys.sort_unstable();
}

proof fn lemma_sorted_is_sort(before: Seq<u64>, after: Seq<u64>)
    requires
        after.to_multiset() == before.to_multiset(),
        forall|i: int, j: int| 0 <= i <= j < after.len() ==> after[i] <= after[j],
    ensures
        after == before.sort_by(ascending()),
{
    let leq = ascending();
    assert(total_ordering(leq));
    assert(sorted_by(after, leq));
    before.lemma_sort_by_ensures(leq);
    vstd::seq_lib::lemma_sorted_unique(after, before.sort_by(leq), leq);
}

// ── IvfIndex ─────────────────────────────────────────────────────────────────

/// An index in memory, with the start of each cluster.
pub struct IvfIndex {
    pub layout: IndexLayout,
    /// Starting block of each cluster.
    pub cluster_block_offsets: Vec<usize>,
    /// Whether the machine multiplies and adds with one rounding, in four lanes; the last bits of
    /// distances depend on it.
    pub fma: bool,
}

/// The cluster sizes that a buffer holds.
pub open spec fn sizes_of(b: Seq<u8>) -> Seq<u32> {
    let n = u32_at(b, 8) as nat;
    Seq::new(n, |i: int| u32_at(b, sizes_at(n) + 4 * i))
}

/// Why an index cannot be loaded from a buffer, the first reason if there are several.
pub open spec fn load_defect(b: Seq<u8>) -> Option<IndexError> {
    let nlist = u32_at(b, 8);
    let blocks = block_offset(sizes_of(b), nlist as nat);
    if defect(b) is Some {
        defect(b)
    } else if nlist > MAX_NLIST {
        Some(IndexError::TooManyLists { nlist: nlist as usize, max: MAX_NLIST })
    } else if blocks > usize::MAX {
        Some(IndexError::TooManyBlocks { blocks: blocks as u64 })
    } else {
        None
    }
}

/// Why an index cannot be loaded from a buffer that starts at an address.
pub open spec fn load_defect_at(b: Seq<u8>, address: usize) -> Option<IndexError> {
    if defect_at(b, address) is Some {
        defect_at(b, address)
    } else {
        load_defect(b)
    }
}

impl IndexLayout {
    /// The first block of cluster `ci`.
    pub open spec fn cluster_start(&self, ci: int) -> nat {
        block_offset(self.cluster_sizes@, ci as nat)
    }

    /// The clusters lie within the blocks.
    pub open spec fn clusters_fit(&self) -> bool {
        block_offset(self.cluster_sizes@, self.cluster_sizes@.len()) <= self.blocks@.len()
    }

    /// The distance and label of each slot of cluster `ci`, in order.
    pub open spec fn cluster_candidates(&self, fma: bool, query: Seq<i16>, ci: int) -> Seq<
        (Binary32, u8),
    > {
        let (bs, be) = (self.cluster_start(ci), self.cluster_start(ci + 1));
        candidates(
            fma,
            query,
            self.blocks@.subrange(bs as int, be as int),
            self.labels@.subrange(8 * bs as int, 8 * be as int),
        )
    }

    /// The lower bound of cluster `ci`.
    pub open spec fn cluster_bound(&self, fma: bool, query: Seq<i16>, ci: int) -> Binary32 {
        lower_bound(fma, padded_lanes(query), self.bbox_mins@[ci], self.bbox_maxes@[ci])
    }

    /// The clusters with their lower bounds, nearest bound first.
    pub open spec fn visits(&self, fma: bool, query: Seq<i16>) -> Seq<u64> {
        Seq::new(
            self.bbox_mins@.len(),
            |ci: int| visit_key(self.cluster_bound(fma, query, ci), ci),
        ).sort_by(ascending())
    }

    /// The five nearest after the visits from `i` on: they end at the first bound that cannot
    /// improve the five.
    pub open spec fn visited(
        &self,
        fma: bool,
        query: Seq<i16>,
        s: Seq<(Binary32, u8)>,
        visits: Seq<u64>,
        i: int,
    ) -> Seq<(Binary32, u8)>
        decreases visits.len() - i,
    {
        if i < 0 || i >= visits.len() {
            s
        } else {
            let bound = Binary32 { bits: (visits[i] / 0x1_0000_0000) as u32 };
            if cannot_improve(bound, s) {
                s
            } else {
                let ci = (visits[i] % 0x1_0000_0000) as int;
                self.visited(
                    fma,
                    query,
                    offered_all(s, self.cluster_candidates(fma, query, ci)),
                    visits,
                    i + 1,
                )
            }
        }
    }

    /// The five nearest to a quantised query.
    pub open spec fn nearest_five(&self, fma: bool, query: Seq<i16>) -> Seq<(Binary32, u8)> {
        self.visited(fma, query, seq![], self.visits(fma, query), 0)
    }

    /// The `k` nearest to a quantised query, nearest first: up to five are the first of the
    /// pruned search, more are those of a scan of every cluster.
    pub open spec fn knn(&self, fma: bool, query: Seq<i16>, k: nat) -> Seq<(DistF32, u8)> {
        if k <= 5 {
            let five = self.nearest_five(fma, query);
            five.take(
                if k <= five.len() {
                    k as int
                } else {
                    five.len() as int
                },
            ).map_values(|e: (Binary32, u8)| (DistF32(e.0), e.1))
        } else {
            self.scanned(fma, query, seq![], k, self.cluster_sizes@.len())
        }
    }

    /// The `k` nearest of the first `n` clusters.
    pub open spec fn scanned(
        &self,
        fma: bool,
        query: Seq<i16>,
        s: Seq<(DistF32, u8)>,
        k: nat,
        n: nat,
    ) -> Seq<(DistF32, u8)>
        decreases n,
    {
        if n == 0 {
            s
        } else {
            kept_all(
                self.scanned(fma, query, s, k, (n - 1) as nat),
                k,
                self.cluster_candidates(fma, query, n - 1),
            )
        }
    }
}

/// A cluster at this distance holds nothing nearer than the farthest of five.
pub open spec fn cannot_improve(bound: Binary32, s: Seq<(Binary32, u8)>) -> bool {
    let worst = if s.len() < 5 {
        max_dist()
    } else {
        s[4].0
    };
    !worst.is_nan_spec() && !bound.lt_spec(worst)
}

impl IvfIndex {
    /// The sections have the lengths that the header says, and the offsets are those of the
    /// cluster sizes.
    pub open spec fn well_formed(&self) -> bool {
        let sizes = self.layout.cluster_sizes@;
        &&& self.layout.lengths_match()
        &&& self.layout.header.nlist <= MAX_NLIST
        &&& self.cluster_block_offsets@.len() == sizes.len() + 1
        &&& forall|i: int|
            0 <= i <= sizes.len() ==> #[trigger] self.cluster_block_offsets@[i] == block_offset(
                sizes,
                i as nat,
            )
    }

    /// The index can be searched: the clusters lie within the blocks.
    pub open spec fn searchable(&self) -> bool {
        self.well_formed() && self.layout.clusters_fit()
    }

    /// Builds the index from the bytes of an index.bin file, for a machine with or without fused
    /// multiplication and addition.
    pub fn load(bytes: &[u8], fma: bool) -> (r: Result<Self, IndexError>)
        ensures
            match r {
                Ok(index) => load_defect(bytes@) is None && index.layout.matches(bytes@)
                    && index.well_formed() && index.fma == fma,
                Err(e) => load_defect(bytes@) == Some(e) || (e == IndexError::NotAligned
                    && bytes@.len() >= 32),
            },
    {
        let layout = match IndexLayout::from_bytes(bytes) {
            Ok(layout) => layout,
            Err(e) => {
                return Err(e);
            },
        };
        Self::from_layout(layout, Ghost(bytes@), fma)
    }

    /// Builds the index from the bytes of an index.bin file that start at `address`; the header
    /// needs a multiple of 8.
    pub fn load_at(bytes: &[u8], address: usize, fma: bool) -> (r: Result<Self, IndexError>)
        requires
            bytes@.len() >= 32 ==> address % 8 == 0,
        ensures
            match r {
                Ok(index) => load_defect_at(bytes@, address) is None && index.layout.matches(bytes@)
                    && index.well_formed() && index.fma == fma,
                Err(e) => load_defect_at(bytes@, address) == Some(e),
            },
    {
        let layout = match IndexLayout::from_bytes_at(bytes, address) {
            Ok(layout) => layout,
            Err(e) => {
                return Err(e);
            },
        };
        Self::from_layout(layout, Ghost(bytes@), fma)
    }

    /// Builds the index from the sections of a buffer.
    fn from_layout(layout: IndexLayout, Ghost(bytes): Ghost<Seq<u8>>, fma: bool) -> (r: Result<
        Self,
        IndexError,
    >)
        requires
            defect(bytes) is None,
            layout.matches(bytes),
        ensures
            match r {
                Ok(index) => load_defect(bytes) is None && index.layout == layout
                    && index.well_formed() && index.fma == fma,
                Err(e) => load_defect(bytes) == Some(e),
            },
    {
        if layout.bbox_mins.len() > MAX_NLIST {
            return Err(
                IndexError::TooManyLists { nlist: layout.bbox_mins.len(), max: MAX_NLIST },
            );
        }
        assert(layout.cluster_sizes@ =~= sizes_of(bytes));
        let blocks = count_blocks(&layout.cluster_sizes);
        if blocks > usize::MAX as u64 {
            return Err(IndexError::TooManyBlocks { blocks });
        }
        let cluster_block_offsets = build_cluster_block_offsets(layout.cluster_sizes.as_slice());
        Ok(Self { layout, cluster_block_offsets, fma })
    }

    /// Whether the clusters lie within the blocks, as searching needs.
    pub fn is_searchable(&self) -> (r: bool)
        requires
            self.well_formed(),
        ensures
            r == self.searchable(),
    {
        self.cluster_block_offsets[self.layout.cluster_sizes.len()] <= self.layout.blocks.len()
    }

    /// The `k` nearest to the query, as `(distance, label)`, nearest first.
    ///
    /// Up to five come from the pruned search, in which the order among equal distances is that
    /// of the visits; more come from a scan of every cluster, ordered by distance and label.
    pub fn search_knn(&self, query: &[Binary32; N_DIMS], k: usize) -> (r: Vec<(DistF32, u8)>)
        requires
            self.searchable(),
        ensures
            r@ == self.layout.knn(self.fma, quantized_vector(query@), k as nat),
            r@.map_values(|e: (DistF32, u8)| (e.0.0, e.1)).to_multiset().subset_of(
                self.layout.slots(
                    self.fma,
                    quantized_vector(query@),
                    self.layout.cluster_sizes@.len(),
                ).to_multiset(),
            ),
            forall|i: int, j: int|
                0 <= i <= j < r@.len() ==> (#[trigger] r@[i]).0.0.bits <= (
                #[trigger] r@[j]).0.0.bits,
    {
        proof {
            law_results_are_slots(self.fma, self.layout, quantized_vector(query@), k as nat);
        }
        if k == 0 {
            let out: Vec<(DistF32, u8)> = Vec::new();
            let ghost five = self.layout.nearest_five(self.fma, quantized_vector(query@));
            assert(out@ =~= five.take(0).map_values(|e: (Binary32, u8)| (DistF32(e.0), e.1)));
            return out;
        }
        if k <= 5 {
            let mut top5 = Top5::new();
            self.fill_top5_bbox_prune(query, &mut top5);
            let all = top5.iter();
            let ghost want = all@.take(
                if k <= all@.len() {
                    k as int
                } else {
                    all@.len() as int
                },
            ).map_values(|e: (Binary32, u8)| (DistF32(e.0), e.1));
            let mut out: Vec<(DistF32, u8)> = Vec::new();
            let mut i: usize = 0;
            while i < k && i < all.len()
                invariant
                    i <= k,
                    i <= all@.len(),
                    want == all@.take(
                        if k <= all@.len() {
                            k as int
                        } else {
                            all@.len() as int
                        },
                    ).map_values(|e: (Binary32, u8)| (DistF32(e.0), e.1)),
                    out@ == want.take(i as int),
                decreases k - i,
            {
                let e = all[i];
                out.push((DistF32(e.0), e.1));
                assert(want.take(i + 1) =~= want.take(i as int).push(want[i as int]));
                i = i + 1;
            }
            assert(want.take(i as int) =~= want);
            return out;
        }
        let mut heap = MaxHeap::new();
        self.fill_heap_full_scan(query, k, &mut heap);
        heap.into_sorted_vec()
    }

    /// The fraud score: the share of frauds among the five nearest.
    pub fn fraud_score(&self, query: &[Binary32; N_DIMS]) -> (r: Binary32)
        requires
            self.searchable(),
        ensures
            r == Binary32::of_int(
                frauds(self.layout.nearest_five(self.fma, quantized_vector(query@))) as int,
            ).div_spec(Binary32::of_int(5)),
            r.bits == fifth_bits(
                self.layout.nearest_five(self.fma, quantized_vector(query@)).map_values(
                    |e: (Binary32, u8)| e.1,
                ).to_multiset().count(1u8),
            ),
    {
        proof {
            law_score_tells_labels(self.fma, self.layout, quantized_vector(query@));
        }
        let mut top5 = Top5::new();
        self.fill_top5_bbox_prune(query, &mut top5);
        let n = top5.count_fraud();
        Binary32::from_u32(n as u32).div(Binary32::from_u32(5))
    }

    /// The value that is stored in the header; the search does not use it.
    pub fn nprobe(&self) -> (r: usize)
        ensures
            r == self.layout.header.nprobe,
    {
        self.layout.header.nprobe as usize
    }

    /// Changes nothing: the pruned search has no parameters.
    pub fn with_nprobes(self, _fast: usize, _full: usize) -> (r: Self)
        ensures
            r == self,
    {
        self
    }

    /// Visits the clusters in ascending order of their lower bounds and stops as soon as the
    /// next one cannot improve the five nearest.
    pub fn fill_top5_bbox_prune(&self, query: &[Binary32; N_DIMS], top5: &mut Top5)
        requires
            self.searchable(),
            old(top5).well_formed(),
        ensures
            final(top5).well_formed(),
            final(top5)@ == self.layout.visited(
                self.fma,
                quantized_vector(query@),
                old(top5)@,
                self.layout.visits(self.fma, quantized_vector(query@)),
                0,
            ),
    {
        let nlist = self.layout.bbox_mins.len();
        let query_i16 = quantize_query(query);
        let ghost q = query_i16@;
        let q_lanes = query_to_bbox_lanes(&query_i16);
        let ghost keys = Seq::new(
            nlist as nat,
            |ci: int| visit_key(self.layout.cluster_bound(self.fma, q, ci), ci),
        );
        let mut packed: Vec<u64> = Vec::new();
        let mut ci: usize = 0;
        while ci < nlist
            invariant
                ci <= nlist,
                self.searchable(),
                nlist == self.layout.bbox_mins@.len(),
                q_lanes@ == padded_lanes(q),
                keys == Seq::new(
                    nlist as nat,
                    |c: int| visit_key(self.layout.cluster_bound(self.fma, q, c), c),
                ),
                packed@ == keys.take(ci as int),
            decreases nlist - ci,
        {
            let lb = bbox_lower_bound(
                &q_lanes,
                &self.layout.bbox_mins[ci],
                &self.layout.bbox_maxes[ci],
                self.fma,
            );
            packed.push(lb.bits as u64 * 0x1_0000_0000 + ci as u64);
            assert(keys.take(ci + 1) =~= keys.take(ci as int).push(keys[ci as int]));
            ci = ci + 1;
        }
        assert(keys.take(nlist as int) =~= keys);
        sort_ascending(&mut packed);
        let ghost visits = self.layout.visits(self.fma, q);
        proof {
            lemma_sorted_is_sort(keys, packed@);
            lemma_visit_ids(self.fma, keys, nlist as nat, self.layout, q);
        }
        let ghost whole = self.layout.visited(self.fma, q, top5@, visits, 0);
        let mut i: usize = 0;
        while i < packed.len()
            invariant
                i <= packed@.len(),
                self.searchable(),
                query_i16@ == q,
                q == quantized_vector(query@),
                whole == self.layout.visited(self.fma, q, old(top5)@, visits, 0),
                packed@ == visits,
                visits == self.layout.visits(self.fma, q),
                top5.well_formed(),
                whole == self.layout.visited(self.fma, q, top5@, visits, i as int),
                forall|j: int|
                    0 <= j < visits.len() ==> (#[trigger] visits[j]) % 0x1_0000_0000
                        < self.layout.bbox_mins@.len(),
            decreases packed.len() - i,
        {
            let entry = packed[i];
            let lb = Binary32 { bits: (entry / 0x1_0000_0000) as u32 };
            let worst = top5.worst();
            if !worst.is_nan() && !lb.lt(worst) {
                return;
            }
            let cluster_id = (entry % 0x1_0000_0000) as usize;
            self.offer_cluster(cluster_id, &query_i16, top5);
            i = i + 1;
        }
    }

    /// Offers the vectors of one cluster.
    fn offer_cluster(&self, cluster_id: usize, query_i16: &[i16; N_DIMS], top5: &mut Top5)
        requires
            self.searchable(),
            cluster_id < self.layout.cluster_sizes@.len(),
            old(top5).well_formed(),
        ensures
            final(top5).well_formed(),
            final(top5)@ == offered_all(
                old(top5)@,
                self.layout.cluster_candidates(self.fma, query_i16@, cluster_id as int),
            ),
    {
        match self.cluster_block_range(cluster_id) {
            Some((bs, be)) => {
                proof {
                    self.lemma_range(cluster_id as int);
                }
                if bs < be {
                    let blocks = slice_subrange(self.layout.blocks.as_slice(), bs, be);
                    let labels = slice_subrange(self.layout.labels.as_slice(), bs * 8, be * 8);
                    update_top5_blocks(query_i16, blocks, labels, top5, self.fma);
                }
            },
            None => {},
        }
    }

    proof fn lemma_range(&self, ci: int)
        requires
            self.searchable(),
            0 <= ci < self.layout.cluster_sizes@.len(),
        ensures
            self.layout.cluster_start(ci) <= self.layout.cluster_start(ci + 1),
            self.layout.cluster_start(ci + 1) <= self.layout.blocks@.len(),
            8 * self.layout.cluster_start(ci + 1) <= self.layout.labels@.len(),
            self.layout.labels@.len() <= usize::MAX,
    {
        let sizes = self.layout.cluster_sizes@;
        law_offsets_ascend(sizes, ci as nat, (ci + 1) as nat);
        law_offsets_ascend(sizes, (ci + 1) as nat, sizes.len());
        assert(self.layout.labels@.len() == self.layout.labels.len());
    }

    /// The first block of a cluster and the one behind its last.
    pub fn cluster_block_range(&self, cluster_id: usize) -> (r: Option<(usize, usize)>)
        requires
            self.well_formed(),
        ensures
            cluster_id >= self.layout.cluster_sizes@.len() ==> r is None,
            cluster_id < self.layout.cluster_sizes@.len() ==> r == Some(
                (
                    self.layout.cluster_start(cluster_id as int) as usize,
                    self.layout.cluster_start(cluster_id + 1) as usize,
                ),
            ) && self.layout.cluster_start(cluster_id as int) <= usize::MAX
                && self.layout.cluster_start(cluster_id + 1) <= usize::MAX,
    {
        if cluster_id >= self.layout.cluster_sizes.len() {
            return None;
        }
        let start = self.cluster_block_offsets[cluster_id];
        let end = self.cluster_block_offsets[cluster_id + 1];
        Some((start, end))
    }

    /// Scans the blocks of every cluster for the `k` nearest.
    pub fn fill_heap_full_scan(&self, query: &[Binary32; N_DIMS], k: usize, heap: &mut MaxHeap)
        requires
            self.searchable(),
            old(heap).well_formed(),
        ensures
            final(heap).well_formed(),
            final(heap)@ == self.layout.scanned(
                self.fma,
                quantized_vector(query@),
                old(heap)@,
                k as nat,
                self.layout.cluster_sizes@.len(),
            ),
    {
        let query_i16 = quantize_query(query);
        let nlist = self.layout.cluster_sizes.len();
        let mut ci: usize = 0;
        while ci < nlist
            invariant
                ci <= nlist,
                nlist == self.layout.cluster_sizes@.len(),
                self.searchable(),
                heap.well_formed(),
                heap@ == self.layout.scanned(self.fma, query_i16@, old(heap)@, k as nat, ci as nat),
            decreases nlist - ci,
        {
            match self.cluster_block_range(ci) {
                Some((bs, be)) => {
                    proof {
                        self.lemma_range(ci as int);
                    }
                    if bs < be {
                        let blocks = slice_subrange(self.layout.blocks.as_slice(), bs, be);
                        let labels = slice_subrange(self.layout.labels.as_slice(), bs * 8, be * 8);
                        update_top_k_blocks(&query_i16, blocks, labels, k, heap, self.fma);
                    }
                },
                None => {},
            }
            ci = ci + 1;
        }
    }
}

/// Every key of a visit names a cluster.
proof fn lemma_visit_ids(fma: bool, keys: Seq<u64>, n: nat, l: IndexLayout, q: Seq<i16>)
    requires
        n <= MAX_NLIST,
        n == l.bbox_mins@.len(),
        keys == Seq::new(n, |ci: int| visit_key(l.cluster_bound(fma, q, ci), ci)),
    ensures
        forall|j: int|
            0 <= j < keys.sort_by(ascending()).len() ==> (#[trigger] keys.sort_by(
                ascending(),
            )[j]) % 0x1_0000_0000 < n,
{
    let sorted = keys.sort_by(ascending());
    keys.lemma_sort_by_ensures(ascending());
    assert forall|j: int| 0 <= j < sorted.len() implies (#[trigger] sorted[j]) % 0x1_0000_0000
        < n by {
        assert(sorted.contains(sorted[j]));
        assert(keys.contains(sorted[j]));
        let ci = choose|ci: int| 0 <= ci < keys.len() && keys[ci] == sorted[j];
        lemma_key_parts(l.cluster_bound(fma, q, ci), ci);
    }
}

/// A key gives back the bound and the cluster that it was made of.
proof fn lemma_key_parts(bound: Binary32, ci: int)
    requires
        0 <= ci < 0x1_0000_0000,
    ensures
        visit_key(bound, ci) % 0x1_0000_0000 == ci,
        visit_key(bound, ci) / 0x1_0000_0000 == bound.bits,
{
}

/// The number of blocks of all clusters.
fn count_blocks(sizes: &Vec<u32>) -> (r: u64)
    requires
        sizes@.len() <= MAX_NLIST,
    ensures
        r == block_offset(sizes@, sizes@.len()),
{
    let mut total: u64 = 0;
    let mut i: usize = 0;
    while i < sizes.len()
        invariant
            i <= sizes@.len() <= MAX_NLIST,
            total == block_offset(sizes@, i as nat),
        decreases sizes.len() - i,
    {
        proof {
            lemma_offset_bound(sizes@, i as nat);
        }
        total = total + (sizes[i] / 8) as u64;
        i = i + 1;
    }
    total
}

} // verus!
