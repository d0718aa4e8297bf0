//! Construction of an index from labelled reference vectors.

use rayon::slice::ParallelSliceMut;
use vstd::prelude::*;
use vstd::string::StringExecFns;

use crate::binary32::Binary32;
#[allow(unused_imports)]
use crate::index::bbox::{in_box, zero_padded};
#[allow(unused_imports)]
use crate::index::kmeans::{lemma_members_bound, members};
use crate::index::layout::{
    align_up, Bbox, IndexHeader, IndexLayout, VectorBlock, BLOCK_SIZE, MAGIC, N_DIMS, VERSION,
};
#[allow(unused_imports)]
use crate::index::quantize::{quantized, quantized_vector};
use crate::index::quantize::quantize_i16;
#[allow(unused_imports)]
use crate::index::simd::{block_value, block_vector, vector_dist};
#[allow(unused_imports)]
use crate::index::distance::is_dist;
#[allow(unused_imports)]
use crate::index::nearest::{
    law_fraud_score_is_a_fifth, law_pruned_search_finds_what_is_nearer, law_results_are_in_order,
};
use crate::index::search::DistF32;
#[allow(unused_imports)]
use crate::index::writer::new_header;
use crate::index::writer::NPROBE;
#[allow(unused_imports)]
use crate::index::{block_offset, IvfIndex, MAX_NLIST};
use crate::text::trim;
#[allow(unused_imports)]
use crate::text::trimmed;

verus! {

// ── References ───────────────────────────────────────────────────────────────

/// One labelled reference vector.
#[derive(Debug)]
pub struct ReferenceRecord {
    pub vector: [Binary32; N_DIMS],
    pub label: String,
}

/// The label of a record: 1 for fraud, 0 for everything else.
pub open spec fn label_code(label: Seq<char>) -> u8 {
    if label == "fraud"@ {
        1
    } else {
        0
    }
}

/// Adds a record to the vectors and labels.
pub fn push_record(
    vectors: &mut Vec<[Binary32; N_DIMS]>,
    labels: &mut Vec<u8>,
    rec: ReferenceRecord,
)
    ensures
        final(vectors)@ == old(vectors)@.push(rec.vector),
        final(labels)@ == old(labels)@.push(label_code(rec.label@)),
{
    vectors.push(rec.vector);
    let fraud = String::from_str("fraud");
    if rec.label == fraud {
        labels.push(1);
    } else {
        labels.push(0);
    }
}

/// After every so many vectors the reading tells how far it is.
pub const LOG_EVERY: usize = 500_000;

/// Whether the reading tells how far it is after `count` vectors.
pub fn logs_progress(count: usize) -> (r: bool)
    ensures
        r == (count % LOG_EVERY == 0),
{
    count % LOG_EVERY == 0
}

/// The record on a line: what is left without white space at either end, by its bounds; none
/// where nothing is left.
pub fn record_bounds(line: &[u8]) -> (r: Option<(usize, usize)>)
    ensures
        match r {
            Some((start, end)) => {
                &&& start < end <= line@.len()
                &&& line@.subrange(start as int, end as int) == trimmed(line@)
            },
            None => trimmed(line@).len() == 0,
        },
{
    let (start, end) = trim(line);
    if start < end {
        Some((start, end))
    } else {
        None
    }
}

/// What the first bytes of a references file tell of its form.
#[derive(Clone, Copy, Debug, PartialEq, Eq, Structural)]
pub enum Probe {
    /// There are no more bytes.
    Empty,
    /// All bytes are white space: more are needed.
    Blank,
    /// A JSON array starts.
    Array,
    /// Something else starts.
    Lines,
}

/// White space of ASCII: space, tab, line feed, form feed or carriage return.
pub open spec fn is_blank(b: u8) -> bool {
    b == 0x20 || b == 0x09 || b == 0x0A || b == 0x0C || b == 0x0D
}

/// The bytes before `i` are white space and the one at `i` is not.
pub open spec fn first_mark(buf: Seq<u8>, i: int) -> bool {
    &&& 0 <= i < buf.len()
    &&& !is_blank(buf[i])
    &&& forall|j: int| 0 <= j < i ==> is_blank(#[trigger] buf[j])
}

/// Looks for the first byte that is not white space, to tell whether a JSON array starts.
pub fn is_json_array(buf: &[u8]) -> (r: Probe)
    ensures
        buf@.len() == 0 <==> r == Probe::Empty,
        r == Probe::Blank <==> buf@.len() > 0 && forall|j: int|
            0 <= j < buf@.len() ==> is_blank(#[trigger] buf@[j]),
        r == Probe::Array <==> exists|i: int| #[trigger] first_mark(buf@, i) && buf@[i] == 0x5B,
        r == Probe::Lines <==> exists|i: int| #[trigger] first_mark(buf@, i) && buf@[i] != 0x5B,
{
    if buf.len() == 0 {
        return Probe::Empty;
    }
    let mut i: usize = 0;
    while i < buf.len()
        invariant
            i <= buf.len(),
            buf.len() > 0,
            forall|j: int| 0 <= j < i ==> is_blank(#[trigger] buf@[j]),
        decreases buf.len() - i,
    {
        let b = buf[i];
        if !(b == 0x20 || b == 0x09 || b == 0x0A || b == 0x0C || b == 0x0D) {
            proof {
                assert(first_mark(buf@, i as int));
                assert forall|k: int| #[trigger] first_mark(buf@, k) implies k == i by {
                    if k < i {
                        assert(is_blank(buf@[k]));
                    }
                    if k > i {
                        assert(is_blank(buf@[i as int]));
                    }
                }
            }
            return if b == 0x5B {
                Probe::Array
            } else {
                Probe::Lines
            };
        }
        i = i + 1;
    }
    Probe::Blank
}

// ── Blocks ───────────────────────────────────────────────────────────────────

/// The next multiple of the block size.
pub open spec fn padded(n: int) -> int {
    (n + 7) / 8 * 8
}

/// The first vector of cluster `ci` in the sorted vectors.
pub open spec fn raw_start(sizes: Seq<usize>, ci: nat) -> int
    decreases ci,
{
    if ci == 0 {
        0
    } else {
        raw_start(sizes, (ci - 1) as nat) + sizes[ci - 1]
    }
}

/// The first slot of cluster `ci`.
pub open spec fn padded_start(sizes: Seq<usize>, ci: nat) -> int
    decreases ci,
{
    if ci == 0 {
        0
    } else {
        padded_start(sizes, (ci - 1) as nat) + padded(sizes[ci - 1] as int)
    }
}

pub proof fn lemma_starts(sizes: Seq<usize>, i: nat, j: nat)
    requires
        i <= j,
    ensures
        0 <= raw_start(sizes, i) <= raw_start(sizes, j),
        0 <= padded_start(sizes, i) <= padded_start(sizes, j),
        raw_start(sizes, i) <= padded_start(sizes, i),
        padded_start(sizes, i) % 8 == 0,
    decreases j,
{
    if i < j {
        lemma_starts(sizes, i, (j - 1) as nat);
    } else if i > 0 {
        lemma_starts(sizes, (i - 1) as nat, (i - 1) as nat);
    }
}

/// A slot holds a vector, quantised, and its label.
pub open spec fn slot_holds(
    blocks: Seq<VectorBlock>,
    labels: Seq<u8>,
    slot: int,
    vector: Seq<Binary32>,
    label: u8,
) -> bool {
    block_vector(blocks[slot / 8], slot % 8) == quantized_vector(vector) && labels[slot] == label
}

/// A slot is padding: it has no features and the label 0.
pub open spec fn slot_empty(blocks: Seq<VectorBlock>, labels: Seq<u8>, slot: int) -> bool {
    block_vector(blocks[slot / 8], slot % 8) == Seq::new(14, |d: int| 0i16) && labels[slot] == 0
}

/// The slots of cluster `ci` hold its vectors in order, and padding behind them.
pub open spec fn cluster_stored(
    blocks: Seq<VectorBlock>,
    out_labels: Seq<u8>,
    vectors: Seq<[Binary32; N_DIMS]>,
    labels: Seq<u8>,
    sizes: Seq<usize>,
    ci: int,
) -> bool {
    &&& forall|local: int|
        0 <= local < sizes[ci] ==> #[trigger] slot_holds(
            blocks,
            out_labels,
            padded_start(sizes, ci as nat) + local,
            vectors[raw_start(sizes, ci as nat) + local]@,
            labels[raw_start(sizes, ci as nat) + local],
        )
    &&& forall|local: int|
        sizes[ci] <= local < padded(sizes[ci] as int) ==> #[trigger] slot_empty(
            blocks,
            out_labels,
            padded_start(sizes, ci as nat) + local,
        )
}

/// Writes a vector into a slot of a block.
fn write_vector(block: &mut VectorBlock, slot: usize, v: &[Binary32; N_DIMS])
    requires
        slot < 8,
    ensures
        block_vector(*final(block), slot as int) == quantized_vector(v@),
        forall|s: int|
            0 <= s < 8 && s != slot ==> #[trigger] block_vector(*final(block), s) == block_vector(
                *old(block),
                s,
            ),
{
    let mut d: usize = 0;
    while d < N_DIMS
        invariant
            d <= 14,
            slot < 8,
            forall|e: int|
                0 <= e < d ==> #[trigger] block_value(*block, slot as int, e) == quantized(v@[e]),
            forall|s: int, e: int|
                0 <= s < 8 && s != slot && 0 <= e < 14 ==> #[trigger] block_value(*block, s, e)
                    == block_value(*old(block), s, e),
        decreases 14 - d,
    {
        let ghost before = *block;
        let value = quantize_i16(v[d]);
        block.data[d * 8 + slot] = value;
        assert forall|e: int| 0 <= e < d + 1 implies #[trigger] block_value(*block, slot as int, e)
            == quantized(v@[e]) by {
            if e < d {
                assert(block_value(before, slot as int, e) == quantized(v@[e]));
            }
        }
        assert forall|s: int, e: int| 0 <= s < 8 && s != slot && 0 <= e < 14 implies
            #[trigger] block_value(*block, s, e) == block_value(*old(block), s, e) by {
            assert(block_value(before, s, e) == block_value(*old(block), s, e));
        }
        d = d + 1;
    }
    assert(block_vector(*block, slot as int) =~= quantized_vector(v@));
    assert forall|s: int| 0 <= s < 8 && s != slot implies #[trigger] block_vector(*block, s)
        == block_vector(*old(block), s) by {
        assert(block_vector(*block, s) =~= block_vector(*old(block), s));
    }
}

/// Every slot but one is as it was.
spec fn same_but(
    before: Seq<VectorBlock>,
    before_labels: Seq<u8>,
    after: Seq<VectorBlock>,
    after_labels: Seq<u8>,
    slot: int,
) -> bool {
    forall|s: int|
        0 <= s < before_labels.len() && s != slot ==> #[trigger] slot_content(
            after,
            after_labels,
            s,
        ) == slot_content(before, before_labels, s)
}

spec fn slot_content(blocks: Seq<VectorBlock>, labels: Seq<u8>, slot: int) -> (Seq<i16>, u8) {
    (block_vector(blocks[slot / 8], slot % 8), labels[slot])
}

proof fn lemma_stored_frame(
    before: Seq<VectorBlock>,
    before_labels: Seq<u8>,
    after: Seq<VectorBlock>,
    after_labels: Seq<u8>,
    slot: int,
    vectors: Seq<[Binary32; N_DIMS]>,
    labels: Seq<u8>,
    sizes: Seq<usize>,
    ci: int,
)
    requires
        0 <= ci < sizes.len(),
        same_but(before, before_labels, after, after_labels, slot),
        padded_start(sizes, (ci + 1) as nat) <= slot,
        padded_start(sizes, (ci + 1) as nat) <= before_labels.len(),
        cluster_stored(before, before_labels, vectors, labels, sizes, ci),
    ensures
        cluster_stored(after, after_labels, vectors, labels, sizes, ci),
{
    let start = padded_start(sizes, ci as nat);
    lemma_starts(sizes, ci as nat, (ci + 1) as nat);
    assert forall|local: int| 0 <= local < sizes[ci] implies #[trigger] slot_holds(
        after,
        after_labels,
        start + local,
        vectors[raw_start(sizes, ci as nat) + local]@,
        labels[raw_start(sizes, ci as nat) + local],
    ) by {
        assert(slot_holds(
            before,
            before_labels,
            start + local,
            vectors[raw_start(sizes, ci as nat) + local]@,
            labels[raw_start(sizes, ci as nat) + local],
        ));
        assert(slot_content(after, after_labels, start + local) == slot_content(
            before,
            before_labels,
            start + local,
        ));
    }
    assert forall|local: int| sizes[ci] <= local < padded(sizes[ci] as int) implies
        #[trigger] slot_empty(after, after_labels, start + local) by {
        assert(slot_empty(before, before_labels, start + local));
        assert(slot_content(after, after_labels, start + local) == slot_content(
            before,
            before_labels,
            start + local,
        ));
    }
}

fn pad_to_block(n: usize) -> (r: usize)
    requires
        n + 8 <= usize::MAX,
    ensures
        r == padded(n as int),
{
    proof {
        vstd::arithmetic::power2::lemma2_to64();
        assert(vstd::arithmetic::power2::pow2(3) == 8);
    }
    align_up(n, BLOCK_SIZE)
}

/// Slots without features.
fn empty_blocks(n: usize) -> (r: Vec<VectorBlock>)
    ensures
        r@.len() == n,
        forall|b: int, slot: int|
            0 <= b < n && 0 <= slot < 8 ==> #[trigger] block_vector(r@[b], slot) == Seq::new(
                14,
                |d: int| 0i16,
            ),
{
    let mut blocks: Vec<VectorBlock> = Vec::new();
    let mut b: usize = 0;
    while b < n
        invariant
            b <= n,
            blocks@.len() == b,
            forall|c: int, slot: int|
                0 <= c < b && 0 <= slot < 8 ==> #[trigger] block_vector(blocks@[c], slot)
                    == Seq::new(14, |d: int| 0i16),
        decreases n - b,
    {
        let block = VectorBlock::default();
        assert forall|slot: int| 0 <= slot < 8 implies #[trigger] block_vector(block, slot)
            == Seq::new(14, |d: int| 0i16) by {
            assert(block_vector(block, slot) =~= Seq::new(14, |d: int| 0i16));
        }
        blocks.push(block);
        b = b + 1;
    }
    blocks
}

fn zero_labels(n: usize) -> (r: Vec<u8>)
    ensures
        r@ == Seq::new(n as nat, |i: int| 0u8),
{
    let mut labels: Vec<u8> = Vec::new();
    let mut i: usize = 0;
    while i < n
        invariant
            i <= n,
            labels@ == Seq::new(i as nat, |i: int| 0u8),
        decreases n - i,
    {
        labels.push(0);
        i = i + 1;
        assert(labels@ =~= Seq::new(i as nat, |i: int| 0u8));
    }
    labels
}

/// Puts a vector and its label into a slot.
fn store(
    blocks: &mut Vec<VectorBlock>,
    labels: &mut Vec<u8>,
    slot: usize,
    v: &[Binary32; N_DIMS],
    label: u8,
)
    requires
        old(labels)@.len() == 8 * old(blocks)@.len(),
        slot < old(labels)@.len(),
    ensures
        final(labels)@.len() == old(labels)@.len(),
        final(blocks)@.len() == old(blocks)@.len(),
        slot_holds(final(blocks)@, final(labels)@, slot as int, v@, label),
        same_but(old(blocks)@, old(labels)@, final(blocks)@, final(labels)@, slot as int),
{
    let b = slot / 8;
    let mut block = blocks[b];
    write_vector(&mut block, slot % 8, v);
    blocks.set(b, block);
    labels.set(slot, label);
    assert forall|s: int| 0 <= s < old(labels)@.len() && s != slot implies #[trigger] slot_content(
        blocks@,
        labels@,
        s,
    ) == slot_content(old(blocks)@, old(labels)@, s) by {
        if s / 8 == b {
            assert(s % 8 != slot % 8);
            assert(block_vector(blocks@[b as int], s % 8) == block_vector(
                old(blocks)@[b as int],
                s % 8,
            ));
        }
    }
}

fn padded_sum(cluster_sizes: &[usize]) -> (r: usize)
    requires
        padded_start(cluster_sizes@, cluster_sizes@.len()) + 8 <= usize::MAX,
    ensures
        r == padded_start(cluster_sizes@, cluster_sizes@.len()),
{
    let mut total: usize = 0;
    let mut i: usize = 0;
    while i < cluster_sizes.len()
        invariant
            i <= cluster_sizes.len(),
            padded_start(cluster_sizes@, cluster_sizes@.len()) + 8 <= usize::MAX,
            total == padded_start(cluster_sizes@, i as nat),
        decreases cluster_sizes.len() - i,
    {
        proof {
            lemma_starts(cluster_sizes@, i as nat, i as nat);
            lemma_starts(cluster_sizes@, (i + 1) as nat, cluster_sizes@.len());
        }
        total = total + pad_to_block(cluster_sizes[i]);
        i = i + 1;
    }
    total
}

/// Pads each cluster to a multiple of the block size and packs the vectors into blocks.
///
/// Returns the blocks, the padded cluster sizes and the labels of all slots. Padding slots carry
/// label 0 and all-zero features.
pub fn build_blocks(
    sorted_vectors: &[[Binary32; N_DIMS]],
    sorted_labels: &[u8],
    cluster_sizes: &[usize],
) -> (r: (Vec<VectorBlock>, Vec<u32>, Vec<u8>))
    requires
        raw_start(cluster_sizes@, cluster_sizes@.len()) <= sorted_vectors.len(),
        raw_start(cluster_sizes@, cluster_sizes@.len()) <= sorted_labels.len(),
        padded_start(cluster_sizes@, cluster_sizes@.len()) + 8 <= usize::MAX,
        forall|ci: int|
            0 <= ci < cluster_sizes@.len() ==> padded((#[trigger] cluster_sizes@[ci]) as int)
                <= u32::MAX,
    ensures
        r.0@.len() == padded_start(cluster_sizes@, cluster_sizes@.len()) / 8,
        r.1@.len() == cluster_sizes@.len(),
        r.2@.len() == padded_start(cluster_sizes@, cluster_sizes@.len()),
        forall|ci: int|
            0 <= ci < cluster_sizes@.len() ==> #[trigger] r.1@[ci] == padded(
                cluster_sizes@[ci] as int,
            ),
        forall|ci: int|
            0 <= ci < cluster_sizes@.len() ==> #[trigger] cluster_stored(
                r.0@,
                r.2@,
                sorted_vectors@,
                sorted_labels@,
                cluster_sizes@,
                ci,
            ),
{
    let n_padded = padded_sum(cluster_sizes);
    let ghost sizes = cluster_sizes@;
    let ghost n = sizes.len();
    let mut blocks = empty_blocks(n_padded / 8);
    let mut labels = zero_labels(n_padded);
    let mut padded_sizes: Vec<u32> = Vec::new();
    let mut src_offset: usize = 0;
    let mut dst_offset: usize = 0;
    let mut ci: usize = 0;
    proof {
        lemma_starts(sizes, n, n);
    }
    while ci < cluster_sizes.len()
        invariant
            ci <= n,
            sizes == cluster_sizes@,
            n == sizes.len(),
            raw_start(sizes, n) <= sorted_vectors.len(),
            raw_start(sizes, n) <= sorted_labels.len(),
            padded_start(sizes, n) + 8 <= usize::MAX,
            n_padded == padded_start(sizes, n),
            forall|c: int|
                0 <= c < n ==> padded((#[trigger] cluster_sizes@[c]) as int) <= u32::MAX,
            src_offset == raw_start(sizes, ci as nat),
            dst_offset == padded_start(sizes, ci as nat),
            8 * blocks@.len() == n_padded,
            labels@.len() == n_padded,
            padded_sizes@.len() == ci,
            forall|c: int|
                0 <= c < ci ==> #[trigger] padded_sizes@[c] == padded(cluster_sizes@[c] as int),
            forall|c: int|
                0 <= c < ci ==> #[trigger] cluster_stored(
                    blocks@,
                    labels@,
                    sorted_vectors@,
                    sorted_labels@,
                    sizes,
                    c,
                ),
            forall|slot: int|
                dst_offset <= slot < n_padded ==> #[trigger] slot_empty(blocks@, labels@, slot),
        decreases n - ci,
    {
        let raw_count = cluster_sizes[ci];
        proof {
            lemma_starts(sizes, ci as nat, ci as nat);
            lemma_starts(sizes, (ci + 1) as nat, n);
        }
        let padded_count = pad_to_block(raw_count);
        padded_sizes.push(padded_count as u32);
        let mut local: usize = 0;
        while local < raw_count
            invariant
                local <= raw_count,
                ci < n,
                sizes == cluster_sizes@,
                n == sizes.len(),
                raw_count == sizes[ci as int],
                raw_start(sizes, n) <= sorted_vectors.len(),
                raw_start(sizes, n) <= sorted_labels.len(),
                n_padded == padded_start(sizes, n),
                raw_start(sizes, (ci + 1) as nat) <= raw_start(sizes, n),
                padded_start(sizes, (ci + 1) as nat) <= padded_start(sizes, n),
                src_offset == raw_start(sizes, ci as nat),
                dst_offset == padded_start(sizes, ci as nat),
                8 * blocks@.len() == n_padded,
                labels@.len() == n_padded,
                forall|c: int|
                    0 <= c < ci ==> #[trigger] cluster_stored(
                        blocks@,
                        labels@,
                        sorted_vectors@,
                        sorted_labels@,
                        sizes,
                        c,
                    ),
                forall|l: int|
                    0 <= l < local ==> #[trigger] slot_holds(
                        blocks@,
                        labels@,
                        dst_offset + l,
                        sorted_vectors@[src_offset + l]@,
                        sorted_labels@[src_offset + l],
                    ),
                forall|slot: int|
                    dst_offset + local <= slot < n_padded ==> #[trigger] slot_empty(
                        blocks@,
                        labels@,
                        slot,
                    ),
            decreases raw_count - local,
        {
            let ghost b0 = blocks@;
            let ghost l0 = labels@;
            store(
                &mut blocks,
                &mut labels,
                dst_offset + local,
                &sorted_vectors[src_offset + local],
                sorted_labels[src_offset + local],
            );
            proof {
                let slot = dst_offset + local;
                assert forall|c: int| 0 <= c < ci implies #[trigger] cluster_stored(
                    blocks@,
                    labels@,
                    sorted_vectors@,
                    sorted_labels@,
                    sizes,
                    c,
                ) by {
                    assert(cluster_stored(b0, l0, sorted_vectors@, sorted_labels@, sizes, c));
                    lemma_starts(sizes, (c + 1) as nat, ci as nat);
                    lemma_stored_frame(
                        b0,
                        l0,
                        blocks@,
                        labels@,
                        slot,
                        sorted_vectors@,
                        sorted_labels@,
                        sizes,
                        c,
                    );
                }
                assert forall|l: int| 0 <= l < local + 1 implies #[trigger] slot_holds(
                    blocks@,
                    labels@,
                    dst_offset + l,
                    sorted_vectors@[src_offset + l]@,
                    sorted_labels@[src_offset + l],
                ) by {
                    if l < local {
                        assert(slot_holds(
                            b0,
                            l0,
                            dst_offset + l,
                            sorted_vectors@[src_offset + l]@,
                            sorted_labels@[src_offset + l],
                        ));
                        assert(slot_content(blocks@, labels@, dst_offset + l) == slot_content(
                            b0,
                            l0,
                            dst_offset + l,
                        ));
                    }
                }
                assert forall|s: int| dst_offset + local + 1 <= s < n_padded implies
                    #[trigger] slot_empty(blocks@, labels@, s) by {
                    assert(slot_empty(b0, l0, s));
                    assert(slot_content(blocks@, labels@, s) == slot_content(b0, l0, s));
                }
            }
            local = local + 1;
        }
        src_offset = src_offset + raw_count;
        dst_offset = dst_offset + padded_count;
        ci = ci + 1;
    }
    (blocks, padded_sizes, labels)
}

// ── Grouping ─────────────────────────────────────────────────────────────────

/// A vector with its cluster and label.
pub open spec fn rows_of(
    assignments: Seq<u32>,
    vectors: Seq<[Binary32; N_DIMS]>,
    labels: Seq<u8>,
) -> Seq<(u32, [Binary32; N_DIMS], u8)> {
    Seq::new(assignments.len(), |i: int| (assignments[i], vectors[i], labels[i]))
}

/// The clusters ascend.
pub open spec fn by_cluster(rows: Seq<(u32, [Binary32; N_DIMS], u8)>) -> bool {
    forall|i: int, j: int|
        0 <= i <= j < rows.len() ==> (#[trigger] rows[i]).0 <= (#[trigger] rows[j]).0
}

/// The vectors and labels in order of their clusters, with the size of each cluster.
pub struct Grouped {
    pub vectors: Vec<[Binary32; N_DIMS]>,
    pub labels: Vec<u8>,
    pub cluster_sizes: Vec<usize>,
}

/// The rows of a grouping: those that went in, ordered by cluster. The order within a cluster is
/// open.
pub open spec fn grouped_rows(
    rows: Seq<(u32, [Binary32; N_DIMS], u8)>,
    before: Seq<(u32, [Binary32; N_DIMS], u8)>,
    g: Grouped,
) -> bool {
    &&& by_cluster(rows)
    &&& rows.to_multiset() == before.to_multiset()
    &&& g.vectors@ == rows.map_values(|row: (u32, [Binary32; N_DIMS], u8)| row.1)
    &&& g.labels@ == rows.map_values(|row: (u32, [Binary32; N_DIMS], u8)| row.2)
}

/// Sorts rows by cluster in parallel, by `par_sort_unstable_by_key` of the crate `rayon`: the
/// rows stay the same and the clusters ascend. The order of rows of the same cluster is open.
#[verifier::external_body]
fn par_sort_by_cluster(rows: &mut Vec<(u32, [Binary32; N_DIMS], u8)>)
    ensures
        final(rows)@.to_multiset() == old(rows)@.to_multiset(),
        by_cluster(final(rows)@),
{
    rows.par_sort_unstable_by_key(|row| row.0);
}

fn count_clusters(assignments: &[u32], nlist: usize) -> (r: Vec<usize>)
    requires
        forall|i: int| 0 <= i < assignments@.len() ==> #[trigger] assignments@[i] < nlist,
    ensures
        r@.len() == nlist,
        forall|c: int|
            0 <= c < nlist ==> #[trigger] r@[c] == members(
                assignments@,
                c,
                assignments@.len(),
            ),
{
    let mut sizes: Vec<usize> = Vec::new();
    let mut c: usize = 0;
    while c < nlist
        invariant
            c <= nlist,
            sizes@.len() == c,
            forall|d: int| 0 <= d < c ==> #[trigger] sizes@[d] == 0,
        decreases nlist - c,
    {
        sizes.push(0);
        c = c + 1;
    }
    let mut i: usize = 0;
    while i < assignments.len()
        invariant
            i <= assignments.len(),
            sizes@.len() == nlist,
            forall|i: int| 0 <= i < assignments@.len() ==> #[trigger] assignments@[i] < nlist,
            forall|c: int|
                0 <= c < nlist ==> #[trigger] sizes@[c] == members(assignments@, c, i as nat),
        decreases assignments.len() - i,
    {
        let c = assignments[i] as usize;
        proof {
            lemma_members_bound(assignments@, c as int, i as nat);
        }
        let n = sizes[c];
        sizes.set(c, n + 1);
        i = i + 1;
    }
    sizes
}

/// Orders the vectors and labels by cluster and counts each cluster.
pub fn group_by_cluster(
    assignments: &[u32],
    vectors: &[[Binary32; N_DIMS]],
    labels: &[u8],
    nlist: usize,
) -> (r: Grouped)
    requires
        vectors.len() == assignments.len(),
        labels.len() == assignments.len(),
        forall|i: int| 0 <= i < assignments@.len() ==> #[trigger] assignments@[i] < nlist,
    ensures
        exists|rows: Seq<(u32, [Binary32; N_DIMS], u8)>| #[trigger]
            grouped_rows(rows, rows_of(assignments@, vectors@, labels@), r),
        r.cluster_sizes@.len() == nlist,
        forall|c: int|
            0 <= c < nlist ==> #[trigger] r.cluster_sizes@[c] == members(
                assignments@,
                c,
                assignments@.len(),
            ),
{
    let ghost before = rows_of(assignments@, vectors@, labels@);
    let mut rows: Vec<(u32, [Binary32; N_DIMS], u8)> = Vec::new();
    let mut i: usize = 0;
    while i < assignments.len()
        invariant
            i <= assignments.len(),
            vectors.len() == assignments.len(),
            labels.len() == assignments.len(),
            before == rows_of(assignments@, vectors@, labels@),
            rows@ == before.take(i as int),
        decreases assignments.len() - i,
    {
        rows.push((assignments[i], vectors[i], labels[i]));
        assert(before.take(i + 1) =~= before.take(i as int).push(before[i as int]));
        i = i + 1;
    }
    assert(before.take(before.len() as int) =~= before);
    par_sort_by_cluster(&mut rows);
    let ghost sorted = rows@;
    let mut sorted_vectors: Vec<[Binary32; N_DIMS]> = Vec::new();
    let mut sorted_labels: Vec<u8> = Vec::new();
    let mut i: usize = 0;
    while i < rows.len()
        invariant
            i <= rows@.len(),
            rows@ == sorted,
            sorted_vectors@.len() == i,
            sorted_labels@.len() == i,
            forall|j: int| 0 <= j < i ==> #[trigger] sorted_vectors@[j] == sorted[j].1,
            forall|j: int| 0 <= j < i ==> #[trigger] sorted_labels@[j] == sorted[j].2,
        decreases rows.len() - i,
    {
        let row = rows[i];
        sorted_vectors.push(row.1);
        sorted_labels.push(row.2);
        i = i + 1;
    }
    let cluster_sizes = count_clusters(assignments, nlist);
    let r = Grouped { vectors: sorted_vectors, labels: sorted_labels, cluster_sizes };
    proof {
        assert(r.vectors@ =~= sorted.map_values(|row: (u32, [Binary32; N_DIMS], u8)| row.1));
        assert(r.labels@ =~= sorted.map_values(|row: (u32, [Binary32; N_DIMS], u8)| row.2));
        assert(grouped_rows(sorted, before, r));
    }
    r
}

// ── Bounds ───────────────────────────────────────────────────────────────────

/// `min` and `max` are the smallest and the largest quantised value of dimension `d` among the
/// vectors `from..to`.
pub open spec fn tight(
    vectors: Seq<[Binary32; N_DIMS]>,
    from: int,
    to: int,
    d: int,
    min: i16,
    max: i16,
) -> bool {
    &&& forall|i: int|
        from <= i < to ==> min <= quantized((#[trigger] vectors[i])@[d]) <= max
    &&& exists|i: int| from <= i < to && quantized((#[trigger] vectors[i])@[d]) == min
    &&& exists|i: int| from <= i < to && quantized((#[trigger] vectors[i])@[d]) == max
}

/// The bounds of the vectors `from..to`: tight in every dimension, with zero padding; all zero
/// where there is no vector.
pub open spec fn bounds_of(
    vectors: Seq<[Binary32; N_DIMS]>,
    from: int,
    to: int,
    min: Bbox,
    max: Bbox,
) -> bool {
    &&& zero_padded(min, max)
    &&& forall|d: int|
        0 <= d < 14 ==> if from < to {
            tight(vectors, from, to, d, #[trigger] min.data@[d], max.data@[d])
        } else {
            min.data@[d] == 0 && max.data@[d] == 0
        }
}

/// The smallest and largest quantised value of dimension `d` among the vectors `from..to`.
fn dimension_bounds(vectors: &[[Binary32; N_DIMS]], from: usize, to: usize, d: usize) -> (r: (
    i16,
    i16,
))
    requires
        from < to <= vectors.len(),
        d < 14,
    ensures
        tight(vectors@, from as int, to as int, d as int, r.0, r.1),
{
    let first = quantize_i16(vectors[from][d]);
    let mut min: i16 = first;
    let mut max: i16 = first;
    let mut i: usize = from + 1;
    proof {
        assert(quantized(vectors@[from as int]@[d as int]) == first);
    }
    while i < to
        invariant
            from < i <= to <= vectors.len(),
            d < 14,
            tight(vectors@, from as int, i as int, d as int, min, max),
        decreases to - i,
    {
        let q = quantize_i16(vectors[i][d]);
        let ghost (lo, hi) = (min, max);
        let ghost at_lo = choose|j: int|
            from <= j < i && quantized((#[trigger] vectors@[j])@[d as int]) == lo;
        let ghost at_hi = choose|j: int|
            from <= j < i && quantized((#[trigger] vectors@[j])@[d as int]) == hi;
        if q < min {
            min = q;
        }
        if q > max {
            max = q;
        }
        proof {
            let here = i as int;
            assert(quantized(vectors@[here]@[d as int]) == q);
            assert(quantized(vectors@[at_lo]@[d as int]) == lo);
            assert(quantized(vectors@[at_hi]@[d as int]) == hi);
        }
        i = i + 1;
    }
    (min, max)
}

/// The bounds of each cluster over its vectors, as `(minima, maxima)`.
pub fn build_bboxes(sorted_vectors: &[[Binary32; N_DIMS]], cluster_sizes: &[usize]) -> (r: (
    Vec<Bbox>,
    Vec<Bbox>,
))
    requires
        raw_start(cluster_sizes@, cluster_sizes@.len()) <= sorted_vectors.len(),
    ensures
        r.0@.len() == cluster_sizes@.len(),
        r.1@.len() == cluster_sizes@.len(),
        forall|ci: int|
            0 <= ci < cluster_sizes@.len() ==> bounds_of(
                sorted_vectors@,
                raw_start(cluster_sizes@, ci as nat),
                raw_start(cluster_sizes@, (ci + 1) as nat),
                #[trigger] r.0@[ci],
                r.1@[ci],
            ),
{
    let ghost sizes = cluster_sizes@;
    let mut mins: Vec<Bbox> = Vec::new();
    let mut maxes: Vec<Bbox> = Vec::new();
    let mut start: usize = 0;
    let mut ci: usize = 0;
    while ci < cluster_sizes.len()
        invariant
            ci <= cluster_sizes.len(),
            sizes == cluster_sizes@,
            raw_start(sizes, sizes.len()) <= sorted_vectors.len(),
            start == raw_start(sizes, ci as nat),
            mins@.len() == ci,
            maxes@.len() == ci,
            forall|c: int|
                0 <= c < ci ==> bounds_of(
                    sorted_vectors@,
                    raw_start(sizes, c as nat),
                    raw_start(sizes, (c + 1) as nat),
                    #[trigger] mins@[c],
                    maxes@[c],
                ),
        decreases cluster_sizes.len() - ci,
    {
        proof {
            lemma_starts(sizes, ci as nat, ci as nat);
            lemma_starts(sizes, (ci + 1) as nat, sizes.len());
        }
        let end: usize = start + cluster_sizes[ci];
        let mut min = Bbox::default();
        let mut max = Bbox::default();
        if start < end {
            let mut d: usize = 0;
            while d < N_DIMS
                invariant
                    d <= 14,
                    start < end <= sorted_vectors.len(),
                    zero_padded(min, max),
                    forall|e: int|
                        0 <= e < d ==> tight(
                            sorted_vectors@,
                            start as int,
                            end as int,
                            e,
                            #[trigger] min.data@[e],
                            max.data@[e],
                        ),
                decreases 14 - d,
            {
                let ghost m0 = min;
                let (lo, hi) = dimension_bounds(sorted_vectors, start, end, d);
                min.data[d] = lo;
                max.data[d] = hi;
                proof {
                    assert forall|e: int| 0 <= e < d + 1 implies tight(
                        sorted_vectors@,
                        start as int,
                        end as int,
                        e,
                        #[trigger] min.data@[e],
                        max.data@[e],
                    ) by {
                        if e < d {
                            assert(min.data@[e] == m0.data@[e]);
                        }
                    }
                }
                d = d + 1;
            }
        }
        mins.push(min);
        maxes.push(max);
        start = end;
        ci = ci + 1;
    }
    (mins, maxes)
}

/// The bounds that are built cover the vectors that are stored: every slot with a vector lies
/// within the bounds of its cluster.
pub proof fn law_bounds_cover_vectors(
    blocks: Seq<VectorBlock>,
    out_labels: Seq<u8>,
    vectors: Seq<[Binary32; N_DIMS]>,
    labels: Seq<u8>,
    sizes: Seq<usize>,
    ci: int,
    local: int,
    min: Bbox,
    max: Bbox,
)
    requires
        0 <= ci < sizes.len(),
        0 <= local < sizes[ci],
        cluster_stored(blocks, out_labels, vectors, labels, sizes, ci),
        bounds_of(
            vectors,
            raw_start(sizes, ci as nat),
            raw_start(sizes, (ci + 1) as nat),
            min,
            max,
        ),
    ensures
        ({
            let slot = padded_start(sizes, ci as nat) + local;
            in_box(block_vector(blocks[slot / 8], slot % 8), min, max)
        }),
        zero_padded(min, max),
{
    let from = raw_start(sizes, ci as nat);
    let slot = padded_start(sizes, ci as nat) + local;
    assert(slot_holds(blocks, out_labels, slot, vectors[from + local]@, labels[from + local]));
    let v = block_vector(blocks[slot / 8], slot % 8);
    assert forall|d: int| 0 <= d < 14 implies min.data@[d] <= #[trigger] v[d] <= max.data@[d] by {
        assert(v[d] == quantized(vectors[from + local]@[d]));
        assert(tight(
            vectors,
            from,
            raw_start(sizes, (ci + 1) as nat),
            d,
            min.data@[d],
            max.data@[d],
        ));
    }
}

// ── The whole index ──────────────────────────────────────────────────────────

/// The size of each cluster.
pub open spec fn sizes_by_assignment(assignments: Seq<u32>, nlist: nat) -> Seq<usize> {
    Seq::new(nlist, |c: int| members(assignments, c, assignments.len()) as usize)
}

/// The sections of an index hold the vectors of the clusters.
pub open spec fn layout_stores(
    l: IndexLayout,
    vectors: Seq<[Binary32; N_DIMS]>,
    labels: Seq<u8>,
    sizes: Seq<usize>,
) -> bool {
    let total = padded_start(sizes, sizes.len());
    &&& l.header == new_header(sizes.len() as u32, total as u64)
    &&& l.centroids@.len() == sizes.len()
    &&& l.cluster_sizes@.len() == sizes.len()
    &&& l.bbox_mins@.len() == sizes.len()
    &&& l.bbox_maxes@.len() == sizes.len()
    &&& l.blocks@.len() == total / 8
    &&& l.labels@.len() == total
    &&& forall|ci: int|
        0 <= ci < sizes.len() ==> #[trigger] l.cluster_sizes@[ci] == padded(sizes[ci] as int)
    &&& forall|ci: int|
        0 <= ci < sizes.len() ==> #[trigger] cluster_stored(
            l.blocks@,
            l.labels@,
            vectors,
            labels,
            sizes,
            ci,
        )
    &&& forall|ci: int|
        0 <= ci < sizes.len() ==> bounds_of(
            vectors,
            raw_start(sizes, ci as nat),
            raw_start(sizes, (ci + 1) as nat),
            #[trigger] l.bbox_mins@[ci],
            l.bbox_maxes@[ci],
        )
}

/// Each cluster starts at the block of its first slot.
proof fn lemma_cluster_start(
    l: IndexLayout,
    vectors: Seq<[Binary32; N_DIMS]>,
    labels: Seq<u8>,
    sizes: Seq<usize>,
    ci: nat,
)
    requires
        layout_stores(l, vectors, labels, sizes),
        ci <= sizes.len(),
    ensures
        8 * block_offset(l.cluster_sizes@, ci) == padded_start(sizes, ci),
    decreases ci,
{
    if ci > 0 {
        lemma_cluster_start(l, vectors, labels, sizes, (ci - 1) as nat);
        assert(l.cluster_sizes@[ci - 1] == padded(sizes[ci - 1] as int));
    }
}

/// An index that is built can be written, read and searched, and each of its vectors lies within
/// the bounds of its cluster.
pub proof fn law_built_index_is_searchable(
    l: IndexLayout,
    vectors: Seq<[Binary32; N_DIMS]>,
    labels: Seq<u8>,
    sizes: Seq<usize>,
    ci: int,
    local: int,
)
    requires
        layout_stores(l, vectors, labels, sizes),
        sizes.len() <= MAX_NLIST,
        padded_start(sizes, sizes.len()) <= u64::MAX,
    ensures
        l.writable(),
        l.consistent(),
        0 <= ci < sizes.len() && 0 <= local < sizes[ci] ==> ({
            let slot = padded_start(sizes, ci as nat) + local;
            &&& l.cluster_start(ci) <= slot / 8 < l.cluster_start(ci + 1)
            &&& l.slot_covered(ci, slot / 8, slot % 8)
        }),
{
    let n = sizes.len();
    lemma_starts(sizes, n, n);
    lemma_cluster_start(l, vectors, labels, sizes, n);
    if 0 <= ci < n && 0 <= local < sizes[ci] {
        lemma_starts(sizes, ci as nat, ci as nat);
        lemma_cluster_start(l, vectors, labels, sizes, ci as nat);
        lemma_cluster_start(l, vectors, labels, sizes, (ci + 1) as nat);
        assert(bounds_of(
            vectors,
            raw_start(sizes, ci as nat),
            raw_start(sizes, (ci + 1) as nat),
            l.bbox_mins@[ci],
            l.bbox_maxes@[ci],
        ));
        assert(cluster_stored(l.blocks@, l.labels@, vectors, labels, sizes, ci));
        law_bounds_cover_vectors(
            l.blocks@,
            l.labels@,
            vectors,
            labels,
            sizes,
            ci,
            local,
            l.bbox_mins@[ci],
            l.bbox_maxes@[ci],
        );
    }
}

/// A search of an index that is built finds every reference vector that is nearer than the fifth
/// of its results, with its label; if there are fewer than five results, it finds all.
pub proof fn law_built_index_finds_what_is_nearer(
    fma: bool,
    l: IndexLayout,
    vectors: Seq<[Binary32; N_DIMS]>,
    labels: Seq<u8>,
    sizes: Seq<usize>,
    query: Seq<i16>,
    ci: int,
    local: int,
)
    requires
        layout_stores(l, vectors, labels, sizes),
        sizes.len() <= MAX_NLIST,
        padded_start(sizes, sizes.len()) <= u64::MAX,
        query.len() == 14,
        0 <= ci < sizes.len(),
        0 <= local < sizes[ci],
    ensures
        ({
            let i = raw_start(sizes, ci as nat) + local;
            let r = l.nearest_five(fma, query);
            let d = vector_dist(fma, query, quantized_vector(vectors[i]@));
            r.len() < 5 || d.bits < r[4].0.bits ==> r.contains((d, labels[i]))
        }),
{
    law_built_index_is_searchable(l, vectors, labels, sizes, ci, local);
    let i = raw_start(sizes, ci as nat) + local;
    let slot = padded_start(sizes, ci as nat) + local;
    assert(cluster_stored(l.blocks@, l.labels@, vectors, labels, sizes, ci));
    assert(slot_holds(l.blocks@, l.labels@, slot, vectors[i]@, labels[i]));
    assert(slot == 8 * (slot / 8) + slot % 8);
    law_pruned_search_finds_what_is_nearer(fma, l, query, ci, slot / 8, slot % 8);
}

proof fn lemma_assigned_total(assignments: Seq<u32>, nlist: nat, c: nat)
    requires
        c <= nlist,
        assignments.len() <= usize::MAX,
    ensures
        raw_start(sizes_by_assignment(assignments, nlist), c) == assigned_below(
            assignments,
            c,
            assignments.len(),
        ),
    decreases c,
{
    lemma_below_zero(assignments, assignments.len());
    if c > 0 {
        lemma_assigned_total(assignments, nlist, (c - 1) as nat);
        lemma_below_step(assignments, (c - 1) as nat, assignments.len());
        lemma_members_bound(assignments, c - 1, assignments.len());
    }
}

/// How many of the first `n` assignments are to one of the first `c` clusters.
spec fn assigned_below(assignments: Seq<u32>, c: nat, n: nat) -> nat
    decreases n,
{
    if n == 0 {
        0
    } else {
        assigned_below(assignments, c, (n - 1) as nat) + if assignments[n - 1] < c {
            1nat
        } else {
            0
        }
    }
}

proof fn lemma_below_zero(assignments: Seq<u32>, n: nat)
    ensures
        assigned_below(assignments, 0, n) == 0,
    decreases n,
{
    if n > 0 {
        lemma_below_zero(assignments, (n - 1) as nat);
    }
}

proof fn lemma_below_step(assignments: Seq<u32>, c: nat, n: nat)
    ensures
        assigned_below(assignments, c + 1, n) == assigned_below(assignments, c, n) + members(
            assignments,
            c as int,
            n,
        ),
    decreases n,
{
    if n > 0 {
        lemma_below_step(assignments, c, (n - 1) as nat);
    }
}

proof fn lemma_below_bound(assignments: Seq<u32>, c: nat, n: nat)
    ensures
        assigned_below(assignments, c, n) <= n,
    decreases n,
{
    if n > 0 {
        lemma_below_bound(assignments, c, (n - 1) as nat);
    }
}

/// The grouped vectors and the sections of the index that holds them.
pub struct Built {
    pub grouped: Grouped,
    pub layout: IndexLayout,
}

/// Builds the sections of an index from clustered vectors.
pub fn build_layout(
    centroids: &[[Binary32; N_DIMS]],
    assignments: &[u32],
    vectors: &[[Binary32; N_DIMS]],
    labels: &[u8],
) -> (r: Built)
    requires
        centroids.len() <= u32::MAX,
        vectors.len() == assignments.len(),
        labels.len() == assignments.len(),
        forall|i: int| 0 <= i < assignments@.len() ==> #[trigger] assignments@[i] < centroids.len(),
        padded_start(sizes_by_assignment(assignments@, centroids@.len()), centroids@.len()) + 8
            <= usize::MAX,
        forall|c: int|
            0 <= c < centroids@.len() ==> padded(
                #[trigger] members(assignments@, c, assignments@.len()) as int,
            ) <= u32::MAX,
    ensures
        exists|rows: Seq<(u32, [Binary32; N_DIMS], u8)>| #[trigger]
            grouped_rows(rows, rows_of(assignments@, vectors@, labels@), r.grouped),
        r.grouped.cluster_sizes@ == sizes_by_assignment(assignments@, centroids@.len()),
        r.layout.centroids@ == centroids@,
        layout_stores(
            r.layout,
            r.grouped.vectors@,
            r.grouped.labels@,
            r.grouped.cluster_sizes@,
        ),
{
    let nlist = centroids.len();
    let grouped = group_by_cluster(assignments, vectors, labels, nlist);
    let ghost sizes = sizes_by_assignment(assignments@, nlist as nat);
    let ghost rows = choose|rows: Seq<(u32, [Binary32; N_DIMS], u8)>| #[trigger]
        grouped_rows(rows, rows_of(assignments@, vectors@, labels@), grouped);
    proof {
        broadcast use vstd::seq_lib::group_to_multiset_ensures;

        assert(rows.len() == rows.to_multiset().len());
        assert(rows_of(assignments@, vectors@, labels@).len() == rows_of(
            assignments@,
            vectors@,
            labels@,
        ).to_multiset().len());
        assert forall|c: int| 0 <= c < nlist implies #[trigger] grouped.cluster_sizes@[c]
            == sizes[c] by {
            lemma_members_bound(assignments@, c, assignments@.len());
        }
        assert(grouped.cluster_sizes@ =~= sizes);
        lemma_assigned_total(assignments@, nlist as nat, nlist as nat);
        lemma_below_bound(assignments@, nlist as nat, assignments@.len());
        assert forall|ci: int| 0 <= ci < nlist implies padded(
            (#[trigger] grouped.cluster_sizes@[ci]) as int,
        ) <= u32::MAX by {
            assert(members(assignments@, ci, assignments@.len()) == grouped.cluster_sizes@[ci]);
        }
    }
    let (blocks, cluster_sizes, slot_labels) = build_blocks(
        grouped.vectors.as_slice(),
        grouped.labels.as_slice(),
        grouped.cluster_sizes.as_slice(),
    );
    let (bbox_mins, bbox_maxes) = build_bboxes(
        grouped.vectors.as_slice(),
        grouped.cluster_sizes.as_slice(),
    );
    let header = IndexHeader {
        magic: MAGIC,
        version: VERSION,
        nlist: nlist as u32,
        nprobe: NPROBE,
        n_vectors: slot_labels.len() as u64,
        _padding: [0u8;8],
    };
    assert(header._padding =~= new_header(nlist as u32, header.n_vectors)._padding);
    let layout = IndexLayout {
        header,
        centroids: vstd::slice::slice_to_vec(centroids),
        cluster_sizes,
        bbox_mins,
        bbox_maxes,
        blocks,
        labels: slot_labels,
    };
    let r = Built { grouped, layout };
    assert(grouped_rows(rows, rows_of(assignments@, vectors@, labels@), r.grouped));
    r
}

// ── Validation ───────────────────────────────────────────────────────────────

/// What a validation found.
#[derive(Clone, Copy, Debug, PartialEq, Eq, Structural)]
pub struct Validation {
    /// Vectors whose score was computed.
    pub sanity: usize,
    /// Vectors that were searched for.
    pub samples: usize,
    /// Searches with results, all at finite distances.
    pub valid: usize,
}

pub open spec fn at_most(n: nat, limit: nat) -> nat {
    if n < limit {
        n
    } else {
        limit
    }
}

/// The distance between the vectors that are sampled.
pub open spec fn sample_step(n: nat, samples: nat) -> nat {
    if n / samples < 1 {
        1
    } else {
        n / samples
    }
}

/// How many of the first `j` samples have results.
pub open spec fn found(
    fma: bool,
    l: IndexLayout,
    vectors: Seq<[Binary32; N_DIMS]>,
    step: nat,
    j: nat,
) -> nat
    decreases j,
{
    if j == 0 {
        0
    } else {
        let v = vectors[(j - 1) * step]@;
        let near = l.nearest_five(fma, quantized_vector(v));
        found(fma, l, vectors, step, (j - 1) as nat) + if near.len() > 0 {
            1nat
        } else {
            0
        }
    }
}

proof fn lemma_sample_in_range(n: nat, samples: nat, j: int)
    requires
        0 < samples <= n,
        0 <= j < samples,
    ensures
        0 <= j * sample_step(n, samples) < n,
        sample_step(n, samples) == n / samples,
{
    let step = n / samples;
    assert(step >= 1 && samples * step <= n) by (nonlinear_arith)
        requires
            step == n / samples,
            0 < samples <= n,
    ;
    assert(0 <= j * step < samples * step) by (nonlinear_arith)
        requires
            0 <= j < samples,
            step >= 1,
    ;
}

/// Whether there are results, all at finite distances.
fn has_results(results: &Vec<(DistF32, u8)>) -> (r: bool)
    ensures
        r <==> results@.len() > 0 && forall|i: int|
            0 <= i < results@.len() ==> (#[trigger] results@[i]).0.0.is_finite_spec(),
{
    let mut i: usize = 0;
    while i < results.len()
        invariant
            i <= results@.len(),
            forall|j: int| 0 <= j < i ==> (#[trigger] results@[j]).0.0.is_finite_spec(),
        decreases results.len() - i,
    {
        if !results[i].0.0.is_finite() {
            return false;
        }
        i = i + 1;
    }
    results.len() > 0
}

/// Checks a freshly built index: the first ten vectors get a finite score, and a hundred vectors
/// spread over all are searched for. `Err` tells the position of a vector whose score is not
/// finite; there is none.
pub fn validate_index(index: &IvfIndex, sorted_vectors: &[[Binary32; N_DIMS]]) -> (r: Result<
    Validation,
    usize,
>)
    requires
        index.searchable(),
    ensures
        r is Ok,
        r->Ok_0.sanity == at_most(sorted_vectors@.len(), 10),
        r->Ok_0.samples == at_most(sorted_vectors@.len(), 100),
        r->Ok_0.valid == found(
            index.fma,
            index.layout,
            sorted_vectors@,
            sample_step(sorted_vectors@.len(), r->Ok_0.samples as nat),
            r->Ok_0.samples as nat,
        ),
{
    let n = sorted_vectors.len();
    let sanity: usize = if n < 10 {
        n
    } else {
        10
    };
    let mut i: usize = 0;
    while i < sanity
        invariant
            i <= sanity <= sorted_vectors.len(),
            index.searchable(),
        decreases sanity - i,
    {
        let score = index.fraud_score(&sorted_vectors[i]);
        proof {
            law_fraud_score_is_a_fifth(
                index.fma,
                index.layout,
                quantized_vector(sorted_vectors@[i as int]@),
            );
        }
        if !score.is_finite() {
            return Err(i);
        }
        i = i + 1;
    }
    let samples: usize = if n < 100 {
        n
    } else {
        100
    };
    if samples == 0 {
        return Ok(Validation { sanity, samples, valid: 0 });
    }
    let step: usize = if n / samples < 1 {
        1
    } else {
        n / samples
    };
    let mut valid: usize = 0;
    let mut j: usize = 0;
    while j < samples
        invariant
            j <= samples,
            0 < samples <= n,
            n == sorted_vectors@.len(),
            step == sample_step(n as nat, samples as nat),
            index.searchable(),
            valid <= j,
            valid == found(index.fma, index.layout, sorted_vectors@, step as nat, j as nat),
        decreases samples - j,
    {
        proof {
            lemma_sample_in_range(n as nat, samples as nat, j as int);
        }
        let v = &sorted_vectors[j * step];
        let results = index.search_knn(v, 5);
        proof {
            let near = index.layout.nearest_five(index.fma, quantized_vector(v@));
            law_results_are_in_order(index.fma, index.layout, quantized_vector(v@));
            assert(near.take(near.len() as int) =~= near);
            assert forall|i: int| 0 <= i < results@.len() implies (
            #[trigger] results@[i]).0.0.is_finite_spec() by {
                assert(is_dist(near[i].0));
            }
        }
        if has_results(&results) {
            valid = valid + 1;
        }
        j = j + 1;
    }
    Ok(Validation { sanity, samples, valid })
}

} // verus!
