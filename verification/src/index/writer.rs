//! Writing `index.bin`.

use vstd::prelude::*;
use vstd::string::StringExecFns;

use crate::binary32::Binary32;
#[allow(unused_imports)]
use crate::index::layout::{
    blocks_at, blocks_match, boxes_match, centroids_match, defect, file_len, i16_at, labels_at,
    maxes_at, mins_at, sizes_at, sizes_match, u32_at, IndexLayout,
};
use crate::index::layout::{
    Bbox, IndexHeader, VectorBlock, BBOX_LANES, BLOCK_VALUES, MAGIC, N_DIMS, VERSION,
};
#[allow(unused_imports)]
use crate::text::{decimal, push_decimal};

verus! {

/// The default that is recorded in the header.
pub const NPROBE: u32 = 8;

// ── The bytes of a file ──────────────────────────────────────────────────────

/// Byte `k` of a number, the lowest first.
pub open spec fn u32_byte(x: u32, k: int) -> u8 {
    if k == 0 {
        (x % 0x100) as u8
    } else if k == 1 {
        (x / 0x100 % 0x100) as u8
    } else if k == 2 {
        (x / 0x1_0000 % 0x100) as u8
    } else {
        (x / 0x100_0000) as u8
    }
}

/// Byte `k` of a number in two's complement, the lowest first.
pub open spec fn i16_byte(x: i16, k: int) -> u8 {
    let n = if x < 0 {
        x + 0x1_0000
    } else {
        x as int
    };
    if k == 0 {
        (n % 0x100) as u8
    } else {
        (n / 0x100) as u8
    }
}

pub open spec fn u32_bytes(x: u32) -> Seq<u8> {
    Seq::new(4, |k: int| u32_byte(x, k))
}

pub open spec fn i16_bytes(x: i16) -> Seq<u8> {
    Seq::new(2, |k: int| i16_byte(x, k))
}

pub open spec fn u64_bytes(x: u64) -> Seq<u8> {
    u32_bytes((x % 0x1_0000_0000) as u32) + u32_bytes((x / 0x1_0000_0000) as u32)
}

pub open spec fn header_bytes(h: IndexHeader) -> Seq<u8> {
    u32_bytes(h.magic) + u32_bytes(h.version) + u32_bytes(h.nlist) + u32_bytes(h.nprobe)
        + u64_bytes(h.n_vectors) + h._padding@
}

pub open spec fn centroid_bytes(c: Seq<[Binary32; N_DIMS]>) -> Seq<u8> {
    Seq::new(56 * c.len(), |k: int| u32_byte(c[k / 56]@[k % 56 / 4].bits, k % 4))
}

pub open spec fn size_bytes(c: Seq<u32>) -> Seq<u8> {
    Seq::new(4 * c.len(), |k: int| u32_byte(c[k / 4], k % 4))
}

pub open spec fn box_bytes(c: Seq<Bbox>) -> Seq<u8> {
    Seq::new(32 * c.len(), |k: int| i16_byte(c[k / 32].data@[k % 32 / 2], k % 2))
}

pub open spec fn block_bytes(c: Seq<VectorBlock>) -> Seq<u8> {
    Seq::new(224 * c.len(), |k: int| i16_byte(c[k / 224].data@[k % 224 / 2], k % 2))
}

pub open spec fn zeros(n: nat) -> Seq<u8> {
    Seq::new(n, |k: int| 0u8)
}

/// The bytes before the boxes.
pub open spec fn front_bytes(
    h: IndexHeader,
    centroids: Seq<[Binary32; N_DIMS]>,
    sizes: Seq<u32>,
) -> Seq<u8> {
    header_bytes(h) + centroid_bytes(centroids) + size_bytes(sizes)
}

/// The sections of a file in order: zero bytes bring the boxes to a multiple of 32.
#[verifier::opaque]
pub open spec fn file_bytes(
    h: IndexHeader,
    centroids: Seq<[Binary32; N_DIMS]>,
    sizes: Seq<u32>,
    mins: Seq<Bbox>,
    maxes: Seq<Bbox>,
    blocks: Seq<VectorBlock>,
    labels: Seq<u8>,
) -> Seq<u8> {
    let front = front_bytes(h, centroids, sizes);
    front + zeros((crate::index::layout::round32(front.len()) - front.len()) as nat) + box_bytes(
        mins,
    ) + box_bytes(maxes) + block_bytes(blocks) + labels
}

impl IndexLayout {
    /// The bytes of the file with these sections.
    pub open spec fn encoded(&self) -> Seq<u8> {
        file_bytes(
            self.header,
            self.centroids@,
            self.cluster_sizes@,
            self.bbox_mins@,
            self.bbox_maxes@,
            self.blocks@,
            self.labels@,
        )
    }

    /// The sections make up a file: they have the lengths that the header says, and the header
    /// says what it is.
    pub open spec fn writable(&self) -> bool {
        &&& self.header.magic == MAGIC
        &&& self.header.version == VERSION
        &&& self.lengths_match()
    }
}

// ── Round trip ───────────────────────────────────────────────────────────────

proof fn lemma_u32_round_trip(b: Seq<u8>, at: int, x: u32)
    requires
        0 <= at,
        at + 4 <= b.len(),
        b[at] == u32_byte(x, 0),
        b[at + 1] == u32_byte(x, 1),
        b[at + 2] == u32_byte(x, 2),
        b[at + 3] == u32_byte(x, 3),
    ensures
        u32_at(b, at) == x,
{
}

proof fn lemma_i16_round_trip(b: Seq<u8>, at: int, x: i16)
    requires
        0 <= at,
        at + 2 <= b.len(),
        b[at] == i16_byte(x, 0),
        b[at + 1] == i16_byte(x, 1),
    ensures
        i16_at(b, at) == x,
{
}

proof fn lemma_header_round_trip(h: IndexHeader, rest: Seq<u8>)
    ensures
        header_bytes(h).len() == 32,
        h.matches(header_bytes(h) + rest),
{
    let b = header_bytes(h) + rest;
    assert(header_bytes(h).len() == 32);
    lemma_u32_round_trip(b, 0, h.magic);
    lemma_u32_round_trip(b, 4, h.version);
    lemma_u32_round_trip(b, 8, h.nlist);
    lemma_u32_round_trip(b, 12, h.nprobe);
    lemma_u32_round_trip(b, 16, (h.n_vectors % 0x1_0000_0000) as u32);
    lemma_u32_round_trip(b, 20, (h.n_vectors / 0x1_0000_0000) as u32);
    assert(h._padding@ =~= b.subrange(24, 32));
}

/// A section that stands somewhere in a buffer.
#[verifier::opaque]
spec fn stands_at(part: Seq<u8>, b: Seq<u8>, at: int) -> bool {
    &&& 0 <= at
    &&& at + part.len() <= b.len()
    &&& forall|k: int| 0 <= k < part.len() ==> #[trigger] part[k] == b[at + k]
}

proof fn lemma_centroids_round_trip(c: Seq<[Binary32; N_DIMS]>, b: Seq<u8>, at: int)
    requires
        stands_at(centroid_bytes(c), b, at),
    ensures
        centroids_match(c, b, at),
{
    reveal(stands_at);
    let p = centroid_bytes(c);
    assert forall|i: int, d: int| 0 <= i < c.len() && 0 <= d < 14 implies (
    #[trigger] c[i]@[d]).bits == u32_at(b, at + 56 * i + 4 * d) by {
        let k = 56 * i + 4 * d;
        assert(p[k] == b[at + k]);
        assert(p[k + 1] == b[at + (k + 1)]);
        assert(p[k + 2] == b[at + (k + 2)]);
        assert(p[k + 3] == b[at + (k + 3)]);
        lemma_u32_round_trip(b, at + k, c[i]@[d].bits);
    }
}

proof fn lemma_sizes_round_trip(c: Seq<u32>, b: Seq<u8>, at: int)
    requires
        stands_at(size_bytes(c), b, at),
    ensures
        sizes_match(c, b, at),
{
    reveal(stands_at);
    let p = size_bytes(c);
    assert forall|i: int| 0 <= i < c.len() implies #[trigger] c[i] == u32_at(b, at + 4 * i) by {
        let k = 4 * i;
        assert(p[k] == b[at + k]);
        assert(p[k + 1] == b[at + (k + 1)]);
        assert(p[k + 2] == b[at + (k + 2)]);
        assert(p[k + 3] == b[at + (k + 3)]);
        lemma_u32_round_trip(b, at + k, c[i]);
    }
}

proof fn lemma_boxes_round_trip(c: Seq<Bbox>, b: Seq<u8>, at: int)
    requires
        stands_at(box_bytes(c), b, at),
    ensures
        boxes_match(c, b, at),
{
    reveal(stands_at);
    let p = box_bytes(c);
    assert forall|i: int, l: int| 0 <= i < c.len() && 0 <= l < 16 implies #[trigger] c[i].data@[l]
        == i16_at(b, at + 32 * i + 2 * l) by {
        let k = 32 * i + 2 * l;
        assert(p[k] == b[at + k]);
        assert(p[k + 1] == b[at + (k + 1)]);
        lemma_i16_round_trip(b, at + k, c[i].data@[l]);
    }
}

proof fn lemma_blocks_round_trip(c: Seq<VectorBlock>, b: Seq<u8>, at: int)
    requires
        stands_at(block_bytes(c), b, at),
    ensures
        blocks_match(c, b, at),
{
    reveal(stands_at);
    let p = block_bytes(c);
    assert forall|i: int, j: int|
        0 <= i < c.len() && 0 <= j < 112 implies #[trigger] c[i].data@[j] == i16_at(
        b,
        at + 224 * i + 2 * j,
    ) by {
        let k = 224 * i + 2 * j;
        assert(p[k] == b[at + k]);
        assert(p[k + 1] == b[at + (k + 1)]);
        lemma_i16_round_trip(b, at + k, c[i].data@[j]);
    }
}

/// Where the parts of a concatenation stand.
proof fn lemma_parts(
    h: Seq<u8>,
    c: Seq<u8>,
    s: Seq<u8>,
    z: Seq<u8>,
    lo: Seq<u8>,
    hi: Seq<u8>,
    k: Seq<u8>,
    l: Seq<u8>,
)
    ensures
        ({
            let b = h + c + s + z + lo + hi + k + l;
            let at_c = h.len();
            let at_s = at_c + c.len();
            let at_lo = at_s + s.len() + z.len();
            let at_hi = at_lo + lo.len();
            let at_k = at_hi + hi.len();
            let at_l = at_k + k.len();
            &&& b.len() == at_l + l.len()
            &&& b == h + b.skip(h.len() as int)
            &&& stands_at(c, b, at_c as int)
            &&& stands_at(s, b, at_s as int)
            &&& stands_at(lo, b, at_lo as int)
            &&& stands_at(hi, b, at_hi as int)
            &&& stands_at(k, b, at_k as int)
            &&& l == b.subrange(at_l as int, b.len() as int)
        }),
{
    reveal(stands_at);
    let b = h + c + s + z + lo + hi + k + l;
    assert(b =~= h + b.skip(h.len() as int));
    let at_l = b.len() - l.len();
    assert(l =~= b.subrange(at_l, b.len() as int));
}

/// Where the sections of a file stand.
#[verifier::spinoff_prover]
proof fn lemma_sections(l: IndexLayout)
    requires
        l.writable(),
    ensures
        ({
            let b = l.encoded();
            let n = l.header.nlist as nat;
            let v = l.header.n_vectors as nat;
            &&& b.len() == file_len(n, v)
            &&& b == header_bytes(l.header) + b.skip(32)
            &&& stands_at(centroid_bytes(l.centroids@), b, 32)
            &&& stands_at(size_bytes(l.cluster_sizes@), b, sizes_at(n) as int)
            &&& stands_at(box_bytes(l.bbox_mins@), b, mins_at(n) as int)
            &&& stands_at(box_bytes(l.bbox_maxes@), b, maxes_at(n) as int)
            &&& stands_at(block_bytes(l.blocks@), b, blocks_at(n) as int)
            &&& l.labels@ == b.subrange(labels_at(n, v) as int, file_len(n, v) as int)
        }),
{
    reveal(file_bytes);
    let h = header_bytes(l.header);
    let c = centroid_bytes(l.centroids@);
    let s = size_bytes(l.cluster_sizes@);
    let front = front_bytes(l.header, l.centroids@, l.cluster_sizes@);
    let z = zeros((crate::index::layout::round32(front.len()) - front.len()) as nat);
    let lo = box_bytes(l.bbox_mins@);
    let hi = box_bytes(l.bbox_maxes@);
    let k = block_bytes(l.blocks@);
    assert(h.len() == 32);
    assert(front.len() == 32 + 60 * l.header.nlist);
    lemma_parts(h, c, s, z, lo, hi, k, l.labels@);
}

/// A file that was written is accepted, and reading it gives back the sections that were written.
pub proof fn law_round_trip(l: IndexLayout)
    requires
        l.writable(),
    ensures
        defect(l.encoded()) is None,
        l.matches(l.encoded()),
{
    let b = l.encoded();
    let n = l.header.nlist as nat;
    let v = l.header.n_vectors as nat;
    lemma_sections(l);
    assert(l.header.matches(b)) by {
        lemma_header_round_trip(l.header, b.skip(32));
    }
    lemma_centroids_round_trip(l.centroids@, b, 32);
    lemma_sizes_round_trip(l.cluster_sizes@, b, sizes_at(n) as int);
    lemma_boxes_round_trip(l.bbox_mins@, b, mins_at(n) as int);
    lemma_boxes_round_trip(l.bbox_maxes@, b, maxes_at(n) as int);
    lemma_blocks_round_trip(l.blocks@, b, blocks_at(n) as int);
}

/// Whatever the sections are, they are written one after the other: the header, the centroids and
/// the sizes, zero bytes up to the next multiple of 32, the lower and the upper bounds, the blocks
/// and the labels. Each number is read back from its place.
#[verifier::spinoff_prover]
pub proof fn law_sections_are_written_in_order(
    h: IndexHeader,
    centroids: Seq<[Binary32; N_DIMS]>,
    sizes: Seq<u32>,
    mins: Seq<Bbox>,
    maxes: Seq<Bbox>,
    blocks: Seq<VectorBlock>,
    labels: Seq<u8>,
)
    ensures
        ({
            let b = file_bytes(h, centroids, sizes, mins, maxes, blocks, labels);
            let at_sizes = 32 + 56 * centroids.len();
            let at_mins = (at_sizes + 4 * sizes.len() + 31) / 32 * 32;
            let at_maxes = at_mins + 32 * mins.len();
            let at_blocks = at_maxes + 32 * maxes.len();
            let at_labels = at_blocks + 224 * blocks.len();
            &&& b.len() == at_labels + labels.len()
            &&& h.matches(b)
            &&& centroids_match(centroids, b, 32)
            &&& sizes_match(sizes, b, at_sizes as int)
            &&& forall|k: int| at_sizes + 4 * sizes.len() <= k < at_mins ==> #[trigger] b[k] == 0
            &&& boxes_match(mins, b, at_mins as int)
            &&& boxes_match(maxes, b, at_maxes as int)
            &&& blocks_match(blocks, b, at_blocks as int)
            &&& labels == b.subrange(at_labels as int, b.len() as int)
        }),
{
    reveal(file_bytes);
    let head = header_bytes(h);
    let c = centroid_bytes(centroids);
    let s = size_bytes(sizes);
    let front = front_bytes(h, centroids, sizes);
    lemma_header_round_trip(h, seq![]);
    assert(front.len() == 32 + 56 * centroids.len() + 4 * sizes.len());
    let z = zeros((crate::index::layout::round32(front.len()) - front.len()) as nat);
    let lo = box_bytes(mins);
    let hi = box_bytes(maxes);
    let k = block_bytes(blocks);
    lemma_parts(head, c, s, z, lo, hi, k, labels);
    let b = file_bytes(h, centroids, sizes, mins, maxes, blocks, labels);
    let at_sizes = 32 + 56 * centroids.len();
    let at_mins = (at_sizes + 4 * sizes.len() + 31) / 32 * 32;
    assert(b == head + c + s + z + lo + hi + k + labels);
    assert(h.matches(b)) by {
        lemma_header_round_trip(h, b.skip(32));
    }
    lemma_centroids_round_trip(centroids, b, 32);
    lemma_sizes_round_trip(sizes, b, at_sizes as int);
    lemma_boxes_round_trip(mins, b, at_mins as int);
    lemma_boxes_round_trip(maxes, b, at_mins + 32 * mins.len() as int);
    lemma_blocks_round_trip(blocks, b, at_mins + 32 * mins.len() + 32 * maxes.len() as int);
    assert forall|i: int| at_sizes + 4 * sizes.len() <= i < at_mins implies #[trigger] b[i]
        == 0 by {
        assert(b[i] == (front + z)[i]);
        assert((front + z)[i] == z[i - front.len()]);
    }
}

/// A buffer holds one index: what is read from it is determined by its bytes.
pub proof fn law_contents_are_unique(a: IndexLayout, c: IndexLayout, b: Seq<u8>)
    requires
        a.matches(b),
        c.matches(b),
    ensures
        a.header == c.header,
        a.centroids@ == c.centroids@,
        a.cluster_sizes@ == c.cluster_sizes@,
        a.bbox_mins@ == c.bbox_mins@,
        a.bbox_maxes@ == c.bbox_maxes@,
        a.blocks@ == c.blocks@,
        a.labels@ == c.labels@,
{
    assert(a.header._padding =~= c.header._padding);
    let n = a.header.nlist as nat;
    assert forall|i: int| 0 <= i < n implies a.centroids@[i] == c.centroids@[i] by {
        assert forall|d: int| 0 <= d < 14 implies a.centroids@[i]@[d] == c.centroids@[i]@[d] by {
            assert(a.centroids@[i]@[d].bits == c.centroids@[i]@[d].bits);
        }
        assert(a.centroids@[i]@ =~= c.centroids@[i]@);
        assert(a.centroids@[i] =~= c.centroids@[i]);
    }
    assert(a.centroids@ =~= c.centroids@);
    assert(a.cluster_sizes@ =~= c.cluster_sizes@);
    lemma_boxes_unique(a.bbox_mins@, c.bbox_mins@, b, mins_at(n) as int);
    lemma_boxes_unique(a.bbox_maxes@, c.bbox_maxes@, b, maxes_at(n) as int);
    assert forall|i: int| 0 <= i < a.blocks@.len() implies a.blocks@[i] == c.blocks@[i] by {
        assert forall|j: int| 0 <= j < 112 implies a.blocks@[i].data@[j]
            == c.blocks@[i].data@[j] by {}
        assert(a.blocks@[i].data@ =~= c.blocks@[i].data@);
        assert(a.blocks@[i].data =~= c.blocks@[i].data);
    }
    assert(a.blocks@ =~= c.blocks@);
}

proof fn lemma_boxes_unique(a: Seq<Bbox>, c: Seq<Bbox>, b: Seq<u8>, at: int)
    requires
        a.len() == c.len(),
        boxes_match(a, b, at),
        boxes_match(c, b, at),
    ensures
        a == c,
{
    assert forall|i: int| 0 <= i < a.len() implies a[i] == c[i] by {
        assert forall|l: int| 0 <= l < 16 implies a[i].data@[l] == c[i].data@[l] by {}
        assert(a[i].data@ =~= c[i].data@);
        assert(a[i].data =~= c[i].data);
    }
    assert(a =~= c);
}

// ── Writing ──────────────────────────────────────────────────────────────────

/// The header of a file that is written.
pub open spec fn new_header(nlist: u32, n_vectors: u64) -> IndexHeader {
    IndexHeader {
        magic: MAGIC,
        version: VERSION,
        nlist,
        nprobe: NPROBE,
        n_vectors,
        _padding: [0u8, 0, 0, 0, 0, 0, 0, 0],
    }
}

/// Why the sections cannot be written.
#[derive(Clone, Copy, Debug, PartialEq, Eq, Structural)]
pub enum SerializeError {
    LengthMismatch { centroids: usize, cluster_sizes: usize },
}

impl SerializeError {
    /// The text of the error.
    pub open spec fn text(self) -> Seq<char> {
        match self {
            SerializeError::LengthMismatch { centroids, cluster_sizes } =>
                "centroids/cluster_sizes: "@ + decimal(centroids as nat) + " vs "@ + decimal(
                cluster_sizes as nat,
            ),
        }
    }

    /// The text of the error.
    pub fn message(&self) -> (r: String)
        ensures
            r@ == self.text(),
    {
        match *self {
            SerializeError::LengthMismatch { centroids, cluster_sizes } => {
                let mut out = String::from_str("centroids/cluster_sizes: ");
                push_decimal(&mut out, centroids as u128);
                out.append(" vs ");
                push_decimal(&mut out, cluster_sizes as u128);
                out
            },
        }
    }
}

fn push_u32(out: &mut Vec<u8>, x: u32)
    ensures
        final(out)@ == old(out)@ + u32_bytes(x),
{
    out.push((x % 0x100) as u8);
    out.push((x / 0x100 % 0x100) as u8);
    out.push((x / 0x1_0000 % 0x100) as u8);
    out.push((x / 0x100_0000) as u8);
    assert(out@ =~= old(out)@ + u32_bytes(x));
}

fn push_i16(out: &mut Vec<u8>, x: i16)
    ensures
        final(out)@ == old(out)@ + i16_bytes(x),
{
    let n: i32 = if x < 0 {
        x as i32 + 0x1_0000
    } else {
        x as i32
    };
    out.push((n % 0x100) as u8);
    out.push((n / 0x100) as u8);
    assert(out@ =~= old(out)@ + i16_bytes(x));
}

fn push_header(out: &mut Vec<u8>, h: &IndexHeader)
    ensures
        final(out)@ == old(out)@ + header_bytes(*h),
{
    push_u32(out, h.magic);
    push_u32(out, h.version);
    push_u32(out, h.nlist);
    push_u32(out, h.nprobe);
    push_u32(out, (h.n_vectors % 0x1_0000_0000) as u32);
    push_u32(out, (h.n_vectors / 0x1_0000_0000) as u32);
    let mut i: usize = 0;
    let ghost mid = out@;
    assert(h._padding@.take(0) =~= Seq::<u8>::empty());
    assert(mid + Seq::<u8>::empty() =~= mid);
    while i < 8
        invariant
            i <= 8,
            out@ == mid + h._padding@.take(i as int),
        decreases 8 - i,
    {
        out.push(h._padding[i]);
        assert(h._padding@.take(i + 1) =~= h._padding@.take(i as int).push(h._padding@[i as int]));
        i = i + 1;
        assert(out@ =~= mid + h._padding@.take(i as int));
    }
    assert(h._padding@.take(8) =~= h._padding@);
    assert(out@ =~= old(out)@ + header_bytes(*h));
}

fn push_centroids(out: &mut Vec<u8>, c: &[[Binary32; N_DIMS]])
    ensures
        final(out)@ == old(out)@ + centroid_bytes(c@),
{
    let ghost p = centroid_bytes(c@);
    let mut i: usize = 0;
    assert(out@ =~= old(out)@ + p.take(0));
    while i < c.len()
        invariant
            i <= c.len(),
            p == centroid_bytes(c@),
            out@ == old(out)@ + p.take(56 * i),
        decreases c.len() - i,
    {
        let mut d: usize = 0;
        while d < N_DIMS
            invariant
                i < c.len(),
                d <= 14,
                p == centroid_bytes(c@),
                out@ == old(out)@ + p.take(56 * i + 4 * d),
            decreases 14 - d,
        {
            let x = c[i][d].bits;
            push_u32(out, x);
            proof {
                let k = 56 * i + 4 * d;
                assert(k + 4 <= p.len());
                assert(p.take(k + 4) =~= p.take(k) + u32_bytes(x));
                assert(out@ =~= old(out)@ + p.take(k + 4));
            }
            d = d + 1;
        }
        i = i + 1;
    }
    assert(p.take(56 * c@.len() as int) =~= p);
}

fn push_sizes(out: &mut Vec<u8>, c: &[u32])
    ensures
        final(out)@ == old(out)@ + size_bytes(c@),
{
    let ghost p = size_bytes(c@);
    let mut i: usize = 0;
    assert(out@ =~= old(out)@ + p.take(0));
    while i < c.len()
        invariant
            i <= c.len(),
            p == size_bytes(c@),
            out@ == old(out)@ + p.take(4 * i),
        decreases c.len() - i,
    {
        let x = c[i];
        push_u32(out, x);
        proof {
            let k = 4 * i;
            assert(p.take(k + 4) =~= p.take(k) + u32_bytes(x));
            assert(out@ =~= old(out)@ + p.take(k + 4));
        }
        i = i + 1;
    }
    assert(p.take(4 * c@.len() as int) =~= p);
}

fn push_boxes(out: &mut Vec<u8>, c: &[Bbox])
    ensures
        final(out)@ == old(out)@ + box_bytes(c@),
{
    let ghost p = box_bytes(c@);
    let mut i: usize = 0;
    assert(out@ =~= old(out)@ + p.take(0));
    while i < c.len()
        invariant
            i <= c.len(),
            p == box_bytes(c@),
            out@ == old(out)@ + p.take(32 * i),
        decreases c.len() - i,
    {
        let mut l: usize = 0;
        while l < BBOX_LANES
            invariant
                i < c.len(),
                l <= 16,
                p == box_bytes(c@),
                out@ == old(out)@ + p.take(32 * i + 2 * l),
            decreases 16 - l,
        {
            let x = c[i].data[l];
            push_i16(out, x);
            proof {
                let k = 32 * i + 2 * l;
                assert(k + 2 <= p.len());
                assert(p.take(k + 2) =~= p.take(k) + i16_bytes(x));
                assert(out@ =~= old(out)@ + p.take(k + 2));
            }
            l = l + 1;
        }
        i = i + 1;
    }
    assert(p.take(32 * c@.len() as int) =~= p);
}

fn push_blocks(out: &mut Vec<u8>, c: &[VectorBlock])
    ensures
        final(out)@ == old(out)@ + block_bytes(c@),
{
    let ghost p = block_bytes(c@);
    let mut i: usize = 0;
    assert(out@ =~= old(out)@ + p.take(0));
    while i < c.len()
        invariant
            i <= c.len(),
            p == block_bytes(c@),
            out@ == old(out)@ + p.take(224 * i),
        decreases c.len() - i,
    {
        let mut j: usize = 0;
        while j < BLOCK_VALUES
            invariant
                i < c.len(),
                j <= 112,
                p == block_bytes(c@),
                out@ == old(out)@ + p.take(224 * i + 2 * j),
            decreases 112 - j,
        {
            let x = c[i].data[j];
            push_i16(out, x);
            proof {
                let k = 224 * i + 2 * j;
                assert(k + 2 <= p.len());
                assert(p.take(k + 2) =~= p.take(k) + i16_bytes(x));
                assert(out@ =~= old(out)@ + p.take(k + 2));
            }
            j = j + 1;
        }
        i = i + 1;
    }
    assert(p.take(224 * c@.len() as int) =~= p);
}

/// Brings the length to a multiple of 32 with zero bytes.
fn push_padding(out: &mut Vec<u8>)
    ensures
        final(out)@ == old(out)@ + zeros(
            (crate::index::layout::round32(old(out)@.len()) - old(out)@.len()) as nat,
        ),
{
    let ghost mut n: nat = 0;
    assert(out@ =~= old(out)@ + zeros(n));
    while out.len() % 32 != 0
        invariant
            out@ == old(out)@ + zeros(n),
            old(out)@.len() + n <= crate::index::layout::round32(old(out)@.len()),
        decreases crate::index::layout::round32(old(out)@.len()) - out@.len(),
    {
        out.push(0);
        proof {
            assert(zeros(n + 1) =~= zeros(n).push(0));
            assert(out@ =~= old(out)@ + zeros(n + 1));
            n = n + 1;
        }
    }
}

/// Renders the sections as the bytes of a file.
pub fn serialize_index(
    centroids: &[[Binary32; N_DIMS]],
    cluster_sizes: &[u32],
    bbox_mins: &[Bbox],
    bbox_maxes: &[Bbox],
    blocks: &[VectorBlock],
    labels: &[u8],
    n_vectors: u64,
) -> (r: Result<Vec<u8>, SerializeError>)
    requires
        centroids.len() <= u32::MAX,
    ensures
        match r {
            Ok(out) => centroids@.len() == cluster_sizes@.len() && out@ == file_bytes(
                new_header(centroids@.len() as u32, n_vectors),
                centroids@,
                cluster_sizes@,
                bbox_mins@,
                bbox_maxes@,
                blocks@,
                labels@,
            ),
            Err(e) => centroids@.len() != cluster_sizes@.len() && e
                == (SerializeError::LengthMismatch {
                centroids: centroids@.len() as usize,
                cluster_sizes: cluster_sizes@.len() as usize,
            }),
        },
{
    if centroids.len() != cluster_sizes.len() {
        return Err(
            SerializeError::LengthMismatch {
                centroids: centroids.len(),
                cluster_sizes: cluster_sizes.len(),
            },
        );
    }
    let header = IndexHeader {
        magic: MAGIC,
        version: VERSION,
        nlist: centroids.len() as u32,
        nprobe: NPROBE,
        n_vectors,
        _padding: [0u8;8],
    };
    let mut out: Vec<u8> = Vec::new();
    push_header(&mut out, &header);
    assert(out@ =~= header_bytes(header));
    push_centroids(&mut out, centroids);
    push_sizes(&mut out, cluster_sizes);
    push_padding(&mut out);
    push_boxes(&mut out, bbox_mins);
    push_boxes(&mut out, bbox_maxes);
    push_blocks(&mut out, blocks);
    out.extend_from_slice(labels);
    proof {
        reveal(file_bytes);
        assert(header._padding =~= new_header(header.nlist, n_vectors)._padding);
    }
    Ok(out)
}

} // verus!
