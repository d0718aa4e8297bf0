//! The binary layout of `index.bin`.
//!
//! ```text
//! [IndexHeader      ]  32 bytes                          offset 0
//! [centroids        ]  nlist × 14 × 4 B
//! [cluster_sizes    ]  nlist × 4 B
//! [alignment pad    ]  0–31 bytes                        brings the boxes to 32-byte
//! [bbox_mins        ]  nlist × Bbox (32 B)               per-cluster minimum
//! [bbox_maxes       ]  nlist × Bbox (32 B)               per-cluster maximum
//! [blocks           ]  (n_vectors/BLOCK_SIZE) × VectorBlock
//! [labels           ]  n_vectors × 1 B                   0=legit, 1=fraud
//! ```
//!
//! All numbers are little-endian.

use vstd::prelude::*;
#[allow(unused_imports)]
use vstd::arithmetic::div_mod::{
    lemma_fundamental_div_mod, lemma_mod_multiples_basic, lemma_mod_pos_bound,
};
#[allow(unused_imports)]
use vstd::arithmetic::power2::{
    lemma2_to64, lemma2_to64_rest, lemma_pow2_strictly_increases, pow2,
};
use vstd::slice::{slice_subrange, slice_to_vec};
use vstd::string::StringExecFns;

use crate::binary32::Binary32;
#[allow(unused_imports)]
use crate::text::{decimal, hex, push_decimal, push_hex};

verus! {

pub const MAGIC: u32 = 0x49564632;

pub const VERSION: u32 = 3;

/// Number of features of a vector.
pub const N_DIMS: usize = 14;

/// A box uses 16 lanes per cluster: 14 real dimensions and 2 of zero padding.
pub const BBOX_LANES: usize = 16;

/// Number of vectors packed per [`VectorBlock`].
pub const BLOCK_SIZE: usize = 8;

/// Number of quantised values in a [`VectorBlock`]: `N_DIMS * BLOCK_SIZE`.
pub const BLOCK_VALUES: usize = 112;

/// One block: `BLOCK_SIZE` vectors, dimension-major, quantised as `i16`.
///
/// `data[dim * BLOCK_SIZE + slot]` is the quantised value of the vector in `slot` at `dim`.
#[derive(Clone, Copy, Debug)]
pub struct VectorBlock {
    pub data: [i16; BLOCK_VALUES],
}

impl Default for VectorBlock {
    fn default() -> (r: Self)
        ensures
            forall|i: int| 0 <= i < BLOCK_VALUES ==> r.data@[i] == 0,
    {
        Self { data: [0i16; BLOCK_VALUES] }
    }
}

/// Bounds of one cluster in quantised space: 14 real dimensions and 2 of zero padding.
#[derive(Clone, Copy, Debug)]
pub struct Bbox {
    pub data: [i16; BBOX_LANES],
}

impl Default for Bbox {
    fn default() -> (r: Self)
        ensures
            forall|i: int| 0 <= i < BBOX_LANES ==> r.data@[i] == 0,
    {
        Self { data: [0i16; BBOX_LANES] }
    }
}

/// Fixed-size header at byte offset 0 of index.bin, 32 bytes.
///
/// ```text
/// Offset  Size  Field
///      0     4  magic       (must equal MAGIC)
///      4     4  version     (must equal VERSION)
///      8     4  nlist       (number of clusters)
///     12     4  nprobe      (default that the pruned search does not use)
///     16     8  n_vectors   (total vectors, padded to a multiple of BLOCK_SIZE)
///     24     8  _padding    (zero)
/// ```
#[derive(Clone, Copy, Debug)]
pub struct IndexHeader {
    pub magic: u32,
    pub version: u32,
    pub nlist: u32,
    pub nprobe: u32,
    pub n_vectors: u64,
    pub _padding: [u8; 8],
}

/// The next multiple of `align`, a power of two, from `n` up.
pub fn align_up(n: usize, align: usize) -> (r: usize)
    requires
        align > 0,
        n + align <= usize::MAX,
    ensures
        r == ((n + align - 1) as usize) & !((align - 1) as usize),
        forall|k: nat|
            #![trigger pow2(k)]
            align == pow2(k) ==> n <= r < n + align && r % align == 0,
{
    let x: usize = n + align - 1;
    let mask: usize = align - 1;
    let r = x & !mask;
    proof {
        assert forall|k: nat|
            #![trigger pow2(k)]
            align == pow2(k) implies n <= r < n + align && r % align
            == 0 by {
            lemma2_to64();
            lemma2_to64_rest();
            let width = usize::BITS as nat;
            assert(pow2(width) > usize::MAX);
            if k >= width {
                if k > width {
                    lemma_pow2_strictly_increases(width, k);
                }
                assert(false);
            }
            vstd::bits::lemma_usize_low_bits_mask_is_mod(x, k);
            assert(x & mask == x % align);
            assert(x & !mask == x - (x & mask)) by (bit_vector);
            lemma_fundamental_div_mod(x as int, align as int);
            lemma_mod_pos_bound(x as int, align as int);
            lemma_mod_multiples_basic((x / align) as int, align as int);
            assert(r == (x / align) * align) by (nonlinear_arith)
                requires
                    x == align * (x / align) + x % align,
                    r == x - x % align,
            ;
        }
    }
    r
}

// ── Little-endian numbers ────────────────────────────────────────────────────

pub open spec fn u32_at(b: Seq<u8>, at: int) -> u32 {
    (b[at] + 0x100 * b[at + 1] + 0x1_0000 * b[at + 2] + 0x100_0000 * b[at + 3]) as u32
}

pub open spec fn u64_at(b: Seq<u8>, at: int) -> u64 {
    (u32_at(b, at) + 0x1_0000_0000 * u32_at(b, at + 4)) as u64
}

pub open spec fn i16_at(b: Seq<u8>, at: int) -> i16 {
    let n = b[at] + 0x100 * b[at + 1];
    (if n < 0x8000 {
        n
    } else {
        n - 0x1_0000
    }) as i16
}

fn read_u32(buf: &[u8], at: usize) -> (r: u32)
    requires
        at + 4 <= buf.len(),
    ensures
        r == u32_at(buf@, at as int),
{
    buf[at] as u32 + 0x100 * buf[at + 1] as u32 + 0x1_0000 * buf[at + 2] as u32 + 0x100_0000
        * buf[at + 3] as u32
}

fn read_u64(buf: &[u8], at: usize) -> (r: u64)
    requires
        at + 8 <= buf.len(),
    ensures
        r == u64_at(buf@, at as int),
{
    read_u32(buf, at) as u64 + 0x1_0000_0000 * read_u32(buf, at + 4) as u64
}

fn read_i16(buf: &[u8], at: usize) -> (r: i16)
    requires
        at + 2 <= buf.len(),
    ensures
        r == i16_at(buf@, at as int),
{
    let n: i32 = buf[at] as i32 + 0x100 * buf[at + 1] as i32;
    if n < 0x8000 {
        n as i16
    } else {
        (n - 0x1_0000) as i16
    }
}

// ── Sections ─────────────────────────────────────────────────────────────────

/// The next multiple of 32.
pub open spec fn round32(n: nat) -> nat {
    ((n + 31) / 32) * 32
}

pub open spec fn sizes_at(nlist: nat) -> nat {
    32 + 56 * nlist
}

pub open spec fn mins_at(nlist: nat) -> nat {
    round32(32 + 60 * nlist)
}

pub open spec fn maxes_at(nlist: nat) -> nat {
    mins_at(nlist) + 32 * nlist
}

pub open spec fn blocks_at(nlist: nat) -> nat {
    round32(maxes_at(nlist) + 32 * nlist)
}

pub open spec fn labels_at(nlist: nat, n_vectors: nat) -> nat {
    blocks_at(nlist) + (n_vectors / 8) * 224
}

/// The length of a file.
pub open spec fn file_len(nlist: nat, n_vectors: nat) -> nat {
    labels_at(nlist, n_vectors) + n_vectors
}

/// The sections of an index.bin buffer.
///
/// `cluster_sizes[i]` is the padded vector count of cluster `i`, a multiple of `BLOCK_SIZE`.
/// Padding slots carry label 0 and all-zero features.
#[derive(Debug)]
pub struct IndexLayout {
    pub header: IndexHeader,
    pub centroids: Vec<[Binary32; N_DIMS]>,
    pub cluster_sizes: Vec<u32>,
    pub bbox_mins: Vec<Bbox>,
    pub bbox_maxes: Vec<Bbox>,
    pub blocks: Vec<VectorBlock>,
    pub labels: Vec<u8>,
}

/// Why a buffer is not an index.
#[derive(Clone, Copy, Debug, PartialEq, Eq, Structural)]
pub enum IndexError {
    HeaderTooSmall { got: usize },
    InvalidMagic { found: u32 },
    UnsupportedVersion { found: u32 },
    NotWholeBlocks { n_vectors: u64 },
    BufferTooSmall { need: u128, got: usize },
    TooManyLists { nlist: usize, max: usize },
    /// The blocks cannot be addressed; this takes an address space of 32 bits.
    TooManyBlocks { blocks: u64 },
    /// The buffer does not start at a multiple of 32, as its boxes and blocks need.
    NotAligned,
}

impl IndexError {
    /// The text of the error.
    pub open spec fn text(self) -> Seq<char> {
        match self {
            IndexError::HeaderTooSmall { got } => "buffer too small for header ("@ + decimal(
                got as nat,
            ) + " bytes)"@,
            IndexError::InvalidMagic { found } => "invalid magic 0x"@ + hex(found as nat, 8)
                + ", expected 0x"@ + hex(MAGIC as nat, 8),
            IndexError::UnsupportedVersion { found } => "unsupported index version "@ + decimal(
                found as nat,
            ) + ", expected "@ + decimal(VERSION as nat) + " — rebuild index.bin"@,
            IndexError::NotWholeBlocks { n_vectors } => "n_vectors "@ + decimal(n_vectors as nat)
                + " is not a multiple of BLOCK_SIZE "@ + decimal(BLOCK_SIZE as nat),
            IndexError::BufferTooSmall { need, got } => "buffer too small: need "@ + decimal(
                need as nat,
            ) + " bytes, got "@ + decimal(got as nat),
            IndexError::TooManyLists { nlist, max } => "nlist "@ + decimal(nlist as nat)
                + " exceeds MAX_NLIST "@ + decimal(max as nat),
            IndexError::TooManyBlocks { blocks } => "clusters hold "@ + decimal(blocks as nat)
                + " blocks"@,
            IndexError::NotAligned =>
                "bbox_mins cast error: TargetAlignmentGreaterAndInputNotAligned"@,
        }
    }

    /// The text of the error.
    pub fn message(&self) -> (r: String)
        ensures
            r@ == self.text(),
    {
        match *self {
            IndexError::HeaderTooSmall { got } => {
                let mut out = String::from_str("buffer too small for header (");
                push_decimal(&mut out, got as u128);
                out.append(" bytes)");
                out
            },
            IndexError::InvalidMagic { found } => {
                let mut out = String::from_str("invalid magic 0x");
                push_hex(&mut out, found, 8);
                out.append(", expected 0x");
                push_hex(&mut out, MAGIC, 8);
                out
            },
            IndexError::UnsupportedVersion { found } => {
                let mut out = String::from_str("unsupported index version ");
                push_decimal(&mut out, found as u128);
                out.append(", expected ");
                push_decimal(&mut out, VERSION as u128);
                out.append(" — rebuild index.bin");
                out
            },
            IndexError::NotWholeBlocks { n_vectors } => {
                let mut out = String::from_str("n_vectors ");
                push_decimal(&mut out, n_vectors as u128);
                out.append(" is not a multiple of BLOCK_SIZE ");
                push_decimal(&mut out, BLOCK_SIZE as u128);
                out
            },
            IndexError::BufferTooSmall { need, got } => {
                let mut out = String::from_str("buffer too small: need ");
                push_decimal(&mut out, need);
                out.append(" bytes, got ");
                push_decimal(&mut out, got as u128);
                out
            },
            IndexError::TooManyLists { nlist, max } => {
                let mut out = String::from_str("nlist ");
                push_decimal(&mut out, nlist as u128);
                out.append(" exceeds MAX_NLIST ");
                push_decimal(&mut out, max as u128);
                out
            },
            IndexError::TooManyBlocks { blocks } => {
                let mut out = String::from_str("clusters hold ");
                push_decimal(&mut out, blocks as u128);
                out.append(" blocks");
                out
            },
            IndexError::NotAligned => String::from_str(
                "bbox_mins cast error: TargetAlignmentGreaterAndInputNotAligned",
            ),
        }
    }
}

/// What is wrong with a buffer, the first thing if there are several.
pub open spec fn defect(b: Seq<u8>) -> Option<IndexError> {
    if b.len() < 32 {
        Some(IndexError::HeaderTooSmall { got: b.len() as usize })
    } else if u32_at(b, 0) != MAGIC {
        Some(IndexError::InvalidMagic { found: u32_at(b, 0) })
    } else if u32_at(b, 4) != VERSION {
        Some(IndexError::UnsupportedVersion { found: u32_at(b, 4) })
    } else if u64_at(b, 16) % 8 != 0 {
        Some(IndexError::NotWholeBlocks { n_vectors: u64_at(b, 16) })
    } else {
        let need = file_len(u32_at(b, 8) as nat, u64_at(b, 16) as nat);
        if b.len() < need {
            Some(IndexError::BufferTooSmall { need: need as u128, got: b.len() as usize })
        } else {
            None
        }
    }
}

/// What is wrong with a buffer that starts at an address: its boxes come after everything else.
pub open spec fn defect_at(b: Seq<u8>, address: usize) -> Option<IndexError> {
    if defect(b) is None && address % 32 != 0 {
        Some(IndexError::NotAligned)
    } else {
        defect(b)
    }
}

/// Where a buffer starts in memory, by the slice method `as_ptr` of the standard library. Nothing
/// is said of the address.
#[verifier::external_body]
fn address_of(buf: &[u8]) -> (r: usize) {
    buf.as_ptr() as usize
}

pub open spec fn centroids_match(c: Seq<[Binary32; N_DIMS]>, b: Seq<u8>, at: int) -> bool {
    forall|i: int, d: int|
        0 <= i < c.len() && 0 <= d < 14 ==> (#[trigger] c[i]@[d]).bits == u32_at(
            b,
            at + 56 * i + 4 * d,
        )
}

pub open spec fn sizes_match(c: Seq<u32>, b: Seq<u8>, at: int) -> bool {
    forall|i: int| 0 <= i < c.len() ==> #[trigger] c[i] == u32_at(b, at + 4 * i)
}

pub open spec fn boxes_match(c: Seq<Bbox>, b: Seq<u8>, at: int) -> bool {
    forall|i: int, l: int|
        0 <= i < c.len() && 0 <= l < 16 ==> #[trigger] c[i].data@[l] == i16_at(
            b,
            at + 32 * i + 2 * l,
        )
}

pub open spec fn blocks_match(c: Seq<VectorBlock>, b: Seq<u8>, at: int) -> bool {
    forall|i: int, j: int|
        0 <= i < c.len() && 0 <= j < 112 ==> #[trigger] c[i].data@[j] == i16_at(
            b,
            at + 224 * i + 2 * j,
        )
}

impl IndexHeader {
    /// The header is what the first 32 bytes of the buffer hold.
    pub open spec fn matches(self, b: Seq<u8>) -> bool {
        &&& self.magic == u32_at(b, 0)
        &&& self.version == u32_at(b, 4)
        &&& self.nlist == u32_at(b, 8)
        &&& self.nprobe == u32_at(b, 12)
        &&& self.n_vectors == u64_at(b, 16)
        &&& self._padding@ == b.subrange(24, 32)
    }
}

impl IndexLayout {
    /// The lengths of the sections are those that the header asks for.
    pub open spec fn lengths_match(&self) -> bool {
        let n = self.header.nlist as nat;
        let v = self.header.n_vectors as nat;
        &&& v % 8 == 0
        &&& self.centroids@.len() == n
        &&& self.cluster_sizes@.len() == n
        &&& self.bbox_mins@.len() == n
        &&& self.bbox_maxes@.len() == n
        &&& self.blocks@.len() == v / 8
        &&& self.labels@.len() == v
    }

    /// The sections are what the buffer holds.
    pub open spec fn matches(&self, b: Seq<u8>) -> bool {
        let n = self.header.nlist as nat;
        let v = self.header.n_vectors as nat;
        &&& self.header.matches(b)
        &&& self.lengths_match()
        &&& centroids_match(self.centroids@, b, 32)
        &&& sizes_match(self.cluster_sizes@, b, sizes_at(n) as int)
        &&& boxes_match(self.bbox_mins@, b, mins_at(n) as int)
        &&& boxes_match(self.bbox_maxes@, b, maxes_at(n) as int)
        &&& blocks_match(self.blocks@, b, blocks_at(n) as int)
        &&& self.labels@ == b.subrange(labels_at(n, v) as int, file_len(n, v) as int)
    }

    /// Parses an index.bin buffer into its sections.
    ///
    /// The boxes and blocks of a buffer lie at multiples of 32 from its start, and are read in
    /// place only where the buffer itself starts at one.
    pub fn from_bytes(buf: &[u8]) -> (r: Result<Self, IndexError>)
        ensures
            match r {
                Ok(layout) => defect(buf@) is None && layout.matches(buf@),
                Err(e) => defect(buf@) == Some(e) || (e == IndexError::NotAligned && buf@.len()
                    >= 32),
            },
    {
        let address = address_of(buf);
        if buf.len() >= 32 && address % 8 != 0 {
            return Err(IndexError::NotAligned);
        }
        Self::from_bytes_at(buf, address)
    }

    /// Parses an index.bin buffer that starts at `address` into its sections. The header of a
    /// buffer that has one needs a multiple of 8.
    pub fn from_bytes_at(buf: &[u8], address: usize) -> (r: Result<Self, IndexError>)
        requires
            buf@.len() >= 32 ==> address % 8 == 0,
        ensures
            match r {
                Ok(layout) => defect_at(buf@, address) is None && layout.matches(buf@),
                Err(e) => defect_at(buf@, address) == Some(e),
            },
    {
        if buf.len() < 32 {
            return Err(IndexError::HeaderTooSmall { got: buf.len() });
        }
        let header = read_header(buf);
        if header.magic != MAGIC {
            return Err(IndexError::InvalidMagic { found: header.magic });
        }
        if header.version != VERSION {
            return Err(IndexError::UnsupportedVersion { found: header.version });
        }
        if header.n_vectors % 8 != 0 {
            return Err(IndexError::NotWholeBlocks { n_vectors: header.n_vectors });
        }
        let n = header.nlist as u128;
        let v = header.n_vectors as u128;
        let sizes_start: u128 = 32 + 56 * n;
        let mins_start: u128 = (32 + 60 * n + 31) / 32 * 32;
        let maxes_start: u128 = mins_start + 32 * n;
        let blocks_start: u128 = (maxes_start + 32 * n + 31) / 32 * 32;
        let labels_start: u128 = blocks_start + v / 8 * 224;
        let need: u128 = labels_start + v;
        if (buf.len() as u128) < need {
            return Err(IndexError::BufferTooSmall { need, got: buf.len() });
        }
        if address % 32 != 0 {
            return Err(IndexError::NotAligned);
        }
        let nlist = header.nlist as usize;
        let n_vec = header.n_vectors as usize;
        let labels_at = labels_start as usize;
        let centroids = read_centroids(buf, 32, nlist);
        let cluster_sizes = read_sizes(buf, sizes_start as usize, nlist);
        let bbox_mins = read_boxes(buf, mins_start as usize, nlist);
        let bbox_maxes = read_boxes(buf, maxes_start as usize, nlist);
        let blocks = read_blocks(buf, blocks_start as usize, n_vec / 8);
        let labels = slice_to_vec(slice_subrange(buf, labels_at, labels_at + n_vec));
        Ok(
            Self {
                header,
                centroids,
                cluster_sizes,
                bbox_mins,
                bbox_maxes,
                blocks,
                labels,
            },
        )
    }
}

fn read_header(buf: &[u8]) -> (r: IndexHeader)
    requires
        buf.len() >= 32,
    ensures
        r.matches(buf@),
{
    let padding: [u8; 8] = [
        buf[24],
        buf[25],
        buf[26],
        buf[27],
        buf[28],
        buf[29],
        buf[30],
        buf[31],
    ];
    assert(padding@ =~= buf@.subrange(24, 32));
    IndexHeader {
        magic: read_u32(buf, 0),
        version: read_u32(buf, 4),
        nlist: read_u32(buf, 8),
        nprobe: read_u32(buf, 12),
        n_vectors: read_u64(buf, 16),
        _padding: padding,
    }
}

fn read_centroids(buf: &[u8], at: usize, n: usize) -> (r: Vec<[Binary32; N_DIMS]>)
    requires
        at + 56 * n <= buf.len(),
    ensures
        r@.len() == n,
        centroids_match(r@, buf@, at as int),
{
    let mut out: Vec<[Binary32; N_DIMS]> = Vec::new();
    let mut i: usize = 0;
    while i < n
        invariant
            i <= n,
            at + 56 * n <= buf.len(),
            out@.len() == i,
            centroids_match(out@, buf@, at as int),
        decreases n - i,
    {
        let mut c: [Binary32; N_DIMS] = [Binary32 { bits: 0 };N_DIMS];
        let mut d: usize = 0;
        while d < N_DIMS
            invariant
                d <= 14,
                i < n,
                at + 56 * n <= buf.len(),
                forall|e: int|
                    0 <= e < d ==> (#[trigger] c@[e]).bits == u32_at(buf@, at + 56 * i + 4 * e),
            decreases 14 - d,
        {
            c[d] = Binary32 { bits: read_u32(buf, at + 56 * i + 4 * d) };
            d = d + 1;
        }
        out.push(c);
        i = i + 1;
    }
    out
}

fn read_sizes(buf: &[u8], at: usize, n: usize) -> (r: Vec<u32>)
    requires
        at + 4 * n <= buf.len(),
    ensures
        r@.len() == n,
        sizes_match(r@, buf@, at as int),
{
    let mut out: Vec<u32> = Vec::new();
    let mut i: usize = 0;
    while i < n
        invariant
            i <= n,
            at + 4 * n <= buf.len(),
            out@.len() == i,
            sizes_match(out@, buf@, at as int),
        decreases n - i,
    {
        out.push(read_u32(buf, at + 4 * i));
        i = i + 1;
    }
    out
}

fn read_boxes(buf: &[u8], at: usize, n: usize) -> (r: Vec<Bbox>)
    requires
        at + 32 * n <= buf.len(),
    ensures
        r@.len() == n,
        boxes_match(r@, buf@, at as int),
{
    let mut out: Vec<Bbox> = Vec::new();
    let mut i: usize = 0;
    while i < n
        invariant
            i <= n,
            at + 32 * n <= buf.len(),
            out@.len() == i,
            boxes_match(out@, buf@, at as int),
        decreases n - i,
    {
        let mut data: [i16; BBOX_LANES] = [0i16;BBOX_LANES];
        let mut l: usize = 0;
        while l < BBOX_LANES
            invariant
                l <= 16,
                i < n,
                at + 32 * n <= buf.len(),
                forall|e: int|
                    0 <= e < l ==> #[trigger] data@[e] == i16_at(buf@, at + 32 * i + 2 * e),
            decreases 16 - l,
        {
            data[l] = read_i16(buf, at + 32 * i + 2 * l);
            l = l + 1;
        }
        out.push(Bbox { data });
        i = i + 1;
    }
    out
}

fn read_blocks(buf: &[u8], at: usize, n: usize) -> (r: Vec<VectorBlock>)
    requires
        at + 224 * n <= buf.len(),
    ensures
        r@.len() == n,
        blocks_match(r@, buf@, at as int),
{
    let mut out: Vec<VectorBlock> = Vec::new();
    let mut i: usize = 0;
    while i < n
        invariant
            i <= n,
            at + 224 * n <= buf.len(),
            out@.len() == i,
            blocks_match(out@, buf@, at as int),
        decreases n - i,
    {
        let mut data: [i16; BLOCK_VALUES] = [0i16;BLOCK_VALUES];
        let mut j: usize = 0;
        while j < BLOCK_VALUES
            invariant
                j <= 112,
                i < n,
                at + 224 * n <= buf.len(),
                forall|e: int|
                    0 <= e < j ==> #[trigger] data@[e] == i16_at(buf@, at + 224 * i + 2 * e),
            decreases 112 - j,
        {
            data[j] = read_i16(buf, at + 224 * i + 2 * j);
            j = j + 1;
        }
        out.push(VectorBlock { data });
        i = i + 1;
    }
    out
}

} // verus!
