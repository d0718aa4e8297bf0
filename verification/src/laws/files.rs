//! What the bytes of an index file mean.

use vstd::prelude::*;

#[allow(unused_imports)]
use crate::index::layout::{
    blocks_at, defect, defect_at, file_len, i16_at, labels_at, maxes_at, mins_at, round32,
    sizes_at, u32_at, u64_at, IndexError, IndexLayout,
};
#[allow(unused_imports)]
use crate::index::writer::{new_header, SerializeError};
#[allow(unused_imports)]
use crate::text::{decimal, hex};
#[allow(unused_imports)]
use crate::index::{block_offset, load_defect, load_defect_at, sizes_of};

verus! {

/// Numbers are read from the lowest byte up; those with a sign are in two's complement.
pub proof fn law_bytes_are_read_from_the_lowest(b: Seq<u8>, at: int)
    requires
        0 <= at,
        at + 8 <= b.len(),
    ensures
        u32_at(b, at) == b[at] + 0x100 * b[at + 1] + 0x1_0000 * b[at + 2] + 0x100_0000 * b[at + 3],
        u64_at(b, at) == u32_at(b, at) + 0x1_0000_0000 * u32_at(b, at + 4),
        b[at + 1] < 0x80 ==> i16_at(b, at) == b[at] + 0x100 * b[at + 1],
        b[at + 1] >= 0x80 ==> i16_at(b, at) == b[at] + 0x100 * b[at + 1] - 0x1_0000,
{
}

/// The sections follow each other: a header of 32 bytes, a centroid of 56 and a size of 4 for
/// each cluster, then at the next multiple of 32 two boxes of 32 for each cluster, a block of 224
/// for eight vectors and a label for each vector.
pub proof fn law_sections_follow_each_other(nlist: nat, n_vectors: nat)
    requires
        n_vectors % 8 == 0,
    ensures
        sizes_at(nlist) == 32 + 56 * nlist,
        mins_at(nlist) % 32 == 0,
        sizes_at(nlist) + 4 * nlist <= mins_at(nlist) < sizes_at(nlist) + 4 * nlist + 32,
        maxes_at(nlist) == mins_at(nlist) + 32 * nlist,
        blocks_at(nlist) == maxes_at(nlist) + 32 * nlist,
        labels_at(nlist, n_vectors) == blocks_at(nlist) + 28 * n_vectors,
        file_len(nlist, n_vectors) == labels_at(nlist, n_vectors) + n_vectors,
{
    assert(maxes_at(nlist) % 32 == 0);
}

/// A buffer is refused for the first of these: it is too short for a header, it does not start
/// with the mark of an index, it is of another version than the third, its vectors do not fill
/// whole blocks, or it is too short for what its header says. Else it is accepted.
pub proof fn law_buffers_are_refused_for_a_reason(b: Seq<u8>)
    requires
        b.len() <= usize::MAX,
    ensures
        ({
            let whole = b.len() >= 32;
            let marked = u32_at(b, 0) == 0x49564632;
            let third = u32_at(b, 4) == 3;
            let full = u64_at(b, 16) % 8 == 0;
            let need = file_len(u32_at(b, 8) as nat, u64_at(b, 16) as nat);
            &&& !whole ==> defect(b) == Some(IndexError::HeaderTooSmall { got: b.len() as usize })
            &&& whole && !marked ==> defect(b) == Some(
                IndexError::InvalidMagic { found: u32_at(b, 0) },
            )
            &&& whole && marked && !third ==> defect(b) == Some(
                IndexError::UnsupportedVersion { found: u32_at(b, 4) },
            )
            &&& whole && marked && third && !full ==> defect(b) == Some(
                IndexError::NotWholeBlocks { n_vectors: u64_at(b, 16) },
            )
            &&& whole && marked && third && full && b.len() < need ==> (defect(
                b,
            ) matches Some(e) && e matches IndexError::BufferTooSmall { need: n, got } && n == need
                && got == b.len())
            &&& defect(b) is None <==> whole && marked && third && full && b.len() >= need
        }),
{
    let need = file_len(u32_at(b, 8) as nat, u64_at(b, 16) as nat);
    assert(need <= 0x100_0000_0000_0000_0000);
}

/// A buffer that holds an index is refused where it does not start at a multiple of 32, and no
/// other is on that account.
pub proof fn law_buffers_are_aligned(b: Seq<u8>, address: usize)
    ensures
        defect_at(b, address) == Some(IndexError::NotAligned) <==> defect(b) is None && address
            % 32 != 0,
        defect_at(b, address) != Some(IndexError::NotAligned) ==> defect_at(b, address) == defect(
            b,
        ),
{
}

/// A buffer that holds an index is loaded where it has no more than 16384 clusters and their
/// blocks can be counted.
pub proof fn law_index_is_loaded(b: Seq<u8>, address: usize)
    requires
        defect(b) is None,
    ensures
        ({
            let nlist = u32_at(b, 8);
            let blocks = block_offset(sizes_of(b), nlist as nat);
            &&& load_defect(b) is None <==> nlist <= 16_384 && blocks <= usize::MAX
            &&& nlist > 16_384 ==> (load_defect(b) matches Some(e)
                && e matches IndexError::TooManyLists { nlist: n, max } && n == nlist && max
                == 16_384)
            &&& load_defect_at(b, address) == if address % 32 != 0 {
                Some(IndexError::NotAligned)
            } else {
                load_defect(b)
            }
        }),
{
}

/// The sizes are those that stand behind the centroids.
pub proof fn law_sizes_stand_behind_centroids(b: Seq<u8>, i: int)
    ensures
        sizes_of(b).len() == u32_at(b, 8),
        0 <= i < u32_at(b, 8) ==> sizes_of(b)[i] == u32_at(b, 32 + 56 * u32_at(b, 8) + 4 * i),
{
}

/// What was refused before is refused by the loading too, and for the same reason.
pub proof fn law_loading_refuses_what_reading_refuses(b: Seq<u8>, address: usize)
    requires
        defect(b) is Some,
    ensures
        load_defect(b) == defect(b),
        load_defect_at(b, address) == defect(b),
        defect_at(b, address) == defect(b),
{
}

/// The header that a buffer holds: its numbers stand in the first 24 bytes, and the next eight
/// are kept as they are.
pub proof fn law_header_stands_first(l: IndexLayout, b: Seq<u8>)
    requires
        l.matches(b),
    ensures
        l.header.magic == u32_at(b, 0),
        l.header.version == u32_at(b, 4),
        l.header.nlist == u32_at(b, 8),
        l.header.nprobe == u32_at(b, 12),
        l.header.n_vectors == u64_at(b, 16),
        l.header._padding@ == b.subrange(24, 32),
        l.centroids@.len() == l.header.nlist,
        l.cluster_sizes@.len() == l.header.nlist,
        l.bbox_mins@.len() == l.header.nlist,
        l.bbox_maxes@.len() == l.header.nlist,
        l.header.n_vectors % 8 == 0,
        l.blocks@.len() == l.header.n_vectors / 8,
        l.labels@.len() == l.header.n_vectors,
{
}

/// Sections that a buffer holds: each number of each section stands at its place.
pub proof fn law_sections_stand_at_their_places(l: IndexLayout, b: Seq<u8>, i: int, d: int)
    requires
        l.matches(b),
        0 <= i,
        0 <= d,
    ensures
        ({
            let n = l.header.nlist as nat;
            let v = l.header.n_vectors as nat;
            &&& i < n && d < 14 ==> l.centroids@[i]@[d].bits == u32_at(b, 32 + 56 * i + 4 * d)
            &&& i < n ==> l.cluster_sizes@[i] == u32_at(b, sizes_at(n) + 4 * i)
            &&& i < n && d < 16 ==> l.bbox_mins@[i].data@[d] == i16_at(
                b,
                mins_at(n) + 32 * i + 2 * d,
            )
            &&& i < n && d < 16 ==> l.bbox_maxes@[i].data@[d] == i16_at(
                b,
                maxes_at(n) + 32 * i + 2 * d,
            )
            &&& i < v / 8 && d < 112 ==> l.blocks@[i].data@[d] == i16_at(
                b,
                blocks_at(n) + 224 * i + 2 * d,
            )
            &&& i < v && file_len(n, v) <= b.len() ==> l.labels@[i] == b[labels_at(n, v) + i]
        }),
{
}

/// The header of a file that is written: the mark of an index, the third version, the numbers of
/// clusters and vectors, the default of eight probes, and zero bytes.
pub proof fn law_new_header(nlist: u32, n_vectors: u64, i: int)
    requires
        0 <= i < 8,
    ensures
        ({
            let h = new_header(nlist, n_vectors);
            &&& h.magic == 0x49564632
            &&& h.version == 3
            &&& h.nlist == nlist
            &&& h.nprobe == 8
            &&& h.n_vectors == n_vectors
            &&& h._padding@[i] == 0
        }),
{
}

/// What an error says: the numbers that it found, and those that it expected.
pub proof fn law_error_texts(n: usize, m: usize, found: u32, vectors: u64, need: u128)
    ensures
        (IndexError::HeaderTooSmall { got: n }).text() == "buffer too small for header ("@ + decimal(
            n as nat,
        ) + " bytes)"@,
        (IndexError::InvalidMagic { found }).text() == "invalid magic 0x"@ + hex(found as nat, 8)
            + ", expected 0x"@ + hex(0x49564632, 8),
        (IndexError::UnsupportedVersion { found }).text() == "unsupported index version "@
            + decimal(found as nat) + ", expected "@ + decimal(3) + " — rebuild index.bin"@,
        (IndexError::NotWholeBlocks { n_vectors: vectors }).text() == "n_vectors "@ + decimal(
            vectors as nat,
        ) + " is not a multiple of BLOCK_SIZE "@ + decimal(8),
        (IndexError::BufferTooSmall { need, got: n }).text() == "buffer too small: need "@
            + decimal(need as nat) + " bytes, got "@ + decimal(n as nat),
        (IndexError::TooManyLists { nlist: n, max: m }).text() == "nlist "@ + decimal(n as nat)
            + " exceeds MAX_NLIST "@ + decimal(m as nat),
        (SerializeError::LengthMismatch { centroids: n, cluster_sizes: m }).text()
            == "centroids/cluster_sizes: "@ + decimal(n as nat) + " vs "@ + decimal(m as nat),
{
}

} // verus!
