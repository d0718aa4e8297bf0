//! The file format of an index.

use std::mem::size_of;

use fraud_api::binary32::Binary32;
use fraud_api::index::layout::{
    align_up, Bbox, IndexError, IndexHeader, IndexLayout, VectorBlock, BLOCK_SIZE, MAGIC, N_DIMS,
    VERSION,
};
use fraud_api::index::writer::{serialize_index, SerializeError};

/// The same bytes at a multiple of 32 in memory.
fn aligned(bytes: &[u8]) -> &'static [u8] {
    let room: &'static mut [u8] = vec![0u8; bytes.len() + 32].leak();
    let at = (32 - room.as_ptr() as usize % 32) % 32;
    room[at..at + bytes.len()].copy_from_slice(bytes);
    &room[at..at + bytes.len()]
}

/// The bytes of an index of `nlist` clusters with `n_per_cluster` vectors each, labels
/// alternating, everything else zero.
fn build_test_index_v3(nlist: u32, n_per_cluster: u32) -> Vec<u8> {
    assert_eq!(n_per_cluster % BLOCK_SIZE as u32, 0, "n_per_cluster must be multiple of BLOCK_SIZE");
    let n_padded = nlist as usize * n_per_cluster as usize;
    let n_blocks = n_padded / BLOCK_SIZE;

    let hdr_size = 32;
    let centroids_sz = nlist as usize * N_DIMS * 4;
    let csizes_sz = nlist as usize * 4;
    let csizes_end = hdr_size + centroids_sz + csizes_sz;
    let bbox_min_start = align_up(csizes_end, 32);
    let bbox_sz = nlist as usize * 32;
    let bbox_max_end = bbox_min_start + 2 * bbox_sz;
    let blocks_start = align_up(bbox_max_end, 32);
    let blocks_sz = n_blocks * 224;
    let labels_start = blocks_start + blocks_sz;
    let total = labels_start + n_padded;

    let mut buf = vec![0u8; total];
    buf[0..4].copy_from_slice(&MAGIC.to_le_bytes());
    buf[4..8].copy_from_slice(&VERSION.to_le_bytes());
    buf[8..12].copy_from_slice(&nlist.to_le_bytes());
    buf[12..16].copy_from_slice(&8u32.to_le_bytes());
    buf[16..24].copy_from_slice(&(n_padded as u64).to_le_bytes());
    for i in 0..nlist as usize {
        let at = hdr_size + centroids_sz + 4 * i;
        buf[at..at + 4].copy_from_slice(&n_per_cluster.to_le_bytes());
    }
    for (i, label) in buf[labels_start..labels_start + n_padded].iter_mut().enumerate() {
        *label = (i % 2) as u8;
    }
    buf
}

#[test]
fn vector_block_is_correct_size_and_alignment() {
    // 14 dims × 8 slots × 2 bytes = 224 bytes = 7 × 32
    assert_eq!(size_of::<VectorBlock>(), 224);
    assert_eq!(size_of::<VectorBlock>() % 32, 0);
}

#[test]
fn bbox_is_32_bytes_aligned() {
    assert_eq!(size_of::<Bbox>(), 32);
    assert_eq!(size_of::<Bbox>() % 32, 0);
}

#[test]
fn index_header_is_32_bytes() {
    assert_eq!(size_of::<IndexHeader>(), 32);
    assert_eq!(size_of::<IndexHeader>() % 32, 0);
}

#[test]
fn round_trip_index_layout_v3() {
    let raw = build_test_index_v3(4, 8); // 4 clusters × 8 vectors
    let layout = IndexLayout::from_bytes(aligned(&raw)).unwrap();

    assert_eq!(layout.header.magic, MAGIC);
    assert_eq!(layout.header.version, VERSION);
    assert_eq!(layout.header.nlist, 4);
    assert_eq!(layout.header.n_vectors, 32);
    assert_eq!(layout.centroids.len(), 4);
    assert_eq!(layout.cluster_sizes.len(), 4);
    assert_eq!(layout.bbox_mins.len(), 4);
    assert_eq!(layout.bbox_maxes.len(), 4);
    assert_eq!(layout.blocks.len(), 32 / BLOCK_SIZE);
    assert_eq!(layout.labels.len(), 32);
}

#[test]
fn from_bytes_rejects_bad_magic() {
    let mut raw = build_test_index_v3(1, 8);
    raw[0] = 0xFF;
    raw[1] = 0xFF;
    let err = IndexLayout::from_bytes(aligned(&raw)).unwrap_err();
    assert!(err.message().contains("invalid magic"), "{}", err.message());
}

#[test]
fn from_bytes_rejects_wrong_version() {
    let mut raw = build_test_index_v3(1, 8);
    raw[4..8].copy_from_slice(&99u32.to_le_bytes());
    let err = IndexLayout::from_bytes(aligned(&raw)).unwrap_err();
    assert!(err.message().contains("unsupported index version"), "{}", err.message());
}

#[test]
fn from_bytes_rejects_truncated_buffer() {
    let result = IndexLayout::from_bytes(&[0u8; 10]);
    assert!(result.is_err());
}

#[test]
fn align_up_is_correct() {
    assert_eq!(align_up(0, 32), 0);
    assert_eq!(align_up(1, 32), 32);
    assert_eq!(align_up(32, 32), 32);
    assert_eq!(align_up(33, 32), 64);
    assert_eq!(align_up(224, 32), 224);
}

#[test]
fn align_up_to_a_number_that_is_no_power_masks_bits() {
    // 5 + 9 = 14 = 0b1110 without the bits of 9 = 0b1001.
    assert_eq!(align_up(5, 10), 0b0110);
}

#[test]
fn each_defect_has_its_error() {
    assert_eq!(
        IndexLayout::from_bytes(&[0u8; 10]).unwrap_err(),
        IndexError::HeaderTooSmall { got: 10 }
    );

    let mut raw = build_test_index_v3(1, 8);
    raw[0..4].copy_from_slice(&0xDEAD_BEEFu32.to_le_bytes());
    assert_eq!(
        IndexLayout::from_bytes(aligned(&raw)).unwrap_err(),
        IndexError::InvalidMagic { found: 0xDEAD_BEEF }
    );

    let mut raw = build_test_index_v3(1, 8);
    raw[4..8].copy_from_slice(&2u32.to_le_bytes());
    assert_eq!(
        IndexLayout::from_bytes(aligned(&raw)).unwrap_err(),
        IndexError::UnsupportedVersion { found: 2 }
    );

    let mut raw = build_test_index_v3(1, 8);
    raw[16..24].copy_from_slice(&9u64.to_le_bytes());
    assert_eq!(
        IndexLayout::from_bytes(aligned(&raw)).unwrap_err(),
        IndexError::NotWholeBlocks { n_vectors: 9 }
    );

    let raw = build_test_index_v3(1, 8);
    let n = raw.len();
    assert_eq!(
        IndexLayout::from_bytes(aligned(&raw[..n - 1])).unwrap_err(),
        IndexError::BufferTooSmall { need: n as u128, got: n - 1 }
    );
}

#[test]
fn a_buffer_starts_at_a_multiple_of_32() {
    let raw = build_test_index_v3(1, 8);
    // The same buffer, eight bytes behind such a multiple.
    let mut shifted = vec![0u8; 8];
    shifted.extend_from_slice(&raw);
    let err = IndexLayout::from_bytes(&aligned(&shifted)[8..]).unwrap_err();
    assert_eq!(err, IndexError::NotAligned);
    assert_eq!(
        err.message(),
        "bbox_mins cast error: TargetAlignmentGreaterAndInputNotAligned"
    );
    assert!(IndexLayout::from_bytes_at(&raw, 4096).is_ok());
    assert_eq!(IndexLayout::from_bytes_at(&raw, 4104).unwrap_err(), IndexError::NotAligned);
    // Other defects come first.
    let mut bad = raw.clone();
    bad[0..4].copy_from_slice(&7u32.to_le_bytes());
    assert_eq!(
        IndexLayout::from_bytes_at(&bad, 4104).unwrap_err(),
        IndexError::InvalidMagic { found: 7 }
    );
}

#[test]
fn a_section_that_lies_far_out_is_refused() {
    let mut raw = build_test_index_v3(1, 8);
    raw[8..12].copy_from_slice(&u32::MAX.to_le_bytes());
    raw[16..24].copy_from_slice(&(u64::MAX - 7).to_le_bytes());
    assert!(matches!(
        IndexLayout::from_bytes(aligned(&raw)).unwrap_err(),
        IndexError::BufferTooSmall { .. }
    ));
}

#[test]
fn error_messages_are_exact() {
    assert_eq!(
        IndexError::HeaderTooSmall { got: 10 }.message(),
        "buffer too small for header (10 bytes)"
    );
    assert_eq!(
        IndexError::InvalidMagic { found: 0xAB }.message(),
        "invalid magic 0x000000ab, expected 0x49564632"
    );
    assert_eq!(
        IndexError::UnsupportedVersion { found: 99 }.message(),
        "unsupported index version 99, expected 3 — rebuild index.bin"
    );
    assert_eq!(
        IndexError::NotWholeBlocks { n_vectors: 12 }.message(),
        "n_vectors 12 is not a multiple of BLOCK_SIZE 8"
    );
    assert_eq!(
        IndexError::BufferTooSmall { need: 400, got: 399 }.message(),
        "buffer too small: need 400 bytes, got 399"
    );
    assert_eq!(
        IndexError::TooManyBlocks { blocks: 7 }.message(),
        "clusters hold 7 blocks"
    );
    assert_eq!(
        IndexError::TooManyLists { nlist: 20_000, max: 16_384 }.message(),
        "nlist 20000 exceeds MAX_NLIST 16384"
    );
}

#[test]
fn values_are_read_where_they_stand() {
    let mut raw = build_test_index_v3(2, 8);
    // Centroid 1, dimension 3.
    let at = 32 + 4 * (N_DIMS + 3);
    raw[at..at + 4].copy_from_slice(&0.25f32.to_le_bytes());
    // The boxes start behind header, centroids and sizes, at a multiple of 32.
    let mins = align_up(32 + 2 * 56 + 8, 32);
    raw[mins + 32 + 2..mins + 32 + 4].copy_from_slice(&(-7i16).to_le_bytes());
    let maxes = mins + 64;
    raw[maxes..maxes + 2].copy_from_slice(&123i16.to_le_bytes());
    let blocks = align_up(maxes + 64, 32);
    // Block 1, dimension 2, slot 5.
    let at = blocks + 224 + 2 * (2 * 8 + 5);
    raw[at..at + 2].copy_from_slice(&(-10_000i16).to_le_bytes());

    let layout = IndexLayout::from_bytes(aligned(&raw)).unwrap();
    assert_eq!(layout.centroids[1][3].bits, 0.25f32.to_bits());
    assert_eq!(layout.bbox_mins[1].data[1], -7);
    assert_eq!(layout.bbox_maxes[0].data[0], 123);
    assert_eq!(layout.blocks[1].data[2 * BLOCK_SIZE + 5], -10_000);
    assert_eq!(layout.cluster_sizes, vec![8, 8]);
    assert_eq!(layout.labels[..4], [0, 1, 0, 1]);
    assert_eq!(layout.header.nprobe, 8);
}

fn sample_parts() -> (Vec<[Binary32; N_DIMS]>, Vec<u32>, Vec<Bbox>, Vec<Bbox>, Vec<VectorBlock>, Vec<u8>) {
    let centroids: Vec<[Binary32; N_DIMS]> = (0..3)
        .map(|c| std::array::from_fn(|d| Binary32 { bits: ((c * 14 + d) as f32 / 8.0).to_bits() }))
        .collect();
    let sizes = vec![8u32, 0, 16];
    let mins: Vec<Bbox> = (0..3).map(|c| Bbox { data: [c as i16 - 5; 16] }).collect();
    let maxes: Vec<Bbox> = (0..3).map(|c| Bbox { data: [c as i16 + 5; 16] }).collect();
    let blocks: Vec<VectorBlock> = (0..3)
        .map(|b| VectorBlock { data: std::array::from_fn(|i| (b * 1000) as i16 - i as i16) })
        .collect();
    let labels: Vec<u8> = (0..24).map(|i| (i % 3 == 0) as u8).collect();
    (centroids, sizes, mins, maxes, blocks, labels)
}

#[test]
fn what_is_written_is_read_back() {
    let (centroids, sizes, mins, maxes, blocks, labels) = sample_parts();
    let bytes = serialize_index(&centroids, &sizes, &mins, &maxes, &blocks, &labels, 24).unwrap();
    let layout = IndexLayout::from_bytes(aligned(&bytes)).unwrap();
    assert_eq!(layout.header.nlist, 3);
    assert_eq!(layout.header.n_vectors, 24);
    assert_eq!(layout.header.nprobe, 8);
    assert_eq!(layout.centroids, centroids);
    assert_eq!(layout.cluster_sizes, sizes);
    for c in 0..3 {
        assert_eq!(layout.bbox_mins[c].data, mins[c].data);
        assert_eq!(layout.bbox_maxes[c].data, maxes[c].data);
        assert_eq!(layout.blocks[c].data, blocks[c].data);
    }
    assert_eq!(layout.labels, labels);
}

#[test]
fn the_sections_lie_in_memory_order() {
    let (centroids, sizes, mins, maxes, blocks, labels) = sample_parts();
    let bytes = serialize_index(&centroids, &sizes, &mins, &maxes, &blocks, &labels, 24).unwrap();
    // The same sections cast from memory.
    let mut want: Vec<u8> = Vec::new();
    want.extend_from_slice(bytemuck::cast_slice::<u32, u8>(&[MAGIC, VERSION, 3, 8]));
    want.extend_from_slice(bytemuck::cast_slice::<u64, u8>(&[24, 0]));
    let floats: Vec<f32> =
        centroids.iter().flatten().map(|x| f32::from_bits(x.bits)).collect();
    want.extend_from_slice(bytemuck::cast_slice::<f32, u8>(&floats));
    want.extend_from_slice(bytemuck::cast_slice::<u32, u8>(&sizes));
    want.resize(align_up(want.len(), 32), 0);
    for b in mins.iter().chain(&maxes) {
        want.extend_from_slice(bytemuck::cast_slice::<i16, u8>(&b.data));
    }
    want.resize(align_up(want.len(), 32), 0);
    for b in &blocks {
        want.extend_from_slice(bytemuck::cast_slice::<i16, u8>(&b.data));
    }
    want.extend_from_slice(&labels);
    assert_eq!(bytes, want);
}

#[test]
fn lengths_that_differ_are_not_written() {
    let (centroids, _, mins, maxes, blocks, labels) = sample_parts();
    let err =
        serialize_index(&centroids, &[8, 16], &mins, &maxes, &blocks, &labels, 24).unwrap_err();
    assert!(matches!(err, SerializeError::LengthMismatch { centroids: 3, cluster_sizes: 2 }));
    assert_eq!(err.message(), "centroids/cluster_sizes: 3 vs 2");
}

#[test]
fn defaults_are_zero() {
    assert_eq!(VectorBlock::default().data, [0i16; 112]);
    assert_eq!(Bbox::default().data, [0i16; 16]);
}
