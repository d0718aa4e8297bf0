//! Loading an index and searching it.

use fraud_api::binary32::Binary32;
use fraud_api::index::layout::{align_up, Bbox, IndexError, VectorBlock, BLOCK_SIZE, N_DIMS};
use fraud_api::index::quantize::quantize_i16;
use fraud_api::index::writer::serialize_index;
use fraud_api::index::{build_cluster_block_offsets, IvfIndex, MAX_NLIST};

fn single(x: f32) -> Binary32 {
    Binary32 { bits: x.to_bits() }
}

fn float(x: Binary32) -> f32 {
    f32::from_bits(x.bits)
}

fn assert_send_sync<T: Send + Sync>() {}

#[test]
fn ivf_index_is_send_sync() {
    assert_send_sync::<IvfIndex>();
}

/// The bytes of an index with one cluster of `n_per_cluster` vectors (padded to a multiple of
/// `BLOCK_SIZE`), labels alternating legit/fraud, and a box around the real vectors.
fn build_tiny_index(n_per_cluster: usize) -> Vec<u8> {
    let n_padded = align_up(n_per_cluster, BLOCK_SIZE);
    let n_blocks = n_padded / BLOCK_SIZE;
    let centroids = [[single(0.0); N_DIMS]; 1];
    let sizes = [n_padded as u32];
    let mins = [Bbox::default()];
    let mut maxes = [Bbox::default()];
    if n_per_cluster > 0 {
        maxes[0].data[0] = quantize_i16(single((n_per_cluster - 1) as f32 / 100.0));
    }
    let mut blocks = vec![VectorBlock::default(); n_blocks];
    for slot in 0..n_padded {
        blocks[slot / BLOCK_SIZE].data[slot % BLOCK_SIZE] =
            quantize_i16(single(slot as f32 / 100.0));
    }
    let labels: Vec<u8> = (0..n_padded).map(|i| (i % 2) as u8).collect();
    let mut bytes =
        serialize_index(&centroids, &sizes, &mins, &maxes, &blocks, &labels, n_padded as u64)
            .unwrap();
    bytes[12..16].copy_from_slice(&1u32.to_le_bytes());
    bytes
}

/// The same bytes at a multiple of 32 in memory.
fn aligned(bytes: &[u8]) -> &'static [u8] {
    let room: &'static mut [u8] = vec![0u8; bytes.len() + 32].leak();
    let at = (32 - room.as_ptr() as usize % 32) % 32;
    room[at..at + bytes.len()].copy_from_slice(bytes);
    &room[at..at + bytes.len()]
}

fn load(bytes: &[u8]) -> IvfIndex {
    let index = match IvfIndex::load(aligned(bytes), false) {
        Ok(index) => index,
        Err(e) => panic!("{}", e.message()),
    };
    assert!(index.is_searchable());
    index
}

#[test]
fn load_and_search_knn_work_on_tiny_index() {
    let index = load(&build_tiny_index(16)); // 16 vectors in 1 cluster
    let query = [single(0.0); N_DIMS];
    let top2 = index.search_knn(&query, 2);

    assert_eq!(top2.len(), 2);
    assert!(top2[0].0 <= top2[1].0);
}

#[test]
fn fraud_score_uses_top5_ratio() {
    let index = load(&build_tiny_index(8));
    let query = [single(0.0); N_DIMS];
    let score = float(index.fraud_score(&query));

    assert!(score >= 0.0 && score <= 1.0, "score {score} out of range [0,1]");
    assert!(score * 5.0 == (score * 5.0).round(), "score {score} not a multiple of 0.2");
    // The five nearest are the slots 0 to 4, with the labels 0, 1, 0, 1, 0.
    assert_eq!(score, 0.4);
}

#[test]
fn search_knn_returns_empty_for_k_zero() {
    let index = load(&build_tiny_index(8));
    assert!(index.search_knn(&[single(0.0); N_DIMS], 0).is_empty());
}

#[test]
fn distances_of_a_tiny_index_are_exact() {
    let index = load(&build_tiny_index(16));
    let query = [single(0.0); N_DIMS];
    let got: Vec<(f32, u8)> =
        index.search_knn(&query, 3).iter().map(|(d, l)| (float(d.0), *l)).collect();
    // Slot i holds 100 * i in its first dimension.
    assert_eq!(got, vec![(0.0, 0), (10_000.0, 1), (40_000.0, 0)]);
    let more: Vec<(f32, u8)> =
        index.search_knn(&query, 7).iter().map(|(d, l)| (float(d.0), *l)).collect();
    assert_eq!(more.len(), 7);
    assert_eq!(more[..3], got[..]);
    assert_eq!(more[6], (360_000.0, 0));
    // All sixteen, where more are asked for.
    assert_eq!(index.search_knn(&query, 100).len(), 16);
}

#[test]
fn header_value_is_kept_and_probes_change_nothing() {
    let index = load(&build_tiny_index(8));
    assert_eq!(index.nprobe(), 1);
    let index = index.with_nprobes(3, 24);
    assert_eq!(index.nprobe(), 1);
    assert_eq!(index.search_knn(&[single(0.0); N_DIMS], 1).len(), 1);
}

#[test]
fn cluster_ranges_follow_the_sizes() {
    assert_eq!(build_cluster_block_offsets(&[8, 0, 24, 16]), vec![0, 1, 1, 4, 6]);
    assert_eq!(build_cluster_block_offsets(&[]), vec![0]);
    // Sizes that are no multiples count their whole blocks.
    assert_eq!(build_cluster_block_offsets(&[7, 17]), vec![0, 0, 2]);
    let index = load(&build_tiny_index(16));
    assert_eq!(index.cluster_block_range(0), Some((0, 2)));
    assert_eq!(index.cluster_block_range(1), None);
}

#[test]
fn too_many_clusters_are_refused() {
    let n = MAX_NLIST + 1;
    let centroids = vec![[single(0.0); N_DIMS]; n];
    let sizes = vec![0u32; n];
    let boxes = vec![Bbox::default(); n];
    let bytes = serialize_index(&centroids, &sizes, &boxes, &boxes, &[], &[], 0).unwrap();
    match IvfIndex::load(aligned(&bytes), false) {
        Err(e) => assert_eq!(e, IndexError::TooManyLists { nlist: n, max: MAX_NLIST }),
        Ok(_) => panic!("loaded"),
    }
    match IvfIndex::load(&bytes[..31], false) {
        Err(e) => assert_eq!(e, IndexError::HeaderTooSmall { got: 31 }),
        Ok(_) => panic!("loaded"),
    }
}

#[test]
fn an_index_without_clusters_finds_nothing() {
    let bytes = serialize_index(&[], &[], &[], &[], &[], &[], 0).unwrap();
    let index = load(&bytes);
    let query = [single(0.3); N_DIMS];
    assert!(index.search_knn(&query, 5).is_empty());
    assert!(index.search_knn(&query, 9).is_empty());
    assert_eq!(index.fraud_score(&query).bits, 0);
}

#[test]
fn clusters_beyond_the_blocks_cannot_be_searched() {
    let mut bytes = build_tiny_index(8);
    // The size of the only cluster, behind header and centroid.
    bytes[88..92].copy_from_slice(&16u32.to_le_bytes());
    match IvfIndex::load(aligned(&bytes), false) {
        Ok(index) => assert!(!index.is_searchable()),
        Err(e) => panic!("{}", e.message()),
    }
}

/// An index of `nlist` clusters of two blocks each, boxes around their vectors.
fn clustered(nlist: usize, seed: u32) -> (Vec<[i16; N_DIMS]>, Vec<u8>, IvfIndex) {
    let mut state = seed;
    let mut next = |range: u32| {
        state = state.wrapping_mul(1_664_525).wrapping_add(1_013_904_223);
        ((state >> 8) % range) as i16
    };
    let mut vecs: Vec<[i16; N_DIMS]> = Vec::new();
    let mut mins = vec![Bbox::default(); nlist];
    let mut maxes = vec![Bbox::default(); nlist];
    for c in 0..nlist {
        let base: [i16; N_DIMS] = std::array::from_fn(|_| next(16_000) - 8_000);
        for _ in 0..16 {
            vecs.push(std::array::from_fn(|d| base[d] + next(2_000) - 1_000));
        }
        for d in 0..N_DIMS {
            let own = &vecs[16 * c..];
            mins[c].data[d] = own.iter().map(|v| v[d]).min().unwrap();
            maxes[c].data[d] = own.iter().map(|v| v[d]).max().unwrap();
        }
    }
    let blocks: Vec<VectorBlock> = vecs
        .chunks(BLOCK_SIZE)
        .map(|chunk| {
            let mut block = VectorBlock::default();
            for (slot, v) in chunk.iter().enumerate() {
                for d in 0..N_DIMS {
                    block.data[d * BLOCK_SIZE + slot] = v[d];
                }
            }
            block
        })
        .collect();
    let labels: Vec<u8> = (0..vecs.len()).map(|i| (i % 3 == 0) as u8).collect();
    let centroids = vec![[single(0.0); N_DIMS]; nlist];
    let sizes = vec![16u32; nlist];
    let bytes = serialize_index(
        &centroids,
        &sizes,
        &mins,
        &maxes,
        &blocks,
        &labels,
        vecs.len() as u64,
    )
    .unwrap();
    let index = load(&bytes);
    (vecs, labels, index)
}

#[test]
fn pruned_search_agrees_with_the_full_scan() {
    let (vecs, labels, index) = clustered(24, 41);
    for q in (0..vecs.len()).step_by(13) {
        let query: [Binary32; N_DIMS] = std::array::from_fn(|d| {
            single((vecs[q][d] as f32 + (d as f32) * 37.0) / 10_000.0)
        });
        let query_i16: [i16; N_DIMS] = std::array::from_fn(|d| quantize_i16(query[d]));
        let mut want: Vec<(f32, u8)> = vecs
            .iter()
            .zip(&labels)
            .map(|(v, &l)| {
                let mut s = 0.0f32;
                for d in 0..N_DIMS {
                    let diff = query_i16[d] as f32 - v[d] as f32;
                    s += diff * diff;
                }
                (s, l)
            })
            .collect();
        want.sort_by(|a, b| a.0.partial_cmp(&b.0).unwrap());
        let near: Vec<(f32, u8)> =
            index.search_knn(&query, 5).iter().map(|(d, l)| (float(d.0), *l)).collect();
        assert_eq!(near, want[..5].to_vec());
        let ten: Vec<f32> = index.search_knn(&query, 10).iter().map(|(d, _)| float(d.0)).collect();
        assert_eq!(ten, want[..10].iter().map(|e| e.0).collect::<Vec<f32>>());
        let frauds = want[..5].iter().filter(|e| e.1 == 1).count();
        assert_eq!(float(index.fraud_score(&query)), frauds as f32 / 5.0);
    }
}

#[test]
fn fewer_results_are_the_first_of_more() {
    let (vecs, _, index) = clustered(5, 97);
    for q in [3usize, 30, 77] {
        let query: [Binary32; N_DIMS] =
            std::array::from_fn(|d| single((vecs[q][d] as f32 + 11.0) / 10_000.0));
        let all: Vec<f32> =
            index.search_knn(&query, 200).iter().map(|(d, _)| float(d.0)).collect();
        assert_eq!(all.len(), vecs.len());
        assert!(all.windows(2).all(|w| w[0] <= w[1]));
        for k in [0usize, 1, 4, 5, 6, 17, 79, 80, 81] {
            let some: Vec<f32> =
                index.search_knn(&query, k).iter().map(|(d, _)| float(d.0)).collect();
            assert_eq!(some, all[..k.min(80)].to_vec());
        }
    }
}

#[test]
fn the_machine_changes_the_last_bits_alone() {
    let (vecs, _, index) = clustered(6, 5);
    let plain = load(&index_bytes(&index));
    let fused = match IvfIndex::load(aligned(&index_bytes(&index)), true) {
        Ok(index) => index,
        Err(e) => panic!("{}", e.message()),
    };
    assert!(!plain.fma && fused.fma);
    for q in [2usize, 50, 95] {
        let query: [Binary32; N_DIMS] =
            std::array::from_fn(|d| single((vecs[q][d] as f32 + 501.0) / 10_000.0));
        let query_i16: [i16; N_DIMS] = std::array::from_fn(|d| quantize_i16(query[d]));
        let mut want: Vec<f32> = vecs
            .iter()
            .map(|v| {
                let mut acc = [0.0f32; 4];
                for d in 0..N_DIMS {
                    let diff = v[d] as f32 - query_i16[d] as f32;
                    acc[d % 4] = diff.mul_add(diff, acc[d % 4]);
                }
                (acc[0] + acc[1]) + (acc[2] + acc[3])
            })
            .collect();
        want.sort_by(|a, b| a.partial_cmp(b).unwrap());
        let near: Vec<f32> =
            fused.search_knn(&query, 5).iter().map(|(d, _)| float(d.0)).collect();
        assert_eq!(near, want[..5].to_vec());
        let other: Vec<f32> =
            plain.search_knn(&query, 5).iter().map(|(d, _)| float(d.0)).collect();
        for (a, b) in near.iter().zip(&other) {
            assert!((a - b).abs() <= 8.0 * f32::EPSILON * a);
        }
        assert_eq!(fused.fraud_score(&query), plain.fraud_score(&query));
    }
}

/// The bytes that an index was loaded from.
fn index_bytes(index: &IvfIndex) -> Vec<u8> {
    let l = &index.layout;
    serialize_index(
        &l.centroids,
        &l.cluster_sizes,
        &l.bbox_mins,
        &l.bbox_maxes,
        &l.blocks,
        &l.labels,
        l.header.n_vectors,
    )
    .unwrap()
}

#[test]
fn an_index_is_loaded_at_a_multiple_of_32() {
    let bytes = build_tiny_index(8);
    assert!(IvfIndex::load_at(&bytes, 64, false).is_ok());
    match IvfIndex::load_at(&bytes, 72, false) {
        Err(e) => assert_eq!(e, IndexError::NotAligned),
        Ok(_) => panic!("loaded"),
    }
    match IvfIndex::load_at(&bytes[..31], 1, true) {
        Err(e) => assert_eq!(e, IndexError::HeaderTooSmall { got: 31 }),
        Ok(_) => panic!("loaded"),
    }
}
