//! Building an index from references.

use fraud_api::binary32::Binary32;
use fraud_api::build_index::{
    build_bboxes, build_blocks, build_layout, group_by_cluster, is_json_array, logs_progress,
    push_record, record_bounds, validate_index, Probe, ReferenceRecord,
};
use fraud_api::index::layout::{BLOCK_SIZE, N_DIMS};
use fraud_api::index::writer::serialize_index;
use fraud_api::index::IvfIndex;

fn single(x: f32) -> Binary32 {
    Binary32 { bits: x.to_bits() }
}

fn vector(v: [f32; N_DIMS]) -> [Binary32; N_DIMS] {
    v.map(single)
}

#[test]
fn build_blocks_pads_clusters_to_block_size() {
    // cluster 0: 3 vectors → padded to 8; cluster 1: 7 vectors → padded to 8
    let vectors: Vec<[Binary32; N_DIMS]> =
        (0..10).map(|i| vector([i as f32 / 100.0; N_DIMS])).collect();
    let labels: Vec<u8> = (0..10).map(|i| (i % 2) as u8).collect();
    let cluster_sizes = vec![3usize, 7usize];

    let (blocks, padded_sizes, padded_labels) = build_blocks(&vectors, &labels, &cluster_sizes);

    assert_eq!(padded_sizes, [8u32, 8u32]);
    assert_eq!(blocks.len(), 2); // 16 padded / 8 = 2 blocks
    assert_eq!(padded_labels.len(), 16);

    // First cluster: real labels at slots 0..3, zeros at 3..8.
    for i in 0..3 {
        assert_eq!(padded_labels[i], labels[i], "slot {i}");
    }
    for i in 3..8 {
        assert_eq!(padded_labels[i], 0, "pad slot {i}");
    }
}

#[test]
fn build_blocks_data_layout_is_soa() {
    // 1 cluster, 1 vector: dims [0.0, 1.0, ...], padded to BLOCK_SIZE
    let mut v = [0.0f32; N_DIMS];
    v[1] = 1.0;
    let vectors = vec![vector(v)];
    let labels = vec![0u8];
    let cluster_sizes = vec![1usize];

    let (blocks, _, _) = build_blocks(&vectors, &labels, &cluster_sizes);
    assert_eq!(blocks.len(), 1);

    // SoA: block.data[dim * BLOCK_SIZE + slot]
    // dim=0, slot=0 → quantize_i16(0.0) = 0
    assert_eq!(blocks[0].data[0 * BLOCK_SIZE + 0], 0);
    // dim=1, slot=0 → quantize_i16(1.0) = 10_000
    assert_eq!(blocks[0].data[1 * BLOCK_SIZE + 0], 10_000);
}

#[test]
fn second_cluster_starts_a_block() {
    let vectors: Vec<[Binary32; N_DIMS]> =
        (0..12).map(|i| vector([i as f32 / 100.0; N_DIMS])).collect();
    let labels = vec![1u8; 12];
    let (blocks, sizes, padded) = build_blocks(&vectors, &labels, &[9, 0, 3]);
    assert_eq!(sizes, [16u32, 0, 8]);
    assert_eq!(blocks.len(), 3);
    assert_eq!(blocks[1].data[0], 800); // the ninth vector
    assert_eq!(blocks[1].data[1], 0);
    assert_eq!(blocks[2].data[0], 900); // the first of the third cluster
    assert_eq!(padded.iter().map(|&l| l as u32).sum::<u32>(), 12);
}

#[test]
fn labels_other_than_fraud_are_legit() {
    let mut vectors = Vec::new();
    let mut labels = Vec::new();
    for label in ["fraud", "legit", "Fraud", "", "fraud "] {
        let rec = ReferenceRecord { vector: vector([0.5; N_DIMS]), label: label.to_string() };
        push_record(&mut vectors, &mut labels, rec);
    }
    assert_eq!(labels, vec![1, 0, 0, 0, 0]);
    assert_eq!(vectors.len(), 5);
    assert_eq!(vectors[4], vector([0.5; N_DIMS]));
}

#[test]
fn first_byte_tells_the_form() {
    assert_eq!(is_json_array(b""), Probe::Empty);
    assert_eq!(is_json_array(b" \t\r\n\x0c"), Probe::Blank);
    assert_eq!(is_json_array(b"  [1]"), Probe::Array);
    assert_eq!(is_json_array(b"{\"a\":[]}"), Probe::Lines);
    // A vertical tab is no white space here.
    assert_eq!(is_json_array(b"\x0b["), Probe::Lines);
}

#[test]
fn records_stand_on_lines_without_white_space() {
    assert_eq!(record_bounds(b"  {\"a\":1} \r\n"), Some((2, 9)));
    assert_eq!(record_bounds(b"\n"), None);
    assert_eq!(record_bounds(b""), None);
    assert_eq!(record_bounds("\u{a0}x\u{3000}\n".as_bytes()), Some((2, 3)));
    for line in ["a", " a b ", "\u{2003}a\u{85}", "\t \u{1680}", "é ", " \u{202f}é\u{2028}"] {
        let got = record_bounds(line.as_bytes()).map(|(s, e)| &line[s..e]);
        let want = line.trim();
        assert_eq!(got, if want.is_empty() { None } else { Some(want) }, "{line:?}");
    }
}

#[test]
fn progress_is_told_now_and_then() {
    assert!(logs_progress(500_000) && logs_progress(1_000_000));
    assert!(!logs_progress(1) && !logs_progress(499_999));
}

#[test]
fn vectors_are_grouped_by_cluster() {
    let vectors: Vec<[Binary32; N_DIMS]> =
        (0..6).map(|i| vector([i as f32 / 10.0; N_DIMS])).collect();
    let labels = vec![0u8, 1, 0, 1, 0, 1];
    let grouped = group_by_cluster(&[2, 0, 2, 1, 0, 2], &vectors, &labels, 4);
    assert_eq!(grouped.cluster_sizes, vec![2, 1, 3, 0]);
    let position = |v: &[Binary32; N_DIMS]| vectors.iter().position(|w| w == v).unwrap();
    let mut first: Vec<usize> = grouped.vectors[..2].iter().map(position).collect();
    first.sort();
    assert_eq!(first, vec![1, 4]);
    assert_eq!(position(&grouped.vectors[2]), 3);
    let mut last: Vec<usize> = grouped.vectors[3..].iter().map(position).collect();
    last.sort();
    assert_eq!(last, vec![0, 2, 5]);
    // Every label goes with its vector.
    for (v, l) in grouped.vectors.iter().zip(&grouped.labels) {
        assert_eq!(*l, labels[position(v)]);
    }
}

#[test]
fn boxes_hold_their_cluster() {
    let mut a = [0.2f32; N_DIMS];
    a[3] = -1.0;
    let vectors = vec![vector(a), vector([0.5; N_DIMS]), vector([0.1; N_DIMS])];
    let (mins, maxes) = build_bboxes(&vectors, &[2, 1, 0]);
    assert_eq!(mins[0].data[0], 2_000);
    assert_eq!(mins[0].data[3], -10_000);
    assert_eq!(maxes[0].data[3], 5_000);
    assert_eq!(mins[1].data[..N_DIMS], maxes[1].data[..N_DIMS]);
    assert_eq!(mins[1].data[0], 1_000);
    // The lanes beyond the dimensions stay zero.
    assert_eq!(mins[0].data[N_DIMS..], [0, 0]);
    assert_eq!(maxes[0].data[N_DIMS..], [0, 0]);
}

fn sample() -> (Vec<[Binary32; N_DIMS]>, Vec<u8>, Vec<[Binary32; N_DIMS]>, Vec<u32>) {
    let vectors: Vec<[Binary32; N_DIMS]> = (0..40)
        .map(|i| vector(std::array::from_fn(|d| ((i * 7 + d * 3) % 50) as f32 / 50.0)))
        .collect();
    let labels: Vec<u8> = (0..40).map(|i| (i % 4 == 0) as u8).collect();
    let centroids = vec![vector([0.2; N_DIMS]), vector([0.5; N_DIMS]), vector([0.8; N_DIMS])];
    let assignments: Vec<u32> = (0..40).map(|i| (i % 3) as u32).collect();
    (vectors, labels, centroids, assignments)
}

/// The same bytes at a multiple of 32 in memory.
fn aligned(bytes: &[u8]) -> &'static [u8] {
    let room: &'static mut [u8] = vec![0u8; bytes.len() + 32].leak();
    let at = (32 - room.as_ptr() as usize % 32) % 32;
    room[at..at + bytes.len()].copy_from_slice(bytes);
    &room[at..at + bytes.len()]
}

#[test]
fn a_built_index_finds_every_vector() {
    let (vectors, labels, centroids, assignments) = sample();
    let built = build_layout(&centroids, &assignments, &vectors, &labels);
    let l = &built.layout;
    let bytes = serialize_index(
        &l.centroids,
        &l.cluster_sizes,
        &l.bbox_mins,
        &l.bbox_maxes,
        &l.blocks,
        &l.labels,
        l.header.n_vectors,
    )
    .unwrap();
    let index = match IvfIndex::load(aligned(&bytes), false) {
        Ok(index) => index,
        Err(e) => panic!("{}", e.message()),
    };
    assert!(index.is_searchable());
    for v in &vectors {
        let near = index.search_knn(v, 1);
        assert_eq!(f32::from_bits(near[0].0 .0.bits), 0.0);
    }

    let checked = validate_index(&index, &built.grouped.vectors).unwrap();
    assert_eq!(checked.sanity, 10);
    assert_eq!(checked.samples, 40);
    assert_eq!(checked.valid, 40);
    let none = validate_index(&index, &[]).unwrap();
    assert_eq!((none.sanity, none.samples, none.valid), (0, 0, 0));
}
