//! Nearest clusters, the five nearest and the heap of the nearest.

use fraud_api::binary32::Binary32;
use fraud_api::index::clusters::{
    find_nearest_clusters, find_nearest_clusters_inplace, l2sq_f32, max_pos, sort_by_dist,
};
use fraud_api::index::kmeans::kmeans;
use fraud_api::index::layout::{VectorBlock, BLOCK_SIZE, N_DIMS};
use fraud_api::index::quantize::quantize_query;
use fraud_api::index::search::{
    update_top5_blocks, update_top_k_blocks, DistF32, MaxHeap, Top5,
};
use fraud_api::index::simd::scan_block;
use rand::rngs::SmallRng;
use rand::{Rng, SeedableRng};

fn single(x: f32) -> Binary32 {
    Binary32 { bits: x.to_bits() }
}

fn float(x: Binary32) -> f32 {
    f32::from_bits(x.bits)
}

fn vector(v: [f32; N_DIMS]) -> [Binary32; N_DIMS] {
    v.map(single)
}

fn make_block(vecs: &[[i16; N_DIMS]]) -> VectorBlock {
    let mut block = VectorBlock::default();
    for (slot, vec) in vecs.iter().enumerate().take(BLOCK_SIZE) {
        for d in 0..N_DIMS {
            block.data[d * BLOCK_SIZE + slot] = vec[d];
        }
    }
    block
}

#[test]
fn find_nearest_clusters_returns_correct_count() {
    let centroids: Vec<[Binary32; N_DIMS]> =
        (0..10).map(|i| vector([i as f32 / 10.0; N_DIMS])).collect();
    let query = vector([0.0f32; N_DIMS]);
    let result = find_nearest_clusters(&query, &centroids, 3, true);
    assert_eq!(result.len(), 3);
    assert!(result.contains(&0), "cluster at 0.0 should be among top-3");
}

#[test]
fn find_nearest_clusters_nprobe_gt_nlist_clamps() {
    let centroids: Vec<[Binary32; N_DIMS]> = (0..4).map(|_| vector([0.5f32; N_DIMS])).collect();
    let result = find_nearest_clusters(&vector([0.5; N_DIMS]), &centroids, 100, true);
    assert_eq!(result.len(), 4);
}

#[test]
fn update_top_k_blocks_finds_nearest() {
    // Two vectors in one block: [0; 14] and [100; 14] in i16 units.
    // Query is [0; 14] → slot 0 should be nearer.
    let vecs = {
        let mut v = vec![[0i16; N_DIMS]; BLOCK_SIZE];
        v[1] = [100i16; N_DIMS];
        v
    };
    let block = make_block(&vecs);
    let labels: Vec<u8> = (0..BLOCK_SIZE as u8).collect();

    let query = [0i16; N_DIMS];
    let mut heap = MaxHeap::new();

    update_top_k_blocks(&query, &[block], &labels, 1, &mut heap, true);

    assert_eq!(heap.len(), 1);
    let (dist, label) = heap.pop().unwrap();
    assert_eq!(float(dist.0), 0.0, "nearest vector has dist 0");
    assert_eq!(label, 0, "nearest vector is slot 0 → label 0");
}

#[test]
fn dist_f32_ordering_is_correct() {
    let a = DistF32(single(1.0));
    let b = DistF32(single(2.0));
    assert!(a < b);
    assert!(b > a);
    assert_eq!(a, DistF32(single(1.0)));
}

#[test]
fn distances_that_are_no_numbers_are_equal_in_order_only() {
    let nan = DistF32(single(f32::NAN));
    let one = DistF32(single(1.0));
    assert!(nan != nan);
    assert!(!(nan < one) && !(one < nan));
    assert_eq!(nan.cmp(&one), std::cmp::Ordering::Equal);
    assert_eq!(one.cmp(&DistF32(single(2.0))), std::cmp::Ordering::Less);
    assert_eq!(DistF32(single(0.0)), DistF32(single(-0.0)));
}

#[test]
fn nearest_clusters_come_in_order() {
    let at = [0.9f32, 0.1, 0.5, 0.2, 0.8, 0.3];
    let centroids: Vec<[Binary32; N_DIMS]> = at.iter().map(|&x| vector([x; N_DIMS])).collect();
    assert_eq!(find_nearest_clusters(&vector([0.0; N_DIMS]), &centroids, 4, false), vec![1, 3, 5, 2]);
    assert_eq!(find_nearest_clusters(&vector([1.0; N_DIMS]), &centroids, 2, false), vec![0, 4]);
    assert!(find_nearest_clusters(&vector([1.0; N_DIMS]), &centroids, 0, false).is_empty());

    let mut indices = [77usize; 3];
    let mut dists = [single(-5.0); 3];
    let n = find_nearest_clusters_inplace(
        &vector([0.0; N_DIMS]),
        &centroids,
        2,
        &mut indices,
        &mut dists,
        false,
    );
    assert_eq!(n, 2);
    assert_eq!(indices, [1, 3, 77]);
    assert_eq!(dists[0], l2sq_f32(&vector([0.0; N_DIMS]), &centroids[1], false));
    assert_eq!(float(dists[2]), -5.0);
}

#[test]
fn squared_distance_matches_the_machine() {
    let a: [f32; N_DIMS] = std::array::from_fn(|i| (i as f32) * 0.37 - 1.0);
    let b: [f32; N_DIMS] = std::array::from_fn(|i| 2.0 - (i as f32) * 0.11);
    let mut want = 0.0f32;
    for i in 0..N_DIMS {
        let d = a[i] - b[i];
        want += d * d;
    }
    assert_eq!(float(l2sq_f32(&vector(a), &vector(b), false)), want);

    // Twelve dimensions in four lanes with one rounding for the last of each, then two more.
    let d: [f32; N_DIMS] = std::array::from_fn(|i| a[i] - b[i]);
    let lane = |k: usize| d[k + 8].mul_add(d[k + 8], d[k] * d[k]) + d[k + 4] * d[k + 4];
    let want = ((lane(0) + lane(1)) + (lane(2) + lane(3))) + (d[12] * d[12] + d[13] * d[13]);
    assert_eq!(float(l2sq_f32(&vector(a), &vector(b), true)), want);
}

#[test]
fn largest_position_and_insertion_sort() {
    let values = [1.0f32, 7.0, 3.0, 7.0].map(single);
    assert_eq!(max_pos(&values), 1);
    let mut indices = [10usize, 11, 12, 13, 14];
    let mut dists = [3.0f32, 1.0, 2.0, 1.0, 0.0].map(single);
    sort_by_dist(&mut indices, &mut dists, 4);
    // The last entry is beyond the length, and equal distances keep their order.
    assert_eq!(indices, [11, 13, 12, 10, 14]);
    assert_eq!(dists.map(float), [1.0, 1.0, 2.0, 3.0, 0.0]);
}

#[test]
fn five_nearest_stay_in_order() {
    let mut top = Top5::new();
    assert_eq!(float(top.worst()), f32::MAX);
    for (d, l) in [(5.0f32, 0u8), (3.0, 1), (4.0, 0), (3.0, 0), (9.0, 1)] {
        top.try_insert(single(d), l);
    }
    assert_eq!(float(top.worst()), 9.0);
    assert_eq!(top.count_fraud(), 2);
    top.try_insert(single(9.0), 1); // not nearer than the farthest
    top.try_insert(single(10.0), 1);
    assert_eq!(top.count_fraud(), 2);
    top.try_insert(single(1.0), 1);
    let got: Vec<(f32, u8)> = top.iter().iter().map(|&(d, l)| (float(d), l)).collect();
    assert_eq!(got, vec![(1.0, 1), (3.0, 1), (3.0, 0), (4.0, 0), (5.0, 0)]);
    top.clear();
    assert!(top.iter().is_empty());
    assert_eq!(float(top.worst()), f32::MAX);
}

#[test]
fn heap_gives_the_farthest_first() {
    let mut heap = MaxHeap::new();
    assert!(heap.peek().is_none() && heap.pop().is_none());
    for (d, l) in [(2.0f32, 1u8), (7.0, 0), (2.0, 0), (5.0, 1)] {
        heap.push((DistF32(single(d)), l));
    }
    assert_eq!(heap.len(), 4);
    assert_eq!(float(heap.peek().unwrap().0 .0), 7.0);
    assert_eq!(float(heap.pop().unwrap().0 .0), 7.0);
    let rest: Vec<(f32, u8)> =
        heap.into_sorted_vec().iter().map(|&(d, l)| (float(d.0), l)).collect();
    assert_eq!(rest, vec![(2.0, 0), (2.0, 1), (5.0, 1)]);
}

/// Pseudo-random blocks with labels.
fn sample(n_blocks: usize, seed: u32) -> (Vec<[i16; N_DIMS]>, Vec<VectorBlock>, Vec<u8>) {
    let mut state = seed;
    let vecs: Vec<[i16; N_DIMS]> = (0..n_blocks * BLOCK_SIZE)
        .map(|_| {
            std::array::from_fn(|_| {
                state = state.wrapping_mul(1_664_525).wrapping_add(1_013_904_223);
                ((state >> 8) % 20_001) as i16 - 10_000
            })
        })
        .collect();
    let blocks = vecs.chunks(BLOCK_SIZE).map(make_block).collect();
    let labels = (0..vecs.len()).map(|i| (i % 3 == 0) as u8).collect();
    (vecs, blocks, labels)
}

fn brute_force(query: &[i16; N_DIMS], vecs: &[[i16; N_DIMS]], k: usize) -> Vec<f32> {
    let mut dists: Vec<f32> = vecs
        .iter()
        .map(|v| {
            let mut s = 0.0f32;
            for d in 0..N_DIMS {
                let diff = query[d] as f32 - v[d] as f32;
                s += diff * diff;
            }
            s
        })
        .collect();
    dists.sort_by(|a, b| a.partial_cmp(b).unwrap());
    dists.truncate(k);
    dists
}

#[test]
fn blocks_give_their_nearest() {
    let (vecs, blocks, labels) = sample(12, 3);
    for q in [0usize, 7, 40, 95] {
        let query = vecs[q];
        let mut top = Top5::new();
        update_top5_blocks(&query, &blocks, &labels, &mut top, false);
        let got: Vec<f32> = top.iter().iter().map(|e| float(e.0)).collect();
        assert_eq!(got, brute_force(&query, &vecs, 5));
        assert_eq!(got[0], 0.0);

        let mut heap = MaxHeap::new();
        update_top_k_blocks(&query, &blocks, &labels, 9, &mut heap, false);
        let got: Vec<f32> = heap.into_sorted_vec().iter().map(|e| float(e.0 .0)).collect();
        assert_eq!(got, brute_force(&query, &vecs, 9));
    }
}

#[test]
fn slots_without_label_are_not_offered() {
    let (_, blocks, _) = sample(2, 4);
    let labels = [1u8; 11];
    let mut heap = MaxHeap::new();
    update_top_k_blocks(&[0; N_DIMS], &blocks, &labels, 100, &mut heap, false);
    assert_eq!(heap.len(), 11);
    let mut top = Top5::new();
    update_top5_blocks(&[0; N_DIMS], &blocks, &[], &mut top, false);
    assert!(top.iter().is_empty());
}

#[test]
fn probing_every_cluster_recalls_every_neighbour() {
    let (vecs, blocks, labels) = sample(16, 8);
    // Four clusters of four blocks each; the centroid does not matter where all are probed.
    let centroids: Vec<[Binary32; N_DIMS]> =
        (0..4).map(|c| vector([c as f32 / 4.0; N_DIMS])).collect();
    for query in vecs.iter().take(20) {
        let q_f32 = vector(query.map(|x| x as f32 / 10_000.0));
        let mut heap = MaxHeap::new();
        for ci in find_nearest_clusters(&q_f32, &centroids, 4, false) {
            update_top_k_blocks(
                query,
                &blocks[4 * ci..4 * ci + 4],
                &labels[32 * ci..32 * ci + 32],
                5,
                &mut heap,
                false,
            );
        }
        let got: Vec<f32> = heap.into_sorted_vec().iter().map(|e| float(e.0 .0)).collect();
        assert_eq!(got, brute_force(query, &vecs, 5));
    }
}

/// Reference vectors with labels: five customers of the kinds seen in practice, and twenty
/// transactions near each.
fn references() -> Vec<([f32; N_DIMS], u8)> {
    let kinds: [([f32; N_DIMS], u8); 5] = [
        (
            [0.0041, 0.1667, 0.05, 0.7826, 0.3333, -1.0, -1.0, 0.0292, 0.15, 0.0, 1.0, 0.0, 0.15, 0.006],
            0,
        ),
        (
            [0.9506, 0.8333, 1.0, 0.2174, 0.8333, -1.0, -1.0, 0.9523, 1.0, 0.0, 1.0, 1.0, 0.75, 0.0055],
            1,
        ),
        (
            [0.0384, 0.25, 0.05, 0.8696, 0.5, 0.2125, 0.0188, 0.0137, 0.3, 0.0, 1.0, 0.0, 0.3, 0.0298],
            0,
        ),
        (
            [0.4369, 0.6667, 1.0, 0.087, 0.1667, 0.0035, 0.3381, 0.4312, 0.6, 1.0, 0.0, 1.0, 0.8, 0.0121],
            1,
        ),
        (
            [0.1274, 0.4167, 0.3142, 0.5217, 0.0, 0.6507, 0.1044, 0.1226, 0.2, 1.0, 0.0, 0.0, 0.45, 0.0773],
            0,
        ),
    ];
    let mut out = Vec::new();
    for i in 0..100usize {
        let (base, label) = kinds[i % 5];
        let v = std::array::from_fn(|d| {
            let shift = ((i / 5 * 7 + d * 3) % 20) as f32 / 250.0;
            // What is absent stays absent.
            if base[d] < 0.0 {
                base[d]
            } else {
                (base[d] + shift - 0.04).clamp(0.0, 1.0)
            }
        });
        out.push((v, label));
    }
    out
}

/// With every cluster probed, recall@5 must be at least 97%.
#[test]
fn recall_at_5_full_nprobe_is_high() {
    let mut rng = SmallRng::seed_from_u64(7);

    let records = references();
    let raw_vecs: Vec<[Binary32; N_DIMS]> = records.iter().map(|(v, _)| vector(*v)).collect();
    let all_labels: Vec<u8> = records.iter().map(|(_, l)| *l).collect();
    let all_q16: Vec<[i16; N_DIMS]> = raw_vecs.iter().map(quantize_query).collect();

    let nlist = 4;
    let first = rng.random_range(0..raw_vecs.len());
    let draws: Vec<Binary32> = (1..nlist).map(|_| single(rng.random::<f32>())).collect();
    let (centroids, assignments, _) = kmeans(&raw_vecs, nlist, 10, first, &draws);

    let mut cluster_vecs: Vec<Vec<[i16; N_DIMS]>> = vec![vec![]; nlist];
    let mut cluster_labs: Vec<Vec<u8>> = vec![vec![]; nlist];
    for (i, &c) in assignments.iter().enumerate() {
        cluster_vecs[c as usize].push(all_q16[i]);
        cluster_labs[c as usize].push(all_labels[i]);
    }
    for ci in 0..nlist {
        while cluster_vecs[ci].len() % BLOCK_SIZE != 0 {
            cluster_vecs[ci].push([0i16; N_DIMS]);
            cluster_labs[ci].push(0u8);
        }
    }
    let cluster_blocks: Vec<Vec<VectorBlock>> =
        cluster_vecs.iter().map(|vecs| vecs.chunks(BLOCK_SIZE).map(make_block).collect()).collect();

    let brute_force_top5 = |query: &[i16; N_DIMS]| -> Vec<u32> {
        let mut heap = MaxHeap::new();
        for ci in 0..nlist {
            for (b_idx, block) in cluster_blocks[ci].iter().enumerate() {
                let dists = scan_block(query, block, single(f32::MAX), true);
                for slot in 0..BLOCK_SIZE {
                    let vi = b_idx * BLOCK_SIZE + slot;
                    if vi >= cluster_labs[ci].len() {
                        break;
                    }
                    let d = DistF32(dists[slot]);
                    let l = cluster_labs[ci][vi];
                    if heap.len() < 5 {
                        heap.push((d, l));
                    } else if d < heap.peek().unwrap().0 {
                        heap.pop();
                        heap.push((d, l));
                    }
                }
            }
        }
        heap.into_sorted_vec().iter().map(|e| e.0 .0.bits).collect()
    };

    let k = 5;
    let mut total_hits = 0usize;
    let mut total_possible = 0usize;
    for query_f32 in raw_vecs.iter() {
        let query_i16 = quantize_query(query_f32);
        let gt = brute_force_top5(&query_i16);
        let mut heap = MaxHeap::new();
        for ci in find_nearest_clusters(query_f32, &centroids, nlist, true) {
            update_top_k_blocks(&query_i16, &cluster_blocks[ci], &cluster_labs[ci], k, &mut heap, true);
        }
        let found = heap.into_sorted_vec();
        total_hits += found.iter().filter(|e| gt.contains(&e.0 .0.bits)).count();
        total_possible += gt.len();
    }
    assert_eq!(total_possible, 500);
    let recall = total_hits as f64 / total_possible as f64;
    assert!(
        recall >= 0.97,
        "recall@5 = {:.3} is below 0.97 ({total_hits}/{total_possible})",
        recall
    );
}
