//! Distances of a query to the vectors of a block.

use fraud_api::binary32::Binary32;
use fraud_api::index::bbox::{bbox_lower_bound, query_to_bbox_lanes};
use fraud_api::index::layout::{Bbox, VectorBlock, BLOCK_SIZE, N_DIMS};
use fraud_api::index::quantize::quantize_i16;

fn single(x: f32) -> Binary32 {
    Binary32 { bits: x.to_bits() }
}

fn floats(dists: [Binary32; BLOCK_SIZE]) -> [f32; BLOCK_SIZE] {
    dists.map(|d| f32::from_bits(d.bits))
}

fn scan_block_scalar(query: &[i16; N_DIMS], block: &VectorBlock) -> [f32; BLOCK_SIZE] {
    floats(fraud_api::index::simd::scan_block_scalar(query, block))
}

fn scan_block(
    query: &[i16; N_DIMS],
    block: &VectorBlock,
    threshold: f32,
    fma: bool,
) -> [f32; BLOCK_SIZE] {
    floats(fraud_api::index::simd::scan_block(query, block, single(threshold), fma))
}

/// The distance on a machine that multiplies and adds with one rounding.
fn fused(query: &[i16; N_DIMS], v: &[i16; N_DIMS]) -> f32 {
    let mut acc = [0.0f32; 4];
    for d in 0..N_DIMS {
        let diff = v[d] as f32 - query[d] as f32;
        acc[d % 4] = diff.mul_add(diff, acc[d % 4]);
    }
    (acc[0] + acc[1]) + (acc[2] + acc[3])
}

fn make_block(vecs: &[[i16; N_DIMS]]) -> VectorBlock {
    assert!(vecs.len() <= BLOCK_SIZE);
    let mut block = VectorBlock::default();
    for (slot, vec) in vecs.iter().enumerate() {
        for d in 0..N_DIMS {
            block.data[d * BLOCK_SIZE + slot] = vec[d];
        }
    }
    block
}

fn uniform_block(val: i16) -> VectorBlock {
    let vecs: Vec<[i16; N_DIMS]> = (0..BLOCK_SIZE).map(|_| [val; N_DIMS]).collect();
    make_block(&vecs)
}

/// A pseudo-random value of a quantised feature.
fn feature(state: &mut u32) -> i16 {
    *state = state.wrapping_mul(1_664_525).wrapping_add(1_013_904_223);
    ((*state >> 8) % 20_001) as i16 - 10_000
}

#[test]
fn zero_distance_to_identical_vector() {
    let block = uniform_block(5_000);
    let query = [5_000i16; N_DIMS];
    let dists = scan_block_scalar(&query, &block);
    for d in dists {
        assert_eq!(d, 0.0, "distance to identical vector must be 0");
    }
}

#[test]
fn known_distance_scalar() {
    // All block vectors are [0; 14], query is [1; 14] in i16 units
    // dist = 14 × (1 - 0)² = 14.0
    let block = uniform_block(0);
    let query = [1i16; N_DIMS];
    let dists = scan_block_scalar(&query, &block);
    for d in dists {
        assert!((d - 14.0).abs() < 1e-3, "expected 14.0, got {d}");
    }
}

#[test]
fn avx2_matches_scalar_for_various_inputs() {
    let test_cases: &[([i16; N_DIMS], i16)] = &[
        ([0i16; N_DIMS], 1),
        ([10_000i16; N_DIMS], 0),
        ([-10_000i16; N_DIMS], 10_000),
        ([5_000i16; N_DIMS], -5_000),
    ];

    for fma in [false, true] {
        for (query_arr, block_val) in test_cases {
            let block = uniform_block(*block_val);
            let scalar = scan_block_scalar(query_arr, &block);
            let fast = scan_block(query_arr, &block, f32::MAX, fma);
            for slot in 0..BLOCK_SIZE {
                assert!(
                    (scalar[slot] - fast[slot]).abs() < 1.0,
                    "mismatch slot={slot}: scalar={} avx2={} (query={:?}, block_val={block_val})",
                    scalar[slot],
                    fast[slot],
                    query_arr
                );
            }
        }
    }
}

#[test]
fn sentinel_same_position_contributes_zero() {
    // Both query and block have sentinel (-10_000) at all dims → dist = 0
    let block = uniform_block(-10_000);
    let query = [-10_000i16; N_DIMS];
    for fma in [false, true] {
        let dists = scan_block(&query, &block, f32::MAX, fma);
        for d in dists {
            assert_eq!(d, 0.0, "sentinel-vs-sentinel should be 0");
        }
    }
}

#[test]
fn early_exit_returns_max_when_all_above_threshold() {
    // Block all-zeros, query all 10_000 → partial after 8 dims: 8 × 10_000² = 8×10⁸
    let block = uniform_block(0);
    let query = [10_000i16; N_DIMS];
    let very_low_threshold = 1.0; // below any real partial distance
    for fma in [false, true] {
        let dists = scan_block(&query, &block, very_low_threshold, fma);
        for d in dists {
            assert_eq!(d, f32::MAX, "all distances should be f32::MAX on early exit");
        }
    }
}

#[test]
fn early_exit_not_triggered_when_some_below_threshold() {
    // Block slot 0: [0; 14] (small distance from query [1; 14])
    // Block slots 1..8: [10_000; 14] (large distance)
    let mut vecs = vec![[10_000i16; N_DIMS]; BLOCK_SIZE];
    vecs[0] = [0i16; N_DIMS];
    let block = make_block(&vecs);
    let query = [1i16; N_DIMS];
    let threshold = 1_000_000.0; // large threshold — no early exit

    for fma in [false, true] {
        let dists = scan_block(&query, &block, threshold, fma);
        // slot 0: 14 × (0 - 1)² = 14.0
        assert!((dists[0] - 14.0).abs() < 1.0, "slot 0 distance should be ~14: {}", dists[0]);
    }
}

#[test]
fn scan_block_quantized_values_match() {
    // Use real-world-like values: amount=0.5, others=0.3
    let q_f32 = {
        let mut v = [0.3f32; N_DIMS];
        v[0] = 0.5;
        v
    };
    let query: [i16; N_DIMS] = std::array::from_fn(|i| quantize_i16(single(q_f32[i])));

    let b_f32 = [0.3f32; N_DIMS];
    let b_i16: [i16; N_DIMS] = std::array::from_fn(|i| quantize_i16(single(b_f32[i])));
    let block = make_block(&[b_i16; BLOCK_SIZE]);

    let scalar = scan_block_scalar(&query, &block);
    for fma in [false, true] {
        let fast = scan_block(&query, &block, f32::MAX, fma);
        for slot in 0..BLOCK_SIZE {
            assert!((scalar[slot] - fast[slot]).abs() < 1.0, "slot {slot}");
        }
    }
}

#[test]
fn distances_match_the_machine() {
    let mut state = 5u32;
    for _ in 0..200 {
        let vecs: Vec<[i16; N_DIMS]> =
            (0..BLOCK_SIZE).map(|_| std::array::from_fn(|_| feature(&mut state))).collect();
        let query: [i16; N_DIMS] = std::array::from_fn(|_| feature(&mut state));
        let dists = scan_block_scalar(&query, &make_block(&vecs));
        for slot in 0..BLOCK_SIZE {
            let mut want = 0.0f32;
            for d in 0..N_DIMS {
                let diff = query[d] as f32 - vecs[slot][d] as f32;
                want += diff * diff;
            }
            assert_eq!(dists[slot], want);
        }
        let dists = scan_block(&query, &make_block(&vecs), f32::MAX, true);
        for slot in 0..BLOCK_SIZE {
            assert_eq!(dists[slot], fused(&query, &vecs[slot]));
        }
    }
}

#[test]
fn the_last_bits_depend_on_the_machine() {
    let v: [i16; N_DIMS] = std::array::from_fn(|d| 9_973 - 1_301 * d as i16);
    let query: [i16; N_DIMS] = std::array::from_fn(|d| 611 * d as i16 - 4_999);
    let block = make_block(&[v; BLOCK_SIZE]);
    let plain = scan_block(&query, &block, f32::MAX, false)[0];
    let lanes = scan_block(&query, &block, f32::MAX, true)[0];
    assert_eq!(plain, scan_block_scalar(&query, &block)[0]);
    assert_eq!(lanes, fused(&query, &v));
    assert!((plain - lanes).abs() <= 8.0 * f32::EPSILON * plain);

    // A small distance is exact: 1² + 2² + … + 14².
    let near: [i16; N_DIMS] = std::array::from_fn(|d| query[d] + 1 + d as i16);
    let block = make_block(&[near; BLOCK_SIZE]);
    for fma in [false, true] {
        assert_eq!(scan_block(&query, &block, f32::MAX, fma)[0], 1015.0);
    }
}

#[test]
fn an_early_exit_hides_nothing_nearer() {
    let mut state = 17u32;
    let mut exits = 0;
    for round in 0..300u32 {
        let vecs: Vec<[i16; N_DIMS]> =
            (0..BLOCK_SIZE).map(|_| std::array::from_fn(|_| feature(&mut state))).collect();
        let query: [i16; N_DIMS] = std::array::from_fn(|_| feature(&mut state));
        let block = make_block(&vecs);
        let threshold = (round as f32) * 3.0e6;
        for fma in [false, true] {
            let full = scan_block(&query, &block, f32::MAX, fma);
            let got = scan_block(&query, &block, threshold, fma);
            if got[0] == f32::MAX {
                exits += 1;
                assert!(full.iter().all(|&d| d >= threshold));
            } else {
                assert_eq!(got, full);
            }
        }
    }
    assert!(exits > 0);
}

#[test]
fn the_bound_of_a_box_is_below_every_vector_in_it() {
    let mut state = 23u32;
    for _ in 0..200 {
        let vecs: Vec<[i16; N_DIMS]> =
            (0..BLOCK_SIZE).map(|_| std::array::from_fn(|_| feature(&mut state) / 4)).collect();
        let query: [i16; N_DIMS] = std::array::from_fn(|_| feature(&mut state));
        let mut min = Bbox::default();
        let mut max = Bbox::default();
        for d in 0..N_DIMS {
            min.data[d] = vecs.iter().map(|v| v[d]).min().unwrap();
            max.data[d] = vecs.iter().map(|v| v[d]).max().unwrap();
        }
        let lanes = query_to_bbox_lanes(&query);
        assert_eq!(lanes[..N_DIMS], query[..]);
        assert_eq!(lanes[N_DIMS..], [0, 0]);
        for fma in [false, true] {
            let bound = f32::from_bits(bbox_lower_bound(&lanes, &min, &max, fma).bits);
            for d in scan_block(&query, &make_block(&vecs), f32::MAX, fma) {
                assert!(bound <= d);
            }
        }
    }
}

#[test]
fn the_bound_of_a_box_counts_what_lies_outside() {
    let min = Bbox { data: [0; 16] };
    let max = Bbox { data: [10; 16] };
    let mut query = [5i16; N_DIMS];
    query[2] = -3;
    query[7] = 14;
    let lanes = query_to_bbox_lanes(&query);
    // 3² below the box and 4² above it.
    assert_eq!(f32::from_bits(bbox_lower_bound(&lanes, &min, &max, false).bits), 25.0);
    assert_eq!(f32::from_bits(bbox_lower_bound(&lanes, &min, &max, true).bits), 25.0);
    query[2] = 0;
    query[7] = 10;
    let lanes = query_to_bbox_lanes(&query);
    assert_eq!(bbox_lower_bound(&lanes, &min, &max, true).bits, 0);
}
