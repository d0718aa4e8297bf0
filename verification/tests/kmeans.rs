//! K-means clustering.

use fraud_api::binary32::Binary32;
use fraud_api::index::clusters::l2sq_f32_scalar;
use fraud_api::index::kmeans::{
    assign_clusters, inertia, kmeans, kmeans_plus_plus_init, nearest_centroid, update_centroids,
};
use fraud_api::index::layout::N_DIMS;
use rand::rngs::SmallRng;
use rand::{Rng, SeedableRng};

fn single(x: f32) -> Binary32 {
    Binary32 { bits: x.to_bits() }
}

fn float(x: Binary32) -> f32 {
    f32::from_bits(x.bits)
}

fn vector(v: [f32; N_DIMS]) -> [Binary32; N_DIMS] {
    v.map(single)
}

fn synthetic_f32_vectors(n: usize, rng: &mut impl Rng) -> Vec<[Binary32; N_DIMS]> {
    (0..n)
        .map(|_| {
            let mut v = [single(0.0); N_DIMS];
            for x in v.iter_mut() {
                *x = single(rng.random::<f32>());
            }
            v
        })
        .collect()
}

/// The draws that an initialisation takes: an index, then a number of the unit interval for each
/// further centroid.
fn draw(n: usize, nlist: usize, rng: &mut impl Rng) -> (usize, Vec<Binary32>) {
    let first = rng.random_range(0..n);
    let draws = (1..nlist).map(|_| single(rng.random::<f32>())).collect();
    (first, draws)
}

#[test]
fn assign_clusters_trivial() {
    let near_zero = vector([0.05f32; N_DIMS]);
    let near_one = vector([0.95f32; N_DIMS]);
    let vectors = vec![near_zero, near_one];

    let c0 = vector([0.0f32; N_DIMS]);
    let c1 = vector([1.0f32; N_DIMS]);
    let centroids = vec![c0, c1];

    let assignments = assign_clusters(&vectors, &centroids);
    assert_eq!(assignments[0], 0, "near_zero should go to cluster 0");
    assert_eq!(assignments[1], 1, "near_one should go to cluster 1");
}

#[test]
fn kmeans_no_empty_clusters_and_inertia_finite() {
    let mut rng = SmallRng::seed_from_u64(42);
    let vectors = synthetic_f32_vectors(500, &mut rng);
    let nlist = 8;

    let (first, draws) = draw(vectors.len(), nlist, &mut rng);
    let (centroids, assignments, _) = kmeans(&vectors, nlist, 5, first, &draws);

    assert_eq!(centroids.len(), nlist);
    assert_eq!(assignments.len(), vectors.len());

    let mut counts = vec![0u32; nlist];
    for &a in &assignments {
        counts[a as usize] += 1;
    }
    for (i, &c) in counts.iter().enumerate() {
        assert!(c > 0, "cluster {i} is empty");
    }

    let inertia: f32 = vectors
        .iter()
        .zip(&assignments)
        .map(|(v, &c)| float(l2sq_f32_scalar(v, &centroids[c as usize])))
        .sum();
    assert!(inertia.is_finite(), "inertia should be finite: {inertia}");
}

/// The same training in machine arithmetic.
fn train(
    vectors: &[[f32; N_DIMS]],
    nlist: usize,
    n_iter: usize,
    first: usize,
    draws: &[f32],
) -> (Vec<[f32; N_DIMS]>, Vec<u32>, Vec<f32>) {
    fn l2(a: &[f32; N_DIMS], b: &[f32; N_DIMS]) -> f32 {
        let mut s = 0.0;
        for i in 0..N_DIMS {
            s += (a[i] - b[i]) * (a[i] - b[i]);
        }
        s
    }
    let mut centroids = vec![vectors[first]];
    let mut dists: Vec<f32> = vectors.iter().map(|v| l2(v, &centroids[0])).collect();
    for k in 1..nlist {
        let total: f32 = dists.iter().sum();
        let mut threshold = draws[k - 1] * total;
        let mut chosen = dists.len() - 1;
        for (i, &d) in dists.iter().enumerate() {
            threshold -= d;
            if threshold <= 0.0 {
                chosen = i;
                break;
            }
        }
        centroids.push(vectors[chosen]);
        for (i, v) in vectors.iter().enumerate() {
            dists[i] = dists[i].min(l2(v, &vectors[chosen]));
        }
    }
    let mut assignments = vec![0u32; vectors.len()];
    let mut inertias = Vec::new();
    for _ in 0..n_iter {
        for (i, v) in vectors.iter().enumerate() {
            let mut best = 0;
            for c in 1..nlist {
                if l2(v, &centroids[c]) < l2(v, &centroids[best]) {
                    best = c;
                }
            }
            assignments[i] = best as u32;
        }
        for c in 0..nlist {
            let own: Vec<usize> = (0..vectors.len()).filter(|&i| assignments[i] == c as u32).collect();
            if own.is_empty() {
                continue;
            }
            for d in 0..N_DIMS {
                let mut sum = 0.0f64;
                for &i in &own {
                    sum += vectors[i][d] as f64;
                }
                centroids[c][d] = (sum / own.len() as f64) as f32;
            }
        }
        let mut inertia = 0.0f32;
        for (i, v) in vectors.iter().enumerate() {
            inertia += l2(v, &centroids[assignments[i] as usize]);
        }
        inertias.push(inertia);
    }
    (centroids, assignments, inertias)
}

#[test]
fn training_matches_the_machine() {
    let mut rng = SmallRng::seed_from_u64(7);
    let vectors = synthetic_f32_vectors(120, &mut rng);
    let (first, draws) = draw(vectors.len(), 6, &mut rng);
    let (centroids, assignments, inertias) = kmeans(&vectors, 6, 4, first, &draws);

    let plain: Vec<[f32; N_DIMS]> = vectors.iter().map(|v| v.map(float)).collect();
    let plain_draws: Vec<f32> = draws.iter().map(|&x| float(x)).collect();
    let want = train(&plain, 6, 4, first, &plain_draws);
    assert_eq!(assignments, want.1);
    assert_eq!(centroids.iter().map(|c| c.map(float)).collect::<Vec<_>>(), want.0);
    assert_eq!(inertias.iter().map(|&x| float(x)).collect::<Vec<f32>>(), want.2);
}

#[test]
fn the_draws_determine_the_training() {
    let mut rng = SmallRng::seed_from_u64(3);
    let vectors = synthetic_f32_vectors(60, &mut rng);
    let (first, draws) = draw(vectors.len(), 4, &mut rng);
    assert_eq!(
        kmeans(&vectors, 4, 3, first, &draws),
        kmeans(&vectors, 4, 3, first, &draws)
    );
}

#[test]
fn without_iterations_all_vectors_are_in_the_first_cluster() {
    let vectors = vec![vector([0.1; N_DIMS]), vector([0.7; N_DIMS])];
    let (centroids, assignments, inertias) = kmeans(&vectors, 2, 0, 1, &[single(0.5)]);
    assert_eq!(centroids[0], vectors[1]);
    assert_eq!(assignments, vec![0, 0]);
    assert!(inertias.is_empty());
}

#[test]
fn initial_centroids_are_drawn_by_distance() {
    let vectors = vec![
        vector([0.0; N_DIMS]),
        vector([1.0; N_DIMS]),
        vector([3.0; N_DIMS]),
    ];
    // Squared distances to the first: 0, 14 and 126, together 140.
    let pick = |x: f32| kmeans_plus_plus_init(&vectors, 2, 0, &[single(x)])[1];
    assert_eq!(pick(0.05), vectors[1]); // 7 lies within the first 14
    assert_eq!(pick(0.10), vectors[1]); // 14 uses them up
    assert_eq!(pick(0.11), vectors[2]);
    assert_eq!(pick(0.0), vectors[0]);
    let three = kmeans_plus_plus_init(&vectors, 3, 2, &[single(0.9), single(0.9)]);
    assert_eq!(three[0], vectors[2]);
    assert_eq!(three.len(), 3);
}

#[test]
fn equal_centroids_leave_the_first() {
    let c = vector([0.5; N_DIMS]);
    assert_eq!(nearest_centroid(&vector([0.2; N_DIMS]), &[c, c, c]), 0);
    assert_eq!(
        assign_clusters(&[vector([0.2; N_DIMS]), vector([0.9; N_DIMS])], &[c, c]),
        vec![0, 0]
    );
    assert!(assign_clusters(&[], &[]).is_empty());
}

#[test]
fn means_and_empty_clusters() {
    let vectors = vec![
        vector([0.0; N_DIMS]),
        vector([1.0; N_DIMS]),
        vector([5.0; N_DIMS]),
    ];
    let prev = vec![vector([9.0; N_DIMS]), vector([8.0; N_DIMS]), vector([7.0; N_DIMS])];
    let got = update_centroids(&vectors, &[0, 0, 2], 3, &prev);
    assert_eq!(got[0], vector([0.5; N_DIMS]));
    assert_eq!(got[1], vector([8.0; N_DIMS])); // keeps its centroid
    assert_eq!(got[2], vector([5.0; N_DIMS]));
    // 0.25 * 14 twice, and nothing for the third.
    assert_eq!(float(inertia(&vectors, &[0, 0, 2], &got)), 7.0);
}

#[test]
fn means_of_the_largest_numbers_stay_finite() {
    let vectors = vec![vector([f32::MAX; N_DIMS]); 9];
    let got = update_centroids(&vectors, &[0; 9], 1, &vectors[..1]);
    assert_eq!(got[0], vector([f32::MAX; N_DIMS]));
    let mixed = vec![vector([f32::MAX; N_DIMS]), vector([f32::MIN; N_DIMS])];
    let (centroids, assignments, _) = kmeans(&mixed, 2, 3, 0, &[single(0.5)]);
    assert!(centroids.iter().flatten().all(|x| x.is_finite()));
    assert_eq!(assignments.len(), 2);
}

#[test]
fn centroids_drawn_by_distance_are_new() {
    // Many copies of few vectors.
    let few: Vec<[Binary32; N_DIMS]> = (0..6).map(|i| vector([i as f32 * 0.3; N_DIMS])).collect();
    let vectors: Vec<[Binary32; N_DIMS]> = (0..60).map(|i| few[i * i % 6]).collect();
    let kinds = few.iter().filter(|v| vectors.contains(*v)).count();
    let mut rng = SmallRng::seed_from_u64(11);
    for _ in 0..20 {
        let first = rng.random_range(0..vectors.len());
        let draws: Vec<Binary32> =
            (1..kinds).map(|_| single(0.05 + 0.9 * rng.random::<f32>())).collect();
        let centroids = kmeans_plus_plus_init(&vectors, kinds, first, &draws);
        for i in 0..centroids.len() {
            assert!(!centroids[..i].contains(&centroids[i]), "centroid {i} is drawn twice");
        }
    }
}
