use clustering::{euclidean_distance, Dataset, Error, KMeans, KNearest, LabeledDataset, Model};
use rand::Rng;
use rand::SeedableRng;
use rand_xoshiro::Xoshiro256Plus;

/// Fixed-point scale used by the float-based tests: one coordinate unit is
/// one millionth.
const SCALE: f64 = 1_000_000.0;

fn dataset(rows: Vec<Vec<i64>>) -> Dataset {
    Dataset::new(rows).expect("uniform rows")
}

/// Three Gaussian blobs (Box-Muller from a seeded xoshiro256+ stream) of
/// `n_per` points each around the given centers, scaled to fixed point.
fn blobs(centers: &[(f64, f64)], n_per: usize, sigma: f64, seed: u64) -> Vec<Vec<i64>> {
    let mut rng = Xoshiro256Plus::seed_from_u64(seed);
    let mut rows = Vec::new();
    for &(cx, cy) in centers {
        for _ in 0..n_per {
            let u1: f64 = rng.gen_range(1e-12..1.0f64);
            let u2: f64 = rng.gen::<f64>();
            let r = (-2.0 * u1.ln()).sqrt();
            let theta = 2.0 * std::f64::consts::PI * u2;
            let x = cx + sigma * r * theta.cos();
            let y = cy + sigma * r * theta.sin();
            rows.push(vec![(x * SCALE).round() as i64, (y * SCALE).round() as i64]);
        }
    }
    rows
}

#[test]
fn dataset_rejects_ragged_rows() {
    let r = Dataset::new(vec![vec![1, 2], vec![3]]);
    assert!(matches!(r, Err(Error::DimensionMismatch)));
    let ok = Dataset::new(vec![vec![1, 2], vec![3, 4]]).unwrap();
    assert_eq!(ok.nrows(), 2);
    assert_eq!(ok.ncols(), 2);
}

#[test]
fn labeled_dataset_rejects_length_mismatch() {
    let d = dataset(vec![vec![0], vec![1]]);
    let r = LabeledDataset::new(d, vec![1, 2, 3]);
    assert!(matches!(r, Err(Error::DimensionMismatch)));
}

#[test]
fn kmeans_config_is_validated() {
    assert!(matches!(KMeans::new(0, 0, 10), Err(Error::InvalidParameter)));
    assert!(matches!(KMeans::new(2, -1, 10), Err(Error::InvalidParameter)));
    assert!(matches!(KMeans::new(2, 0, 0), Err(Error::InvalidParameter)));
    let km = KMeans::new(3, 100, 25).unwrap();
    assert_eq!(km.n_clusters(), 3);
    assert_eq!(km.tolerance(), 100);
    assert_eq!(km.max_n_iterations(), 25);
}

#[test]
fn euclidean_distance_is_the_floor_of_the_root() {
    assert_eq!(euclidean_distance(&vec![0, 0], &vec![3, 4]), 5);
    assert_eq!(euclidean_distance(&vec![0], &vec![2]), 2);
    // sqrt(2) rounds down to 1
    assert_eq!(euclidean_distance(&vec![0, 0], &vec![1, 1]), 1);
    assert_eq!(euclidean_distance(&vec![7, 7], &vec![7, 7]), 0);
}

#[test]
fn predict_stays_below_cluster_count() {
    let d = dataset(blobs(&[(0.0, 1.0), (-10.0, 20.0), (-1.0, 10.0)], 30, 0.2, 7));
    let km = KMeans::new(3, 1_000, 100).unwrap();
    let model = km.fit(&d, 11).unwrap();
    for q in [
        vec![0, 0],
        vec![(12.0 * SCALE) as i64, (-3.0 * SCALE) as i64],
        vec![(-10.0 * SCALE) as i64, (20.0 * SCALE) as i64],
    ] {
        assert!(model.predict(&q) < 3);
    }
}

#[test]
fn centroid_count_equals_configuration() {
    let d = dataset(vec![vec![0, 0], vec![1, 1], vec![9, 9], vec![10, 10], vec![20, 0]]);
    let km = KMeans::new(3, 0, 50).unwrap();
    let model = km.fit(&d, 1).unwrap();
    assert_eq!(model.centroids().len(), 3);
}

#[test]
fn fit_is_deterministic_for_a_fixed_seed() {
    let rows = blobs(&[(0.0, 1.0), (-10.0, 20.0), (-1.0, 10.0)], 50, 0.3, 3);
    let d1 = dataset(rows.clone());
    let d2 = dataset(rows);
    let km1 = KMeans::new(3, 1_000, 100).unwrap();
    let km2 = KMeans::new(3, 1_000, 100).unwrap();
    let m1 = km1.fit(&d1, 42).unwrap();
    let m2 = km2.fit(&d2, 42).unwrap();
    assert_eq!(m1.centroids(), m2.centroids());
}

#[test]
fn fit_with_too_few_rows_is_insufficient_data() {
    let d = dataset(vec![vec![1], vec![2]]);
    let km = KMeans::new(3, 0, 10).unwrap();
    assert!(matches!(km.fit(&d, 0), Err(Error::InsufficientData)));
}

#[test]
fn lloyd_loop_stops_at_the_iteration_cap() {
    // Five collinear points; with zero tolerance the refinement needs more
    // than one cycle for some seeding draws, so a cap of one must return
    // exactly the one-cycle centroids.
    let rows = vec![vec![0], vec![1], vec![10], vec![12], vec![20]];
    // With n_clusters equal to the row count, every row becomes its own
    // centroid and the first centroid is the seeding draw: recover it.
    let probe = KMeans::new(5, 0, 10)
        .unwrap()
        .fit(&dataset(rows.clone()), 42)
        .unwrap();
    let first = probe.centroids()[0][0];
    // Hand-computed single assignment/update cycle for each possible draw.
    let (after_one, converged) = if first == 0 || first == 1 {
        (vec![vec![3], vec![16]], vec![vec![0], vec![14]])
    } else {
        (vec![vec![14], vec![0]], vec![vec![14], vec![0]])
    };
    let capped = KMeans::new(2, 0, 1)
        .unwrap()
        .fit(&dataset(rows.clone()), 42)
        .unwrap();
    assert_eq!(capped.centroids(), &after_one);
    let free = KMeans::new(2, 0, 100)
        .unwrap()
        .fit(&dataset(rows), 42)
        .unwrap();
    assert_eq!(free.centroids(), &converged);
}

#[test]
fn negative_means_round_toward_zero() {
    // The single centroid becomes the mean of -3 and -4, truncated toward
    // zero: -3, whichever row seeds it.
    let d = dataset(vec![vec![-3], vec![-4]]);
    let km = KMeans::new(1, 0, 10).unwrap();
    let model = km.fit(&d, 0).unwrap();
    assert_eq!(model.centroids(), &vec![vec![-3]]);
}

#[test]
fn empty_clusters_keep_their_centroid() {
    // All rows identical: every row goes to the first centroid and the
    // second keeps its seeded position.
    let d = dataset(vec![vec![7, 7], vec![7, 7], vec![7, 7]]);
    let km = KMeans::new(2, 0, 10).unwrap();
    let model = km.fit(&d, 5).unwrap();
    assert_eq!(model.centroids(), &vec![vec![7, 7], vec![7, 7]]);
}

#[test]
fn three_blob_centers_are_recovered() {
    let centers = [(0.0, 1.0), (-10.0, 20.0), (-1.0, 10.0)];
    let d = dataset(blobs(&centers, 100, 0.2, 42));
    let km = KMeans::new(3, 1_000, 100).unwrap();
    let model = km.fit(&d, 42).unwrap();
    let got: Vec<(f64, f64)> = model
        .centroids()
        .iter()
        .map(|c| (c[0] as f64 / SCALE, c[1] as f64 / SCALE))
        .collect();
    // Match each expected center to its nearest fitted centroid.
    let mut matched = Vec::new();
    for (cx, cy) in centers {
        let (best, dist) = got
            .iter()
            .enumerate()
            .map(|(i, (x, y))| (i, ((x - cx).powi(2) + (y - cy).powi(2)).sqrt()))
            .min_by(|a, b| a.1.total_cmp(&b.1))
            .unwrap();
        assert!(dist < 0.1, "centroid {dist} away from ({cx}, {cy})");
        matched.push(best);
    }
    matched.sort();
    matched.dedup();
    assert_eq!(matched.len(), 3, "each center matched a distinct centroid");
}

#[test]
fn inertia_sums_squared_residuals() {
    let model = Model { centroids: vec![vec![0], vec![10]] };
    let d = dataset(vec![vec![0], vec![1], vec![9], vec![10]]);
    // residuals: 0, 1, 1, 0
    assert_eq!(model.inertia(&d), 2);
}

#[test]
fn seeding_draw_stays_below_the_row_count() {
    // A seed far above the row count must still pick a valid first row.
    let d = dataset(vec![vec![0], vec![1], vec![10], vec![12], vec![20]]);
    let km = KMeans::new(2, 0, 100).unwrap();
    let model = km.fit(&d, 12_345_678_901_234_567_890).unwrap();
    assert_eq!(model.centroids().len(), 2);
    assert!(model.predict(&vec![4]) < 2);
}

#[test]
fn knn_construction_is_validated() {
    let d = dataset(vec![vec![0], vec![1], vec![2]]);
    let ld = LabeledDataset::new(d, vec![1, 2, 3]).unwrap();
    assert!(matches!(KNearest::new(0, ld), Err(Error::InvalidParameter)));
    let d = dataset(vec![vec![0], vec![1], vec![2]]);
    let ld = LabeledDataset::new(d, vec![1, 2, 3]).unwrap();
    assert!(matches!(KNearest::new(4, ld), Err(Error::InsufficientData)));
}

#[test]
fn knn_k1_returns_the_matching_rows_label() {
    let d = dataset(vec![vec![0, 0], vec![5, 5], vec![10, 0]]);
    let ld = LabeledDataset::new(d, vec![4, 7, 9]).unwrap();
    let knn = KNearest::new(1, ld).unwrap();
    assert_eq!(knn.predict(&vec![5, 5]), 7);
    assert_eq!(knn.predict(&vec![0, 0]), 4);
    assert_eq!(knn.predict(&vec![10, 0]), 9);
}

#[test]
fn knn_majority_vote_wins() {
    let d = dataset(vec![vec![0], vec![1], vec![2], vec![50]]);
    let ld = LabeledDataset::new(d, vec![3, 3, 8, 8]).unwrap();
    let knn = KNearest::new(3, ld).unwrap();
    // three nearest to 0 carry labels 3, 3, 8
    assert_eq!(knn.predict(&vec![0]), 3);
}

#[test]
fn knn_vote_tie_takes_the_smaller_label() {
    let d = dataset(vec![vec![0], vec![2]]);
    let ld = LabeledDataset::new(d, vec![9, 1]).unwrap();
    let knn = KNearest::new(2, ld).unwrap();
    // one vote each: the smaller label wins
    assert_eq!(knn.predict(&vec![1]), 1);
}

#[test]
fn knn_equidistant_rows_keep_their_order() {
    let d = dataset(vec![vec![4], vec![6]]);
    let ld = LabeledDataset::new(d, vec![9, 3]).unwrap();
    let knn = KNearest::new(1, ld).unwrap();
    // both rows are at distance 1; the earlier row casts the single vote
    assert_eq!(knn.predict(&vec![5]), 9);
}

#[test]
fn pseudo_labels_from_clustering_feed_the_classifier() {
    // The typical flow: fit, label each training row with its cluster,
    // classify new points against those pseudo-labels.
    let centers = [(0.0, 1.0), (-10.0, 20.0), (-1.0, 10.0)];
    let rows = blobs(&centers, 40, 0.2, 9);
    let d = dataset(rows.clone());
    let km = KMeans::new(3, 1_000, 100).unwrap();
    let model = km.fit(&d, 9).unwrap();
    let labels: Vec<usize> = rows.iter().map(|r| model.predict(r)).collect();
    let ld = LabeledDataset::new(dataset(rows), labels).unwrap();
    let knn = KNearest::new(5, ld).unwrap();
    let q = vec![(-9.8 * SCALE) as i64, (19.9 * SCALE) as i64];
    assert_eq!(knn.predict(&q), model.predict(&q));
}
