use palette_kmeans::color::{Color, Rgb8, FULL};
use palette_kmeans::kmeans::{
    assign, calc_new_centroid, centroids_converged, cluster_of, k_cluster_rgb_image, nearest,
    ClusterError, DEFAULT_MAX_ITER, DEFAULT_TOL,
};
use palette_kmeans::palette::extract_palette;
use rand::rngs::StdRng;
use rand::SeedableRng;

fn gradient(n: u16) -> Vec<Color> {
    let mut v = Vec::new();
    for i in 0..n {
        let x = (i as u32 * FULL as u32 / n as u32) as u16;
        v.push(Color::new(x, FULL - x, (x / 2) + 100));
    }
    v
}

fn sq(a: &Color, b: &Color) -> u64 {
    a.distance_sq(b)
}

#[test]
fn zero_clusters_is_invalid_parameter() {
    let mut rng = StdRng::seed_from_u64(1);
    let r = k_cluster_rgb_image(0, &gradient(10), DEFAULT_TOL, DEFAULT_MAX_ITER, &mut rng);
    assert!(matches!(r, Err(ClusterError::InvalidParameter)));
}

#[test]
fn no_samples_is_empty_sample_set() {
    let mut rng = StdRng::seed_from_u64(1);
    let r = k_cluster_rgb_image(3, &Vec::new(), DEFAULT_TOL, DEFAULT_MAX_ITER, &mut rng);
    assert!(matches!(r, Err(ClusterError::EmptySampleSet)));
}

#[test]
fn returns_k_centroids_in_unit_cube() {
    for k in 1..8usize {
        let mut rng = StdRng::seed_from_u64(k as u64);
        let out = k_cluster_rgb_image(k, &gradient(50), DEFAULT_TOL, DEFAULT_MAX_ITER, &mut rng).unwrap();
        assert_eq!(out.centroids.len(), k);
        for c in &out.centroids {
            assert!(c.r <= FULL && c.g <= FULL && c.b <= FULL);
        }
        assert!(out.iterations >= 1 && out.iterations <= DEFAULT_MAX_ITER);
    }
}

#[test]
fn same_seed_gives_same_result() {
    let samples = gradient(60);
    let mut r1 = StdRng::seed_from_u64(42);
    let mut r2 = StdRng::seed_from_u64(42);
    let a = extract_palette(4, &samples, DEFAULT_TOL, DEFAULT_MAX_ITER, &mut r1).unwrap();
    let b = extract_palette(4, &samples, DEFAULT_TOL, DEFAULT_MAX_ITER, &mut r2).unwrap();
    assert_eq!(a.clustering.centroids, b.clustering.centroids);
    assert_eq!(a.clustering.labels, b.clustering.labels);
    assert_eq!(a.colors, b.colors);
}

#[test]
fn converged_zero_tolerance_is_stable() {
    let samples = gradient(40);
    let mut rng = StdRng::seed_from_u64(5);
    let out = k_cluster_rgb_image(3, &samples, 0, DEFAULT_MAX_ITER, &mut rng).unwrap();
    assert!(out.converged);
    for (i, s) in samples.iter().enumerate() {
        let own = sq(s, &out.centroids[out.labels[i]]);
        for c in &out.centroids {
            assert!(own <= sq(s, c));
        }
    }
}

#[test]
fn single_cluster_is_mean_of_samples() {
    let samples = vec![Color::new(0, 300, FULL), Color::new(1000, 301, 0), Color::new(2001, 0, 10)];
    let mut rng = StdRng::seed_from_u64(9);
    let out = k_cluster_rgb_image(1, &samples, DEFAULT_TOL, DEFAULT_MAX_ITER, &mut rng).unwrap();
    assert_eq!(out.centroids, vec![Color::new(1000, 200, 21763)]);
    assert!(out.converged);
    assert_eq!(out.iterations, 2);
}

#[test]
fn red_and_blue_split_and_order_by_hue() {
    let mut samples = Vec::new();
    for _ in 0..20 {
        samples.push(Color::new(FULL, 0, 0));
        samples.push(Color::new(0, 0, FULL));
    }
    for seed in 0..5u64 {
        let mut rng = StdRng::seed_from_u64(seed);
        let p = extract_palette(2, &samples, DEFAULT_TOL, DEFAULT_MAX_ITER, &mut rng).unwrap();
        assert!(p.clustering.converged);
        assert_eq!(p.colors, vec![Rgb8 { r: 255, g: 0, b: 0 }, Rgb8 { r: 0, g: 0, b: 255 }]);
    }
}

#[test]
fn one_distinct_color_with_three_clusters_terminates() {
    let color = Color::new(1234, 40000, 777);
    let samples = vec![color; 25];
    let mut rng = StdRng::seed_from_u64(3);
    let out = k_cluster_rgb_image(3, &samples, DEFAULT_TOL, 50, &mut rng).unwrap();
    assert_eq!(out.centroids.len(), 3);
    assert!(out.iterations <= 50);
    assert!(!out.converged);
    assert!(out.centroids.contains(&color));
}

#[test]
fn iteration_bound_zero_still_runs_one_round() {
    let mut rng = StdRng::seed_from_u64(3);
    let out = k_cluster_rgb_image(2, &gradient(10), DEFAULT_TOL, 0, &mut rng).unwrap();
    assert_eq!(out.iterations, 1);
}

#[test]
fn nearest_breaks_ties_by_lowest_index() {
    let cs = vec![Color::new(10, 0, 0), Color::new(0, 0, 0), Color::new(0, 0, 0)];
    assert_eq!(nearest(&Color::new(0, 0, 0), &cs), 1);
    let tie = vec![Color::new(10, 0, 0), Color::new(0, 0, 0)];
    assert_eq!(nearest(&Color::new(5, 0, 0), &tie), 0);
    assert_eq!(nearest(&Color::new(6, 0, 0), &tie), 0);
    assert_eq!(nearest(&Color::new(4, 0, 0), &tie), 1);
}

#[test]
fn assignment_and_clusters() {
    let samples = vec![Color::new(0, 0, 0), Color::new(FULL, FULL, FULL), Color::new(10, 10, 10)];
    let cs = vec![Color::new(FULL, FULL, FULL), Color::new(0, 0, 0)];
    let labels = assign(&samples, &cs);
    assert_eq!(labels, vec![1, 0, 1]);
    assert_eq!(cluster_of(&samples, &labels, 1), vec![Color::new(0, 0, 0), Color::new(10, 10, 10)]);
    assert_eq!(cluster_of(&samples, &labels, 0), vec![Color::new(FULL, FULL, FULL)]);
    assert_eq!(cluster_of(&samples, &labels, 2), vec![]);
}

#[test]
fn centroid_is_truncated_mean() {
    let c = vec![Color::new(1, 2, 3), Color::new(2, 2, 4)];
    assert_eq!(calc_new_centroid(&c), Color::new(1, 2, 3));
    let c = vec![Color::new(FULL, FULL, 0), Color::new(FULL, 0, 0), Color::new(FULL, 0, 0)];
    assert_eq!(calc_new_centroid(&c), Color::new(FULL, 21760, 0));
}

#[test]
fn convergence_uses_tolerance_per_channel() {
    let a = vec![Color::new(100, 200, 300), Color::new(0, 0, 0)];
    let b = vec![Color::new(110, 190, 300), Color::new(0, 0, 10)];
    assert!(centroids_converged(&a, &b, 10));
    assert!(!centroids_converged(&a, &b, 9));
    let c = vec![Color::new(100, 200, 300), Color::new(0, 11, 0)];
    assert!(!centroids_converged(&a, &c, 10));
}

#[test]
fn distance_is_squared_euclidean() {
    assert_eq!(Color::new(0, 0, 0).distance_sq(&Color::new(3, 4, 12)), 169);
    assert_eq!(Color::new(FULL, 0, FULL).distance_sq(&Color::new(0, FULL, 0)), 3 * 65280u64 * 65280);
}
