use kmeans::{
    benchmark, check_points, points_from_vec, split_tokens, string_to_parsed_tokens, Cluster,
    KMeansRunner, KmeansConfig, KmeansError, Point, SortedSliceIter,
};
use rand::rngs::StdRng;
use rand::SeedableRng;

fn config(total_points: u32, spatial_dimensions: u32, k: u32, max_iterations: u32) -> KmeansConfig {
    KmeansConfig {
        total_points,
        spatial_dimensions,
        k,
        max_iterations,
        has_name: false,
    }
}

fn point(id: usize, cluster: usize, coord: Vec<i64>) -> Point {
    Point {
        point_id: id,
        cluster_id: cluster,
        coord,
    }
}

#[test]
fn test_get_tokens() {
    assert_eq!(
        string_to_parsed_tokens("1 2 3 15  61"),
        vec![1, 2, 3, 15, 61]
    );
    assert_eq!(
        split_tokens("hello world hi there"),
        vec!["hello", "world", "hi", "there"]
    );
}

#[test]
fn pfv_test() {
    let points = points_from_vec(vec![1, 2, 3, 4, 5, 6], 3);
    assert_eq!(points.len(), 2);
    assert_eq!(points[0].coord, vec![1, 2, 3]);
}

#[test]
fn test_cluster_add_and_update() {
    let mut cl = Cluster::new(0, vec![1, 2, 3]);
    let points = points_from_vec(vec![9, 8, 7, 5, 5, 5], 3);
    cl.update_center(&points, 0, 2);
    // elementwise means of (9,8,7) and (5,5,5), the fraction 13/2 rounded down
    assert_eq!(cl.coord, vec![7, 6, 6]);
}

#[test]
fn update_center_is_the_elementwise_mean() {
    let mut cl = Cluster::new(0, vec![1, 1, 1]);
    let points = points_from_vec(vec![0, 0, 0, 10, 10, 10], 3);
    cl.update_center(&points, 0, 2);
    assert_eq!(cl.coord, vec![5, 5, 5]);
}

#[test]
fn update_center_empty_group_freezes_centroid() {
    let mut cl = Cluster::new(3, vec![4, 4]);
    let points = points_from_vec(vec![1, 2], 2);
    cl.update_center(&points, 0, 0);
    assert_eq!(cl.coord, vec![4, 4]);
}

#[test]
fn closest_cluster_picks_the_nearest() {
    let p = point(0, 0, vec![5, 5]);
    let clusters = vec![Cluster::new(0, vec![1, 1]), Cluster::new(1, vec![4, 4])];
    assert_eq!(p.closest_cluster(&clusters), 1);
}

#[test]
fn closest_cluster_tie_goes_to_first() {
    let p = point(0, 0, vec![0]);
    let clusters = vec![Cluster::new(0, vec![1]), Cluster::new(1, vec![-1])];
    assert_eq!(p.closest_cluster(&clusters), 0);
}

#[test]
fn grouping_yields_maximal_runs() {
    let points: Vec<Point> = [0usize, 0, 1, 1, 1, 2]
        .iter()
        .enumerate()
        .map(|(id, c)| point(id, *c, vec![0]))
        .collect();
    let mut iter = SortedSliceIter::new(&points);
    let mut lengths = Vec::new();
    while let Some((lo, hi)) = iter.next() {
        lengths.push(hi - lo);
    }
    assert_eq!(lengths, vec![2, 3, 1]);
}

#[test]
fn grouping_of_empty_sequence_is_empty() {
    let points: Vec<Point> = Vec::new();
    let mut iter = SortedSliceIter::new(&points);
    assert_eq!(iter.next(), None);
}

#[test]
fn config_from_tokens_reads_first_four() {
    let cfg = KmeansConfig::from_tokens(&vec![100, 2, 3, 50, 0]).unwrap();
    assert_eq!(cfg.total_points, 100);
    assert_eq!(cfg.spatial_dimensions, 2);
    assert_eq!(cfg.k, 3);
    assert_eq!(cfg.max_iterations, 50);
    assert!(!cfg.has_name);
}

#[test]
fn config_from_tokens_rejects_short_input() {
    assert_eq!(
        KmeansConfig::from_tokens(&vec![1, 2, 3]),
        Err(KmeansError::InvalidConfiguration)
    );
}

#[test]
fn config_check_accepts_matching_buffer() {
    assert_eq!(config(3, 2, 2, 10).check(6), Ok(()));
}

#[test]
fn config_check_rejects_mismatched_buffer() {
    assert_eq!(
        config(3, 2, 2, 10).check(5),
        Err(KmeansError::InvalidConfiguration)
    );
}

#[test]
fn config_check_rejects_zero_k() {
    assert_eq!(
        config(3, 2, 0, 10).check(6),
        Err(KmeansError::InvalidConfiguration)
    );
}

#[test]
fn config_check_rejects_k_above_point_count() {
    assert_eq!(
        config(3, 2, 4, 10).check(6),
        Err(KmeansError::InvalidConfiguration)
    );
}

#[test]
fn new_rejects_k_larger_than_point_count() {
    let cfg = config(2, 1, 3, 10);
    let points = points_from_vec(vec![1, 2], 1);
    let mut rng = StdRng::seed_from_u64(7);
    assert!(matches!(
        KMeansRunner::new(&cfg, points, &mut rng),
        Err(KmeansError::InvalidConfiguration)
    ));
}

#[test]
fn new_samples_distinct_points_as_centroids() {
    let cfg = config(3, 1, 3, 10);
    let points = points_from_vec(vec![10, 20, 30], 1);
    let mut rng = StdRng::seed_from_u64(11);
    let runner = KMeansRunner::new(&cfg, points, &mut rng).unwrap();
    assert_eq!(runner.clusters.len(), 3);
    for (i, cl) in runner.clusters.iter().enumerate() {
        assert_eq!(cl.cluster_id, i);
    }
    // with k equal to the point count, the sampled centroid positions are
    // exactly the point positions, each used once
    let mut coords: Vec<i64> = runner.clusters.iter().map(|c| c.coord[0]).collect();
    coords.sort();
    assert_eq!(coords, vec![10, 20, 30]);
}

fn two_cluster_runner(max_iterations: u32) -> KMeansRunner {
    // two tight groups on the line: {0, 2, 4} and {100, 102, 104}, with the
    // centroids starting inside one group each
    let cfg = config(6, 1, 2, max_iterations);
    let points = points_from_vec(vec![0, 2, 4, 100, 102, 104], 1);
    let clusters = vec![Cluster::new(0, vec![4]), Cluster::new(1, vec![100])];
    KMeansRunner {
        cfg,
        clusters,
        points,
    }
}

#[test]
fn run_seq_separates_two_groups() {
    let mut runner = two_cluster_runner(20);
    let iters = runner.run_seq();
    assert!(iters >= 1);
    assert!(iters <= 20);
    for p in &runner.points {
        let expected = if p.coord[0] < 50 { 0 } else { 1 };
        assert_eq!(p.cluster_id, expected);
    }
    assert_eq!(runner.clusters[0].coord, vec![2]);
    assert_eq!(runner.clusters[1].coord, vec![102]);
}

#[test]
fn assignments_are_valid_after_any_run() {
    let cfg = config(5, 2, 2, 7);
    let points = points_from_vec(vec![0, 0, 1, 1, 8, 8, 9, 9, 9, 8], 2);
    let mut rng = StdRng::seed_from_u64(3);
    let mut runner = KMeansRunner::new(&cfg, points, &mut rng).unwrap();
    let iters = runner.run_seq();
    assert!(iters <= 7);
    for p in &runner.points {
        assert!(p.cluster_id < 2);
    }
}

#[test]
fn iteration_count_respects_the_cap() {
    let mut runner = two_cluster_runner(1);
    let iters = runner.run_par();
    assert_eq!(iters, 1);
}

#[test]
fn converged_run_is_idempotent() {
    let mut runner = two_cluster_runner(50);
    let iters = runner.run_seq();
    assert!(iters < 50, "the run must converge before the cap");
    let assignments: Vec<usize> = runner.points.iter().map(|p| p.cluster_id).collect();
    let centroids: Vec<Vec<i64>> = runner.clusters.iter().map(|c| c.coord.clone()).collect();
    // one further pass changes nothing
    runner.cfg.max_iterations = 1;
    let extra = runner.run_seq();
    assert_eq!(extra, 1);
    let assignments_after: Vec<usize> = runner.points.iter().map(|p| p.cluster_id).collect();
    let centroids_after: Vec<Vec<i64>> = runner.clusters.iter().map(|c| c.coord.clone()).collect();
    assert_eq!(assignments, assignments_after);
    assert_eq!(centroids, centroids_after);
}

#[test]
fn sequential_and_parallel_runs_agree() {
    let mut seq_runner = two_cluster_runner(20);
    let mut par_runner = two_cluster_runner(20);
    let seq_iters = seq_runner.run_seq();
    let par_iters = par_runner.run_par();
    assert_eq!(seq_iters, par_iters);
    let seq_asg: Vec<(usize, usize)> = seq_runner
        .points
        .iter()
        .map(|p| (p.point_id, p.cluster_id))
        .collect();
    let par_asg: Vec<(usize, usize)> = par_runner
        .points
        .iter()
        .map(|p| (p.point_id, p.cluster_id))
        .collect();
    assert_eq!(seq_asg, par_asg);
    let seq_centroids: Vec<Vec<i64>> = seq_runner.clusters.iter().map(|c| c.coord.clone()).collect();
    let par_centroids: Vec<Vec<i64>> = par_runner.clusters.iter().map(|c| c.coord.clone()).collect();
    assert_eq!(seq_centroids, par_centroids);
}

#[test]
fn modes_agree_from_sampled_start() {
    let cfg = config(8, 2, 3, 30);
    let coords = vec![0, 0, 1, 0, 0, 1, 50, 50, 51, 50, 90, 90, 91, 91, 90, 91];
    let mut rng1 = StdRng::seed_from_u64(99);
    let mut rng2 = StdRng::seed_from_u64(99);
    let mut a = KMeansRunner::new(&cfg, points_from_vec(coords.clone(), 2), &mut rng1).unwrap();
    let mut b = KMeansRunner::new(&cfg, points_from_vec(coords, 2), &mut rng2).unwrap();
    let ia = a.run_seq();
    let ib = b.run_par();
    assert_eq!(ia, ib);
    let asg_a: Vec<(usize, usize)> = a.points.iter().map(|p| (p.point_id, p.cluster_id)).collect();
    let asg_b: Vec<(usize, usize)> = b.points.iter().map(|p| (p.point_id, p.cluster_id)).collect();
    assert_eq!(asg_a, asg_b);
    for (ca, cb) in a.clusters.iter().zip(b.clusters.iter()) {
        assert_eq!(ca.coord, cb.coord);
    }
}

#[test]
fn run_sorts_points_by_cluster_then_id() {
    let mut runner = two_cluster_runner(20);
    runner.run_seq();
    for w in runner.points.windows(2) {
        let a = (w[0].cluster_id, w[0].point_id);
        let b = (w[1].cluster_id, w[1].point_id);
        assert!(a <= b);
    }
}

#[test]
fn parsing_handles_negative_numbers() {
    assert_eq!(string_to_parsed_tokens("-5 7 -300"), vec![-5, 7, -300]);
}

#[test]
fn parsing_of_empty_input_yields_no_tokens() {
    assert_eq!(string_to_parsed_tokens("   "), Vec::<i64>::new());
    assert_eq!(split_tokens(""), Vec::<String>::new());
}

#[test]
fn check_points_accepts_chunked_points_and_rejects_bad_ids() {
    let points = points_from_vec(vec![1, 2, 3, 4], 2);
    assert!(check_points(&points, 2));
    assert!(!check_points(&points, 3));
    let bad = vec![point(5, 0, vec![1, 2])];
    assert!(!check_points(&bad, 2));
}

#[test]
fn benchmark_returns_the_closure_result() {
    let (_elapsed, value) = benchmark(|| 21 * 2);
    assert_eq!(value, 42);
}
