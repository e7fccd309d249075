use kmeans_incidents::engine::{
    assign_points, calculate_average_datapoint, init_centroids, recompute_centroids, run,
    run_with_centroids, ClusterError,
};
use kmeans_incidents::index::DistanceIndex;
use kmeans_incidents::point::{distance_squared, point_eq, Centroid, Point};

// Coordinates are fixed-point with six decimal places: 1.0 == 1_000_000.
const SCALE: i64 = 1_000_000;

fn pt(lat: i64, lon: i64, weapon: &str, race: &str) -> Point {
    Point::new(lat, lon, weapon.to_string(), race.to_string())
}

// The four-point scenario: two pairs far apart from each other.
fn scenario_points() -> Vec<Point> {
    vec![
        pt(0, 0, "gun", "A"),
        pt(0, SCALE / 10, "gun", "A"),
        pt(10 * SCALE, 10 * SCALE, "knife", "B"),
        pt(10 * SCALE, 10 * SCALE + SCALE / 10, "knife", "B"),
    ]
}

#[test]
fn test_calculate_average_datapoint() {
    let points = vec![pt(SCALE, SCALE, "", ""), pt(0, 0, "", "")];
    let c = calculate_average_datapoint(&points);
    // the mean is exactly (0.5, 0.5): the rational lat_sum/count equals 500_000 exactly
    assert!(c.lat_sum == 500_000 * c.count as i64);
    assert!(c.lon_sum == 500_000 * c.count as i64);
}

#[test]
fn average_of_single_point_is_the_point() {
    let points = vec![pt(7, -9, "gun", "A")];
    let c = calculate_average_datapoint(&points);
    assert_eq!((c.lat_sum, c.lon_sum, c.count), (7, -9, 1));
}

#[test]
fn distance_squared_concrete() {
    let a = pt(0, 0, "gun", "A");
    let b = pt(3, 4, "knife", "B");
    assert_eq!(distance_squared(&a, &b), 25);
}

#[test]
fn distance_is_zero_on_self_and_symmetric() {
    let a = pt(123, -456, "gun", "A");
    let b = pt(-789, 1011, "knife", "B");
    assert_eq!(distance_squared(&a, &a), 0);
    assert_eq!(distance_squared(&a, &b), distance_squared(&b, &a));
}

#[test]
fn distance_triangle_inequality_concrete() {
    // squared form: x <= y + z, or (x - y - z)^2 <= 4yz
    let a = pt(0, 0, "g", "A");
    let b = pt(1, 2, "g", "A");
    let c = pt(5, -3, "g", "A");
    let x = distance_squared(&a, &c) as i128;
    let y = distance_squared(&a, &b) as i128;
    let z = distance_squared(&b, &c) as i128;
    assert!(x <= y + z || (x - y - z) * (x - y - z) <= 4 * y * z);
}

#[test]
fn point_equality_is_structural() {
    let a = pt(1, 2, "gun", "A");
    let b = pt(1, 2, "gun", "A");
    let c = pt(1, 2, "knife", "A");
    assert!(point_eq(&a, &b));
    assert!(!point_eq(&a, &c));
}

#[test]
fn partition_completeness_concrete() {
    // every input point appears in exactly one output group
    let points = scenario_points();
    let clusters = run(&points, 2, 1000).unwrap();
    assert_eq!(clusters.len(), 2);
    let total: usize = clusters.iter().map(|c| c.len()).sum();
    assert_eq!(total, points.len());
    for p in &points {
        let occurrences: usize = clusters
            .iter()
            .map(|c| c.iter().filter(|q| point_eq(q, p)).count())
            .sum();
        assert_eq!(occurrences, 1);
    }
}

#[test]
fn convergence_means_recompute_is_fixed() {
    // after convergence, recomputing centroids from the returned
    // partition moves none of them
    let points = scenario_points();
    let init = vec![Centroid::from_point(&points[0]), Centroid::from_point(&points[2])];
    let (groups, cents) = run_with_centroids(&points, init, 1000).unwrap();
    let recomputed = recompute_centroids(&groups, &cents);
    for i in 0..cents.len() {
        assert!(recomputed[i].coords_equal(&cents[i]));
    }
}

#[test]
fn deterministic_given_fixed_centroids() {
    let points = scenario_points();
    let init1 = vec![Centroid::from_point(&points[1]), Centroid::from_point(&points[3])];
    let init2 = init1.clone();
    let (groups1, cents1) = run_with_centroids(&points, init1, 1000).unwrap();
    let (groups2, cents2) = run_with_centroids(&points, init2, 1000).unwrap();
    assert_eq!(cents1, cents2);
    assert_eq!(groups1.len(), groups2.len());
    for i in 0..groups1.len() {
        assert_eq!(groups1[i].len(), groups2[i].len());
        for j in 0..groups1[i].len() {
            assert!(point_eq(&groups1[i][j], &groups2[i][j]));
        }
    }
}

#[test]
fn k_equal_to_distinct_count_gives_singletons() {
    // with one centroid per distinct point the first assignment already
    // matches: every cluster holds exactly one point
    let points = scenario_points();
    let clusters = run(&points, 4, 1000).unwrap();
    assert_eq!(clusters.len(), 4);
    for c in &clusters {
        assert_eq!(c.len(), 1);
    }
}

#[test]
fn k_as_stubbed_self_centroids_converges_immediately() {
    let points = scenario_points();
    let init: Vec<Centroid> = points.iter().map(Centroid::from_point).collect();
    let (groups, cents) = run_with_centroids(&points, init, 0).unwrap();
    // zero recomputation steps were allowed, so it converged at once
    assert_eq!(groups.len(), 4);
    for (i, g) in groups.iter().enumerate() {
        assert_eq!(g.len(), 1);
        assert!(point_eq(&g[0], &points[i]));
        assert!(cents[i].coords_equal(&Centroid::from_point(&points[i])));
    }
}

#[test]
fn k_greater_than_distinct_count_fails() {
    let points = vec![
        pt(0, 0, "gun", "A"),
        pt(0, 0, "gun", "A"),
        pt(1, 1, "knife", "B"),
    ];
    let r = run(&points, 3, 1000);
    assert_eq!(
        r.unwrap_err(),
        ClusterError::InsufficientData { requested: 3, distinct: 2 }
    );
}

#[test]
fn empty_input_fails_with_insufficient_data() {
    let points: Vec<Point> = Vec::new();
    let r = run(&points, 1, 1000);
    assert_eq!(
        r.unwrap_err(),
        ClusterError::InsufficientData { requested: 1, distinct: 0 }
    );
}

#[test]
fn duplicates_count_once_for_initialization() {
    // two pairs of identical points: exactly two distinct values, so
    // k == 2 succeeds even though k == 3 would not
    let points = vec![
        pt(0, 0, "gun", "A"),
        pt(0, 0, "gun", "A"),
        pt(9 * SCALE, 9 * SCALE, "knife", "B"),
        pt(9 * SCALE, 9 * SCALE, "knife", "B"),
    ];
    let chosen = init_centroids(&points, 2).unwrap();
    assert_eq!(chosen.len(), 2);
    assert!(!point_eq(&chosen[0], &chosen[1]));
    assert!(run(&points, 3, 1000).is_err());
}

#[test]
fn no_convergence_within_zero_iterations() {
    // a single centroid away from the mean cannot converge with a cap of
    // zero recomputation steps
    let points = vec![pt(0, 0, "gun", "A"), pt(10 * SCALE, 10 * SCALE, "knife", "B")];
    let init = vec![Centroid::from_point(&points[0])];
    let r = run_with_centroids(&points, init, 0);
    assert_eq!(r.unwrap_err(), ClusterError::NoConvergence);
}

#[test]
fn empty_cluster_keeps_previous_centroid() {
    // both initial centroids sit on the same spot: the tie-break sends
    // every point to the first, and the empty second cluster keeps its
    // centroid unchanged
    let points = vec![pt(4, 4, "gun", "A")];
    let c = Centroid::from_point(&points[0]);
    let init = vec![c, c];
    let (groups, cents) = run_with_centroids(&points, init, 10).unwrap();
    assert_eq!(groups[0].len(), 1);
    assert_eq!(groups[1].len(), 0);
    assert!(cents[1].coords_equal(&c));
}

#[test]
fn assignment_tie_breaks_to_first_centroid() {
    // the point is equidistant from both centroids; the first index wins
    let points = vec![pt(0, 0, "gun", "A")];
    let init = vec![
        Centroid::from_point(&pt(1, 0, "x", "y")),
        Centroid::from_point(&pt(-1, 0, "x", "y")),
    ];
    let groups = assign_points(&points, &init);
    assert_eq!(groups[0].len(), 1);
    assert_eq!(groups[1].len(), 0);
}

#[test]
fn distance_index_matrix_is_symmetric_with_zero_diagonal() {
    let points = scenario_points();
    let idx = DistanceIndex::new(&points);
    assert_eq!(idx.nodes.len(), 4);
    assert_eq!(idx.graph.len(), 4);
    for i in 0..4 {
        assert_eq!(idx.graph[i][i], 0);
        for j in 0..4 {
            assert_eq!(idx.graph[i][j], idx.graph[j][i]);
            assert_eq!(idx.graph[i][j], distance_squared(&points[i], &points[j]));
        }
    }
}
