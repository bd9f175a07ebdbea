use aoc2025::clustering::{best_connections, best_connections_2, parse_coords, part_one, part_two, ClusterError};
use aoc2025::geometry::Coord;

fn line(xs: &[i64]) -> Vec<Coord> {
    xs.iter().map(|&x| Coord::new(x, 0, 0)).collect()
}

fn two_triples() -> Vec<Coord> {
    vec![
        Coord::new(0, 0, 0),
        Coord::new(1, 0, 0),
        Coord::new(0, 1, 0),
        Coord::new(1000, 1000, 1000),
        Coord::new(1001, 1000, 1000),
        Coord::new(1000, 1001, 1000),
    ]
}

const EXAMPLE: &str = "162,817,812
57,618,57
906,360,560
592,479,940
352,342,300
466,668,158
542,29,236
431,825,988
739,650,466
52,470,668
216,146,977
819,987,18
117,168,530
805,96,715
346,949,466
970,615,88
941,993,340
862,61,35
984,92,344
425,690,689
";

#[test]
fn two_tight_triples() {
    assert_eq!(best_connections(two_triples(), 2, 6), Ok(9));
}

#[test]
fn collinear_percolation() {
    assert_eq!(best_connections_2(line(&[0, 10, 11, 30])), Ok(330));
}

#[test]
fn percolation_of_two_points() {
    assert_eq!(best_connections_2(line(&[7, 9])), Ok(63));
}

#[test]
fn percolation_needs_two_points() {
    assert_eq!(best_connections_2(line(&[7])), Err(ClusterError::InsufficientPoints));
    assert_eq!(best_connections_2(Vec::new()), Err(ClusterError::InsufficientPoints));
}

#[test]
fn clustering_needs_a_point() {
    assert_eq!(best_connections(Vec::new(), 3, 10), Err(ClusterError::InsufficientPoints));
}

#[test]
fn zero_budget_leaves_singletons() {
    assert_eq!(best_connections(two_triples(), 3, 0), Ok(1));
}

#[test]
fn full_budget_joins_everything() {
    assert_eq!(best_connections(two_triples(), 3, 15), Ok(6));
    assert_eq!(best_connections(two_triples(), 3, 100), Ok(6));
}

#[test]
fn rank_count_beyond_clusters_multiplies_all() {
    // The two closest pairs both touch point 0: one cluster of three and
    // three singletons.
    assert_eq!(best_connections(two_triples(), 10, 2), Ok(3));
}

#[test]
fn zero_rank_count_gives_one() {
    assert_eq!(best_connections(two_triples(), 0, 6), Ok(1));
}

#[test]
fn far_points_overflow() {
    let pts = vec![Coord::new(i64::MIN, 0, 0), Coord::new(i64::MAX, 0, 0)];
    assert_eq!(best_connections(pts.clone(), 1, 1), Err(ClusterError::Overflow));
    assert_eq!(best_connections_2(pts), Err(ClusterError::Overflow));
}

#[test]
fn negative_score_is_out_of_range() {
    assert_eq!(best_connections_2(line(&[-3, 5])), Err(ClusterError::Overflow));
}

#[test]
fn example_ten_connections() {
    let coords = parse_coords(EXAMPLE).unwrap();
    assert_eq!(coords.len(), 20);
    assert_eq!(best_connections(coords, 3, 10), Ok(40));
}

#[test]
fn example_part_two() {
    assert_eq!(part_two(EXAMPLE), Some(25272));
}

#[test]
fn example_part_one_runs() {
    // Fewer than a thousand pairs: every pair joins one cluster.
    assert_eq!(part_one(EXAMPLE), Some(20));
}

#[test]
fn parse_rejects_bad_lines() {
    assert!(parse_coords("1,2\n").is_none());
    assert!(parse_coords("1,2,x\n").is_none());
    assert!(parse_coords("1,2,3,4\n").is_none());
    let pts = parse_coords("-1,2,-30\n4,5,6").unwrap();
    assert_eq!(pts, vec![Coord::new(-1, 2, -30), Coord::new(4, 5, 6)]);
}

#[test]
fn distance_is_squared_euclidean() {
    assert_eq!(Coord::new(1, 2, 3).dist(&Coord::new(4, 6, 3)), Some(25));
    assert_eq!(Coord::new(4, 6, 3).dist(&Coord::new(1, 2, 3)), Some(25));
}

#[test]
fn idle_tied_edge_does_not_change_percolation() {
    // (0,1) and (1,2) tie at distance 1 and both merge; (0,2) joins nothing.
    assert_eq!(best_connections_2(line(&[0, 1, 2])), Ok(2));
    // Same ties, listed in the other order: the last merge is still (1,2).
    assert_eq!(best_connections_2(line(&[2, 1, 0])), Ok(0));
}
