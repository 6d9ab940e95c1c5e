use field_planner::geometry::{
    ceil_sqrt, cross, distance_rounded, distance_sq, dot, floor_sqrt, nearest_node, round_sqrt, Point,
    COORD_LIMIT,
};

#[test]
fn square_roots_round_as_named() {
    assert_eq!(floor_sqrt(0), 0);
    assert_eq!(floor_sqrt(15), 3);
    assert_eq!(floor_sqrt(16), 4);
    assert_eq!(ceil_sqrt(15), 4);
    assert_eq!(ceil_sqrt(16), 4);
    assert_eq!(ceil_sqrt(17), 5);
    assert_eq!(round_sqrt(12), 3);
    assert_eq!(round_sqrt(13), 4);
    assert_eq!(round_sqrt(20), 4);
    assert_eq!(round_sqrt(21), 5);
}

#[test]
fn square_root_of_largest_distance() {
    let a = Point::new(-COORD_LIMIT, -COORD_LIMIT);
    let b = Point::new(COORD_LIMIT, COORD_LIMIT);
    let d = distance_sq(a, b);
    assert_eq!(d, 8 * (COORD_LIMIT as u128) * (COORD_LIMIT as u128));
    assert_eq!(distance_rounded(a, b), 3_037_000_500);
}

#[test]
fn distance_is_scaled_euclidean() {
    assert_eq!(distance_rounded(Point::new(0, 0), Point::new(300_000, 400_000)), 500_000);
    assert_eq!(distance_rounded(Point::new(0, 0), Point::new(1, 1)), 1);
}

#[test]
fn cross_and_dot_products() {
    let c = Point::new(0, 0);
    assert_eq!(cross(Point::new(1, 0), Point::new(0, 1), c), 1);
    assert_eq!(dot(Point::new(-2, 0), Point::new(3, 0), c), -6);
}

#[test]
fn clamped_saturates_coordinates() {
    let p = Point::clamped(i64::MAX, -5);
    assert_eq!(p, Point::new(COORD_LIMIT, -5));
}

#[test]
fn nearest_node_breaks_ties_by_index() {
    let nodes = vec![Point::new(10, 0), Point::new(-10, 0), Point::new(0, 3)];
    assert_eq!(nearest_node(&nodes, Point::new(0, 0)), 2);
    let tied = vec![Point::new(10, 0), Point::new(-10, 0)];
    assert_eq!(nearest_node(&tied, Point::new(0, 0)), 0);
}
