use field_planner::geometry::{distance_rounded, Point};
use field_planner::graph::SpatialGraph;
use field_planner::planner::{compute_path, goal_estimate, neighbor_costs, same_node};

fn pt(x: i64, y: i64) -> Point {
    Point::new(x, y)
}

fn length(path: &[Point]) -> u128 {
    path.windows(2).map(|w| distance_rounded(w[0], w[1])).sum()
}

fn quad() -> SpatialGraph {
    SpatialGraph::from_parts(
        vec![pt(0, 0), pt(100_000, 0), pt(100_000, 100_000), pt(-100_000, 100_000)],
        vec![(0, 1), (1, 2), (2, 3), (3, 0)],
    )
    .unwrap()
}

#[test]
fn square_plan_has_length_of_either_side() {
    let g = SpatialGraph::from_parts(
        vec![pt(0, 0), pt(100_000, 0), pt(100_000, 100_000), pt(0, 100_000)],
        vec![(0, 1), (1, 2), (2, 3), (3, 0)],
    )
    .unwrap();
    let path = compute_path(pt(0, 0), pt(100_000, 100_000), &g).expect("square is connected");
    assert_eq!(length(&path), 200_000);
    assert_eq!(path.len(), 5);
}

#[test]
fn plan_takes_shorter_way_around() {
    let g = quad();
    let path = compute_path(pt(0, 0), pt(100_000, 100_000), &g).expect("connected");
    assert_eq!(length(&path), 200_000);
    assert_eq!(path, vec![pt(0, 0), pt(0, 0), pt(100_000, 0), pt(100_000, 100_000), pt(100_000, 100_000)]);
}

#[test]
fn plan_starts_and_ends_at_given_points() {
    let g = quad();
    let start = pt(-100_000, 100_000);
    let end = pt(100_000, 0);
    let path = compute_path(start, end, &g).expect("connected");
    assert_eq!(path[0], start);
    assert_eq!(*path.last().unwrap(), end);
    assert_eq!(path[1], start);
}

#[test]
fn plan_between_off_graph_points() {
    let g = SpatialGraph::default_field();
    let start = pt(105_000, -190_000);
    let end = pt(-180_000, 150_000);
    let path = compute_path(start, end, &g).expect("default field is connected");
    assert_eq!(path[0], start);
    assert_eq!(*path.last().unwrap(), end);
    assert!(path.len() >= 4);
}

#[test]
fn disconnected_graph_has_no_plan() {
    let g = SpatialGraph::from_parts(
        vec![pt(0, 0), pt(10_000, 0), pt(500_000, 0), pt(510_000, 0)],
        vec![(0, 1), (2, 3)],
    )
    .unwrap();
    assert!(compute_path(pt(-1_000, 0), pt(520_000, 0), &g).is_none());
    assert!(compute_path(pt(-1_000, 0), pt(11_000, 0), &g).is_some());
}

#[test]
fn single_node_graph_plans_through_it() {
    let g = SpatialGraph::from_parts(vec![pt(0, 0)], vec![]).unwrap();
    let path = compute_path(pt(-30_000, 0), pt(40_000, 0), &g).expect("both join the node");
    assert_eq!(path, vec![pt(-30_000, 0), pt(0, 0), pt(40_000, 0)]);
}

#[test]
fn end_may_join_the_start_node() {
    let g = SpatialGraph::from_parts(vec![pt(0, 0)], vec![]).unwrap();
    let path = compute_path(pt(500_000, 0), pt(510_000, 0), &g).expect("end joins start");
    assert_eq!(path, vec![pt(500_000, 0), pt(510_000, 0)]);
}

#[test]
fn neighbour_costs_are_rounded_distances() {
    let g = quad();
    let mut n = neighbor_costs(&g, 0);
    n.sort();
    assert_eq!(n, vec![(1, 100_000), (3, 141_421)]);
    assert_eq!(goal_estimate(&g, 0, 2), 141_421);
    assert!(same_node(3, 3));
    assert!(!same_node(3, 2));
}
