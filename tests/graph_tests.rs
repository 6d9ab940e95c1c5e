use field_planner::geometry::Point;
use field_planner::graph::SpatialGraph;

fn pt(x: i64, y: i64) -> Point {
    Point::new(x, y)
}

fn has(g: &SpatialGraph, a: usize, b: usize) -> bool {
    g.find_edge(a, b).is_some()
}

#[test]
fn default_field_matches_builtin_layout() {
    let g = SpatialGraph::default_field();
    assert_eq!(g.nodes.len(), 8);
    assert_eq!(g.nodes[0], pt(0, 60_000));
    assert_eq!(g.nodes[4], pt(-199_000, 170_000));
    assert_eq!(g.nodes[7], pt(166_000, -142_000));
    assert_eq!(
        g.edges,
        vec![(0, 1), (0, 3), (0, 5), (1, 2), (2, 3), (3, 4), (4, 5), (5, 6), (6, 7), (7, 1)]
    );
}

#[test]
fn from_parts_accepts_valid_graph() {
    let g = SpatialGraph::from_parts(vec![pt(0, 0), pt(10, 0)], vec![(0, 1)]);
    assert!(g.is_some());
    assert_eq!(g.unwrap().edges, vec![(0, 1)]);
}

#[test]
fn from_parts_rejects_dangling_edge() {
    assert!(SpatialGraph::from_parts(vec![pt(0, 0), pt(10, 0)], vec![(0, 2)]).is_none());
}

#[test]
fn from_parts_rejects_loop_and_duplicates() {
    assert!(SpatialGraph::from_parts(vec![pt(0, 0), pt(10, 0)], vec![(1, 1)]).is_none());
    assert!(SpatialGraph::from_parts(vec![pt(0, 0), pt(10, 0)], vec![(0, 1), (1, 0)]).is_none());
}

#[test]
fn from_parts_rejects_point_out_of_range() {
    let far = field_planner::geometry::COORD_LIMIT + 1;
    assert!(SpatialGraph::from_parts(vec![pt(far, 0)], vec![]).is_none());
}

#[test]
fn find_edge_ignores_order() {
    let g = SpatialGraph::default_field();
    for a in 0..8 {
        for b in 0..8 {
            assert_eq!(g.find_edge(a, b), g.find_edge(b, a));
        }
    }
    assert_eq!(g.find_edge(1, 7), Some(9));
    assert_eq!(g.find_edge(0, 2), None);
}

#[test]
fn add_edge_rejects_existing_and_loops() {
    let mut g = SpatialGraph::default_field();
    assert!(!g.add_edge(3, 0));
    assert!(!g.add_edge(2, 2));
    assert!(g.add_edge(0, 2));
    assert_eq!(g.edges.len(), 11);
    assert_eq!(g.edges[10], (0, 2));
}

#[test]
fn toggle_twice_restores_edge_set() {
    let mut g = SpatialGraph::default_field();
    let before = g.edges.clone();
    assert!(g.toggle_edge(2, 6));
    assert!(has(&g, 2, 6));
    assert!(!g.toggle_edge(6, 2));
    assert_eq!(g.edges, before);

    assert!(!g.toggle_edge(3, 0));
    assert!(!has(&g, 0, 3));
    assert!(g.toggle_edge(3, 0));
    assert_eq!(g.edges.len(), before.len());
    for &(a, b) in &before {
        assert!(has(&g, a, b));
    }
}

#[test]
fn connected_edges_lists_incident_edges() {
    let g = SpatialGraph::default_field();
    assert_eq!(g.connected_edges(0), vec![0, 1, 2]);
    assert_eq!(g.connected_edges(7), vec![8, 9]);
}

#[test]
fn remove_node_drops_incident_edges_and_renumbers() {
    let mut g = SpatialGraph::default_field();
    let removed = g.remove_node(0);
    assert_eq!(removed, vec![0, 1, 2]);
    assert_eq!(g.nodes.len(), 7);
    assert_eq!(g.nodes[0], pt(219_000, -26_000));
    assert_eq!(g.edges, vec![(0, 1), (1, 2), (2, 3), (3, 4), (4, 5), (5, 6), (6, 0)]);
    for &(a, b) in &g.edges {
        assert!(a < g.nodes.len() && b < g.nodes.len());
    }
}

#[test]
fn remove_last_node_keeps_other_indices() {
    let mut g = SpatialGraph::default_field();
    let removed = g.remove_node(7);
    assert_eq!(removed, vec![8, 9]);
    assert_eq!(g.edges.len(), 8);
    assert_eq!(g.edges[7], (5, 6));
}

#[test]
fn remove_edges_keeps_order_of_rest() {
    let mut g = SpatialGraph::default_field();
    g.remove_edges(&vec![1, 4, 9]);
    assert_eq!(g.edges, vec![(0, 1), (0, 5), (1, 2), (3, 4), (4, 5), (5, 6), (6, 7)]);
}

#[test]
fn split_edges_routes_through_new_node() {
    let mut g = SpatialGraph::from_parts(vec![pt(0, 0), pt(100_000, 0), pt(0, 100_000)], vec![(0, 1), (0, 2)])
        .unwrap();
    let mid = g.add_node(pt(50_000, 0));
    g.split_edges(mid, &vec![0]);
    assert_eq!(g.edges, vec![(0, 2), (0, 3), (3, 1)]);
}

#[test]
fn split_of_edges_sharing_an_endpoint_adds_no_duplicate() {
    let mut g = SpatialGraph::from_parts(
        vec![pt(0, 0), pt(100_000, 0), pt(100_000, 1)],
        vec![(0, 1), (0, 2)],
    )
    .unwrap();
    let mid = g.add_node(pt(50_000, 0));
    g.split_edges(mid, &vec![0, 1]);
    assert_eq!(g.edges, vec![(0, 3), (3, 2), (3, 1)]);
}

#[test]
fn move_node_keeps_edges() {
    let mut g = SpatialGraph::default_field();
    g.move_node(2, pt(1, 2));
    assert_eq!(g.nodes[2], pt(1, 2));
    assert_eq!(g.edges.len(), 10);
}

#[test]
fn split_of_disjoint_edges_adds_one_edge_each() {
    let mut g = SpatialGraph::from_parts(
        vec![pt(0, 0), pt(100_000, 0), pt(0, 10), pt(100_000, 10), pt(0, 500_000), pt(9, 9)],
        vec![(0, 1), (4, 5), (2, 3)],
    )
    .unwrap();
    let mid = g.add_node(pt(50_000, 5));
    g.split_edges(mid, &vec![0, 2]);
    assert_eq!(g.edges, vec![(4, 5), (2, 6), (6, 3), (0, 6), (6, 1)]);
    assert_eq!(g.edges.len(), 3 + 2);
}
