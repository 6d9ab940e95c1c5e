use field_planner::editor::{
    find_hovered_edges, find_hovered_node, EditOutcome, EditState, GraphEditor, MouseDragDetector,
    MouseInput,
};
use field_planner::geometry::Point;
use field_planner::graph::SpatialGraph;

fn pt(x: i64, y: i64) -> Point {
    Point::new(x, y)
}

fn idle(pos: Point) -> MouseInput {
    MouseInput { pos, left_pressed: false, left_just_pressed: false, right_just_pressed: false, delta_us: 16_000 }
}

fn left_click(pos: Point) -> MouseInput {
    MouseInput { pos, left_pressed: true, left_just_pressed: true, right_just_pressed: false, delta_us: 16_000 }
}

fn left_hold(pos: Point, delta_us: u64) -> MouseInput {
    MouseInput { pos, left_pressed: true, left_just_pressed: false, right_just_pressed: false, delta_us }
}

fn right_click(pos: Point) -> MouseInput {
    MouseInput { pos, left_pressed: false, left_just_pressed: false, right_just_pressed: true, delta_us: 16_000 }
}

fn segment() -> SpatialGraph {
    SpatialGraph::from_parts(vec![pt(0, 0), pt(100_000, 0)], vec![(0, 1)]).unwrap()
}

fn tick(ed: &mut GraphEditor, g: &mut SpatialGraph, input: MouseInput) -> EditOutcome {
    ed.update_mouse_state(g, &input);
    assert!(ed.ready_for(g));
    ed.mouse_interaction(g, &input)
}

#[test]
fn cursor_on_node_hovers_node_not_edge() {
    let g = segment();
    let mut ed = GraphEditor::new();
    ed.update_mouse_state(&g, &idle(pt(0, 0)));
    assert_eq!(ed.hovered.node, Some(0));
    assert!(ed.hovered.edges.is_empty());
}

#[test]
fn closer_of_two_nearby_nodes_is_hovered() {
    let nodes = vec![pt(0, 0), pt(10_000, 0)];
    assert_eq!(find_hovered_node(&nodes, pt(6_000, 0)), Some(1));
    assert_eq!(find_hovered_node(&nodes, pt(4_000, 0)), Some(0));
    assert_eq!(find_hovered_node(&nodes, pt(5_000, 20_000)), None);
}

#[test]
fn hover_radius_is_exclusive() {
    let nodes = vec![pt(0, 0)];
    assert_eq!(find_hovered_node(&nodes, pt(12_999, 0)), Some(0));
    assert_eq!(find_hovered_node(&nodes, pt(13_000, 0)), None);
}

#[test]
fn edge_hovered_between_endpoints_only() {
    let g = segment();
    assert_eq!(find_hovered_edges(&g, pt(50_000, 0)), vec![0]);
    assert_eq!(find_hovered_edges(&g, pt(50_000, 9_000)), vec![0]);
    assert!(find_hovered_edges(&g, pt(50_000, 11_000)).is_empty());
    assert!(find_hovered_edges(&g, pt(150_000, 0)).is_empty());
}

#[test]
fn hover_changes_report_highlight_diff() {
    let g = segment();
    let mut ed = GraphEditor::new();
    let c = ed.update_mouse_state(&g, &idle(pt(50_000, 0)));
    assert_eq!(c.edges_on, vec![0]);
    assert!(c.edges_off.is_empty());
    let c = ed.update_mouse_state(&g, &idle(pt(0, 0)));
    assert_eq!(c.node_on, Some(0));
    assert_eq!(c.node_off, None);
    assert_eq!(c.edges_off, vec![0]);
    let c = ed.update_mouse_state(&g, &idle(pt(0, 0)));
    assert_eq!(c.node_on, None);
    assert!(c.edges_on.is_empty() && c.edges_off.is_empty());
}

#[test]
fn click_on_empty_space_creates_node_and_splits_edge() {
    let mut g = segment();
    let mut ed = GraphEditor::new();
    tick(&mut ed, &mut g, idle(pt(50_000, 0)));
    let out = tick(&mut ed, &mut g, left_click(pt(50_000, 0)));
    match out {
        EditOutcome::NodeAdded(2, split) => assert_eq!(split, vec![0]),
        _ => panic!("node not added"),
    }
    assert_eq!(g.nodes.len(), 3);
    assert_eq!(g.nodes[2], pt(50_000, 0));
    assert_eq!(g.edges, vec![(0, 2), (2, 1)]);
    assert!(g.find_edge(0, 2).is_some());
    assert!(g.find_edge(2, 1).is_some());
    assert!(g.find_edge(0, 1).is_none());
    assert_eq!(ed.state, EditState::MakingEdge(2, None));
}

#[test]
fn drawing_edge_previews_and_toggles() {
    let mut g = segment();
    let mut ed = GraphEditor::new();
    tick(&mut ed, &mut g, left_click(pt(0, 0)));
    assert_eq!(ed.state, EditState::MakingEdge(0, None));
    tick(&mut ed, &mut g, idle(pt(30_000, 70_000)));
    match ed.state {
        EditState::MakingEdge(0, Some(p)) => {
            assert_eq!(p.from, pt(0, 0));
            assert_eq!(p.to, pt(30_000, 70_000));
            assert!(!p.deletion);
        }
        other => panic!("unexpected state {:?}", other),
    }
    tick(&mut ed, &mut g, idle(pt(100_000, 1_000)));
    match ed.state {
        EditState::MakingEdge(0, Some(p)) => {
            assert_eq!(p.to, pt(100_000, 0));
            assert!(p.deletion);
        }
        other => panic!("unexpected state {:?}", other),
    }
    let out = tick(&mut ed, &mut g, left_click(pt(100_000, 0)));
    assert!(matches!(out, EditOutcome::EdgeRemoved(0)));
    assert!(g.edges.is_empty());
    assert_eq!(ed.state, EditState::Normal);
}

#[test]
fn drawing_edge_to_empty_space_makes_node() {
    let mut g = segment();
    let mut ed = GraphEditor::new();
    tick(&mut ed, &mut g, left_click(pt(100_000, 0)));
    tick(&mut ed, &mut g, idle(pt(100_000, 0)));
    tick(&mut ed, &mut g, idle(pt(100_000, 80_000)));
    let out = tick(&mut ed, &mut g, left_click(pt(100_000, 80_000)));
    assert!(matches!(out, EditOutcome::NodeAdded(2, ref split) if split.is_empty()));
    assert_eq!(g.nodes.len(), 3);
    assert_eq!(g.edges, vec![(0, 1), (1, 2)]);
    assert_eq!(ed.state, EditState::Normal);
}

#[test]
fn right_click_cancels_edge_drawing() {
    let mut g = segment();
    let mut ed = GraphEditor::new();
    tick(&mut ed, &mut g, left_click(pt(0, 0)));
    tick(&mut ed, &mut g, idle(pt(0, 0)));
    let out = tick(&mut ed, &mut g, right_click(pt(40_000, 40_000)));
    assert!(matches!(out, EditOutcome::Unchanged));
    assert_eq!(ed.state, EditState::Normal);
    assert_eq!(g.edges.len(), 1);
}

#[test]
fn right_click_on_node_deletes_it() {
    let mut g = SpatialGraph::default_field();
    let mut ed = GraphEditor::new();
    let out = tick(&mut ed, &mut g, right_click(pt(0, 60_000)));
    match out {
        EditOutcome::NodeRemoved(0, edges) => assert_eq!(edges, vec![0, 1, 2]),
        _ => panic!("node not removed"),
    }
    assert_eq!(g.nodes.len(), 7);
    assert_eq!(g.edges.len(), 7);
}

#[test]
fn right_click_on_edge_deletes_it() {
    let mut g = segment();
    let mut ed = GraphEditor::new();
    let out = tick(&mut ed, &mut g, right_click(pt(50_000, 0)));
    match out {
        EditOutcome::EdgesRemoved(edges) => assert_eq!(edges, vec![0]),
        _ => panic!("edges not removed"),
    }
    assert!(g.edges.is_empty());
    assert_eq!(g.nodes.len(), 2);
}

#[test]
fn dragging_a_node_moves_it_with_the_cursor() {
    let mut g = segment();
    let mut ed = GraphEditor::new();
    tick(&mut ed, &mut g, left_click(pt(1_000, 0)));
    tick(&mut ed, &mut g, left_hold(pt(1_000, 30_000), 16_000));
    assert_eq!(ed.state, EditState::DraggingNode(0, pt(-1_000, 0)));
    let out = tick(&mut ed, &mut g, left_hold(pt(1_000, 40_000), 16_000));
    assert_eq!(g.nodes[0], pt(0, 40_000));
    match out {
        EditOutcome::Moved(0, edges) => assert_eq!(edges, vec![0]),
        _ => panic!("node not moved"),
    }
    let mut release = idle(pt(1_000, 40_000));
    release.left_pressed = false;
    tick(&mut ed, &mut g, release);
    assert_eq!(ed.state, EditState::Normal);
    assert_eq!(g.nodes[0], pt(0, 40_000));
}

#[test]
fn holding_still_becomes_a_drag_after_delay() {
    let mut d = MouseDragDetector::new();
    d.update(&left_click(pt(0, 0)));
    assert!(!d.dragging(pt(0, 0)));
    d.update(&left_hold(pt(0, 0), 200_000));
    assert!(!d.dragging(pt(0, 0)));
    d.update(&left_hold(pt(0, 0), 100_000));
    assert!(d.dragging(pt(0, 0)));
    d.update(&idle(pt(0, 0)));
    assert!(!d.dragging(pt(0, 0)));
    assert_eq!(d.elapsed_us, 0);
}

#[test]
fn moving_beyond_threshold_is_a_drag() {
    let mut d = MouseDragDetector::new();
    d.update(&left_click(pt(0, 0)));
    assert!(!d.dragging(pt(10_000, 0)));
    assert!(d.dragging(pt(10_001, 0)));
}

#[test]
fn leaving_edit_mode_resets_state_and_highlights() {
    let mut g = segment();
    let mut ed = GraphEditor::new();
    tick(&mut ed, &mut g, left_click(pt(0, 0)));
    tick(&mut ed, &mut g, idle(pt(50_000, 0)));
    let c = ed.on_exit_edit_mode();
    assert_eq!(ed.state, EditState::Normal);
    assert_eq!(c.edges_off, vec![0]);
    assert_eq!(c.node_off, None);
    assert!(ed.hovered.highlighted_edges.is_empty());
}

#[test]
fn edit_sequence_keeps_edges_valid() {
    let mut g = SpatialGraph::default_field();
    let mut ed = GraphEditor::new();
    let script = vec![
        left_click(pt(110_000, 17_000)),
        idle(pt(110_000, 17_000)),
        left_click(pt(0, 212_000)),
        right_click(pt(0, 60_000)),
        left_click(pt(-100_000, -100_000)),
        idle(pt(-100_000, -100_000)),
        left_click(pt(225_000, 158_000)),
        right_click(pt(166_000, -142_000)),
        left_click(pt(30_000, 30_000)),
        right_click(pt(30_000, 30_000)),
        right_click(pt(-45_000, -144_000)),
    ];
    for input in script {
        tick(&mut ed, &mut g, input);
        for &(a, b) in &g.edges {
            assert!(a < g.nodes.len() && b < g.nodes.len() && a != b);
        }
        for i in 0..g.edges.len() {
            for j in 0..i {
                let (a, b) = g.edges[i];
                assert!(g.edges[j] != (a, b) && g.edges[j] != (b, a));
            }
        }
    }
    assert!(SpatialGraph::from_parts(g.nodes.clone(), g.edges.clone()).is_some());
}

#[test]
fn edge_ending_on_its_own_edge_adds_no_duplicate() {
    let mut g = segment();
    let mut ed = GraphEditor::new();
    tick(&mut ed, &mut g, left_click(pt(0, 0)));
    tick(&mut ed, &mut g, idle(pt(50_000, 0)));
    let out = tick(&mut ed, &mut g, left_click(pt(50_000, 0)));
    assert!(matches!(out, EditOutcome::NodeAdded(2, ref split) if *split == vec![0]));
    assert_eq!(g.edges, vec![(0, 2), (2, 1)]);
    assert_eq!(ed.state, EditState::Normal);
}

#[test]
fn toggling_a_new_edge_reports_it() {
    let mut g = SpatialGraph::default_field();
    let mut ed = GraphEditor::new();
    tick(&mut ed, &mut g, left_click(pt(0, 60_000)));
    tick(&mut ed, &mut g, idle(pt(0, 60_000)));
    let out = tick(&mut ed, &mut g, left_click(pt(225_000, 158_000)));
    assert!(matches!(out, EditOutcome::EdgeAdded));
    assert_eq!(g.edges[10], (0, 2));
}
