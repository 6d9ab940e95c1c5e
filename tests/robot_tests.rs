use field_planner::auto::{gen_auto_path, Auto, Waypoints, START_WAYPOINT};
use field_planner::editor::MouseInput;
use field_planner::geometry::Point;
use field_planner::graph::SpatialGraph;
use field_planner::pursuit::Velocity;
use field_planner::robot::{Robot, TargetPosition, START_HEADING};

fn pt(x: i64, y: i64) -> Point {
    Point::new(x, y)
}

fn click(pos: Point, left: bool) -> MouseInput {
    MouseInput { pos, left_pressed: left, left_just_pressed: left, right_just_pressed: !left, delta_us: 16_000 }
}

#[test]
fn robot_spawns_at_rest() {
    let r = Robot::spawn();
    assert_eq!(r.pos, pt(105_000, -190_000));
    assert_eq!(r.heading, START_HEADING);
    assert_eq!(r.target, TargetPosition(pt(105_000, -190_000)));
    assert!(r.follower.target_path.is_empty());
    assert_eq!(r.velocity, Velocity(pt(0, 0)));
}

#[test]
fn clicks_set_target_or_move_robot() {
    let mut r = Robot::spawn();
    assert!(r.click_events(&click(pt(1, 2), true)));
    assert_eq!(r.target, TargetPosition(pt(1, 2)));
    assert!(r.click_events(&click(pt(3, 4), false)));
    assert_eq!(r.pos, pt(3, 4));
    let none = MouseInput { pos: pt(9, 9), left_pressed: false, left_just_pressed: false, right_just_pressed: false, delta_us: 1 };
    assert!(!r.click_events(&none));
    assert_eq!(r.pos, pt(3, 4));
}

#[test]
fn robot_replans_and_drives_toward_target() {
    let g = SpatialGraph::default_field();
    let mut r = Robot::spawn();
    r.click_events(&click(pt(225_000, 158_000), true));
    assert!(r.recompute_robot_path(&g));
    assert_eq!(r.follower.target_path[0], pt(105_000, -190_000));
    assert_eq!(*r.follower.target_path.last().unwrap(), pt(225_000, 158_000));
    r.control(1_234_000);
    assert_ne!(r.velocity, Velocity(pt(0, 0)));
    let before = r.pos;
    r.integrate(16_000);
    assert_ne!(r.pos, before);
}

#[test]
fn unreachable_target_leaves_robot_without_path() {
    let g = SpatialGraph::from_parts(
        vec![pt(0, 0), pt(10_000, 0), pt(500_000, 0), pt(510_000, 0)],
        vec![(0, 1), (2, 3)],
    )
    .unwrap();
    let mut r = Robot::spawn();
    r.pos = pt(-1_000, 0);
    r.target = TargetPosition(pt(520_000, 0));
    r.follower.target_path = vec![pt(7, 7)];
    assert!(!r.recompute_robot_path(&g));
    assert!(r.follower.target_path.is_empty());
}

fn waypoints() -> Waypoints {
    Waypoints::from_entries(vec![
        (START_WAYPOINT.to_string(), pt(105_000, -190_000)),
        ("a".to_string(), pt(225_000, 158_000)),
        ("b".to_string(), pt(-199_000, 170_000)),
    ])
    .unwrap()
}

#[test]
fn waypoint_names_must_be_unique() {
    let dup = vec![("a".to_string(), pt(0, 0)), ("a".to_string(), pt(1, 1))];
    assert!(Waypoints::from_entries(dup).is_none());
    let far = vec![("a".to_string(), pt(field_planner::geometry::COORD_LIMIT + 1, 0))];
    assert!(Waypoints::from_entries(far).is_none());
}

#[test]
fn empty_route_needs_no_graph() {
    let g = SpatialGraph::from_parts(vec![], vec![]).unwrap();
    let auto = Auto { wpts: vec![] };
    assert_eq!(gen_auto_path(&auto, &waypoints(), &g), Some(vec![pt(105_000, -190_000)]));
}

#[test]
fn waypoint_lookup_by_name() {
    let w = waypoints();
    assert_eq!(w.get(&"b".to_string()), Some(pt(-199_000, 170_000)));
    assert_eq!(w.get(&"c".to_string()), None);
}

#[test]
fn waypoints_move_into_world_frame() {
    let w = Waypoints::from_entries(vec![("p".to_string(), pt(1, 2))]).unwrap().to_world(pt(10, 20));
    assert_eq!(w.entries[0].1, pt(8, 21));
    assert_eq!(w.entries[0].0, "p");
}

#[test]
fn auto_path_chains_legs() {
    let g = SpatialGraph::default_field();
    let auto = Auto { wpts: vec!["a".to_string(), "b".to_string()] };
    let path = gen_auto_path(&auto, &waypoints(), &g).expect("field is connected");
    assert_eq!(path[0], pt(105_000, -190_000));
    assert_eq!(path[1], pt(105_000, -190_000));
    assert_eq!(*path.last().unwrap(), pt(-199_000, 170_000));
    let a_at = path.iter().position(|&p| p == pt(225_000, 158_000)).unwrap();
    assert_eq!(path[a_at + 1], pt(225_000, 158_000));
}

#[test]
fn auto_path_without_legs_is_start_alone() {
    let g = SpatialGraph::default_field();
    let auto = Auto { wpts: vec![] };
    assert_eq!(gen_auto_path(&auto, &waypoints(), &g), Some(vec![pt(105_000, -190_000)]));
}

#[test]
fn auto_path_with_unreachable_leg_is_none() {
    let g = SpatialGraph::from_parts(
        vec![pt(100_000, -190_000), pt(110_000, -190_000), pt(-199_000, 170_000), pt(-190_000, 170_000)],
        vec![(0, 1), (2, 3)],
    )
    .unwrap();
    let auto = Auto { wpts: vec!["b".to_string()] };
    assert_eq!(gen_auto_path(&auto, &waypoints(), &g), None);
}
