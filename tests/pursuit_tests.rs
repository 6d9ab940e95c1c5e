use field_planner::geometry::Point;
use field_planner::physics::{apply_angular_velocity, apply_velocity};
use field_planner::pursuit::{angle_difference, AngularVelocity, PathFollower, TargetFacer, Velocity, PI_MICRORAD};

fn pt(x: i64, y: i64) -> Point {
    Point::new(x, y)
}

fn follower(path: Vec<Point>) -> PathFollower {
    let mut f = PathFollower::new(5, 400_000);
    f.target_path = path;
    f
}

#[test]
fn far_robot_heads_for_first_point_at_max_speed() {
    let mut f = follower(vec![pt(100_000, 0), pt(200_000, 0)]);
    let v = f.follow_path(pt(-500_000, 0));
    assert_eq!(v, Velocity(pt(400_000, 0)));
    assert_eq!(f.target_path.len(), 2);
}

#[test]
fn clamped_velocity_keeps_direction() {
    let mut f = follower(vec![pt(300_000, 400_000)]);
    let v = f.follow_path(pt(0, 0));
    assert_eq!(v, Velocity(pt(240_000, 320_000)));
}

#[test]
fn near_waypoint_velocity_is_proportional() {
    let mut f = follower(vec![pt(30_000, 0)]);
    let v = f.follow_path(pt(0, 0));
    assert_eq!(v, Velocity(pt(150_000, 0)));
}

#[test]
fn passed_waypoints_are_dropped() {
    let mut f = follower(vec![pt(0, 0), pt(40_000, 0), pt(300_000, 0)]);
    let v = f.follow_path(pt(10_000, 0));
    assert_eq!(f.target_path, vec![pt(300_000, 0)]);
    assert_eq!(v, Velocity(pt(400_000, 0)));
}

#[test]
fn robot_at_final_point_stops() {
    let mut f = follower(vec![pt(200_000, 0)]);
    let v = f.follow_path(pt(195_000, 0));
    assert_eq!(v, Velocity(pt(0, 0)));
    assert!(f.target_path.is_empty());
    let mut g = follower(vec![pt(200_000, 0)]);
    let v = g.follow_path(pt(188_000, 0));
    assert_eq!(v, Velocity(pt(60_000, 0)));
}

#[test]
fn empty_path_gives_zero_velocity() {
    let mut f = follower(vec![]);
    assert_eq!(f.follow_path(pt(5, 5)), Velocity(pt(0, 0)));
}

#[test]
fn target_behind_turns_counterclockwise_at_full_rate() {
    let facer = TargetFacer { p: 5, max_speed: 4_000_000 };
    let av = facer.face_target(pt(0, 0), pt(-100_000, 0), 0, PI_MICRORAD);
    assert_eq!(av, AngularVelocity(4_000_000));
}

#[test]
fn heading_turns_short_way_across_wrap() {
    let facer = TargetFacer { p: 5, max_speed: 4_000_000 };
    let av = facer.face_target(pt(0, 0), pt(100_000, 0), 3_000_000, -3_000_000);
    assert_eq!(av, AngularVelocity(1_415_930));
    let av = facer.face_target(pt(0, 0), pt(100_000, 0), -3_000_000, 3_000_000);
    assert_eq!(av, AngularVelocity(-1_415_930));
    let av = facer.face_target(pt(0, 0), pt(100_000, 0), 0, -2_000_000);
    assert_eq!(av, AngularVelocity(-4_000_000));
}

#[test]
fn target_within_reach_stops_turning() {
    let facer = TargetFacer { p: 5, max_speed: 4_000_000 };
    assert_eq!(facer.face_target(pt(0, 0), pt(5_000, 0), 0, 3_000_000), AngularVelocity(0));
}

#[test]
fn angle_difference_lies_in_half_open_range() {
    assert_eq!(angle_difference(PI_MICRORAD, 0), PI_MICRORAD);
    assert_eq!(angle_difference(0, PI_MICRORAD), PI_MICRORAD);
    assert_eq!(angle_difference(100, -100), 200);
    assert_eq!(angle_difference(-6_283_186 * 3 + 5, 0), 5);
}

#[test]
fn pose_integration() {
    assert_eq!(apply_velocity(pt(0, 0), Velocity(pt(400_000, -400_000)), 16_000), pt(6_400, -6_400));
    assert_eq!(apply_velocity(pt(0, 0), Velocity(pt(-1, 0)), 16_000), pt(0, 0));
    assert_eq!(apply_angular_velocity(3_000_000, AngularVelocity(4_000_000), 100_000), -2_883_186);
    assert_eq!(apply_angular_velocity(0, AngularVelocity(-4_000_000), 250_000), -1_000_000);
}
