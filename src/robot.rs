//! The simulated robot: its pose, its target, and the controllers that move
//! it along a path planned to the target.
use vstd::prelude::*;

use crate::editor::MouseInput;
use crate::geometry::Point;
use crate::graph::SpatialGraph;
use crate::physics::{apply_angular_velocity, apply_velocity};
use crate::planner::{compute_path, is_plan, plannable, planned};
use crate::pursuit::{
    facing_velocity, first_unpassed, is_pursuit_velocity, AngularVelocity, PathFollower, TargetFacer,
    Velocity,
};

verus! {

/// Where the robot starts: (1.05, -1.9) field units, in fixed-point units.
pub const START_X: i64 = 105_000;

/// See `START_X`.
pub const START_Y: i64 = -190_000;

/// The heading the robot starts with: π/2, in microradians.
pub const START_HEADING: i64 = 1_570_796;

/// Gain of both controllers, per second.
pub const CONTROL_GAIN: u16 = 5;

/// Speed limit: 4 field units per second, in fixed-point units.
pub const MAX_SPEED: u32 = 400_000;

/// Angular speed limit: 4 radians per second, in microradians.
pub const MAX_TURN_RATE: u32 = 4_000_000;

/// The position the robot is sent to.
#[derive(Clone, Copy, Debug, PartialEq, Eq, Structural)]
pub struct TargetPosition(pub Point);

/// The robot: its pose, its target, its controllers and its current commands.
#[derive(Debug)]
pub struct Robot {
    pub pos: Point,
    /// Heading in microradians, counterclockwise from the x axis.
    pub heading: i64,
    pub target: TargetPosition,
    pub follower: PathFollower,
    pub facer: TargetFacer,
    pub velocity: Velocity,
    pub angular_velocity: AngularVelocity,
}

impl Robot {
    /// The robot at its starting pose, aimed at where it stands, at rest.
    pub fn spawn() -> (r: Robot)
        ensures
            r.wf(),
            r.pos == (Point { x: START_X, y: START_Y }),
            r.heading == START_HEADING,
            r.target == TargetPosition(Point { x: START_X, y: START_Y }),
            r.follower.target_path@.len() == 0,
            r.follower.p == CONTROL_GAIN,
            r.follower.max_speed == MAX_SPEED,
            r.facer == (TargetFacer { p: CONTROL_GAIN, max_speed: MAX_TURN_RATE }),
            r.velocity == Velocity(Point { x: 0, y: 0 }),
            r.angular_velocity == AngularVelocity(0),
    {
        let start = Point { x: START_X, y: START_Y };
        Robot {
            pos: start,
            heading: START_HEADING,
            target: TargetPosition(start),
            follower: PathFollower::new(CONTROL_GAIN, MAX_SPEED),
            facer: TargetFacer { p: CONTROL_GAIN, max_speed: MAX_TURN_RATE },
            velocity: Velocity(Point { x: 0, y: 0 }),
            angular_velocity: AngularVelocity(0),
        }
    }

    /// Position, target and every waypoint lie within the coordinate range.
    pub open spec fn wf(&self) -> bool {
        &&& self.pos.in_range()
        &&& self.target.0.in_range()
        &&& forall|k: int|
            0 <= k < self.follower.target_path@.len() ==> (#[trigger] self.follower.target_path@[k]).in_range()
    }

    /// Clicks outside edit mode: a left click sets the target, otherwise a
    /// right click puts the robot at the cursor. Returns whether either
    /// happened, that is whether the path must be planned again.
    pub fn click_events(&mut self, input: &MouseInput) -> (replan: bool)
        requires
            old(self).wf(),
            input.pos.in_range(),
        ensures
            final(self).wf(),
            replan == (input.left_just_pressed || input.right_just_pressed),
            input.left_just_pressed ==> final(self).target == TargetPosition(input.pos) && final(self).pos
                == old(self).pos,
            !input.left_just_pressed && input.right_just_pressed ==> final(self).pos == input.pos
                && final(self).target == old(self).target,
            !replan ==> final(self).pos == old(self).pos && final(self).target == old(self).target,
            final(self).heading == old(self).heading,
            final(self).follower.target_path@ == old(self).follower.target_path@,
            final(self).follower.p == old(self).follower.p,
            final(self).follower.max_speed == old(self).follower.max_speed,
            final(self).facer == old(self).facer,
    {
        if input.left_just_pressed {
            self.target = TargetPosition(input.pos);
            true
        } else if input.right_just_pressed {
            self.pos = input.pos;
            true
        } else {
            false
        }
    }

    /// Plans a new path from the robot to its target over `graph`. When the
    /// two are not connected the robot is left without a path and `false`
    /// is returned.
    pub fn recompute_robot_path(&mut self, graph: &SpatialGraph) -> (found: bool)
        requires
            old(self).wf(),
            graph.wf(),
            graph.nodes@.len() > 0,
            graph.nodes@.len() + 2 <= usize::MAX,
        ensures
            final(self).wf(),
            found == plannable(graph.nodes@, graph.edges@, old(self).pos, old(self).target.0),
            found ==> is_plan(graph.nodes@, graph.edges@, old(self).pos, old(self).target.0, final(self).follower.target_path@),
            found ==> planned(graph.nodes@, graph.edges@, old(self).pos, old(self).target.0) == Some(
                final(self).follower.target_path@,
            ),
            !found ==> final(self).follower.target_path@.len() == 0,
            final(self).pos == old(self).pos,
            final(self).heading == old(self).heading,
            final(self).target == old(self).target,
            final(self).follower.p == old(self).follower.p,
            final(self).follower.max_speed == old(self).follower.max_speed,
            final(self).facer == old(self).facer,
    {
        match compute_path(self.pos, self.target.0, graph) {
            Some(path) => {
                self.follower.target_path = path;
                true
            },
            None => {
                self.follower.target_path = Vec::new();
                false
            },
        }
    }

    /// One tick of both controllers; `bearing` is the direction from the
    /// robot to its target, in microradians.
    pub fn control(&mut self, bearing: i64)
        requires
            old(self).wf(),
        ensures
            final(self).wf(),
            final(self).pos == old(self).pos,
            final(self).heading == old(self).heading,
            final(self).target == old(self).target,
            final(self).facer == old(self).facer,
            final(self).follower.p == old(self).follower.p,
            final(self).follower.max_speed == old(self).follower.max_speed,
            forall|k: int|
                #[trigger] first_unpassed(old(self).follower.target_path@, old(self).pos, k) ==> {
                    let path = old(self).follower.target_path@;
                    &&& final(self).follower.target_path@ == path.subrange(k, path.len() as int)
                    &&& k == path.len() ==> final(self).velocity.0 == Point { x: 0, y: 0 }
                    &&& k < path.len() ==> is_pursuit_velocity(
                        old(self).follower.p as int,
                        old(self).follower.max_speed as int,
                        path[k],
                        old(self).pos,
                        final(self).velocity.0,
                    )
                },
            final(self).angular_velocity.0 == facing_velocity(
                old(self).facer,
                old(self).pos,
                old(self).target.0,
                old(self).heading as int,
                bearing as int,
            ),
    {
        self.velocity = self.follower.follow_path(self.pos);
        self.angular_velocity = self.facer.face_target(self.pos, self.target.0, self.heading, bearing);
    }

    /// Moves the robot by its current commands over `dt_us` microseconds.
    pub fn integrate(&mut self, dt_us: u64)
        requires
            old(self).wf(),
        ensures
            final(self).wf(),
            final(self).pos == crate::physics::moved_by(old(self).pos, old(self).velocity, dt_us as int),
            final(self).heading == crate::pursuit::normalized_angle(
                old(self).heading + crate::physics::step_of(old(self).angular_velocity.0 as int, dt_us as int),
            ),
            final(self).target == old(self).target,
            final(self).follower.target_path@ == old(self).follower.target_path@,
    {
        self.pos = apply_velocity(self.pos, self.velocity, dt_us);
        self.heading = apply_angular_velocity(self.heading, self.angular_velocity, dt_us);
    }
}

} // verus!
