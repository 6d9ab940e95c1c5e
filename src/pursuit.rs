//! The pursuit controller: two proportional loops, one steering the robot's
//! velocity along a waypoint path, one turning its heading toward a target.
//! Angles are in microradians.
use vstd::prelude::*;

use crate::geometry::{ceil_sqrt, dist_sq, distance_sq, is_ceil_sqrt, Point};

verus! {

/// π in microradians.
pub const PI_MICRORAD: i64 = 3_141_593;

/// One full turn in microradians.
pub const TAU_MICRORAD: i64 = 6_283_186;

/// The last waypoint counts as reached within 0.1 field units (squared, fixed-point).
pub const FINAL_PASS_RADIUS_SQ: u128 = 100_000_000;

/// Any other waypoint counts as passed within 0.5 field units (squared, fixed-point).
pub const PASS_RADIUS_SQ: u128 = 2_500_000_000;

/// Within 0.1 field units of its target the robot stops turning (squared, fixed-point).
pub const FACE_RADIUS_SQ: u128 = 100_000_000;

/// A velocity in fixed-point units per second.
#[derive(Clone, Copy, Debug, PartialEq, Eq, Structural)]
pub struct Velocity(pub Point);

/// An angular velocity in microradians per second; positive turns counterclockwise.
#[derive(Clone, Copy, Debug, PartialEq, Eq, Structural)]
pub struct AngularVelocity(pub i64);

/// Follows a waypoint path, consuming waypoints as they are passed.
#[derive(Debug)]
pub struct PathFollower {
    /// The waypoints still ahead, the next one first.
    pub target_path: Vec<Point>,
    /// Proportional gain, per second.
    pub p: u16,
    /// Speed limit in fixed-point units per second.
    pub max_speed: u32,
}

/// Turns the robot toward a target position.
#[derive(Clone, Copy, Debug, PartialEq, Eq, Structural)]
pub struct TargetFacer {
    /// Proportional gain, per second.
    pub p: u16,
    /// Angular speed limit in microradians per second.
    pub max_speed: u32,
}

/// The squared pass-through radius of waypoint `k` on a path of `len`
/// waypoints: tight for the last one, loose for the others.
pub open spec fn pass_radius_sq(k: int, len: int) -> int {
    if k == len - 1 {
        FINAL_PASS_RADIUS_SQ as int
    } else {
        PASS_RADIUS_SQ as int
    }
}

/// `k` is the first waypoint of `path` that the robot at `pos` has not yet
/// passed (it lies beyond its pass-through radius), or `path.len()` if it has
/// passed them all.
pub open spec fn first_unpassed(path: Seq<Point>, pos: Point, k: int) -> bool {
    &&& 0 <= k <= path.len()
    &&& forall|j: int| 0 <= j < k ==> dist_sq(#[trigger] path[j], pos) <= pass_radius_sq(j, path.len() as int)
    &&& k < path.len() ==> dist_sq(path[k], pos) > pass_radius_sq(k, path.len() as int)
}

/// `c * m / n` rounded toward zero.
pub open spec fn scaled(c: int, m: int, n: int) -> int {
    if c >= 0 {
        (c * m) / n
    } else {
        -((-c * m) / n)
    }
}

/// `v` is the velocity commanded toward waypoint `wp` from `pos`: the gain
/// times the offset to the waypoint, scaled down to length `max` (each
/// component rounded toward zero) when it is longer than that.
pub open spec fn is_pursuit_velocity(p: int, max: int, wp: Point, pos: Point, v: Point) -> bool {
    let wx = p * (wp.x - pos.x);
    let wy = p * (wp.y - pos.y);
    if wx * wx + wy * wy <= max * max {
        v.x == wx && v.y == wy
    } else {
        forall|n: int|
            #[trigger] is_ceil_sqrt(wx * wx + wy * wy, n) ==> v.x == scaled(wx, max, n) && v.y == scaled(
                wy,
                max,
                n,
            )
    }
}

/// An angle brought into (-π, π] by whole turns.
pub open spec fn normalized_angle(a: int) -> int {
    let r = a % (TAU_MICRORAD as int);
    if r > PI_MICRORAD {
        r - TAU_MICRORAD
    } else {
        r
    }
}

/// `c` limited to `[-max, max]`.
pub open spec fn saturate(c: int, max: int) -> int {
    if c > max {
        max
    } else if c < -max {
        -max
    } else {
        c
    }
}

/// The angular velocity that turns from `heading` toward `bearing`, the
/// direction of the target: the gain times the shortest signed turn, limited
/// to the angular speed limit; zero when the target is within reach.
pub open spec fn facing_velocity(facer: TargetFacer, pos: Point, target: Point, heading: int, bearing: int) -> int {
    if dist_sq(target, pos) < FACE_RADIUS_SQ {
        0
    } else {
        saturate(facer.p * normalized_angle(bearing - heading), facer.max_speed as int)
    }
}

fn scale_component(c: i128, m: u128, n: u128) -> (r: i64)
    requires
        0 < n <= 0x8000_0000_0000_0000,
        -n <= c <= n,
        m <= u32::MAX,
    ensures
        r == scaled(c as int, m as int, n as int),
        -m <= r <= m,
{
    if c >= 0 {
        let a = c as u128;
        assert(a * m <= n * m) by (nonlinear_arith)
            requires
                a <= n,
        ;
        assert((a * m) as int / (n as int) <= m) by (nonlinear_arith)
            requires
                a * m <= n * m,
                0 < n,
        ;
        assert(a * m <= 0xffff_ffff_ffff_ffff_ffff_ffff_ffff_ffff) by (nonlinear_arith)
            requires
                a <= n <= 0x8000_0000_0000_0000_0000_0000,
                m <= u32::MAX,
        ;
        ((a * m) / n) as i64
    } else {
        let a = (-c) as u128;
        assert(a * m <= n * m) by (nonlinear_arith)
            requires
                a <= n,
        ;
        assert(a * m <= 0xffff_ffff_ffff_ffff_ffff_ffff_ffff_ffff) by (nonlinear_arith)
            requires
                a <= n <= 0x8000_0000_0000_0000_0000_0000,
                m <= u32::MAX,
        ;
        assert((a * m) as int / (n as int) <= m) by (nonlinear_arith)
            requires
                a * m <= n * m,
                0 < n,
        ;
        -(((a * m) / n) as i64)
    }
}

fn passed(path: &Vec<Point>, k: usize, pos: Point) -> (r: bool)
    requires
        k < path@.len(),
        pos.in_range(),
        path@[k as int].in_range(),
    ensures
        r == (dist_sq(path@[k as int], pos) <= pass_radius_sq(k as int, path@.len() as int)),
{
    let radius = if k == path.len() - 1 {
        FINAL_PASS_RADIUS_SQ
    } else {
        PASS_RADIUS_SQ
    };
    distance_sq(path[k], pos) <= radius
}

impl PathFollower {
    /// A follower with no path and the given gain and speed limit.
    pub fn new(p: u16, max_speed: u32) -> (r: PathFollower)
        ensures
            r.target_path@.len() == 0,
            r.p == p,
            r.max_speed == max_speed,
    {
        PathFollower { target_path: Vec::new(), p, max_speed }
    }

    /// One tick of path following from `pos`. Waypoints before the first one
    /// not yet passed are dropped; the velocity heads for that waypoint, or is
    /// zero once every waypoint has been passed (the path is then empty).
    pub fn follow_path(&mut self, pos: Point) -> (v: Velocity)
        requires
            pos.in_range(),
            forall|k: int| 0 <= k < old(self).target_path@.len() ==> (#[trigger] old(self).target_path@[k]).in_range(),
        ensures
            final(self).p == old(self).p,
            final(self).max_speed == old(self).max_speed,
            first_unpassed(
                old(self).target_path@,
                pos,
                old(self).target_path@.len() - final(self).target_path@.len(),
            ),
            forall|k: int|
                0 <= k < final(self).target_path@.len() ==> (#[trigger] final(self).target_path@[k]).in_range(),
            forall|k: int|
                #[trigger] first_unpassed(old(self).target_path@, pos, k) ==> {
                    let path = old(self).target_path@;
                    &&& final(self).target_path@ == path.subrange(k, path.len() as int)
                    &&& k == path.len() ==> v.0 == Point { x: 0, y: 0 }
                    &&& k < path.len() ==> is_pursuit_velocity(
                        old(self).p as int,
                        old(self).max_speed as int,
                        path[k],
                        pos,
                        v.0,
                    )
                },
    {
        let ghost path = self.target_path@;
        let len = self.target_path.len();
        let mut k: usize = 0;
        while k < len && passed(&self.target_path, k, pos)
            invariant
                k <= len == path.len(),
                path == self.target_path@,
                pos.in_range(),
                forall|j: int| 0 <= j < path.len() ==> (#[trigger] path[j]).in_range(),
                forall|j: int| 0 <= j < k ==> dist_sq(#[trigger] path[j], pos) <= pass_radius_sq(j, path.len() as int),
            decreases len - k,
        {
            k += 1;
        }
        proof {
            assert(first_unpassed(path, pos, k as int));
            assert forall|j: int| #[trigger] first_unpassed(path, pos, j) implies j == k by {
                if j < k {
                    assert(dist_sq(path[j], pos) <= pass_radius_sq(j, path.len() as int));
                } else if k < j {
                    assert(dist_sq(path[k as int], pos) <= pass_radius_sq(k as int, path.len() as int));
                }
            }
        }
        let rest = self.target_path.split_off(k);
        self.target_path = rest;
        if k == len {
            return Velocity(Point { x: 0, y: 0 });
        }
        let wp = self.target_path[0];
        let dx = wp.x as i128 - pos.x as i128;
        let dy = wp.y as i128 - pos.y as i128;
        let gain = self.p as i128;
        assert(-0x1_0000_0000_0000 <= gain * dx <= 0x1_0000_0000_0000) by (nonlinear_arith)
            requires
                -0x8000_0000 <= dx <= 0x8000_0000,
                0 <= gain <= 0xffff,
        ;
        assert(-0x1_0000_0000_0000 <= gain * dy <= 0x1_0000_0000_0000) by (nonlinear_arith)
            requires
                -0x8000_0000 <= dy <= 0x8000_0000,
                0 <= gain <= 0xffff,
        ;
        let wx = gain * dx;
        let wy = gain * dy;
        assert(0 <= wx * wx <= 0x1_0000_0000_0000_0000_0000_0000) by (nonlinear_arith)
            requires
                -0x1_0000_0000_0000 <= wx <= 0x1_0000_0000_0000,
        ;
        assert(0 <= wy * wy <= 0x1_0000_0000_0000_0000_0000_0000) by (nonlinear_arith)
            requires
                -0x1_0000_0000_0000 <= wy <= 0x1_0000_0000_0000,
        ;
        let w2 = (wx * wx + wy * wy) as u128;
        let m = self.max_speed as u128;
        assert(m * m <= 0xffff_ffff_ffff_ffff_ffff_ffff) by (nonlinear_arith)
            requires
                m <= u32::MAX,
        ;
        if w2 <= m * m {
            assert(-m <= wx <= m && -m <= wy <= m) by (nonlinear_arith)
                requires
                    wx * wx + wy * wy <= m * m,
                    0 <= m,
            ;
            Velocity(Point { x: wx as i64, y: wy as i64 })
        } else {
            let n = ceil_sqrt(w2);
            assert(0 < n && -n <= wx <= n && -n <= wy <= n) by (nonlinear_arith)
                requires
                    wx * wx + wy * wy <= n * n,
                    wx * wx + wy * wy > m * m,
                    0 <= m,
                    0 <= n,
            ;
            let vx = scale_component(wx, m, n);
            let vy = scale_component(wy, m, n);
            proof {
                assert forall|q: int| #[trigger] is_ceil_sqrt(w2 as int, q) implies q == n by {
                    if q < n {
                        assert(q <= n - 1);
                        assert(q * q <= (n - 1) * (n - 1)) by (nonlinear_arith)
                            requires
                                0 <= q <= n - 1,
                        ;
                    } else if q > n {
                        assert(n <= q - 1);
                        assert(n * n <= (q - 1) * (q - 1)) by (nonlinear_arith)
                            requires
                                0 <= n <= q - 1,
                        ;
                    }
                }
            }
            Velocity(Point { x: vx, y: vy })
        }
    }
}

/// The shortest signed turn from `heading` to `bearing`, in (-π, π].
pub fn angle_difference(bearing: i64, heading: i64) -> (r: i64)
    ensures
        r == normalized_angle(bearing - heading),
        -PI_MICRORAD < r <= PI_MICRORAD,
{
    let b = bearing.checked_rem_euclid(TAU_MICRORAD).unwrap();
    let h = heading.checked_rem_euclid(TAU_MICRORAD).unwrap();
    let d = (b - h).checked_rem_euclid(TAU_MICRORAD).unwrap();
    proof {
        vstd::arithmetic::div_mod::lemma_sub_mod_noop(bearing as int, heading as int, TAU_MICRORAD as int);
    }
    if d > PI_MICRORAD {
        d - TAU_MICRORAD
    } else {
        d
    }
}

impl TargetFacer {
    /// One tick of heading control for a robot at `pos` with `heading`,
    /// facing `target`, whose direction from `pos` is `bearing`.
    pub fn face_target(&self, pos: Point, target: Point, heading: i64, bearing: i64) -> (r: AngularVelocity)
        requires
            pos.in_range(),
            target.in_range(),
        ensures
            r.0 == facing_velocity(*self, pos, target, heading as int, bearing as int),
    {
        if distance_sq(target, pos) < FACE_RADIUS_SQ {
            return AngularVelocity(0);
        }
        let diff = angle_difference(bearing, heading);
        let gain = self.p as i64;
        assert(-0x1_0000_0000_0000 <= gain * diff <= 0x1_0000_0000_0000) by (nonlinear_arith)
            requires
                -PI_MICRORAD < diff <= PI_MICRORAD,
                0 <= gain <= 0xffff,
        ;
        let turn = gain * diff;
        let max = self.max_speed as i64;
        if turn > max {
            AngularVelocity(max)
        } else if turn < -max {
            AngularVelocity(-max)
        } else {
            AngularVelocity(turn)
        }
    }
}

proof fn lemma_scaled_bound(c: int, m: int, n: int)
    requires
        0 < n,
        0 <= m,
    ensures
        c * scaled(c, m, n) >= 0,
        scaled(c, m, n) * scaled(c, m, n) * (n * n) <= (c * c) * (m * m),
        scaled(c, m, n) * scaled(c, m, n) * (n * n) >= (c * c) * (m * m) - 2 * (if c >= 0 {
            c
        } else {
            -c
        }) * m * n,
{
    let a = if c >= 0 { c } else { -c };
    let u = (a * m) / n;
    assert(a * m >= 0) by (nonlinear_arith)
        requires
            a >= 0,
            m >= 0,
    ;
    vstd::arithmetic::div_mod::lemma_fundamental_div_mod(a * m, n);
    vstd::arithmetic::div_mod::lemma_mod_bound(a * m, n);
    assert(u >= 0) by (nonlinear_arith)
        requires
            a * m == n * u + (a * m) % n,
            0 <= (a * m) % n < n,
            a * m >= 0,
            n > 0,
    ;
    assert(0 <= u * n <= a * m) by (nonlinear_arith)
        requires
            a * m == n * u + (a * m) % n,
            0 <= (a * m) % n,
            u >= 0,
            n > 0,
    ;
    assert(u * u * (n * n) <= (a * a) * (m * m)) by (nonlinear_arith)
        requires
            0 <= u * n <= a * m,
    ;
    assert(u * u * (n * n) >= (a * a) * (m * m) - 2 * a * m * n) by (nonlinear_arith)
        requires
            a * m == n * u + (a * m) % n,
            0 <= (a * m) % n < n,
            a * m >= 0,
            u >= 0,
            n > 0,
    ;
    assert(c * c == a * a) by (nonlinear_arith)
        requires
            a == c || a == -c,
    ;
    if c >= 0 {
        assert(c * u >= 0) by (nonlinear_arith)
            requires
                c >= 0,
                u >= 0,
        ;
    } else {
        assert(c * (-u) >= 0) by (nonlinear_arith)
            requires
                c < 0,
                u >= 0,
        ;
        assert((-u) * (-u) == u * u) by (nonlinear_arith);
    }
}

/// A robot that is far from its next waypoint (the unclamped command would
/// exceed the speed limit) is sent toward the waypoint at the speed limit:
/// each velocity component has the sign of the offset to the waypoint, and
/// the squared speed lies between `max * max - 6 * max` and `max * max`
/// (the components are rounded to whole units).
pub proof fn lemma_pursuit_heads_for_waypoint(p: int, max: int, wp: Point, pos: Point, v: Point)
    requires
        0 <= p,
        0 <= max,
        is_pursuit_velocity(p, max, wp, pos, v),
        (p * (wp.x - pos.x)) * (p * (wp.x - pos.x)) + (p * (wp.y - pos.y)) * (p * (wp.y - pos.y))
            > max * max,
    ensures
        v.x * (wp.x - pos.x) >= 0,
        v.y * (wp.y - pos.y) >= 0,
        v.x * v.x + v.y * v.y <= max * max,
        v.x * v.x + v.y * v.y >= max * max - 6 * max,
{
    let wx = p * (wp.x - pos.x);
    let wy = p * (wp.y - pos.y);
    let w2 = wx * wx + wy * wy;
    assert(w2 >= 0) by (nonlinear_arith)
        requires
            w2 == wx * wx + wy * wy,
    ;
    let n = crate::geometry::lemma_ceil_sqrt_exists(w2);
    assert(is_ceil_sqrt(w2, n));
    assert(n > 0) by (nonlinear_arith)
        requires
            w2 <= n * n,
            w2 > max * max,
            max >= 0,
            n >= 0,
    ;
    lemma_scaled_bound(wx, max, n);
    lemma_scaled_bound(wy, max, n);
    assert(v.x == scaled(wx, max, n) && v.y == scaled(wy, max, n));
    assert((v.x * v.x + v.y * v.y) * (n * n) <= w2 * (max * max)) by (nonlinear_arith)
        requires
            v.x * v.x * (n * n) <= (wx * wx) * (max * max),
            v.y * v.y * (n * n) <= (wy * wy) * (max * max),
            w2 == wx * wx + wy * wy,
    ;
    assert(w2 * (max * max) <= (n * n) * (max * max)) by (nonlinear_arith)
        requires
            w2 <= n * n,
    ;
    assert(v.x * v.x + v.y * v.y <= max * max) by (nonlinear_arith)
        requires
            (v.x * v.x + v.y * v.y) * (n * n) <= (n * n) * (max * max),
            n > 0,
    ;
    let ax = if wx >= 0 { wx } else { -wx };
    let ay = if wy >= 0 { wy } else { -wy };
    assert(ax * ax == wx * wx && ay * ay == wy * wy) by (nonlinear_arith)
        requires
            ax == wx || ax == -wx,
            ay == wy || ay == -wy,
    ;
    assert(ax <= n && ay <= n) by (nonlinear_arith)
        requires
            ax * ax + ay * ay <= n * n,
            ax >= 0,
            ay >= 0,
            n > 0,
    ;
    assert(max < n) by (nonlinear_arith)
        requires
            max * max < n * n,
            max >= 0,
            n > 0,
    ;
    assert((n - 1) * (n - 1) < w2);
    assert((v.x * v.x + v.y * v.y) * (n * n) >= w2 * (max * max) - 2 * (ax + ay) * max * n)
        by (nonlinear_arith)
        requires
            v.x * v.x * (n * n) >= (wx * wx) * (max * max) - 2 * ax * max * n,
            v.y * v.y * (n * n) >= (wy * wy) * (max * max) - 2 * ay * max * n,
            w2 == wx * wx + wy * wy,
    ;
    assert(w2 * (max * max) >= ((n - 1) * (n - 1) + 1) * (max * max)) by (nonlinear_arith)
        requires
            (n - 1) * (n - 1) + 1 <= w2,
    ;
    assert(2 * (ax + ay) * max * n <= 4 * max * (n * n)) by (nonlinear_arith)
        requires
            ax + ay <= 2 * n,
            max >= 0,
            n > 0,
    ;
    assert(max * max * n <= max * (n * n)) by (nonlinear_arith)
        requires
            0 <= max < n,
    ;
    assert(((n - 1) * (n - 1) + 1) * (max * max) >= (n * n) * (max * max) - 2 * (max * max * n))
        by (nonlinear_arith)
    ;
    assert((v.x * v.x + v.y * v.y) * (n * n) >= (max * max - 6 * max) * (n * n)) by (nonlinear_arith)
        requires
            (v.x * v.x + v.y * v.y) * (n * n) >= w2 * (max * max) - 2 * (ax + ay) * max * n,
            w2 * (max * max) >= ((n - 1) * (n - 1) + 1) * (max * max),
            2 * (ax + ay) * max * n <= 4 * max * (n * n),
            max * max * n <= max * (n * n),
            ((n - 1) * (n - 1) + 1) * (max * max) >= (n * n) * (max * max) - 2 * (max * max * n),
            max >= 0,
    ;
    assert(v.x * v.x + v.y * v.y >= max * max - 6 * max) by (nonlinear_arith)
        requires
            (v.x * v.x + v.y * v.y) * (n * n) >= (max * max - 6 * max) * (n * n),
            n > 0,
    ;
    if p == 0 {
        assert(wx == 0 && wy == 0);
    }
    assert(v.x * (wp.x - pos.x) >= 0 && v.y * (wp.y - pos.y) >= 0) by (nonlinear_arith)
        requires
            wx * v.x >= 0,
            wy * v.y >= 0,
            wx == p * (wp.x - pos.x),
            wy == p * (wp.y - pos.y),
            p > 0,
    ;
}

/// Once every earlier waypoint is passed and the robot is within reach of
/// the last one, no waypoint is left to head for: the follower stops and
/// its path is empty.
pub proof fn lemma_pursuit_stops_at_goal(path: Seq<Point>, pos: Point, k: int)
    requires
        path.len() >= 1,
        dist_sq(path.last(), pos) <= FINAL_PASS_RADIUS_SQ,
        forall|j: int| 0 <= j < path.len() - 1 ==> dist_sq(#[trigger] path[j], pos) <= PASS_RADIUS_SQ,
        first_unpassed(path, pos, k),
    ensures
        k == path.len(),
{
    if k < path.len() {
        if k == path.len() - 1 {
            assert(path[k] == path.last());
        } else {
            assert(dist_sq(path[k], pos) <= PASS_RADIUS_SQ);
        }
    }
}

/// The heading loop turns the short way round. For a target at signed angle
/// `delta` in (-π, π] from the heading, the command has the sign of `delta`
/// and saturates at the limit once the gain times `delta` exceeds it; a
/// target exactly behind (`delta` = π) is turned toward counterclockwise.
pub proof fn lemma_heading_turns_short_way(
    facer: TargetFacer,
    pos: Point,
    target: Point,
    heading: int,
    delta: int,
)
    requires
        dist_sq(target, pos) >= FACE_RADIUS_SQ,
        -PI_MICRORAD < delta <= PI_MICRORAD,
    ensures
        normalized_angle((heading + delta) - heading) == delta,
        delta > 0 ==> facing_velocity(facer, pos, target, heading, heading + delta) >= 0,
        delta < 0 ==> facing_velocity(facer, pos, target, heading, heading + delta) <= 0,
        facer.p * delta >= facer.max_speed ==> facing_velocity(facer, pos, target, heading, heading + delta)
            == facer.max_speed,
        facer.p * delta <= -facer.max_speed ==> facing_velocity(facer, pos, target, heading, heading
            + delta) == -facer.max_speed,
        facer.p * PI_MICRORAD >= facer.max_speed ==> facing_velocity(facer, pos, target, heading,
            heading + PI_MICRORAD) == facer.max_speed,
{
    let t = TAU_MICRORAD as int;
    assert((heading + delta) - heading == delta);
    if delta >= 0 {
        vstd::arithmetic::div_mod::lemma_small_mod(delta as nat, t as nat);
    } else {
        vstd::arithmetic::div_mod::lemma_small_mod((delta + t) as nat, t as nat);
        vstd::arithmetic::div_mod::lemma_mod_add_multiples_vanish(delta, t);
    }
    assert(normalized_angle(delta) == delta);
    let g = facer.p as int;
    if delta > 0 {
        assert(g * delta >= 0) by (nonlinear_arith)
            requires
                g >= 0,
                delta > 0,
        ;
    }
    if delta < 0 {
        assert(g * delta <= 0) by (nonlinear_arith)
            requires
                g >= 0,
                delta < 0,
        ;
    }
    assert((heading + PI_MICRORAD) - heading == PI_MICRORAD);
    vstd::arithmetic::div_mod::lemma_small_mod(PI_MICRORAD as nat, t as nat);
}

} // verus!
