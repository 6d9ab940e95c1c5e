//! Integration of the robot's pose over one tick.
use vstd::prelude::*;

use crate::geometry::{clamp_coord, Point};
use crate::pursuit::{normalized_angle, AngularVelocity, Velocity, PI_MICRORAD, TAU_MICRORAD};

verus! {

/// Microseconds per second.
pub const MICROS_PER_SECOND: u128 = 1_000_000;

/// `rate * dt_us` microseconds' worth of change, rounded toward zero.
pub open spec fn step_of(rate: int, dt_us: int) -> int {
    if rate >= 0 {
        (rate * dt_us) / (MICROS_PER_SECOND as int)
    } else {
        -((-rate * dt_us) / (MICROS_PER_SECOND as int))
    }
}

/// The position reached from `pos` at `vel` in `dt_us` microseconds, each
/// coordinate rounded toward zero and kept within the coordinate range.
pub open spec fn moved_by(pos: Point, vel: Velocity, dt_us: int) -> Point {
    Point {
        x: clamp_coord(pos.x + step_of(vel.0.x as int, dt_us)) as i64,
        y: clamp_coord(pos.y + step_of(vel.0.y as int, dt_us)) as i64,
    }
}

fn step(rate: i64, dt_us: u64) -> (r: i128)
    ensures
        r == step_of(rate as int, dt_us as int),
        -0x7fff_ffff_ffff_ffff_8000_0000_0000_0000 <= r <= 0x7fff_ffff_ffff_ffff_8000_0000_0000_0000,
{
    let a: u128 = if rate >= 0 { rate as u128 } else { (-(rate as i128)) as u128 };
    assert(a * dt_us <= 0x8000_0000_0000_0000 * 0xffff_ffff_ffff_ffff) by (nonlinear_arith)
        requires
            a <= 0x8000_0000_0000_0000,
            dt_us <= 0xffff_ffff_ffff_ffff,
    ;
    let q = (a * dt_us as u128) / MICROS_PER_SECOND;
    assert(q <= 0x7fff_ffff_ffff_ffff_8000_0000_0000_0000) by {
        vstd::arithmetic::div_mod::lemma_div_is_ordered_by_denominator((a * dt_us) as int, 1, 1_000_000);
    }
    if rate >= 0 {
        q as i128
    } else {
        -(q as i128)
    }
}

fn clamp_wide(c: i128) -> (r: i64)
    ensures
        r == clamp_coord(c as int),
{
    if c < -(crate::geometry::COORD_LIMIT as i128) {
        -crate::geometry::COORD_LIMIT
    } else if c > crate::geometry::COORD_LIMIT as i128 {
        crate::geometry::COORD_LIMIT
    } else {
        c as i64
    }
}

/// The position after moving at `vel` for `dt_us` microseconds, each
/// coordinate rounded toward zero and kept within the coordinate range.
pub fn apply_velocity(pos: Point, vel: Velocity, dt_us: u64) -> (r: Point)
    requires
        pos.in_range(),
    ensures
        r.in_range(),
        r == moved_by(pos, vel, dt_us as int),
{
    let dx = step(vel.0.x, dt_us);
    let dy = step(vel.0.y, dt_us);
    Point { x: clamp_wide(pos.x as i128 + dx), y: clamp_wide(pos.y as i128 + dy) }
}

/// The heading after turning at `avel` for `dt_us` microseconds, rounded
/// toward zero and brought into (-π, π].
pub fn apply_angular_velocity(heading: i64, avel: AngularVelocity, dt_us: u64) -> (r: i64)
    ensures
        r == normalized_angle(heading + step_of(avel.0 as int, dt_us as int)),
        -PI_MICRORAD < r <= PI_MICRORAD,
{
    let d = step(avel.0, dt_us);
    let t = TAU_MICRORAD as u128;
    let turn: i64 = if d >= 0 {
        ((d as u128) % t) as i64
    } else {
        -((((-d) as u128) % t) as i64)
    };
    let h = heading.checked_rem_euclid(TAU_MICRORAD).unwrap();
    let sum = (h + turn).checked_rem_euclid(TAU_MICRORAD).unwrap();
    proof {
        let ti = TAU_MICRORAD as int;
        if d >= 0 {
            assert(turn == (d as int) % ti);
            vstd::arithmetic::div_mod::lemma_add_mod_noop(heading as int, d as int, ti);
            vstd::arithmetic::div_mod::lemma_mod_twice(d as int, ti);
            vstd::arithmetic::div_mod::lemma_add_mod_noop(h as int, turn as int, ti);
            vstd::arithmetic::div_mod::lemma_mod_twice(heading as int, ti);
        } else {
            assert(turn == -((-d as int) % ti));
            vstd::arithmetic::div_mod::lemma_sub_mod_noop_right(h as int, -d as int, ti);
            vstd::arithmetic::div_mod::lemma_add_mod_noop(heading as int, d as int, ti);
            vstd::arithmetic::div_mod::lemma_mod_twice(heading as int, ti);
            vstd::arithmetic::div_mod::lemma_add_mod_noop(h as int, d as int, ti);
        }
    }
    if sum > PI_MICRORAD {
        sum - TAU_MICRORAD
    } else {
        sum
    }
}

} // verus!
