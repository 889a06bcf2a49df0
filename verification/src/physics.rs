//! Physics for the player-controlled entity: velocity accumulation, a
//! per-frame integration step with position clamping, constant damping and a
//! per-axis velocity bound, and a rotation derived from horizontal position.
//!
//! Positions and velocities are in milli-units (thousandths of a scene unit,
//! velocities per second), rotations in milli-degrees, and frame deltas in
//! milliseconds.

use vstd::prelude::*;
use crate::bounds::spec_clamp;
use crate::bounds::clamp_between;
use crate::input::KeyState;

verus! {

/// Viewport width in milli-units.
pub const WIDTH: i64 = 300_000;

/// Viewport height in milli-units.
pub const HEIGHT: i64 = 300_000;

/// Top of the ground strip, three quarters of the way down the viewport.
pub const GROUND_Y: i64 = 225_000;

/// Per-axis velocity bound in milli-units per second.
pub const MAX_VELOCITY: i64 = 400_000;

/// Largest frame delta the integration step accepts, in milliseconds.
pub const MAX_DT_MS: u64 = 3_600_000;

/// Magnitude bound on a velocity component that keeps every intermediate
/// product of the integration step within `i64`.
pub const VEL_FIT: i64 = 1_000_000_000_000;

/// Horizontal acceleration applied while a directional control is held, in
/// milli-units per second per frame.
pub const HELD_ACCEL: i64 = 250_000;

/// A damped velocity component: nine tenths of the magnitude, rounded toward
/// zero, with the sign kept.
pub open spec fn spec_damp(v: int) -> int {
    if v >= 0 {
        (9 * v) / 10
    } else {
        -((9 * (-v)) / 10)
    }
}

/// A velocity component after one integration step: damped, then clamped to
/// the per-axis bound.
pub open spec fn spec_vel_step(v: int) -> int {
    spec_clamp(spec_damp(v), -(MAX_VELOCITY as int), MAX_VELOCITY as int)
}

/// The displacement `v * dt / 1000` with the division rounded toward zero.
pub open spec fn spec_scaled(v: int, dt: int) -> int {
    if v >= 0 {
        (v * dt) / 1000
    } else {
        -(((-v) * dt) / 1000)
    }
}

/// Rotation in milli-degrees for a horizontal position `x`: a full turn is
/// mapped linearly across the entity's range of motion, `[radius, WIDTH -
/// radius]`. The formula divides by `WIDTH - 2 * radius`, so an entity whose
/// content spans the whole viewport width has no defined rotation; such radii
/// are excluded by precondition rather than given a patched value.
pub open spec fn spec_rotation(x: int, radius: int) -> int {
    ((x - radius) * 360_000) / (WIDTH - 2 * radius)
}

/// The content radius, derived once at construction from the content's pixel
/// height: half the height, less a two-pixel trim for looks, in milli-units.
pub fn radius_from_height(height_px: u32) -> (r: i64)
    ensures
        r == 500 * height_px - 2000,
{
    500 * (height_px as i64) - 2000
}

/// The player-controlled entity: position, rotation, content radius and
/// velocity. The content handle itself stays with the rendering collaborator;
/// the core keeps only the radius derived from it.
pub struct PlayerCharacter {
    /// Horizontal position of the content centre, milli-units.
    pub x: i64,
    /// Vertical position of the content centre, milli-units.
    pub y: i64,
    /// Rotation, milli-degrees.
    pub rotation: i64,
    /// Content radius, milli-units.
    pub radius: i64,
    /// Horizontal velocity, milli-units per second.
    pub vx: i64,
    /// Vertical velocity, milli-units per second.
    pub vy: i64,
}

impl PlayerCharacter {
    /// The positional invariant: the content stays horizontally on screen and
    /// vertically between the top of the viewport and the ground strip.
    pub open spec fn wf(&self) -> bool {
        &&& 0 < self.radius
        &&& 2 * self.radius < WIDTH
        &&& self.radius <= self.x <= WIDTH - self.radius
        &&& 0 <= self.y <= GROUND_Y - self.radius
    }

    /// Builds a player entity at rest at `(x, y)`. The radius comes from the
    /// content's pixel height, measured by the collaborator that loaded it.
    pub fn new(radius: i64, x: i64, y: i64) -> (r: PlayerCharacter)
        requires
            0 < radius,
            2 * radius < WIDTH,
            radius <= x <= WIDTH - radius,
            0 <= y <= GROUND_Y - radius,
        ensures
            r.wf(),
            r.radius == radius,
            r.x == x,
            r.y == y,
            r.rotation == 0,
            r.vx == 0,
            r.vy == 0,
    {
        PlayerCharacter { x, y, rotation: 0, radius, vx: 0, vy: 0 }
    }

    /// Adds a velocity delta directly; no clamping happens here (the bound is
    /// applied by `update`).
    pub fn accelerate(&mut self, dvx: i64, dvy: i64)
        requires
            i64::MIN <= old(self).vx + dvx <= i64::MAX,
            i64::MIN <= old(self).vy + dvy <= i64::MAX,
        ensures
            final(self).vx == old(self).vx + dvx,
            final(self).vy == old(self).vy + dvy,
            final(self).x == old(self).x,
            final(self).y == old(self).y,
            final(self).rotation == old(self).rotation,
            final(self).radius == old(self).radius,
            old(self).wf() ==> final(self).wf(),
    {
        self.vx = self.vx + dvx;
        self.vy = self.vy + dvy;
    }

    /// One integration step: move by `velocity * dt`, clamp the position to
    /// the viewport, damp the velocity, clamp it per axis, and derive the
    /// rotation from the new horizontal position. After the step both
    /// velocity components are within `MAX_VELOCITY` in magnitude and the
    /// positional invariant holds again.
    pub fn update(&mut self, dt: u64)
        requires
            old(self).wf(),
            dt <= MAX_DT_MS,
            -VEL_FIT <= old(self).vx <= VEL_FIT,
            -VEL_FIT <= old(self).vy <= VEL_FIT,
        ensures
            final(self).wf(),
            final(self).radius == old(self).radius,
            final(self).x == spec_clamp(
                old(self).x + spec_scaled(old(self).vx as int, dt as int),
                old(self).radius as int,
                WIDTH - old(self).radius,
            ),
            final(self).y == spec_clamp(
                old(self).y + spec_scaled(old(self).vy as int, dt as int),
                0,
                GROUND_Y - old(self).radius,
            ),
            final(self).vx == spec_vel_step(old(self).vx as int),
            final(self).vy == spec_vel_step(old(self).vy as int),
            -MAX_VELOCITY <= final(self).vx <= MAX_VELOCITY,
            -MAX_VELOCITY <= final(self).vy <= MAX_VELOCITY,
            final(self).rotation == spec_rotation(final(self).x as int, old(self).radius as int),
    {
        let dx = scaled(self.vx, dt);
        let dy = scaled(self.vy, dt);
        self.x = clamp_between(self.x + dx, self.radius, WIDTH - self.radius);
        self.y = clamp_between(self.y + dy, 0, GROUND_Y - self.radius);
        self.vx = clamp_between(damp(self.vx), -MAX_VELOCITY, MAX_VELOCITY);
        self.vy = clamp_between(damp(self.vy), -MAX_VELOCITY, MAX_VELOCITY);
        self.rotation = rotation_for(self.x, self.radius);
    }
}

/// Damps one velocity component by the constant factor nine tenths, rounding
/// toward zero.
fn damp(v: i64) -> (r: i64)
    requires
        -VEL_FIT <= v <= VEL_FIT,
    ensures
        r == spec_damp(v as int),
{
    if v >= 0 {
        (v * 9) / 10
    } else {
        -(((-v) * 9) / 10)
    }
}

/// The product of an in-range velocity and an in-range frame delta, divided
/// by a thousand, stays within a bound that fits `i64` arithmetic.
proof fn lemma_scaled_bounds(v: int, d: int)
    requires
        0 <= v <= VEL_FIT,
        0 <= d <= MAX_DT_MS,
    ensures
        0 <= v * d <= 3_600_000_000_000_000_000,
        0 <= (v * d) / 1000 <= 3_600_000_000_000_000,
{
    assert(v * d <= 3_600_000_000_000_000_000) by (nonlinear_arith)
        requires
            0 <= v <= 1_000_000_000_000,
            0 <= d <= 3_600_000,
    ;
    assert(v * d >= 0) by (nonlinear_arith)
        requires
            v >= 0,
            d >= 0,
    ;
    vstd::arithmetic::div_mod::lemma_div_pos_is_pos(v * d, 1000);
    vstd::arithmetic::div_mod::lemma_div_is_ordered(v * d, 3_600_000_000_000_000_000, 1000);
}

/// The displacement covered in `dt` milliseconds at `v` milli-units per
/// second, rounded toward zero.
fn scaled(v: i64, dt: u64) -> (r: i64)
    requires
        -VEL_FIT <= v <= VEL_FIT,
        dt <= MAX_DT_MS,
    ensures
        r == spec_scaled(v as int, dt as int),
        -3_600_000_000_000_000 <= r <= 3_600_000_000_000_000,
{
    let d = dt as i64;
    if v >= 0 {
        proof {
            lemma_scaled_bounds(v as int, d as int);
        }
        (v * d) / 1000
    } else {
        proof {
            lemma_scaled_bounds(-(v as int), d as int);
        }
        -(((-v) * d) / 1000)
    }
}

/// Rotation in milli-degrees for horizontal position `x` and content radius
/// `radius`: `(x - radius) / (WIDTH - 2 radius)` of a full turn.
pub fn rotation_for(x: i64, radius: i64) -> (r: i64)
    requires
        0 < radius,
        2 * radius < WIDTH,
        radius <= x <= WIDTH - radius,
    ensures
        r == spec_rotation(x as int, radius as int),
        0 <= r <= 360_000,
{
    let span = WIDTH - 2 * radius;
    let r = ((x - radius) * 360_000) / span;
    proof {
        let n = (x - radius) * 360_000;
        let s = span as int;
        vstd::arithmetic::mul::lemma_mul_inequality(x - radius, s, 360_000);
        vstd::arithmetic::div_mod::lemma_div_pos_is_pos(n, s);
        vstd::arithmetic::div_mod::lemma_div_is_ordered(n, s * 360_000, s);
        vstd::arithmetic::div_mod::lemma_div_by_multiple(360_000, s);
    }
    r
}

/// The horizontal acceleration one frame applies, given which of the two
/// directional controls are currently held.
pub open spec fn spec_held_accel(held: Set<u64>, left: u64, right: u64) -> int {
    (if held.contains(left) { -(HELD_ACCEL as int) } else { 0 })
        + (if held.contains(right) { HELD_ACCEL as int } else { 0 })
}

/// One frame of the game: accelerates the player once per held directional
/// control, then runs the integration step. `left` and `right` are the
/// collaborator's codes for the two directional controls.
pub fn game_tick(pc: &mut PlayerCharacter, keys: &KeyState, left: u64, right: u64, dt: u64)
    requires
        old(pc).wf(),
        dt <= MAX_DT_MS,
        -(VEL_FIT - HELD_ACCEL) <= old(pc).vx <= VEL_FIT - HELD_ACCEL,
        -VEL_FIT <= old(pc).vy <= VEL_FIT,
    ensures
        final(pc).wf(),
        final(pc).radius == old(pc).radius,
        final(pc).vx == spec_vel_step(old(pc).vx + spec_held_accel(keys@, left, right)),
        final(pc).vy == spec_vel_step(old(pc).vy as int),
        final(pc).x == spec_clamp(
            old(pc).x + spec_scaled(old(pc).vx + spec_held_accel(keys@, left, right), dt as int),
            old(pc).radius as int,
            WIDTH - old(pc).radius,
        ),
        final(pc).y == spec_clamp(
            old(pc).y + spec_scaled(old(pc).vy as int, dt as int),
            0,
            GROUND_Y - old(pc).radius,
        ),
        final(pc).rotation == spec_rotation(final(pc).x as int, old(pc).radius as int),
{
    if keys.is_down(left) {
        pc.accelerate(-HELD_ACCEL, 0);
    }
    if keys.is_down(right) {
        pc.accelerate(HELD_ACCEL, 0);
    }
    pc.update(dt);
}

/// Law: damping is strictly monotone toward zero — with no further
/// acceleration, one integration step strictly decreases the magnitude of a
/// nonzero velocity component, and never flips its sign.
pub proof fn lemma_damping_monotone(v: int)
    requires
        v != 0,
    ensures
        v > 0 ==> 0 <= spec_vel_step(v) < v,
        v < 0 ==> v < spec_vel_step(v) <= 0,
{
    if v > 0 {
        vstd::arithmetic::div_mod::lemma_fundamental_div_mod(9 * v, 10);
        assert(0 <= spec_damp(v) < v);
    } else {
        vstd::arithmetic::div_mod::lemma_fundamental_div_mod(9 * (-v), 10);
        assert(v < spec_damp(v) <= 0);
    }
}

/// Law: a velocity component at rest stays at rest under damping.
pub proof fn lemma_damping_fixed_at_zero()
    ensures
        spec_vel_step(0) == 0,
{
}

} // verus!
