//! Motion integration with an immutable configuration: semi-implicit Euler
//! per tick, and ballistic trajectory prediction with a simple drag model.

use vstd::prelude::*;
use crate::collision::{Aabb, can_move_to, spec_can_move_to};
use crate::errors::CoreError;
use crate::fixed::{fits_raw, fmul, Fixed, SCALE};

verus! {

/// Default downward acceleration, in raw units per unit time squared.
pub const DEFAULT_GRAVITY_RAW: i64 = 9800;

/// Default grounded deceleration, in raw units per unit time squared.
pub const DEFAULT_FRICTION_RAW: i64 = 100;

/// Air-drag coefficient applied per unit time to horizontal velocity.
pub const DRAG_COEFF_RAW: i64 = 10;

/// A 2D vector of fixed-point scalars.
#[derive(Clone, Copy, Debug, PartialEq, Eq, Structural)]
pub struct Vec2 {
    pub x: Fixed,
    pub y: Fixed,
}

/// Immutable motion configuration; safe to share across any number of calls.
#[derive(Clone, Copy, Debug)]
pub struct PhysicsEngine {
    pub gravity: Fixed,
    pub friction: Fixed,
}

/// Vertical velocity after one tick: gravity accrues only while airborne.
pub open spec fn new_velocity_y(vy: int, g: int, dt: int, grounded: bool) -> int {
    if grounded {
        vy
    } else {
        vy + fmul(g, dt)
    }
}

/// Horizontal velocity after one tick: while grounded, friction decays the
/// speed toward zero and is clamped so the sign never flips.
pub open spec fn new_velocity_x(vx: int, f: int, dt: int, grounded: bool) -> int {
    if !grounded {
        vx
    } else if vx > 0 {
        let d = vx - fmul(f, dt);
        if d < 0 {
            0
        } else {
            d
        }
    } else if vx < 0 {
        let s = vx + fmul(f, dt);
        if s > 0 {
            0
        } else {
            s
        }
    } else {
        vx
    }
}

/// All intermediate values of one integration tick are representable.
pub open spec fn update_fits(
    px: int,
    py: int,
    vx: int,
    vy: int,
    grounded: bool,
    g: int,
    f: int,
    dt: int,
) -> bool {
    let nvx = new_velocity_x(vx, f, dt, grounded);
    let nvy = new_velocity_y(vy, g, dt, grounded);
    &&& (!grounded ==> fits_raw(fmul(g, dt)) && fits_raw(vy + fmul(g, dt)))
    &&& (grounded ==> fits_raw(fmul(f, dt)))
    &&& (grounded && vx > 0 ==> fits_raw(vx - fmul(f, dt)))
    &&& (grounded && vx < 0 ==> fits_raw(vx + fmul(f, dt)))
    &&& fits_raw(fmul(nvx, dt))
    &&& fits_raw(px + fmul(nvx, dt))
    &&& fits_raw(fmul(nvy, dt))
    &&& fits_raw(py + fmul(nvy, dt))
}

/// Drag multiplier for one trajectory step of length `dt`.
pub open spec fn drag_factor(dt: int) -> int {
    (SCALE as int) - fmul(DRAG_COEFF_RAW as int, dt)
}

/// Horizontal trajectory velocity after `i` steps.
pub open spec fn traj_vel_x(vx0: int, dt: int, i: nat) -> int
    decreases i,
{
    if i == 0 {
        vx0
    } else {
        fmul(traj_vel_x(vx0, dt, (i - 1) as nat), drag_factor(dt))
    }
}

/// Vertical trajectory velocity after `i` steps.
pub open spec fn traj_vel_y(vy0: int, g: int, dt: int, i: nat) -> int
    decreases i,
{
    if i == 0 {
        vy0
    } else {
        traj_vel_y(vy0, g, dt, (i - 1) as nat) + fmul(g, dt)
    }
}

/// Horizontal trajectory position after `i` steps.
pub open spec fn traj_pos_x(px0: int, vx0: int, dt: int, i: nat) -> int
    decreases i,
{
    if i == 0 {
        px0
    } else {
        traj_pos_x(px0, vx0, dt, (i - 1) as nat) + fmul(traj_vel_x(vx0, dt, i), dt)
    }
}

/// Vertical trajectory position after `i` steps.
pub open spec fn traj_pos_y(py0: int, vy0: int, g: int, dt: int, i: nat) -> int
    decreases i,
{
    if i == 0 {
        py0
    } else {
        traj_pos_y(py0, vy0, g, dt, (i - 1) as nat) + fmul(traj_vel_y(vy0, g, dt, i), dt)
    }
}

/// All values reached in the first `i` trajectory steps are representable.
pub open spec fn traj_fits(px0: int, py0: int, vx0: int, vy0: int, g: int, dt: int, i: nat) -> bool {
    &&& fits_raw(traj_vel_x(vx0, dt, i))
    &&& fits_raw(traj_vel_y(vy0, g, dt, i))
    &&& fits_raw(traj_pos_x(px0, vx0, dt, i))
    &&& fits_raw(traj_pos_y(py0, vy0, g, dt, i))
    &&& fits_raw(fmul(traj_vel_x(vx0, dt, i), dt))
    &&& fits_raw(fmul(traj_vel_y(vy0, g, dt, i), dt))
}

impl PhysicsEngine {
    /// Builds an integrator; absent parameters take the documented defaults.
    pub fn new(gravity: Option<Fixed>, friction: Option<Fixed>) -> (r: PhysicsEngine)
        ensures
            r.gravity == (match gravity {
                Some(g) => g,
                None => Fixed { raw: DEFAULT_GRAVITY_RAW },
            }),
            r.friction == (match friction {
                Some(f) => f,
                None => Fixed { raw: DEFAULT_FRICTION_RAW },
            }),
    {
        PhysicsEngine {
            gravity: match gravity {
                Some(g) => g,
                None => Fixed { raw: DEFAULT_GRAVITY_RAW },
            },
            friction: match friction {
                Some(f) => f,
                None => Fixed { raw: DEFAULT_FRICTION_RAW },
            },
        }
    }

    /// One semi-implicit Euler tick: the velocity is updated first and the
    /// new velocity advances the position. A non-positive `delta_time` is
    /// rejected.
    pub fn update_entity(
        &self,
        position: Vec2,
        velocity: Vec2,
        is_on_ground: bool,
        delta_time: Fixed,
    ) -> (r: Result<(Vec2, Vec2), CoreError>)
        requires
            delta_time.v() > 0 ==> update_fits(
                position.x.v(),
                position.y.v(),
                velocity.x.v(),
                velocity.y.v(),
                is_on_ground,
                self.gravity.v(),
                self.friction.v(),
                delta_time.v(),
            ),
        ensures
            r is Err <==> delta_time.v() <= 0,
            delta_time.v() <= 0 ==> r == Err::<(Vec2, Vec2), CoreError>(CoreError::InvalidParameter),
            r matches Ok(t) ==> {
                &&& t.1.x.v() == new_velocity_x(
                    velocity.x.v(),
                    self.friction.v(),
                    delta_time.v(),
                    is_on_ground,
                )
                &&& t.1.y.v() == new_velocity_y(
                    velocity.y.v(),
                    self.gravity.v(),
                    delta_time.v(),
                    is_on_ground,
                )
                &&& t.0.x.v() == position.x.v() + fmul(t.1.x.v(), delta_time.v())
                &&& t.0.y.v() == position.y.v() + fmul(t.1.y.v(), delta_time.v())
            },
    {
        if delta_time.raw <= 0 {
            return Err(CoreError::InvalidParameter);
        }
        let mut nvy = velocity.y;
        if !is_on_ground {
            nvy = velocity.y.add(self.gravity.mul(delta_time));
        }
        let mut nvx = velocity.x;
        if is_on_ground {
            let decel = self.friction.mul(delta_time);
            if velocity.x.raw > 0 {
                let d = velocity.x.sub(decel);
                nvx = if d.raw < 0 {
                    Fixed::zero()
                } else {
                    d
                };
            } else if velocity.x.raw < 0 {
                let s = velocity.x.add(decel);
                nvx = if s.raw > 0 {
                    Fixed::zero()
                } else {
                    s
                };
            }
        }
        let npx = position.x.add(nvx.mul(delta_time));
        let npy = position.y.add(nvy.mul(delta_time));
        Ok((Vec2 { x: npx, y: npy }, Vec2 { x: nvx, y: nvy }))
    }

    /// Predicts a ballistic path: each step scales horizontal velocity by the
    /// drag factor, adds gravity to vertical velocity, then advances the
    /// position by the updated velocity. The result holds `time_steps + 1`
    /// points, the start first.
    pub fn calculate_projectile_path(
        &self,
        start: Vec2,
        velocity: Vec2,
        time_steps: usize,
        delta_time: Fixed,
    ) -> (r: Vec<Vec2>)
        requires
            time_steps < usize::MAX,
            fits_raw(fmul(DRAG_COEFF_RAW as int, delta_time.v())),
            fits_raw(drag_factor(delta_time.v())),
            fits_raw(fmul(self.gravity.v(), delta_time.v())),
            forall|i: nat|
                i <= time_steps ==> traj_fits(
                    start.x.v(),
                    start.y.v(),
                    velocity.x.v(),
                    velocity.y.v(),
                    self.gravity.v(),
                    delta_time.v(),
                    i,
                ),
        ensures
            r@.len() == time_steps + 1,
            forall|i: int|
                0 <= i <= time_steps ==> {
                    &&& (#[trigger] r@[i]).x.v() == traj_pos_x(
                        start.x.v(),
                        velocity.x.v(),
                        delta_time.v(),
                        i as nat,
                    )
                    &&& r@[i].y.v() == traj_pos_y(
                        start.y.v(),
                        velocity.y.v(),
                        self.gravity.v(),
                        delta_time.v(),
                        i as nat,
                    )
                },
    {
        let mut path: Vec<Vec2> = Vec::new();
        let mut pos = start;
        let mut vel = velocity;
        path.push(pos);
        let factor = Fixed::from_raw(SCALE).sub(Fixed::from_raw(DRAG_COEFF_RAW).mul(delta_time));
        let mut step: usize = 0;
        while step < time_steps
            invariant
                0 <= step <= time_steps,
                time_steps < usize::MAX,
                factor.v() == drag_factor(delta_time.v()),
                fits_raw(fmul(self.gravity.v(), delta_time.v())),
                forall|i: nat|
                    i <= time_steps ==> traj_fits(
                        start.x.v(),
                        start.y.v(),
                        velocity.x.v(),
                        velocity.y.v(),
                        self.gravity.v(),
                        delta_time.v(),
                        i,
                    ),
                vel.x.v() == traj_vel_x(velocity.x.v(), delta_time.v(), step as nat),
                vel.y.v() == traj_vel_y(
                    velocity.y.v(),
                    self.gravity.v(),
                    delta_time.v(),
                    step as nat,
                ),
                pos.x.v() == traj_pos_x(start.x.v(), velocity.x.v(), delta_time.v(), step as nat),
                pos.y.v() == traj_pos_y(
                    start.y.v(),
                    velocity.y.v(),
                    self.gravity.v(),
                    delta_time.v(),
                    step as nat,
                ),
                path@.len() == step + 1,
                forall|i: int|
                    0 <= i <= step ==> {
                        &&& (#[trigger] path@[i]).x.v() == traj_pos_x(
                            start.x.v(),
                            velocity.x.v(),
                            delta_time.v(),
                            i as nat,
                        )
                        &&& path@[i].y.v() == traj_pos_y(
                            start.y.v(),
                            velocity.y.v(),
                            self.gravity.v(),
                            delta_time.v(),
                            i as nat,
                        )
                    },
            decreases time_steps - step,
        {
            proof {
                assert(traj_fits(
                    start.x.v(),
                    start.y.v(),
                    velocity.x.v(),
                    velocity.y.v(),
                    self.gravity.v(),
                    delta_time.v(),
                    (step + 1) as nat,
                ));
            }
            let nvx = vel.x.mul(factor);
            let nvy = vel.y.add(self.gravity.mul(delta_time));
            vel = Vec2 { x: nvx, y: nvy };
            let npx = pos.x.add(vel.x.mul(delta_time));
            let npy = pos.y.add(vel.y.mul(delta_time));
            pos = Vec2 { x: npx, y: npy };
            path.push(pos);
            step = step + 1;
        }
        path
    }

    /// Thin delegation to the collision module's obstacle sweep; no collision
    /// logic of its own.
    pub fn can_move_to(
        &self,
        entity: &Aabb,
        nx: Fixed,
        ny: Fixed,
        obstacles: &Vec<Aabb>,
    ) -> (r: bool)
        requires
            entity.wf(),
            crate::collision::moved_box(*entity, nx, ny).wf(),
            forall|i: int| 0 <= i < obstacles@.len() ==> #[trigger] obstacles@[i].wf(),
        ensures
            r == spec_can_move_to(*entity, nx, ny, obstacles@),
    {
        can_move_to(entity, nx, ny, obstacles)
    }
}

/// While grounded, friction never creates horizontal motion from rest.
pub proof fn lemma_grounded_rest_stays_at_rest(f: int, dt: int)
    ensures
        new_velocity_x(0, f, dt, true) == 0,
{
}

/// While airborne, one tick increases downward velocity by exactly the
/// fixed-point product of gravity and the tick length.
pub proof fn lemma_airborne_gravity_increment(vy: int, g: int, dt: int)
    ensures
        new_velocity_y(vy, g, dt, false) == vy + fmul(g, dt),
{
}

/// Grounded friction only decays speed: it never pushes the horizontal
/// velocity past zero into the opposite sign.
pub proof fn lemma_friction_never_flips_sign(vx: int, f: int, dt: int)
    ensures
        vx > 0 ==> new_velocity_x(vx, f, dt, true) >= 0,
        vx < 0 ==> new_velocity_x(vx, f, dt, true) <= 0,
        vx == 0 ==> new_velocity_x(vx, f, dt, true) == 0,
{
}

} // verus!
