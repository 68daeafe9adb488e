use llamaquest_core::collision::Aabb;
use llamaquest_core::errors::CoreError;
use llamaquest_core::fixed::Fixed;
use llamaquest_core::physics::{PhysicsEngine, Vec2};

fn fx(raw: i64) -> Fixed {
    Fixed::from_raw(raw)
}

fn v2(x: i64, y: i64) -> Vec2 {
    Vec2 { x: fx(x), y: fx(y) }
}

#[test]
fn defaults_are_gravity_9_8_and_friction_0_1() {
    let e = PhysicsEngine::new(None, None);
    assert_eq!(e.gravity.raw, 9800);
    assert_eq!(e.friction.raw, 100);
    let custom = PhysicsEngine::new(Some(fx(5000)), Some(fx(250)));
    assert_eq!(custom.gravity.raw, 5000);
    assert_eq!(custom.friction.raw, 250);
}

#[test]
fn grounded_friction_scenario_matches_exactly() {
    // gravity 9.8, friction 0.1, position (0,0), velocity (5,0), grounded,
    // dt 1.0: new velocity (4.9, 0), new position (4.9, 0).
    let e = PhysicsEngine::new(None, None);
    let (pos, vel) = e
        .update_entity(v2(0, 0), v2(5000, 0), true, fx(1000))
        .unwrap();
    assert_eq!(vel, v2(4900, 0));
    assert_eq!(pos, v2(4900, 0));
}

#[test]
fn grounded_rest_stays_at_rest() {
    let e = PhysicsEngine::new(None, None);
    let (_, vel) = e
        .update_entity(v2(700, 900), v2(0, 0), true, fx(1000))
        .unwrap();
    assert_eq!(vel.x.raw, 0);
}

#[test]
fn friction_never_flips_velocity_sign() {
    let e = PhysicsEngine::new(None, None);
    // Speed smaller than one tick of friction decays to exactly zero.
    let (_, vel) = e.update_entity(v2(0, 0), v2(40, 0), true, fx(1000)).unwrap();
    assert_eq!(vel.x.raw, 0);
    let (_, vel) = e
        .update_entity(v2(0, 0), v2(-40, 0), true, fx(1000))
        .unwrap();
    assert_eq!(vel.x.raw, 0);
}

#[test]
fn airborne_tick_adds_exactly_gravity_times_dt() {
    let e = PhysicsEngine::new(None, None);
    let (pos, vel) = e
        .update_entity(v2(0, 0), v2(2000, 0), false, fx(1000))
        .unwrap();
    assert_eq!(vel.y.raw, 9800);
    // Airborne motion keeps horizontal velocity; position advances by the
    // new velocity.
    assert_eq!(vel.x.raw, 2000);
    assert_eq!(pos, v2(2000, 9800));
}

#[test]
fn non_positive_delta_time_is_invalid_parameter() {
    let e = PhysicsEngine::new(None, None);
    assert_eq!(
        e.update_entity(v2(0, 0), v2(0, 0), true, fx(0)),
        Err(CoreError::InvalidParameter)
    );
    assert_eq!(
        e.update_entity(v2(0, 0), v2(0, 0), false, fx(-1000)),
        Err(CoreError::InvalidParameter)
    );
}

#[test]
fn zero_step_trajectory_is_just_the_start() {
    let e = PhysicsEngine::new(None, None);
    let path = e.calculate_projectile_path(v2(123, 456), v2(5000, -2000), 0, fx(1000));
    assert_eq!(path, vec![v2(123, 456)]);
}

#[test]
fn trajectory_follows_drag_and_gravity_exactly() {
    let e = PhysicsEngine::new(None, None);
    let path = e.calculate_projectile_path(v2(0, 0), v2(5000, 0), 2, fx(1000));
    // Step 1: vx = 5000 * 0.99 = 4950, vy = 9800, position (4950, 9800).
    // Step 2: vx = 4950 * 0.99 = 4900 (truncated), vy = 19600,
    //         position (9850, 29400).
    assert_eq!(path, vec![v2(0, 0), v2(4950, 9800), v2(9850, 29400)]);
}

#[test]
fn engine_can_move_to_delegates_to_collision() {
    let e = PhysicsEngine::new(None, None);
    let entity = Aabb::new(fx(0), fx(0), fx(1000), fx(1000)).unwrap();
    let obstacles = vec![Aabb::new(fx(2000), fx(0), fx(1000), fx(1000)).unwrap()];
    assert!(!e.can_move_to(&entity, fx(1500), fx(0), &obstacles));
    assert!(e.can_move_to(&entity, fx(500), fx(5000), &obstacles));
}
