use llamaquest_core::collision::{can_move_to, collision_detection, Aabb};
use llamaquest_core::errors::CoreError;
use llamaquest_core::fixed::Fixed;

fn fx(raw: i64) -> Fixed {
    Fixed::from_raw(raw)
}

fn aabb(x: i64, y: i64, w: i64, h: i64) -> Aabb {
    Aabb::new(fx(x), fx(y), fx(w), fx(h)).unwrap()
}

#[test]
fn overlapping_boxes_are_detected() {
    let a = aabb(0, 0, 2000, 2000);
    let b = aabb(1000, 1000, 2000, 2000);
    assert!(collision_detection(&a, &b));
}

#[test]
fn disjoint_boxes_do_not_overlap() {
    let a = aabb(0, 0, 1000, 1000);
    let b = aabb(5000, 0, 1000, 1000);
    assert!(!collision_detection(&a, &b));
}

#[test]
fn overlap_is_symmetric_and_reflexive() {
    let a = aabb(0, 0, 2000, 2000);
    let b = aabb(1500, 500, 1000, 1000);
    let c = aabb(9000, 9000, 500, 500);
    assert_eq!(collision_detection(&a, &b), collision_detection(&b, &a));
    assert_eq!(collision_detection(&a, &c), collision_detection(&c, &a));
    assert!(collision_detection(&a, &a));
}

#[test]
fn edge_adjacent_boxes_do_not_overlap() {
    // b starts exactly where a ends on the x axis.
    let a = aabb(0, 0, 1000, 1000);
    let b = aabb(1000, 0, 1000, 1000);
    assert!(!collision_detection(&a, &b));
    assert!(!collision_detection(&b, &a));
    // Touching along the y axis.
    let c = aabb(0, 1000, 1000, 1000);
    assert!(!collision_detection(&a, &c));
    // Touching only at a corner.
    let d = aabb(1000, 1000, 1000, 1000);
    assert!(!collision_detection(&a, &d));
}

#[test]
fn non_positive_extent_is_invalid_parameter() {
    assert_eq!(
        Aabb::new(fx(0), fx(0), fx(0), fx(1000)).err(),
        Some(CoreError::InvalidParameter)
    );
    assert_eq!(
        Aabb::new(fx(0), fx(0), fx(1000), fx(-5)).err(),
        Some(CoreError::InvalidParameter)
    );
}

#[test]
fn can_move_to_detects_blocking_obstacle() {
    let entity = aabb(0, 0, 1000, 1000);
    let obstacles = vec![aabb(3000, 3000, 2000, 2000), aabb(9000, 0, 1000, 1000)];
    // Proposed position collides with the first obstacle.
    assert!(!can_move_to(&entity, fx(3500), fx(3500), &obstacles));
    // Clear position between the obstacles.
    assert!(can_move_to(&entity, fx(6000), fx(0), &obstacles));
    // Touching an obstacle edge is not a collision.
    assert!(can_move_to(&entity, fx(2000), fx(3000), &obstacles));
}

#[test]
fn can_move_to_with_no_obstacles_is_free() {
    let entity = aabb(0, 0, 1000, 1000);
    assert!(can_move_to(&entity, fx(-500), fx(700), &Vec::new()));
}
