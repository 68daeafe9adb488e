//! Spatial and motion primitives for a tile-based 2D game: grid pathfinding,
//! axis-aligned overlap tests, field-of-view computation, and fixed-point
//! motion integration.

pub mod collision;
pub mod errors;
pub mod fixed;
pub mod fov;
pub mod grid;
pub mod pathfinding;
pub mod physics;
