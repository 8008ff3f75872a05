//! Command-and-control core of a real-time strategy game, on integer
//! (fixed-point) coordinates: pointer rays, ground projection, unit
//! selection, per-unit order queues and straight-line movement.

pub mod bounds;
pub mod camera;
pub mod cursor;
pub mod frame;
pub mod game;
pub mod geometry;
pub mod ground;
pub mod laws;
pub mod order;
pub mod selection;
pub mod unit;
