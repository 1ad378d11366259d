//! Core of a 2-D flocking ("boids") simulation: a region quadtree for
//! neighbour lookup and the per-tick force model that consumes it.
//!
//! All coordinates are fixed-point integers: one world unit is `UNIT`
//! (see `mathx`) coordinate steps. The surrounding application converts
//! to and from whatever representation its rendering layer uses.

pub mod flock;
pub mod geometry;
pub mod integrate;
pub mod mathx;
pub mod quadtree;
