//! A verified boid flocking simulation core: a fixed-capacity particle
//! store, a quadtree spatial index over the simulation domain, and a
//! deterministic per-frame flocking update (separation, alignment,
//! cohesion) with bounded speed and domain containment.
//!
//! Coordinates are fixed-point: one simulation unit is `fxp::SCALE` steps,
//! so the domain `[-1, 1]^2` is the integer square `[-SCALE, SCALE]^2`.

pub mod fxp;
pub mod seqsum;
pub mod config;
pub mod rng;
pub mod store;
pub mod quadtree;
pub mod sim;
