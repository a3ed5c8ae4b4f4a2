//! A flocking simulation of boids: integer vector math, axis-aligned regions,
//! a quadtree spatial index, steering rules, and a tick controller that
//! queries the index and commits the next state of every boid at once.

pub mod behaviour;
pub mod boid;
pub mod boid_mgr;
pub mod constants;
pub mod ecs;
pub mod game;
pub mod quadtree;
pub mod region;
pub mod vec;
