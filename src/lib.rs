//! Flocking simulation of point agents in a toroidal plane, in fixed-point
//! integer arithmetic: neighbour discovery, steering, a soft speed limit and
//! boundary wrap.

pub mod vector;
pub mod config;
pub mod random;
pub mod boid;
pub mod flock;
pub mod motion;
