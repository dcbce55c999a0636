//! Orbital-debris cascade simulation core: a central-body integrator, an
//! octree broad phase, an exact collision detector and a debris breakup model.
//!
//! All quantities are integers in fixed units: lengths in micrometres,
//! velocities in micrometres per second, masses in grams and times in
//! milliseconds.
pub mod geometry;
pub mod octree;
pub mod objects;
pub mod physics;
pub mod collision;
pub mod debris;
pub mod data;
pub mod analytics;
pub mod stress_test;
