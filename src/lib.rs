//! Timetable search by particle swarm optimisation.
//!
//! Positions, velocities and weights are fixed-point numbers: an `i64`
//! coordinate `x` stands for the real number `x / SCALE`.
pub mod model;
pub mod decoder;
pub mod evaluator;
pub mod particle;
pub mod optimizer;
