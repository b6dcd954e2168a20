//! Agents on an integer grid, steered each tick by pluggable rules.

pub mod boid;
pub mod geometry;
pub mod rule;
pub mod world;
