//! A verified 2D Verlet-integration particle core.
//!
//! Particles ("balls") fall under constant gravity, are kept inside a circular
//! arena, and are pushed apart pairwise when they overlap.  All geometry is
//! carried in fixed-point integer coordinates (`math::UNIT` ticks per world
//! unit), so every operation is total, overflow-free and exactly specified:
//! lengths use a verified integer square root, and scaling uses truncating
//! fixed-point division.

pub mod math;
pub mod vector;
pub mod ball;
pub mod world;
