//! A ray-casting renderer over exact fixed-point arithmetic.
//!
//! Geometry is carried as `i64` values at a fixed scale of one million per
//! unit, so every operation (including the square roots and divisions of the
//! ray-sphere intersection) has an exact integer meaning that the contracts
//! state in full.

pub mod fx;
pub mod vec3;
pub mod ray;
pub mod hit;
pub mod sphere;
pub mod camera;
pub mod rng;
pub mod render;
pub mod laws;
