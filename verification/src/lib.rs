//! Geometric intersection engine for an offline renderer, modelled on an
//! integer coordinate lattice: vector algebra, axis-aligned bounding boxes,
//! ray/primitive intersection for a closed family of shapes, and a
//! bounding-volume hierarchy for sub-linear scene queries.

pub mod math;
pub mod ray;
pub mod aabb;
pub mod hittable;
pub mod laws;
