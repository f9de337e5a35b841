//! A path tracer over fixed-point reals: vector algebra, ray-sphere
//! intersection, material scattering, the recursive colour integrator and
//! the per-pixel renderer, each with a machine-checked contract.
//!
//! Real numbers are [`fixed::Fixed`]: sixteen fractional bits, saturating
//! arithmetic, and a well-formed range of ±16384. Randomness enters through
//! one function that draws whole numbers. Each material's `scatter` has a
//! twin `scatter_with` that takes the drawn value as an argument and is
//! fully specified, and the sphere sampler chooses among its candidates by
//! `first_in_unit_sphere`. The sampler, the integrator and the renderer
//! state the set of results that the draws allow.

pub mod fixed;
pub mod vec3;
pub mod base;
pub mod shapes;
pub mod materials;
pub mod refraction;
pub mod camera;
pub mod color;
pub mod render;
