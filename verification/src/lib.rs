//! Core light-transport primitives of a stochastic ray tracer: fixed-point
//! scalar and vector arithmetic, uniform sampling over a ball and a disk,
//! vector reflection, Fresnel-weighted refraction, and the intersection and
//! shading contracts that concrete geometry and materials implement.

pub mod axis;
pub mod fixed;
pub mod hit;
pub mod hitable;
pub mod material;
pub mod ray;
pub mod utils;
pub mod vector;
