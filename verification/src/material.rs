use vstd::prelude::*;
use crate::hit::Hit;
use crate::ray::Ray;
use crate::vector::Vec3;

verus! {

/// The outcome of a shading decision: a componentwise color filter applied
/// to returned radiance, and the scattered ray, absent when the incident
/// ray is absorbed at the surface.
#[derive(Clone, Copy, Debug)]
pub struct Scatter {
    pub attenuation: Vec3,
    pub scattered: Option<Ray>,
}

/// The polymorphic shading contract, implemented by concrete materials
/// (diffuse, reflective, refractive) out of the optics and sampling
/// utilities of this crate.
pub trait Material {
    /// Decides how the surface at `hit` scatters the ray `incident`.
    fn scatter(&self, incident: &Ray, hit: &Hit) -> Scatter;
}

} // verus!
