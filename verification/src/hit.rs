use vstd::prelude::*;
use crate::fixed::Fixed;
use crate::vector::Vec3;

verus! {

/// The record of a ray/geometry intersection: the parametric distance `t`,
/// the world-space point, the unit surface normal, and the index of the
/// intersected object's material in the scene's stable material table.
#[derive(Clone, Copy, Debug)]
pub struct Hit {
    pub t: Fixed,
    pub point: Vec3,
    pub normal: Vec3,
    pub material: usize,
}

} // verus!
