use vstd::prelude::*;
use crate::fixed::Fixed;
use crate::fixed::SCALE;
use crate::fixed::tdiv;
use crate::vector::Vec3;

verus! {

/// A ray: an origin point and a direction vector; the point at parametric
/// distance `t` is `origin + t * direction`.
#[derive(Clone, Copy, Debug)]
pub struct Ray {
    pub origin: Vec3,
    pub direction: Vec3,
}

impl Ray {
    pub fn new(origin: Vec3, direction: Vec3) -> (r: Ray)
        ensures
            r.origin == origin,
            r.direction == direction,
    {
        Ray { origin, direction }
    }

    /// The point at parametric distance `t` along the ray.
    pub fn at(&self, t: Fixed) -> (p: Vec3)
        requires
            -(i64::MAX * SCALE) <= self.direction@.0 * t@ <= i64::MAX * SCALE,
            -(i64::MAX * SCALE) <= self.direction@.1 * t@ <= i64::MAX * SCALE,
            -(i64::MAX * SCALE) <= self.direction@.2 * t@ <= i64::MAX * SCALE,
            i64::MIN <= self.origin@.0 + tdiv(self.direction@.0 * t@, SCALE as int) <= i64::MAX,
            i64::MIN <= self.origin@.1 + tdiv(self.direction@.1 * t@, SCALE as int) <= i64::MAX,
            i64::MIN <= self.origin@.2 + tdiv(self.direction@.2 * t@, SCALE as int) <= i64::MAX,
        ensures
            p@ == (
                self.origin@.0 + tdiv(self.direction@.0 * t@, SCALE as int),
                self.origin@.1 + tdiv(self.direction@.1 * t@, SCALE as int),
                self.origin@.2 + tdiv(self.direction@.2 * t@, SCALE as int),
            ),
    {
        self.origin.add(&self.direction.scale(t))
    }
}

} // verus!
