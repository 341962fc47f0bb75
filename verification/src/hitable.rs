use vstd::prelude::*;
use crate::fixed::Fixed;
use crate::hit::Hit;
use crate::ray::Ray;

verus! {

/// The polymorphic intersection contract, implemented by concrete geometry.
///
/// A composite scene implementing this trait must scan its members and keep
/// the minimum-`t` accepted hit, narrowing `t_max` as it goes, so that
/// occluded surfaces are never reported.
pub trait Hitable {
    /// Returns the nearest intersection of `ray` with the receiver whose
    /// parametric distance lies strictly between `t_min` and `t_max`, or
    /// `None` when no such intersection exists.
    fn hit(&self, ray: &Ray, t_min: Fixed, t_max: Fixed) -> (h: Option<Hit>)
        ensures
            h matches Some(ht) ==> t_min@ < ht.t@ < t_max@,
    ;
}

} // verus!
