use vstd::prelude::*;
use crate::fixed::Fixed;
use crate::fixed::SCALE;
use crate::fixed::tdiv;
use crate::fixed::div_trunc;
use crate::fixed::lemma_mul_bound;
use crate::fixed::lemma_tdiv_bound;

verus! {

/// Exact integer dot product of two triples of raw components.
pub open spec fn dot3(a: (int, int, int), b: (int, int, int)) -> int {
    a.0 * b.0 + a.1 * b.1 + a.2 * b.2
}

/// All three raw components lie within `[-m, m]`.
pub open spec fn bounded3(v: (int, int, int), m: int) -> bool {
    &&& -m <= v.0 <= m
    &&& -m <= v.1 <= m
    &&& -m <= v.2 <= m
}

/// The exact dot product of componentwise-bounded triples is bounded by
/// three times the product of the bounds.
pub proof fn lemma_dot3_bound(a: (int, int, int), b: (int, int, int), ma: int, mb: int)
    requires
        bounded3(a, ma),
        bounded3(b, mb),
    ensures
        -(3 * (ma * mb)) <= dot3(a, b) <= 3 * (ma * mb),
{
    lemma_mul_bound(a.0, b.0, ma, mb);
    lemma_mul_bound(a.1, b.1, ma, mb);
    lemma_mul_bound(a.2, b.2, ma, mb);
}

/// A 3-component vector of fixed-point scalars.
#[derive(Clone, Copy, PartialEq, Eq, Structural, Debug)]
pub struct Vec3 {
    pub x: Fixed,
    pub y: Fixed,
    pub z: Fixed,
}

impl View for Vec3 {
    type V = (int, int, int);

    open spec fn view(&self) -> (int, int, int) {
        (self.x@, self.y@, self.z@)
    }
}

impl Vec3 {
    pub fn new(x: Fixed, y: Fixed, z: Fixed) -> (r: Vec3)
        ensures
            r@ == (x@, y@, z@),
    {
        Vec3 { x, y, z }
    }

    pub fn zero() -> (r: Vec3)
        ensures
            r@ == (0int, 0int, 0int),
    {
        Vec3 { x: Fixed::zero(), y: Fixed::zero(), z: Fixed::zero() }
    }

    pub fn add(&self, o: &Vec3) -> (r: Vec3)
        requires
            i64::MIN <= self@.0 + o@.0 <= i64::MAX,
            i64::MIN <= self@.1 + o@.1 <= i64::MAX,
            i64::MIN <= self@.2 + o@.2 <= i64::MAX,
        ensures
            r@ == (self@.0 + o@.0, self@.1 + o@.1, self@.2 + o@.2),
    {
        Vec3 { x: self.x.add(o.x), y: self.y.add(o.y), z: self.z.add(o.z) }
    }

    pub fn sub(&self, o: &Vec3) -> (r: Vec3)
        requires
            i64::MIN <= self@.0 - o@.0 <= i64::MAX,
            i64::MIN <= self@.1 - o@.1 <= i64::MAX,
            i64::MIN <= self@.2 - o@.2 <= i64::MAX,
        ensures
            r@ == (self@.0 - o@.0, self@.1 - o@.1, self@.2 - o@.2),
    {
        Vec3 { x: self.x.sub(o.x), y: self.y.sub(o.y), z: self.z.sub(o.z) }
    }

    /// Componentwise product with a scalar, each component truncated
    /// toward zero.
    pub fn scale(&self, s: Fixed) -> (r: Vec3)
        requires
            -(i64::MAX * SCALE) <= self@.0 * s@ <= i64::MAX * SCALE,
            -(i64::MAX * SCALE) <= self@.1 * s@ <= i64::MAX * SCALE,
            -(i64::MAX * SCALE) <= self@.2 * s@ <= i64::MAX * SCALE,
        ensures
            r@ == (
                tdiv(self@.0 * s@, SCALE as int),
                tdiv(self@.1 * s@, SCALE as int),
                tdiv(self@.2 * s@, SCALE as int),
            ),
    {
        Vec3 { x: self.x.mul(s), y: self.y.mul(s), z: self.z.mul(s) }
    }

    /// Fixed-point dot product: the exact integer sum of products, scaled
    /// back down with a single truncation.
    pub fn dot(&self, o: &Vec3) -> (r: Fixed)
        requires
            bounded3(self@, 0x8000_0000),
            bounded3(o@, 0x8000_0000),
        ensures
            r@ == tdiv(dot3(self@, o@), SCALE as int),
    {
        proof {
            lemma_mul_bound(self@.0, o@.0, 0x8000_0000, 0x8000_0000);
            lemma_mul_bound(self@.1, o@.1, 0x8000_0000, 0x8000_0000);
            lemma_mul_bound(self@.2, o@.2, 0x8000_0000, 0x8000_0000);
            lemma_tdiv_bound(dot3(self@, o@), SCALE as int, 211106232532992);
        }
        let s: i128 = (self.x.raw as i128) * (o.x.raw as i128)
            + (self.y.raw as i128) * (o.y.raw as i128)
            + (self.z.raw as i128) * (o.z.raw as i128);
        let q: i128 = div_trunc(s, 65536);
        Fixed { raw: q as i64 }
    }
}

} // verus!
