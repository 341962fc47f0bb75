use vstd::prelude::*;
use vstd::arithmetic::div_mod::lemma_div_of0;
use vstd::arithmetic::div_mod::lemma_mod_multiples_basic;
use crate::axis::Axis;
use crate::axis::axis_index;
use crate::fixed::Fixed;
use crate::fixed::SCALE;
use crate::fixed::tdiv;
use crate::fixed::lemma_mul_bound;
use crate::fixed::lemma_tdiv_bound;
use crate::fixed::lemma_tdiv_sq;
use crate::vector::Vec3;
use crate::vector::dot3;
use crate::vector::bounded3;
use crate::vector::lemma_dot3_bound;

verus! {

/// Attempts each rejection sampler makes before giving up and returning the
/// center of the target shape; with acceptance probability above 1/2 per
/// trial, exhausting them has probability below 2^-64.
pub const SAMPLE_ATTEMPTS: u32 = 64;

/// Relies on rand::random::<u32>(): one draw from the thread-local
/// generator, uniform over all 32-bit values and independent of other
/// draws; nothing can be promised of the value itself.
#[verifier::external_body]
fn random_u32() -> u32 {
    rand::random::<u32>()
}

/// One uniform draw from [0, 1): an unbiased 32-bit sample divided by 2^32
/// (that is, its top 16 raw steps kept), so every raw step in [0, SCALE) is
/// equally likely and the result is strictly below one.
pub fn random() -> (r: Fixed)
    ensures
        0 <= r@ < SCALE,
{
    let u: u32 = random_u32();
    proof {
        assert(u >> 16 < 65536u32) by (bit_vector);
    }
    let top: u32 = u >> 16;
    Fixed { raw: top as i64 }
}

/// One rejection-sampling coordinate, uniform over [-1, 1).
fn sample_unit() -> (x: Fixed)
    ensures
        -SCALE <= x@ < SCALE,
{
    let u: Fixed = random();
    Fixed { raw: 2 * u.raw - 65536 }
}

/// Whether (x, y, z) lies strictly inside the unit ball, decided on the
/// exact integer sum of squares.
fn sum_sq_lt_one(x: Fixed, y: Fixed, z: Fixed) -> (r: bool)
    requires
        bounded3((x@, y@, z@), SCALE as int),
    ensures
        r == (dot3((x@, y@, z@), (x@, y@, z@)) < SCALE * SCALE),
{
    proof {
        lemma_mul_bound(x@, x@, 65536, 65536);
        lemma_mul_bound(y@, y@, 65536, 65536);
        lemma_mul_bound(z@, z@, 65536, 65536);
    }
    let s: i128 = (x.raw as i128) * (x.raw as i128) + (y.raw as i128) * (y.raw as i128)
        + (z.raw as i128) * (z.raw as i128);
    s < 4294967296
}

/// A point drawn from inside the unit ball and scaled by `r` stays strictly
/// inside the ball of radius `r`.
proof fn lemma_scaled_in_ball(x: int, y: int, z: int, r: int)
    requires
        dot3((x, y, z), (x, y, z)) < SCALE * SCALE,
        0 < r,
    ensures
        dot3(
            (tdiv(x * r, SCALE as int), tdiv(y * r, SCALE as int), tdiv(z * r, SCALE as int)),
            (tdiv(x * r, SCALE as int), tdiv(y * r, SCALE as int), tdiv(z * r, SCALE as int)),
        ) < r * r,
{
    let s = SCALE as int;
    let tx = tdiv(x * r, s);
    let ty = tdiv(y * r, s);
    let tz = tdiv(z * r, s);
    lemma_tdiv_sq(x * r, s);
    lemma_tdiv_sq(y * r, s);
    lemma_tdiv_sq(z * r, s);
    assert((x * r) * (x * r) == (x * x) * (r * r)) by (nonlinear_arith);
    assert((y * r) * (y * r) == (y * y) * (r * r)) by (nonlinear_arith);
    assert((z * r) * (z * r) == (z * z) * (r * r)) by (nonlinear_arith);
    let sq = x * x + y * y + z * z;
    assert((x * x) * (r * r) + (y * y) * (r * r) + (z * z) * (r * r) == sq * (r * r))
        by (nonlinear_arith)
        requires sq == x * x + y * y + z * z;
    assert(0 < r * r) by (nonlinear_arith)
        requires 0 < r;
    assert(sq * (r * r) <= (s * s - 1) * (r * r)) by (nonlinear_arith)
        requires sq <= s * s - 1, 0 < r * r;
    assert((tx * tx + ty * ty + tz * tz) * (s * s) <= (s * s - 1) * (r * r));
    assert((s * s - 1) * (r * r) == (s * s) * (r * r) - (r * r)) by (nonlinear_arith);
}

/// A point uniformly distributed over the solid ball of the given radius,
/// by rejection sampling; every returned point lies strictly inside the
/// ball. After `SAMPLE_ATTEMPTS` rejections (vanishingly unlikely) the
/// center is returned.
pub fn random_point_in_sphere(radius: Fixed) -> (p: Vec3)
    requires
        0 < radius@ <= 0x8000_0000,
    ensures
        dot3(p@, p@) < radius@ * radius@,
{
    let mut attempts: u32 = SAMPLE_ATTEMPTS;
    while attempts > 0
        invariant
            0 < radius@ <= 0x8000_0000,
        decreases attempts,
    {
        let x = sample_unit();
        let y = sample_unit();
        let z = sample_unit();
        if sum_sq_lt_one(x, y, z) {
            proof {
                lemma_mul_bound(x@, radius@, 65536, 0x8000_0000);
                lemma_mul_bound(y@, radius@, 65536, 0x8000_0000);
                lemma_mul_bound(z@, radius@, 65536, 0x8000_0000);
                lemma_scaled_in_ball(x@, y@, z@, radius@);
            }
            return Vec3 { x: x.mul(radius), y: y.mul(radius), z: z.mul(radius) };
        }
        attempts = attempts - 1;
    }
    proof {
        assert(0 < radius@ * radius@) by (nonlinear_arith)
            requires 0 < radius@;
    }
    Vec3::zero()
}

/// A point uniformly distributed over the disk of the given radius in the
/// z = 0 plane, by rejection sampling; every returned point has z exactly 0
/// and lies strictly inside the disk. After `SAMPLE_ATTEMPTS` rejections
/// (vanishingly unlikely) the center is returned.
pub fn random_point_in_circle(radius: Fixed) -> (p: Vec3)
    requires
        0 < radius@ <= 0x8000_0000,
    ensures
        p@.2 == 0,
        dot3(p@, p@) < radius@ * radius@,
{
    let mut attempts: u32 = SAMPLE_ATTEMPTS;
    while attempts > 0
        invariant
            0 < radius@ <= 0x8000_0000,
        decreases attempts,
    {
        let x = sample_unit();
        let y = sample_unit();
        if sum_sq_lt_one(x, y, Fixed::zero()) {
            proof {
                lemma_mul_bound(x@, radius@, 65536, 0x8000_0000);
                lemma_mul_bound(y@, radius@, 65536, 0x8000_0000);
                lemma_scaled_in_ball(x@, y@, 0, radius@);
                lemma_div_of0(SCALE as int);
            }
            return Vec3 { x: x.mul(radius), y: y.mul(radius), z: Fixed::zero() };
        }
        attempts = attempts - 1;
    }
    proof {
        assert(0 < radius@ * radius@) by (nonlinear_arith)
            requires 0 < radius@;
    }
    Vec3::zero()
}

/// The scale factor of a product of two raw values: SCALE squared.
pub open spec fn scale2() -> int {
    (SCALE as int) * (SCALE as int)
}

/// The raw triple has unit length at scale: its exact squared norm is
/// SCALE^2, the raw representation of 1.
pub open spec fn unit3(n: (int, int, int)) -> bool {
    dot3(n, n) == scale2()
}

/// The exact scaled numerators of the mirror reflection
/// `d - n * 2 * (d . n)`: each component carried at scale SCALE^3, so no
/// precision is lost before the final rounding.
pub open spec fn reflect_num(d: (int, int, int), n: (int, int, int)) -> (int, int, int) {
    (
        d.0 * scale2() - 2 * n.0 * dot3(d, n),
        d.1 * scale2() - 2 * n.1 * dot3(d, n),
        d.2 * scale2() - 2 * n.2 * dot3(d, n),
    )
}

/// The fixed-point mirror reflection: each exact numerator rounded once,
/// toward zero.
pub open spec fn reflect_spec(d: (int, int, int), n: (int, int, int)) -> (int, int, int) {
    (
        tdiv(reflect_num(d, n).0, scale2()),
        tdiv(reflect_num(d, n).1, scale2()),
        tdiv(reflect_num(d, n).2, scale2()),
    )
}

/// Whether the mirror reflection of `d` in `n` is exactly representable:
/// SCALE^2 divides every exact numerator, so rounding loses nothing.
pub open spec fn reflect_exact(d: (int, int, int), n: (int, int, int)) -> bool {
    &&& reflect_num(d, n).0 % scale2() == 0
    &&& reflect_num(d, n).1 % scale2() == 0
    &&& reflect_num(d, n).2 % scale2() == 0
}

/// The components of a unit triple are each at most SCALE in magnitude.
pub proof fn lemma_unit_components(n: (int, int, int))
    requires
        unit3(n),
    ensures
        bounded3(n, SCALE as int),
{
    assert(0 <= n.0 * n.0) by (nonlinear_arith);
    assert(0 <= n.1 * n.1) by (nonlinear_arith);
    assert(0 <= n.2 * n.2) by (nonlinear_arith);
    assert(-65536 <= n.0 <= 65536) by (nonlinear_arith)
        requires n.0 * n.0 <= 4294967296;
    assert(-65536 <= n.1 <= 65536) by (nonlinear_arith)
        requires n.1 * n.1 <= 4294967296;
    assert(-65536 <= n.2 <= 65536) by (nonlinear_arith)
        requires n.2 * n.2 <= 4294967296;
}

/// Binomial expansion of a squared difference.
proof fn lemma_sq_sub(a: int, b: int)
    by (nonlinear_arith)
    ensures
        (a - b) * (a - b) == a * a - 2 * (a * b) + b * b,
{
}

/// Rearrangement of a squared product.
proof fn lemma_sq_mul(x: int, y: int)
    by (nonlinear_arith)
    ensures
        (x * y) * (x * y) == (y * y) * (x * x),
{
}

/// Rearrangement of the square of a doubled product.
proof fn lemma_double_prod_sq(x: int, y: int)
    by (nonlinear_arith)
    ensures
        ((2 * x) * y) * ((2 * x) * y) == 4 * ((x * x) * (y * y)),
{
}

/// Rearrangement of the cross term of the reflection expansion.
proof fn lemma_cross_prod(x: int, y: int, z: int, w: int)
    by (nonlinear_arith)
    ensures
        (x * w) * ((2 * y) * z) == w * (2 * ((x * y) * z)),
{
}

/// Expansion of one reflected component against the normal component.
proof fn lemma_dot_comp(a: int, b: int, dd: int, c: int)
    by (nonlinear_arith)
    ensures
        (a * c - (2 * b) * dd) * b == c * (a * b) - 2 * ((b * b) * dd),
{
}

/// Reflection in a unit normal is an isometry that flips the component
/// along the normal: over the exact numerators, the squared norm of the
/// reflection equals the squared norm of the direction, and its projection
/// on the normal is the exact negation of the direction's.
pub proof fn lemma_reflect_isometry(d: (int, int, int), n: (int, int, int))
    requires
        unit3(n),
    ensures
        dot3(reflect_num(d, n), reflect_num(d, n)) == scale2() * scale2() * dot3(d, d),
        dot3(reflect_num(d, n), n) == -(scale2() * dot3(d, n)),
{
    let s2 = scale2();
    let dn = dot3(d, n);
    let rn = reflect_num(d, n);
    assert(s2 == 4294967296);
    assert(rn.0 == d.0 * s2 - (2 * n.0) * dn);
    assert(rn.1 == d.1 * s2 - (2 * n.1) * dn);
    assert(rn.2 == d.2 * s2 - (2 * n.2) * dn);
    lemma_sq_sub(d.0 * s2, (2 * n.0) * dn);
    lemma_sq_sub(d.1 * s2, (2 * n.1) * dn);
    lemma_sq_sub(d.2 * s2, (2 * n.2) * dn);
    lemma_sq_mul(d.0, s2);
    lemma_sq_mul(d.1, s2);
    lemma_sq_mul(d.2, s2);
    lemma_double_prod_sq(n.0, dn);
    lemma_double_prod_sq(n.1, dn);
    lemma_double_prod_sq(n.2, dn);
    lemma_cross_prod(d.0, n.0, dn, s2);
    lemma_cross_prod(d.1, n.1, dn, s2);
    lemma_cross_prod(d.2, n.2, dn, s2);
    assert((d.0 * n.0) * dn + (d.1 * n.1) * dn + (d.2 * n.2) * dn == dn * dn)
        by (nonlinear_arith)
        requires dn == d.0 * n.0 + d.1 * n.1 + d.2 * n.2;
    assert((n.0 * n.0) * (dn * dn) + (n.1 * n.1) * (dn * dn) + (n.2 * n.2) * (dn * dn) == s2 * (
        dn * dn)) by (nonlinear_arith)
        requires n.0 * n.0 + n.1 * n.1 + n.2 * n.2 == s2;
    assert(s2 * s2 == 4294967296 * 4294967296);
    assert((s2 * s2) * (d.0 * d.0) == 18446744073709551616 * (d.0 * d.0));
    assert((s2 * s2) * (d.1 * d.1) == 18446744073709551616 * (d.1 * d.1));
    assert((s2 * s2) * (d.2 * d.2) == 18446744073709551616 * (d.2 * d.2));
    assert(s2 * (2 * ((d.0 * n.0) * dn)) == 4294967296 * (2 * ((d.0 * n.0) * dn)));
    assert(s2 * (2 * ((d.1 * n.1) * dn)) == 4294967296 * (2 * ((d.1 * n.1) * dn)));
    assert(s2 * (2 * ((d.2 * n.2) * dn)) == 4294967296 * (2 * ((d.2 * n.2) * dn)));
    assert(s2 * (dn * dn) == 4294967296 * (dn * dn));
    assert((s2 * s2) * dot3(d, d) == 18446744073709551616 * dot3(d, d));
    lemma_dot_comp(d.0, n.0, dn, s2);
    lemma_dot_comp(d.1, n.1, dn, s2);
    lemma_dot_comp(d.2, n.2, dn, s2);
    assert((n.0 * n.0) * dn + (n.1 * n.1) * dn + (n.2 * n.2) * dn == s2 * dn)
        by (nonlinear_arith)
        requires n.0 * n.0 + n.1 * n.1 + n.2 * n.2 == s2;
}

/// Reflection in an axis-aligned unit normal is exactly representable for
/// every direction, so there the rounded reflection itself is an exact
/// isometry (`lemma_reflect_representable` applies unconditionally).
pub proof fn lemma_reflect_axis_exact(d: (int, int, int), n: (int, int, int))
    requires
        unit3(n),
        (n.0 == 0 && n.1 == 0) || (n.0 == 0 && n.2 == 0) || (n.1 == 0 && n.2 == 0),
    ensures
        reflect_exact(d, n),
{
    let s2 = scale2();
    let dn = dot3(d, n);
    assert(s2 == 4294967296);
    if n.0 == 0 && n.1 == 0 {
        assert(d.0 * n.0 == 0 && d.1 * n.1 == 0 && n.0 * n.0 == 0 && n.1 * n.1 == 0)
            by (nonlinear_arith)
            requires n.0 == 0 && n.1 == 0;
        assert((2 * n.0) * dn == 0 && (2 * n.1) * dn == 0) by (nonlinear_arith)
            requires n.0 == 0 && n.1 == 0;
        assert((2 * n.2) * (d.2 * n.2) == 2 * (d.2 * (n.2 * n.2))) by (nonlinear_arith);
        assert(d.2 * (n.2 * n.2) == d.2 * s2);
        assert(reflect_num(d, n).2 == (-d.2) * s2) by (nonlinear_arith)
            requires reflect_num(d, n).2 == d.2 * s2 - 2 * (d.2 * s2);
        lemma_mod_multiples_basic(d.0, s2);
        lemma_mod_multiples_basic(d.1, s2);
        lemma_mod_multiples_basic(-d.2, s2);
    } else if n.0 == 0 && n.2 == 0 {
        assert(d.0 * n.0 == 0 && d.2 * n.2 == 0 && n.0 * n.0 == 0 && n.2 * n.2 == 0)
            by (nonlinear_arith)
            requires n.0 == 0 && n.2 == 0;
        assert((2 * n.0) * dn == 0 && (2 * n.2) * dn == 0) by (nonlinear_arith)
            requires n.0 == 0 && n.2 == 0;
        assert((2 * n.1) * (d.1 * n.1) == 2 * (d.1 * (n.1 * n.1))) by (nonlinear_arith);
        assert(d.1 * (n.1 * n.1) == d.1 * s2);
        assert(reflect_num(d, n).1 == (-d.1) * s2) by (nonlinear_arith)
            requires reflect_num(d, n).1 == d.1 * s2 - 2 * (d.1 * s2);
        lemma_mod_multiples_basic(d.0, s2);
        lemma_mod_multiples_basic(-d.1, s2);
        lemma_mod_multiples_basic(d.2, s2);
    } else {
        assert(d.1 * n.1 == 0 && d.2 * n.2 == 0 && n.1 * n.1 == 0 && n.2 * n.2 == 0)
            by (nonlinear_arith)
            requires n.1 == 0 && n.2 == 0;
        assert((2 * n.1) * dn == 0 && (2 * n.2) * dn == 0) by (nonlinear_arith)
            requires n.1 == 0 && n.2 == 0;
        assert((2 * n.0) * (d.0 * n.0) == 2 * (d.0 * (n.0 * n.0))) by (nonlinear_arith);
        assert(d.0 * (n.0 * n.0) == d.0 * s2);
        assert(reflect_num(d, n).0 == (-d.0) * s2) by (nonlinear_arith)
            requires reflect_num(d, n).0 == d.0 * s2 - 2 * (d.0 * s2);
        lemma_mod_multiples_basic(-d.0, s2);
        lemma_mod_multiples_basic(d.1, s2);
        lemma_mod_multiples_basic(d.2, s2);
    }
}

/// When the mirror reflection is exactly representable, the rounded result
/// itself preserves the squared norm of the direction and exactly negates
/// its projection on the normal.
pub proof fn lemma_reflect_representable(d: (int, int, int), n: (int, int, int))
    requires
        unit3(n),
        reflect_exact(d, n),
    ensures
        dot3(reflect_spec(d, n), reflect_spec(d, n)) == dot3(d, d),
        dot3(reflect_spec(d, n), n) == -dot3(d, n),
{
    let s2 = scale2();
    let rn = reflect_num(d, n);
    let r = reflect_spec(d, n);
    assert(s2 == 4294967296);
    lemma_reflect_isometry(d, n);
    crate::fixed::lemma_tdiv_exact(rn.0, s2);
    crate::fixed::lemma_tdiv_exact(rn.1, s2);
    crate::fixed::lemma_tdiv_exact(rn.2, s2);
    assert((r.0 * s2) * (r.0 * s2) == (r.0 * r.0) * (s2 * s2)) by (nonlinear_arith);
    assert((r.1 * s2) * (r.1 * s2) == (r.1 * r.1) * (s2 * s2)) by (nonlinear_arith);
    assert((r.2 * s2) * (r.2 * s2) == (r.2 * r.2) * (s2 * s2)) by (nonlinear_arith);
    assert(dot3(rn, rn) == (dot3(r, r)) * (s2 * s2)) by (nonlinear_arith)
        requires
            s2 == 4294967296,
            rn.0 == r.0 * s2,
            rn.1 == r.1 * s2,
            rn.2 == r.2 * s2,
            dot3(rn, rn) == rn.0 * rn.0 + rn.1 * rn.1 + rn.2 * rn.2,
            dot3(r, r) == r.0 * r.0 + r.1 * r.1 + r.2 * r.2;
    assert(dot3(rn, n) == (dot3(r, n)) * s2) by (nonlinear_arith)
        requires
            s2 == 4294967296,
            rn.0 == r.0 * s2,
            rn.1 == r.1 * s2,
            rn.2 == r.2 * s2,
            dot3(rn, n) == rn.0 * n.0 + rn.1 * n.1 + rn.2 * n.2,
            dot3(r, n) == r.0 * n.0 + r.1 * n.1 + r.2 * n.2;
    assert(dot3(r, r) * (s2 * s2) == dot3(d, d) * (s2 * s2) ==> dot3(r, r) == dot3(d, d))
        by (nonlinear_arith)
        requires s2 == 4294967296;
    assert(dot3(r, n) * s2 == -(s2 * dot3(d, n)) ==> dot3(r, n) == -dot3(d, n))
        by (nonlinear_arith)
        requires s2 == 4294967296;
    assert(dot3(d, d) * (s2 * s2) == (s2 * s2) * dot3(d, d)) by (nonlinear_arith);
}

/// The mirror reflection `direction - normal * 2 * (direction . normal)`,
/// with each component computed exactly and rounded once. The magnitude of
/// the incident direction is preserved exactly whenever the reflection is
/// exactly representable.
pub fn reflect(direction: &Vec3, normal: &Vec3) -> (r: Vec3)
    requires
        unit3(normal@),
        bounded3(direction@, 0x8000_0000),
    ensures
        r@ == reflect_spec(direction@, normal@),
{
    proof {
        lemma_unit_components(normal@);
        lemma_mul_bound(direction@.0, normal@.0, 0x8000_0000, 65536);
        lemma_mul_bound(direction@.1, normal@.1, 0x8000_0000, 65536);
        lemma_mul_bound(direction@.2, normal@.2, 0x8000_0000, 65536);
    }
    let dx: i128 = direction.x.raw as i128;
    let dy: i128 = direction.y.raw as i128;
    let dz: i128 = direction.z.raw as i128;
    let nx: i128 = normal.x.raw as i128;
    let ny: i128 = normal.y.raw as i128;
    let nz: i128 = normal.z.raw as i128;
    let d: i128 = dx * nx + dy * ny + dz * nz;
    proof {
        lemma_dot3_bound(direction@, normal@, 0x8000_0000, 65536);
        lemma_mul_bound(2 * normal@.0, dot3(direction@, normal@), 131072, 422212465065984);
        lemma_mul_bound(2 * normal@.1, dot3(direction@, normal@), 131072, 422212465065984);
        lemma_mul_bound(2 * normal@.2, dot3(direction@, normal@), 131072, 422212465065984);
        lemma_mul_bound(direction@.0, scale2(), 0x8000_0000, 4294967296);
        lemma_mul_bound(direction@.1, scale2(), 0x8000_0000, 4294967296);
        lemma_mul_bound(direction@.2, scale2(), 0x8000_0000, 4294967296);
        lemma_tdiv_bound(reflect_num(direction@, normal@).0, scale2(), 16000000000);
        lemma_tdiv_bound(reflect_num(direction@, normal@).1, scale2(), 16000000000);
        lemma_tdiv_bound(reflect_num(direction@, normal@).2, scale2(), 16000000000);
    }
    let rx: i128 = crate::fixed::div_trunc(dx * 4294967296 - 2 * nx * d, 4294967296);
    let ry: i128 = crate::fixed::div_trunc(dy * 4294967296 - 2 * ny * d, 4294967296);
    let rz: i128 = crate::fixed::div_trunc(dz * 4294967296 - 2 * nz * d, 4294967296);
    Vec3 {
        x: Fixed { raw: rx as i64 },
        y: Fixed { raw: ry as i64 },
        z: Fixed { raw: rz as i64 },
    }
}

/// Raw bound on direction components accepted by the refraction utilities
/// (values up to 4.0), headroom that keeps every intermediate product of
/// the Schlick and Snell chains inside 64 bits.
pub const DIR_BOUND: i64 = 262144;

/// Raw upper bound on indices of refraction (values up to 8.0).
pub const INDEX_BOUND: i64 = 524288;

/// Raw lower bound on the far-side index of refraction (values from 1/8).
pub const INDEX_MIN: i64 = 8192;

/// The meaning of `Fixed::mul`: the exact product, truncated once.
pub open spec fn fx_mul(a: int, b: int) -> int {
    tdiv(a * b, SCALE as int)
}

/// The meaning of `Fixed::div` for a positive divisor.
pub open spec fn fx_div(a: int, b: int) -> int {
    tdiv(a * SCALE, b)
}

/// The meaning of `Vec3::dot`: the exact sum of products, truncated once.
pub open spec fn fx_dot(a: (int, int, int), b: (int, int, int)) -> int {
    tdiv(dot3(a, b), SCALE as int)
}

/// Schlick's reflectance approximation as this crate computes it:
/// `cosine = -n * (d . normal)`, `r0 = ((1 - n) / (1 + n))^2`, and the
/// result `r0 + (1 - r0) * (1 - cosine)^5`, with every fixed-point product
/// rounded exactly as the executable code rounds it.
pub open spec fn schlick_spec(d: (int, int, int), nv: (int, int, int), ni: int) -> int {
    let c = fx_dot(d, nv);
    let cosine = -fx_mul(ni, c);
    let r0a = fx_div((SCALE as int) - ni, (SCALE as int) + ni);
    let r0 = fx_mul(r0a, r0a);
    let x = (SCALE as int) - cosine;
    let p2 = fx_mul(x, x);
    let p4 = fx_mul(p2, p2);
    let p5 = fx_mul(p4, x);
    r0 + fx_mul((SCALE as int) - r0, p5)
}

/// The discriminant of Snell's law, `1 - ratio^2 * (1 - c^2)` with
/// `ratio = n0 / n1` and `c = d . normal`, rounded as computed.
pub open spec fn refract_disc(
    d: (int, int, int),
    nv: (int, int, int),
    n0: int,
    n1: int,
) -> int {
    let c = fx_dot(d, nv);
    let ratio = fx_div(n0, n1);
    (SCALE as int) - fx_mul(fx_mul(ratio, ratio), (SCALE as int) - fx_mul(c, c))
}

/// The transmitted vector of Snell's law,
/// `(d - normal * c) * ratio - normal * sqrt(discriminant)`, rounded as
/// computed.
pub open spec fn transmit_spec(
    d: (int, int, int),
    nv: (int, int, int),
    n0: int,
    n1: int,
) -> (int, int, int) {
    let c = fx_dot(d, nv);
    let ratio = fx_div(n0, n1);
    let disc = refract_disc(d, nv, n0, n1);
    let sq = crate::fixed::isqrt(disc * (SCALE as int));
    (
        fx_mul(d.0 - fx_mul(nv.0, c), ratio) - fx_mul(nv.0, sq),
        fx_mul(d.1 - fx_mul(nv.1, c), ratio) - fx_mul(nv.1, sq),
        fx_mul(d.2 - fx_mul(nv.2, c), ratio) - fx_mul(nv.2, sq),
    )
}

/// Schlick's approximation of the Fresnel reflectance of a dielectric
/// interface, as a function of incidence angle and the index parameter `n`
/// supplied by the caller.
pub fn reflection_probability(direction: &Vec3, normal: &Vec3, n: Fixed) -> (p: Fixed)
    requires
        unit3(normal@),
        bounded3(direction@, DIR_BOUND as int),
        0 < n@ <= INDEX_BOUND,
    ensures
        p@ == schlick_spec(direction@, normal@, n@),
{
    proof {
        lemma_unit_components(normal@);
        lemma_dot3_bound(direction@, normal@, 262144, 65536);
        lemma_tdiv_bound(dot3(direction@, normal@), SCALE as int, 786432);
    }
    let c: Fixed = direction.dot(normal);
    proof {
        lemma_mul_bound(n@, c@, 524288, 786432);
        lemma_tdiv_bound(n@ * c@, SCALE as int, 6291456);
    }
    let cosine: Fixed = n.mul(c).neg();
    proof {
        lemma_tdiv_bound(((SCALE as int) - n@) * SCALE, (SCALE as int) + n@, 589824);
    }
    let r0a: Fixed = Fixed::one().sub(n).div(Fixed::one().add(n));
    proof {
        lemma_mul_bound(r0a@, r0a@, 589824, 589824);
        lemma_tdiv_bound(r0a@ * r0a@, SCALE as int, 5308416);
    }
    let r0: Fixed = r0a.mul(r0a);
    let x: Fixed = Fixed::one().sub(cosine);
    proof {
        lemma_mul_bound(x@, x@, 6356992, 6356992);
        lemma_tdiv_bound(x@ * x@, SCALE as int, 616628224);
    }
    let p2: Fixed = x.mul(x);
    proof {
        lemma_mul_bound(p2@, p2@, 616628224, 616628224);
        lemma_tdiv_bound(p2@ * p2@, SCALE as int, 5801854959616);
    }
    let p4: Fixed = p2.mul(p2);
    proof {
        lemma_mul_bound(p4@, x@, 5801854959616, 6356992);
        lemma_tdiv_bound(p4@ * x@, SCALE as int, 562779931082752);
    }
    let p5: Fixed = p4.mul(x);
    proof {
        lemma_mul_bound((SCALE as int) - r0@, p5@, 5373952, 562779931082752);
        lemma_tdiv_bound(((SCALE as int) - r0@) * p5@, SCALE as int, 46147954348785664);
    }
    let w: Fixed = Fixed::one().sub(r0).mul(p5);
    r0.add(w)
}

/// Fresnel-weighted refraction by Snell's law. Beyond the critical angle
/// (discriminant at most 0) the ray is reflected outright; otherwise it is
/// reflected with the Schlick probability of `reflection_probability`
/// (note: invoked with the raw `n0`, not the ratio `n0 / n1`, preserving
/// the reference behavior) and transmitted with the complementary
/// probability. When the reflectance is not positive the draw cannot fall
/// below it, so the transmitted vector is returned deterministically.
pub fn refract(direction: &Vec3, normal: &Vec3, n0: Fixed, n1: Fixed) -> (r: Vec3)
    requires
        unit3(normal@),
        bounded3(direction@, DIR_BOUND as int),
        0 < n0@ <= INDEX_BOUND,
        INDEX_MIN <= n1@ <= INDEX_BOUND,
    ensures
        refract_disc(direction@, normal@, n0@, n1@) <= 0 ==> r@ == reflect_spec(
            direction@,
            normal@,
        ),
        r@ == reflect_spec(direction@, normal@) || r@ == transmit_spec(
            direction@,
            normal@,
            n0@,
            n1@,
        ),
        refract_disc(direction@, normal@, n0@, n1@) > 0 && schlick_spec(
            direction@,
            normal@,
            n0@,
        ) <= 0 ==> r@ == transmit_spec(direction@, normal@, n0@, n1@),
{
    proof {
        lemma_unit_components(normal@);
        lemma_tdiv_bound(n0@ * SCALE, n1@, 4194304);
        lemma_dot3_bound(direction@, normal@, 262144, 65536);
        lemma_tdiv_bound(dot3(direction@, normal@), SCALE as int, 786432);
    }
    let ratio: Fixed = n0.div(n1);
    let c: Fixed = direction.dot(normal);
    proof {
        lemma_mul_bound(c@, c@, 786432, 786432);
        lemma_tdiv_bound(c@ * c@, SCALE as int, 9437184);
        lemma_mul_bound(ratio@, ratio@, 4194304, 4194304);
        lemma_tdiv_bound(ratio@ * ratio@, SCALE as int, 268435456);
    }
    let cc: Fixed = c.mul(c);
    let t: Fixed = Fixed::one().sub(cc);
    let rr: Fixed = ratio.mul(ratio);
    proof {
        lemma_mul_bound(rr@, t@, 268435456, 9502720);
        lemma_tdiv_bound(rr@ * t@, SCALE as int, 38923141120);
    }
    let disc: Fixed = Fixed::one().sub(rr.mul(t));
    if disc.gt(Fixed::zero()) {
        let prob: Fixed = reflection_probability(direction, normal, n0);
        let u: Fixed = random();
        if u.lt(prob) {
            reflect(direction, normal)
        } else {
            let sq: Fixed = disc.sqrt();
            proof {
                crate::fixed::lemma_isqrt_le(disc@ * SCALE);
                lemma_mul_bound(normal@.0, c@, 65536, 786432);
                lemma_mul_bound(normal@.1, c@, 65536, 786432);
                lemma_mul_bound(normal@.2, c@, 65536, 786432);
                lemma_tdiv_bound(normal@.0 * c@, SCALE as int, 786432);
                lemma_tdiv_bound(normal@.1 * c@, SCALE as int, 786432);
                lemma_tdiv_bound(normal@.2 * c@, SCALE as int, 786432);
            }
            let nc: Vec3 = normal.scale(c);
            let t1: Vec3 = direction.sub(&nc);
            proof {
                lemma_mul_bound(t1@.0, ratio@, 1048576, 4194304);
                lemma_mul_bound(t1@.1, ratio@, 1048576, 4194304);
                lemma_mul_bound(t1@.2, ratio@, 1048576, 4194304);
                lemma_tdiv_bound(t1@.0 * ratio@, SCALE as int, 67108864);
                lemma_tdiv_bound(t1@.1 * ratio@, SCALE as int, 67108864);
                lemma_tdiv_bound(t1@.2 * ratio@, SCALE as int, 67108864);
                lemma_mul_bound(normal@.0, sq@, 65536, 2550871271407616);
                lemma_mul_bound(normal@.1, sq@, 65536, 2550871271407616);
                lemma_mul_bound(normal@.2, sq@, 65536, 2550871271407616);
                lemma_tdiv_bound(normal@.0 * sq@, SCALE as int, 2550871271407616);
                lemma_tdiv_bound(normal@.1 * sq@, SCALE as int, 2550871271407616);
                lemma_tdiv_bound(normal@.2 * sq@, SCALE as int, 2550871271407616);
            }
            let t2: Vec3 = t1.scale(ratio);
            let ns: Vec3 = normal.scale(sq);
            t2.sub(&ns)
        }
    } else {
        reflect(direction, normal)
    }
}

/// The canonical offset of an axis: X to 0, Y to 1, Z to 2.
pub fn axis_to_index(axis: &Axis) -> (i: usize)
    ensures
        i == axis_index(*axis),
{
    match axis {
        Axis::X => 0,
        Axis::Y => 1,
        Axis::Z => 2,
    }
}

/// The axis-to-offset mapping is a total bijection between {X, Y, Z} and
/// {0, 1, 2}: every axis lands inside {0, 1, 2}, no two axes share an
/// offset, and every offset is taken.
pub proof fn lemma_axis_index_bijective()
    ensures
        forall|a: Axis| 0 <= #[trigger] axis_index(a) < 3,
        forall|a: Axis, b: Axis|
            #![trigger axis_index(a), axis_index(b)]
            axis_index(a) == axis_index(b) ==> a == b,
        axis_index(Axis::X) == 0,
        axis_index(Axis::Y) == 1,
        axis_index(Axis::Z) == 2,
{
    assert(axis_index(Axis::X) == 0);
    assert(axis_index(Axis::Y) == 1);
    assert(axis_index(Axis::Z) == 2);
}

} // verus!
