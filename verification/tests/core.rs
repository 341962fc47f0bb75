use raytrace_core::fixed::Fixed;
use raytrace_core::hit::Hit;
use raytrace_core::hitable::Hitable;
use raytrace_core::material::Material;
use raytrace_core::material::Scatter;
use raytrace_core::ray::Ray;
use raytrace_core::vector::Vec3;

fn fx(n: i64) -> Fixed {
    Fixed::from_int(n)
}

#[test]
fn fixed_construction_and_linear_ops() {
    assert_eq!(Fixed::zero().raw, 0);
    assert_eq!(Fixed::one().raw, 65536);
    assert_eq!(fx(-3).raw, -196608);
    assert_eq!(fx(2).add(fx(3)).raw, 5 * 65536);
    assert_eq!(fx(2).sub(fx(3)).raw, -65536);
    assert_eq!(fx(2).neg().raw, -131072);
    assert!(fx(1).lt(fx(2)));
    assert!(fx(2).le(fx(2)));
    assert!(fx(3).gt(fx(2)));
}

#[test]
fn fixed_mul_truncates_toward_zero() {
    assert_eq!(Fixed::from_raw(98304).mul(fx(2)).raw, 196608);
    assert_eq!(Fixed::from_raw(1).mul(Fixed::from_raw(1)).raw, 0);
    assert_eq!(Fixed::from_raw(-1).mul(Fixed::from_raw(1)).raw, 0);
    assert_eq!(Fixed::from_raw(-98304).mul(fx(3)).raw, -294912);
}

#[test]
fn fixed_div_truncates_toward_zero() {
    assert_eq!(fx(3).div(fx(2)).raw, 98304);
    assert_eq!(Fixed::from_raw(-3).div(fx(2)).raw, -1);
    assert_eq!(fx(-3).div(fx(2)).raw, -98304);
}

#[test]
fn fixed_sqrt_values() {
    assert_eq!(fx(4).sqrt().raw, 131072);
    assert_eq!(fx(1).sqrt().raw, 65536);
    assert_eq!(fx(2).sqrt().raw, 92681);
    assert_eq!(Fixed::from_raw(147456).sqrt().raw, 98304);
    assert_eq!(Fixed::zero().sqrt().raw, 0);
}

#[test]
fn ray_point_at_distance() {
    let ray = Ray::new(Vec3::new(fx(1), fx(2), fx(3)), Vec3::new(fx(1), fx(0), fx(0)));
    let p = ray.at(fx(2));
    assert_eq!(p.x.raw, 3 * 65536);
    assert_eq!(p.y.raw, 2 * 65536);
    assert_eq!(p.z.raw, 3 * 65536);
}

#[test]
fn vector_componentwise_ops() {
    let a = Vec3::new(fx(1), fx(2), fx(3));
    let b = Vec3::new(fx(4), fx(-5), fx(6));
    let s = a.add(&b);
    assert_eq!((s.x.raw, s.y.raw, s.z.raw), (5 * 65536, -3 * 65536, 9 * 65536));
    let d = a.sub(&b);
    assert_eq!((d.x.raw, d.y.raw, d.z.raw), (-3 * 65536, 7 * 65536, -3 * 65536));
    let dot = a.dot(&b);
    assert_eq!(dot.raw, (4 - 10 + 18) * 65536);
    let sc = a.scale(fx(2));
    assert_eq!((sc.x.raw, sc.y.raw, sc.z.raw), (2 * 65536, 4 * 65536, 6 * 65536));
}

struct MissEverything;

impl Hitable for MissEverything {
    fn hit(&self, _ray: &Ray, _t_min: Fixed, _t_max: Fixed) -> Option<Hit> {
        None
    }
}

struct MidpointSurface;

impl Hitable for MidpointSurface {
    fn hit(&self, ray: &Ray, t_min: Fixed, t_max: Fixed) -> Option<Hit> {
        let t = Fixed::from_raw(t_min.raw + (t_max.raw - t_min.raw) / 2);
        if !(t_min.raw < t.raw && t.raw < t_max.raw) {
            return None;
        }
        Some(Hit {
            t,
            point: ray.origin,
            normal: Vec3::new(Fixed::zero(), Fixed::zero(), Fixed::one()),
            material: 0,
        })
    }
}

struct Absorber;

impl Material for Absorber {
    fn scatter(&self, _incident: &Ray, hit: &Hit) -> Scatter {
        Scatter { attenuation: hit.normal, scattered: None }
    }
}

#[test]
fn hitable_contract_over_trait_objects() {
    let ray = Ray::new(Vec3::zero(), Vec3::new(fx(1), fx(0), fx(0)));
    let miss = MissEverything;
    assert!(miss.hit(&ray, Fixed::zero(), fx(100)).is_none());
    let surface = MidpointSurface;
    let got = surface.hit(&ray, Fixed::zero(), fx(100)).unwrap();
    assert!(Fixed::zero().lt(got.t));
    assert!(got.t.lt(fx(100)));
    assert!(surface.hit(&ray, fx(1), fx(1)).is_none());
}

#[test]
fn material_scatter_absorbs() {
    let ray = Ray::new(Vec3::zero(), Vec3::new(fx(1), fx(0), fx(0)));
    let hit = Hit {
        t: fx(1),
        point: Vec3::zero(),
        normal: Vec3::new(Fixed::zero(), Fixed::zero(), Fixed::one()),
        material: 0,
    };
    let absorber = Absorber;
    let scatter = absorber.scatter(&ray, &hit);
    assert!(scatter.scattered.is_none());
    assert_eq!(scatter.attenuation.z.raw, 65536);
}
