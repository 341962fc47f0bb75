use raytrace_core::axis::Axis;
use raytrace_core::fixed::Fixed;
use raytrace_core::utils::axis_to_index;
use raytrace_core::utils::reflect;
use raytrace_core::utils::reflection_probability;
use raytrace_core::utils::refract;
use raytrace_core::vector::Vec3;

fn fx(n: i64) -> Fixed {
    Fixed::from_int(n)
}

fn vec(x: i64, y: i64, z: i64) -> Vec3 {
    Vec3::new(fx(x), fx(y), fx(z))
}

#[test]
fn reflect_example() {
    let d = vec(1, -1, 0);
    let n = vec(0, 1, 0);
    let r = reflect(&d, &n);
    assert_eq!(r.x.raw, 65536);
    assert_eq!(r.y.raw, 65536);
    assert_eq!(r.z.raw, 0);
}

#[test]
fn reflect_preserves_magnitude_and_flips_normal_component() {
    let d = vec(3, -2, 5);
    let n = vec(0, 1, 0);
    let r = reflect(&d, &n);
    assert_eq!((r.x.raw, r.y.raw, r.z.raw), (3 * 65536, 2 * 65536, 5 * 65536));
    let norm_d: i64 = d.x.raw * d.x.raw + d.y.raw * d.y.raw + d.z.raw * d.z.raw;
    let norm_r: i64 = r.x.raw * r.x.raw + r.y.raw * r.y.raw + r.z.raw * r.z.raw;
    assert_eq!(norm_d, norm_r);
    let dot_d: i64 = d.y.raw * n.y.raw;
    let dot_r: i64 = r.y.raw * n.y.raw;
    assert_eq!(dot_r, -dot_d);
}

#[test]
fn refract_normal_incidence_is_bend_free() {
    let d = vec(0, 0, -1);
    let n = vec(0, 0, 1);
    let r = refract(&d, &n, fx(1), Fixed::from_raw(98304));
    assert_eq!(r.x.raw, 0);
    assert_eq!(r.y.raw, 0);
    assert_eq!(r.z.raw, -65536);
}

#[test]
fn refract_total_internal_reflection_is_pure_reflection() {
    let d = vec(1, 0, 0);
    let n = vec(0, 0, 1);
    let r = refract(&d, &n, Fixed::from_raw(98304), fx(1));
    let expected = reflect(&d, &n);
    assert_eq!(r.x.raw, expected.x.raw);
    assert_eq!(r.y.raw, expected.y.raw);
    assert_eq!(r.z.raw, expected.z.raw);
    assert_eq!(r.x.raw, 65536);
    assert_eq!(r.y.raw, 0);
    assert_eq!(r.z.raw, 0);
}

#[test]
fn refract_transmits_when_reflectance_is_not_positive() {
    // With the index parameter 2.0 the Schlick chain yields a negative
    // reflectance at normal incidence, so the outcome is deterministic.
    let d = vec(0, 0, -1);
    let n = vec(0, 0, 1);
    let p = reflection_probability(&d, &n, fx(2));
    assert!(p.raw <= 0);
    let r = refract(&d, &n, fx(2), Fixed::from_raw(98304));
    assert_eq!(r.x.raw, 0);
    assert_eq!(r.y.raw, 0);
    assert_eq!(r.z.raw, -65536);
}

#[test]
fn reflection_probability_normal_incidence_values() {
    let d = vec(0, 0, -1);
    let n = vec(0, 0, 1);
    let p_match = reflection_probability(&d, &n, fx(1));
    assert_eq!(p_match.raw, 0);
    let p_glass = reflection_probability(&d, &n, Fixed::from_raw(98304));
    assert_eq!(p_glass.raw, 655);
}

#[test]
fn axis_to_index_is_the_canonical_bijection() {
    assert_eq!(axis_to_index(&Axis::X), 0);
    assert_eq!(axis_to_index(&Axis::Y), 1);
    assert_eq!(axis_to_index(&Axis::Z), 2);
}
