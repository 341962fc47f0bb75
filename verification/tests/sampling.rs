use raytrace_core::fixed::Fixed;
use raytrace_core::utils::random;
use raytrace_core::utils::random_point_in_circle;
use raytrace_core::utils::random_point_in_sphere;

fn norm_sq_raw(x: i64, y: i64, z: i64) -> i64 {
    x * x + y * y + z * z
}

#[test]
fn sphere_points_lie_strictly_inside() {
    let radii: [i64; 3] = [65536, 163840, 6553600];
    for &r in radii.iter() {
        let radius = Fixed::from_raw(r);
        for _ in 0..200 {
            let p = random_point_in_sphere(radius);
            assert!(norm_sq_raw(p.x.raw, p.y.raw, p.z.raw) < r * r);
        }
    }
}

#[test]
fn circle_points_lie_in_plane_and_inside() {
    let radii: [i64; 2] = [65536, 163840];
    for &r in radii.iter() {
        let radius = Fixed::from_raw(r);
        for _ in 0..200 {
            let p = random_point_in_circle(radius);
            assert_eq!(p.z.raw, 0);
            assert!(norm_sq_raw(p.x.raw, p.y.raw, 0) < r * r);
        }
    }
}

#[test]
fn sphere_sampling_is_uniform_in_volume() {
    // Inside the unit ball the fraction of points within radius 1/2 should
    // be close to (1/2)^3 = 1/8; 20000 samples put 2500 +- 1000 far beyond
    // any plausible statistical wobble.
    let radius = Fixed::from_int(1);
    let mut inside_half: i64 = 0;
    let half_sq: i64 = 32768 * 32768;
    for _ in 0..20000 {
        let p = random_point_in_sphere(radius);
        if norm_sq_raw(p.x.raw, p.y.raw, p.z.raw) < half_sq {
            inside_half += 1;
        }
    }
    assert!(inside_half > 1500, "too few points near the center: {}", inside_half);
    assert!(inside_half < 3500, "too many points near the center: {}", inside_half);
}

#[test]
fn random_stays_in_unit_interval() {
    for _ in 0..10000 {
        let u = random();
        assert!(u.raw >= 0);
        assert!(u.raw < 65536);
    }
}

#[test]
fn random_draws_are_not_stuck() {
    let mut draws: Vec<i64> = Vec::new();
    for _ in 0..1000 {
        draws.push(random().raw);
    }
    let first = draws[0];
    assert!(draws.iter().any(|&d| d != first));
    let mut adjacent_equal: usize = 0;
    for i in 1..draws.len() {
        if draws[i] == draws[i - 1] {
            adjacent_equal += 1;
        }
    }
    // Adjacent draws collide with probability 1/65536 each.
    assert!(adjacent_equal < 10, "adjacent draws repeat too often: {}", adjacent_equal);
}
