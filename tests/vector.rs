use raytracer::fixed::{fx_div, fx_mul, fx_sqrt, ONE};
use raytracer::ray::Ray;
use raytracer::vector::Vec3;

fn fx(a: f64) -> i64 {
    (a * ONE as f64).round() as i64
}

fn v(x: f64, y: f64, z: f64) -> Vec3 {
    Vec3::new(fx(x), fx(y), fx(z))
}

#[test]
fn get_components() {
    let vec = v(1.0, 2.0, 3.0);
    assert_eq!(vec.x(), fx(1.0));
    assert_eq!(vec.y(), fx(2.0));
    assert_eq!(vec.z(), fx(3.0));
}

#[test]
fn vector_addition() {
    assert_eq!(v(1.0, 1.0, 1.0).add(v(2.0, 2.0, 2.0)), v(3.0, 3.0, 3.0));
}

#[test]
fn norm_one() {
    assert_eq!(v(1.0, 0.0, 0.0).norm(), fx(1.0));
}

#[test]
fn cross_orthogonal_dot() {
    let a = v(1.0, 0.0, 0.0);
    let b = v(0.0, 1.0, 0.0);
    let c = a.cross(b);

    assert_eq!(c, v(0.0, 0.0, 1.0));
    assert_eq!(a.dot(c), 0);
    assert_eq!(b.dot(c), 0);
}

#[test]
fn zero_norm() {
    assert_eq!(Vec3::zero().norm(), 0);
}

#[test]
fn scale_by_five() {
    assert_eq!(v(2.0, 2.0, 2.0).scale(fx(5.0)), v(10.0, 10.0, 10.0));
}

#[test]
fn normalize() {
    let n = v(4.0, 8.0, 9.0).normalize().norm();
    assert!((n as f64 / ONE as f64 - 1.0).abs() < 0.0001);
}

#[test]
fn multiply_vector_components() {
    assert_eq!(v(1.0, 2.0, 3.0).mul(v(4.0, 5.0, 6.0)), v(4.0, 10.0, 18.0));
}

#[test]
fn at_test() {
    let ray = Ray::new(v(1.0, 1.0, 1.0), v(2.0, 2.0, 2.0));
    assert_eq!(ray.at(fx(1.0)), v(3.0, 3.0, 3.0));
    assert_eq!(ray.at(fx(-1.0)), v(-1.0, -1.0, -1.0));
}

#[test]
fn at_zero_is_origin() {
    let ray = Ray::new(v(0.5, -2.0, 7.25), v(3.0, -1.0, 0.125));
    assert_eq!(ray.at(0), ray.origin());
    assert_eq!(ray.at(fx(-2.0)), v(-5.5, 0.0, 7.0));
    assert_eq!(ray.dir(), v(3.0, -1.0, 0.125));
}

#[test]
fn reflect_off_floor() {
    assert_eq!(v(1.0, -1.0, 0.0).reflect(v(0.0, 1.0, 0.0)), v(1.0, 1.0, 0.0));
}

#[test]
fn refract_straight_through() {
    let r = v(0.0, 0.0, -1.0).refract(v(0.0, 0.0, 1.0), fx(0.5));
    assert_eq!(r, v(0.0, 0.0, -1.0));
}

#[test]
fn normalize_zero_falls_back_to_axis() {
    assert_eq!(Vec3::zero().normalize(), v(0.0, 0.0, 1.0));
    assert_eq!(v(0.0, 3.0, 0.0).normalize(), v(0.0, 1.0, 0.0));
}

#[test]
fn arithmetic_saturates() {
    let big = Vec3::new(i64::MAX, i64::MIN, 0);
    let s = big.add(big);
    assert_eq!(s.x(), raytracer::fixed::LIMIT);
    assert_eq!(s.y(), -raytracer::fixed::LIMIT);
    assert_eq!(big.neg().x(), -raytracer::fixed::LIMIT);
}

#[test]
fn sub_div_and_norm_sq() {
    assert_eq!(v(3.0, 2.0, 1.0).sub(v(1.0, 1.0, 1.0)), v(2.0, 1.0, 0.0));
    assert_eq!(v(3.0, 6.0, -9.0).div(fx(3.0)), v(1.0, 2.0, -3.0));
    assert_eq!(v(1.0, 2.0, 2.0).norm_sq(), fx(9.0));
    assert_eq!(v(1.0, 2.0, 2.0).norm(), fx(3.0));
}

#[test]
fn near_zero_only_for_zero() {
    assert!(Vec3::zero().is_near_zero());
    assert!(!Vec3::new(0, 1, 0).is_near_zero());
}

#[test]
fn toward_flips_into_half_space() {
    let n = v(0.0, 1.0, 0.0);
    assert_eq!(v(1.0, -1.0, 0.0).toward(n), v(-1.0, 1.0, 0.0));
    assert_eq!(v(1.0, 1.0, 0.0).toward(n), v(1.0, 1.0, 0.0));
}

#[test]
fn fixed_point_square_root_and_division() {
    assert_eq!(fx_sqrt(fx(4.0)), fx(2.0));
    assert_eq!(fx_sqrt(fx(2.0)), 92681);
    assert_eq!(fx_mul(fx(1.5), fx(-2.0)), fx(-3.0));
    assert_eq!(fx_div(fx(-1.0), fx(4.0)), fx(-0.25));
    assert_eq!(fx_div(-1, fx(2.0)), 0);
}

#[test]
fn normalize_tiny_vectors_to_unit_length() {
    for v in [Vec3::new(1, 1, 0), Vec3::new(1, 0, 0), Vec3::new(-3, 2, 7), Vec3::new(0, 0, -1)] {
        let n = v.normalize().norm();
        assert!(n >= ONE - 4 && n <= ONE, "{:?} -> {}", v, n);
    }
    assert_eq!(Vec3::new(1, 0, 0).normalize(), Vec3::new(ONE, 0, 0));
    assert_eq!(Vec3::new(1, 1, 0).normalize(), Vec3::new(46341, 46341, 0));
}
