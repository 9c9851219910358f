use raytracer::camera::{T_MAX, T_MIN};
use raytracer::fixed::{fx_add, fx_div, fx_mul, fx_sub, ONE};
use raytracer::material::{reflectance, Material, ScatterDraw};
use raytracer::ray::Ray;
use raytracer::scene::Scene;
use raytracer::shapes::{HitResult, Hittable, InfinitePlane, Sphere, Surface, Triangle};
use raytracer::vector::Vec3;

fn fx(a: f64) -> i64 {
    (a * ONE as f64).round() as i64
}

fn v(x: f64, y: f64, z: f64) -> Vec3 {
    Vec3::new(fx(x), fx(y), fx(z))
}

fn grey() -> Material {
    Material::Diffuse { color: v(0.5, 0.5, 0.5) }
}

#[test]
fn sphere_hit_head_on() {
    let s = Sphere::new(Vec3::zero(), fx(1.0), grey());
    let ray = Ray::new(v(0.0, 0.0, 3.0), v(0.0, 0.0, -1.0));
    let h = s.hit(ray, T_MIN, T_MAX).expect("hit");
    assert_eq!(h.t(), fx(2.0));
    assert_eq!(h.hit_point(), v(0.0, 0.0, 1.0));
    assert_eq!(h.normal(), v(0.0, 0.0, 1.0));
    assert!(h.front_face());
    assert_eq!(*h.material(), grey());
}

#[test]
fn sphere_missed_by_parallel_ray() {
    let s = Sphere::new(Vec3::zero(), fx(1.0), grey());
    let ray = Ray::new(v(0.0, 0.0, 3.0), v(1.0, 0.0, 0.0));
    assert!(s.hit(ray, T_MIN, T_MAX).is_none());
}

#[test]
fn sphere_hit_from_inside_is_back_face() {
    let s = Sphere::new(Vec3::zero(), fx(1.0), grey());
    let ray = Ray::new(Vec3::zero(), v(0.0, 0.0, 1.0));
    let h = s.hit(ray, T_MIN, T_MAX).expect("hit");
    assert_eq!(h.t(), fx(1.0));
    assert_eq!(h.normal(), v(0.0, 0.0, -1.0));
    assert!(!h.front_face());
}

#[test]
fn sphere_far_root_when_near_root_out_of_span() {
    let s = Sphere::new(Vec3::zero(), fx(1.0), grey());
    let ray = Ray::new(v(0.0, 0.0, 3.0), v(0.0, 0.0, -1.0));
    let h = s.hit(ray, fx(2.5), T_MAX).expect("hit");
    assert_eq!(h.t(), fx(4.0));
    assert!(s.hit(ray, T_MIN, fx(2.0)).is_none());
}

#[test]
fn negative_radius_flips_normal() {
    let s = Sphere::new(Vec3::zero(), fx(-1.0), grey());
    let ray = Ray::new(v(0.0, 0.0, 3.0), v(0.0, 0.0, -1.0));
    let h = s.hit(ray, T_MIN, T_MAX).expect("hit");
    assert_eq!(h.t(), fx(2.0));
    assert_eq!(h.normal(), v(0.0, 0.0, 1.0));
    assert!(!h.front_face());
}

#[test]
fn zero_radius_sphere_is_never_hit() {
    let s = Sphere::new(Vec3::zero(), 0, grey());
    let ray = Ray::new(v(0.0, 0.0, 3.0), v(0.0, 0.0, -1.0));
    assert!(s.hit(ray, T_MIN, T_MAX).is_none());
}

#[test]
fn triangle_hit_inside() {
    let t = Triangle::new(v(0.0, 0.0, 0.0), v(1.0, 0.0, 0.0), v(0.0, 1.0, 0.0), grey());
    let ray = Ray::new(v(0.2, 0.2, 1.0), v(0.0, 0.0, -1.0));
    let h = t.hit(ray, T_MIN, T_MAX).expect("hit");
    assert_eq!(h.t(), fx(1.0));
    assert_eq!(h.hit_point(), Vec3::new(fx(0.2), fx(0.2), 0));
    assert_eq!(h.normal(), v(0.0, 0.0, 1.0));
    assert!(!h.front_face());
}

#[test]
fn triangle_missed_outside_and_parallel() {
    let t = Triangle::new(v(0.0, 0.0, 0.0), v(1.0, 0.0, 0.0), v(0.0, 1.0, 0.0), grey());
    let outside = Ray::new(v(0.8, 0.8, 1.0), v(0.0, 0.0, -1.0));
    assert!(t.hit(outside, T_MIN, T_MAX).is_none());
    let parallel = Ray::new(v(0.2, 0.2, 1.0), v(1.0, 0.0, 0.0));
    assert!(t.hit(parallel, T_MIN, T_MAX).is_none());
}

#[test]
fn plane_hit_and_parallel_miss() {
    let p = InfinitePlane::new(fx(0.5), v(0.0, -2.0, 0.0), grey());
    let down = Ray::new(Vec3::zero(), v(0.0, -1.0, 0.0));
    let h = p.hit(down, T_MIN, T_MAX).expect("hit");
    assert_eq!(h.t(), fx(0.5));
    assert_eq!(h.hit_point(), v(0.0, -0.5, 0.0));
    assert_eq!(h.normal(), v(0.0, 1.0, 0.0));
    assert!(!h.front_face());
    let flat = Ray::new(Vec3::zero(), v(1.0, 0.0, 0.0));
    assert!(p.hit(flat, T_MIN, T_MAX).is_none());
    let up = Ray::new(Vec3::zero(), v(0.0, 1.0, 0.0));
    assert!(p.hit(up, T_MIN, T_MAX).is_none());
}

fn two_sphere_hit(near_first: bool) -> HitResult {
    let near = Sphere::new(v(0.0, 0.0, -3.0), fx(1.0), Material::Metal { color: v(0.8, 0.8, 0.8), fuzz: 0 });
    let far = Sphere::new(v(0.0, 0.0, -4.0), fx(1.5), grey());
    let mut scene = Scene::new();
    if near_first {
        scene.add_sphere(near);
        scene.add_sphere(far);
    } else {
        scene.add_sphere(far);
        scene.add_sphere(near);
    }
    assert_eq!(scene.count(), 2);
    let ray = Ray::new(Vec3::zero(), v(0.0, 0.0, -1.0));
    scene.hit(ray, T_MIN, T_MAX).expect("hit")
}

#[test]
fn scene_returns_nearer_sphere_in_any_order() {
    let a = two_sphere_hit(true);
    let b = two_sphere_hit(false);
    assert_eq!(a, b);
    assert_eq!(a.t(), fx(2.0));
    assert_eq!(*a.material(), Material::Metal { color: v(0.8, 0.8, 0.8), fuzz: 0 });
}

#[test]
fn scene_mixes_shape_kinds() {
    let mut scene = Scene::new();
    assert!(scene.hit(Ray::new(Vec3::zero(), v(0.0, -1.0, 0.0)), T_MIN, T_MAX).is_none());
    scene.add_inf_plane(InfinitePlane::new(fx(2.0), v(0.0, -1.0, 0.0), grey()));
    scene.add_triangle(Triangle::new(v(-1.0, -1.0, -1.0), v(1.0, -1.0, -1.0), v(0.0, -1.0, 1.0), Material::Glass { refractive_index: fx(1.5) }));
    scene.add(Surface::Sphere(Sphere::new(v(0.0, -5.0, 0.0), fx(1.0), grey())));
    assert_eq!(scene.count(), 3);
    assert!(scene.is_valid());
    let h = scene.hit(Ray::new(Vec3::zero(), v(0.0, -1.0, 0.0)), T_MIN, T_MAX).expect("hit");
    assert_eq!(h.t(), fx(1.0));
    assert_eq!(*h.material(), Material::Glass { refractive_index: fx(1.5) });
}

#[test]
fn scene_validity() {
    let mut scene = Scene::new();
    scene.add_sphere(Sphere::new(Vec3::zero(), fx(1.0), Material::Glass { refractive_index: 0 }));
    assert!(!scene.is_valid());
    assert!(!Material::Diffuse { color: v(-0.5, 0.0, 0.0) }.is_valid());
    assert!(Material::Diffuse { color: v(1.5, 0.0, 0.0) }.is_valid());
    assert!(Material::Light { color: v(1.0, 0.5, 0.5), intensity: fx(5.0) }.is_valid());
}

#[test]
fn schlick_at_normal_incidence_is_r0() {
    let n = fx(1.5);
    let r = fx_div(fx_sub(ONE, n), fx_add(ONE, n));
    let r0 = fx_mul(r, r);
    assert_eq!(reflectance(ONE, n), r0);
    assert_eq!(r0, 2621);
    assert!(reflectance(0, n) > r0);
}

fn hit_at_origin(front_face: bool, material: Material) -> HitResult {
    HitResult { t: ONE, hit_point: Vec3::zero(), normal: v(0.0, 0.0, 1.0), material, front_face }
}

#[test]
fn glass_refracts_or_reflects_by_chance() {
    let glass = Material::Glass { refractive_index: fx(1.5) };
    let h = hit_at_origin(true, glass);
    let ray = Ray::new(v(0.0, 0.0, 1.0), v(0.0, 0.0, -1.0));
    let through = glass.scatter_with(ray, &h, ScatterDraw { offset: Vec3::zero(), chance: fx(0.5) }).expect("scatter");
    assert_eq!(through.ray.dir, v(0.0, 0.0, -1.0));
    assert_eq!(through.ray.origin, Vec3::zero());
    assert_eq!(through.attenuation, v(1.0, 1.0, 1.0));
    let back = glass.scatter_with(ray, &h, ScatterDraw { offset: Vec3::zero(), chance: 0 }).expect("scatter");
    assert_eq!(back.ray.dir, v(0.0, 0.0, 1.0));
}

#[test]
fn diffuse_bounce_and_cancellation() {
    let m = Material::Diffuse { color: v(0.7, 0.3, 0.3) };
    let h = hit_at_origin(true, m);
    let ray = Ray::new(v(0.0, 0.0, 1.0), v(0.0, 0.0, -1.0));
    let s = m.scatter_with(ray, &h, ScatterDraw { offset: v(0.0, 0.5, 0.0), chance: 0 }).expect("scatter");
    assert_eq!(s.ray.dir, v(0.0, 1.0, 1.0));
    assert_eq!(s.attenuation, v(0.7, 0.3, 0.3));
    let c = m.scatter_with(ray, &h, ScatterDraw { offset: v(0.0, 0.0, -0.5), chance: 0 }).expect("scatter");
    assert_eq!(c.ray.dir, v(0.0, 0.0, 1.0));
}

#[test]
fn metal_reflects_or_absorbs() {
    let mirror = Material::Metal { color: v(0.8, 0.6, 0.2), fuzz: 0 };
    let h = HitResult { t: ONE, hit_point: Vec3::zero(), normal: v(0.0, 1.0, 0.0), material: mirror, front_face: true };
    let ray = Ray::new(v(-1.0, 1.0, 0.0), v(1.0, -1.0, 0.0));
    let s = mirror.scatter_with(ray, &h, ScatterDraw { offset: v(0.0, -1.0, 0.0), chance: 0 }).expect("scatter");
    assert_eq!(s.ray.dir, v(1.0, 1.0, 0.0));
    assert_eq!(s.attenuation, v(0.8, 0.6, 0.2));
    let rough = Material::Metal { color: v(0.8, 0.6, 0.2), fuzz: fx(2.0) };
    assert!(rough.scatter_with(ray, &h, ScatterDraw { offset: v(0.0, -1.0, 0.0), chance: 0 }).is_none());
}

#[test]
fn light_emits_and_does_not_scatter() {
    let lamp = Material::Light { color: v(1.0, 0.5, 0.5), intensity: fx(2.0) };
    let h = hit_at_origin(true, lamp);
    let ray = Ray::new(v(0.0, 0.0, 1.0), v(0.0, 0.0, -1.0));
    assert!(lamp.scatter_with(ray, &h, ScatterDraw { offset: Vec3::zero(), chance: 0 }).is_none());
    assert_eq!(lamp.emitted(), v(2.0, 1.0, 1.0));
    assert_eq!(grey().emitted(), Vec3::zero());
}
