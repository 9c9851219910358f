use rand::rngs::StdRng;
use rand::SeedableRng;
use raytracer::camera::{gamma_correction, sky_color, to_rgb, Camera, CameraError};
use raytracer::fixed::ONE;
use raytracer::material::{Material, ScatterDraw};
use raytracer::ray::Ray;
use raytracer::sampling::{signed_fraction, signed_fraction_of, unit_fraction, unit_fraction_of};
use raytracer::scene::Scene;
use raytracer::shapes::{InfinitePlane, Sphere};
use raytracer::vector::Vec3;

fn fx(a: f64) -> i64 {
    (a * ONE as f64).round() as i64
}

fn v(x: f64, y: f64, z: f64) -> Vec3 {
    Vec3::new(fx(x), fx(y), fx(z))
}

fn small_camera(samples: u32, depth: u32) -> Camera {
    Camera::new(v(0.0, 0.0, 1.0), v(0.0, 0.0, 0.0), v(0.0, 1.0, 0.0), 8, 6, fx(0.5), samples, depth)
        .expect("camera")
}

fn demo_scene() -> Scene {
    let mut scene = Scene::new();
    scene.add_inf_plane(InfinitePlane::new(fx(0.5), v(0.0, -1.0, 0.0), Material::Diffuse { color: v(0.4, 0.7, 0.2) }));
    scene.add_sphere(Sphere::new(v(0.0, 0.0, -1.0), fx(0.5), Material::Metal { color: v(0.8, 0.8, 0.8), fuzz: fx(0.3) }));
    scene.add_sphere(Sphere::new(v(-1.0, 0.0, -1.0), fx(-0.4), Material::Glass { refractive_index: fx(1.5) }));
    scene.add_sphere(Sphere::new(v(1.0, 3.5, 2.0), fx(1.0), Material::Light { color: v(1.0, 0.5, 0.5), intensity: fx(5.0) }));
    scene
}

#[test]
fn metal_box_terminates_with_nonnegative_color() {
    let mirror = Material::Metal { color: v(1.0, 1.0, 1.0), fuzz: 0 };
    let mut scene = Scene::new();
    let axes = [v(1.0, 0.0, 0.0), v(-1.0, 0.0, 0.0), v(0.0, 1.0, 0.0), v(0.0, -1.0, 0.0), v(0.0, 0.0, 1.0), v(0.0, 0.0, -1.0)];
    for n in axes.iter() {
        scene.add_inf_plane(InfinitePlane::new(fx(1.0), *n, mirror));
    }
    assert!(scene.is_valid());
    let camera = small_camera(1, 50);
    let mut rng = StdRng::seed_from_u64(3);
    for dir in [v(0.3, 0.2, 1.0), v(-1.0, 0.5, 0.25), v(0.0, -1.0, 0.0)] {
        let c = camera.ray_color(Ray::new(Vec3::zero(), dir), &scene, 50, &mut rng);
        assert!(c.x() >= 0 && c.y() >= 0 && c.z() >= 0);
    }
}

#[test]
fn zero_depth_is_black() {
    let camera = small_camera(1, 1);
    let mut rng = StdRng::seed_from_u64(1);
    let c = camera.ray_color(Ray::new(Vec3::zero(), v(0.0, 1.0, 0.0)), &demo_scene(), 0, &mut rng);
    assert_eq!(c, Vec3::zero());
}

#[test]
fn empty_scene_shows_sky() {
    let camera = small_camera(1, 1);
    let mut rng = StdRng::seed_from_u64(1);
    let c = camera.ray_color(Ray::new(Vec3::zero(), v(0.0, 1.0, 0.0)), &Scene::new(), 5, &mut rng);
    assert_eq!(c, Vec3::new(45875, ONE, ONE));
}

#[test]
fn light_is_seen_directly() {
    let camera = small_camera(1, 1);
    let mut scene = Scene::new();
    scene.add_sphere(Sphere::new(v(0.0, 0.0, -3.0), fx(1.0), Material::Light { color: v(1.0, 0.5, 0.25), intensity: fx(2.0) }));
    let mut rng = StdRng::seed_from_u64(1);
    let c = camera.ray_color(Ray::new(Vec3::zero(), v(0.0, 0.0, -1.0)), &scene, 3, &mut rng);
    assert_eq!(c, v(2.0, 1.0, 0.5));
}

#[test]
fn sky_gradient() {
    assert_eq!(sky_color(v(0.0, 1.0, 0.0)), Vec3::new(45875, ONE, ONE));
    assert_eq!(sky_color(v(0.0, -1.0, 0.0)), v(1.0, 1.0, 1.0));
    assert_eq!(sky_color(v(1.0, 0.0, 0.0)), Vec3::new(32768 + 22937, ONE, ONE));
}

#[test]
fn gamma_and_bytes() {
    assert_eq!(gamma_correction(fx(0.25)), fx(0.5));
    assert_eq!(gamma_correction(-5), 0);
    assert_eq!(to_rgb(v(1.0, 0.25, 0.0)), (255, 127, 0));
    assert_eq!(to_rgb(v(4.0, -1.0, 0.0)), (255, 0, 0));
}

#[test]
fn camera_rejects_bad_settings() {
    let from = v(0.0, 0.0, 1.0);
    let at = Vec3::zero();
    let up = v(0.0, 1.0, 0.0);
    assert_eq!(Camera::new(from, at, up, 0, 6, ONE, 1, 1).err(), Some(CameraError::ZeroWidth));
    assert_eq!(Camera::new(from, at, up, 8, 0, ONE, 1, 1).err(), Some(CameraError::ZeroHeight));
    assert_eq!(Camera::new(from, at, up, 8, 6, ONE, 0, 1).err(), Some(CameraError::ZeroSamples));
    assert_eq!(Camera::new(from, at, up, 8, 6, ONE, 1, 0).err(), Some(CameraError::ZeroDepth));
    assert!(Camera::new(from, from, up, 8, 6, ONE, 1, 1).is_ok());
}

#[test]
fn center_pixel_ray_points_at_target() {
    let camera = Camera::new(v(0.0, 0.0, 1.0), Vec3::zero(), v(0.0, 1.0, 0.0), 2, 2, ONE, 1, 1).expect("camera");
    assert_eq!(camera.image_width(), 2);
    assert_eq!(camera.image_height(), 2);
    let r = camera.sample_ray(0, 0, ONE / 2, ONE / 2);
    assert_eq!(r.origin(), v(0.0, 0.0, 1.0));
    assert_eq!(r.dir(), v(0.0, 0.0, -1.0));
    let corner = camera.sample_ray(0, 0, -ONE / 2, -ONE / 2);
    assert_eq!(corner.dir(), v(-1.0, 1.0, -1.0));
}

#[test]
fn render_is_deterministic_for_a_seed() {
    let camera = small_camera(2, 5);
    let scene = demo_scene();
    let a = camera.render_image(&scene, &mut StdRng::seed_from_u64(42));
    let b = camera.render_image(&scene, &mut StdRng::seed_from_u64(42));
    assert_eq!(a.len(), 3 * 8 * 6);
    assert_eq!(a, b);
}

#[test]
fn pixel_color_is_nonnegative() {
    let camera = small_camera(3, 4);
    let mut rng = StdRng::seed_from_u64(9);
    let c = camera.pixel_color(4, 3, &demo_scene(), &mut rng);
    assert!(c.x() >= 0 && c.y() >= 0 && c.z() >= 0);
}

#[test]
fn draws_stay_in_range() {
    let mut rng = StdRng::seed_from_u64(5);
    let mut seen_low = false;
    let mut seen_high = false;
    for _ in 0..200 {
        let u = unit_fraction(&mut rng);
        assert!((0..ONE).contains(&u));
        let s = signed_fraction(&mut rng);
        assert!((-ONE..ONE).contains(&s));
        seen_low |= s < 0;
        seen_high |= s > 0;
        let r = Vec3::random(&mut rng);
        assert!(r.x() >= -ONE && r.x() < ONE);
        let h = Vec3::random_on_hemisphere(v(0.0, 1.0, 0.0), &mut rng);
        assert!(h.y() >= 0);
        assert!(h.norm() >= ONE - 4 && h.norm() <= ONE);
    }
    assert!(seen_low && seen_high);
}

#[test]
fn fractions_from_bits() {
    assert_eq!(unit_fraction_of(0), 0);
    assert_eq!(unit_fraction_of(1 << 63), ONE / 2);
    assert_eq!(unit_fraction_of(u64::MAX), ONE - 1);
    assert_eq!(signed_fraction_of(0), -ONE);
    assert_eq!(signed_fraction_of(1 << 63), 0);
    assert_eq!(signed_fraction_of(u64::MAX), ONE - 1);
    assert_eq!(Vec3::from_bits(0, 1 << 63, u64::MAX), Vec3::new(-ONE, 0, ONE - 1));
    let d = ScatterDraw::from_bits(1 << 62, 0, u64::MAX, 3 << 62);
    assert_eq!(d.offset, Vec3::new(-ONE / 2, -ONE, ONE - 1));
    assert_eq!(d.chance, 3 * ONE / 4);
}

#[test]
fn ray_color_with_given_draws() {
    let camera = small_camera(1, 2);
    let none: Vec<ScatterDraw> = Vec::new();
    let up = Ray::new(Vec3::zero(), v(0.0, 1.0, 0.0));
    assert_eq!(camera.ray_color_with(up, &demo_scene(), &none), Vec3::zero());
    let one = vec![ScatterDraw { offset: Vec3::zero(), chance: 0 }];
    assert_eq!(camera.ray_color_with(up, &Scene::new(), &one), Vec3::new(45875, ONE, ONE));
    // A mirror facing the ray sends it back up into the sky, attenuated.
    let mut scene = Scene::new();
    scene.add_inf_plane(InfinitePlane::new(fx(1.0), v(0.0, -1.0, 0.0), Material::Metal { color: v(0.5, 0.5, 0.5), fuzz: 0 }));
    let down = Ray::new(Vec3::zero(), v(0.0, -1.0, 0.0));
    let two = vec![ScatterDraw { offset: Vec3::zero(), chance: 0 }; 2];
    assert_eq!(camera.ray_color_with(down, &scene, &two), Vec3::new(45875 / 2, ONE / 2, ONE / 2));
}

#[test]
fn pixel_and_render_with_given_draws() {
    let camera = Camera::new(v(0.0, 0.0, 1.0), Vec3::zero(), v(0.0, 1.0, 0.0), 2, 2, ONE, 2, 1).expect("camera");
    let scene = Scene::new();
    let draw = ScatterDraw { offset: Vec3::zero(), chance: 0 };
    let jit = vec![(0i64, 0i64), (0i64, 0i64)];
    let draws = vec![draw; 2];
    let c = camera.pixel_color_with(0, 0, &scene, &jit, &draws);
    assert_eq!(c, sky_color(v(-0.5, 0.5, -1.0)));
    let all_jit = vec![(0i64, 0i64); 8];
    let all_draws = vec![draw; 8];
    let a = camera.render_with(&scene, &all_jit, &all_draws);
    let b = camera.render_with(&scene, &all_jit, &all_draws);
    assert_eq!(a.len(), 12);
    assert_eq!(a, b);
    let (r, g, bl) = to_rgb(c);
    assert_eq!(&a[0..3], &[r, g, bl]);
}
