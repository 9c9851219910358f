use raytracer::fixed::ONE;
use raytracer::material::Material;
use raytracer::mesh::{parse_obj, MeshError};
use raytracer::vector::Vec3;

fn fx(a: f64) -> i64 {
    (a * ONE as f64).round() as i64
}

fn v(x: f64, y: f64, z: f64) -> Vec3 {
    Vec3::new(fx(x), fx(y), fx(z))
}

fn paint() -> Material {
    Material::Diffuse { color: v(0.3, 0.3, 0.7) }
}

#[test]
fn one_face_moved_by_offset() {
    let text = "v 0 0 0\nv 1 0 0\nv 0 1 0\nf 1 2 3\n";
    let tris = parse_obj(text.as_bytes(), v(0.0, 1.0, -2.0), paint()).expect("mesh");
    assert_eq!(tris.len(), 1);
    assert_eq!(tris[0].v0, v(0.0, 1.0, -2.0));
    assert_eq!(tris[0].v1, v(1.0, 1.0, -2.0));
    assert_eq!(tris[0].v2, v(0.0, 2.0, -2.0));
    assert_eq!(tris[0].material, paint());
}

#[test]
fn slashes_extra_indices_and_other_lines() {
    let text = "# a comment\r\nvn 0 0 1\n\n  v 1 1 1\r\nv 2 2 2\nv 3 3 3\no name\nf 3/1/1 2//7 1 2\nf 1 1 1";
    let tris = parse_obj(text.as_bytes(), Vec3::zero(), paint()).expect("mesh");
    assert_eq!(tris.len(), 2);
    assert_eq!(tris[0].v0, v(3.0, 3.0, 3.0));
    assert_eq!(tris[0].v1, v(2.0, 2.0, 2.0));
    assert_eq!(tris[0].v2, v(1.0, 1.0, 1.0));
    assert_eq!(tris[1].v2, v(1.0, 1.0, 1.0));
}

#[test]
fn decimals() {
    let text = "v -1.5 +0.25 .5\nv 0.1 2. -3\nv 0.1234567 100000000 -0\nf 1 2 3";
    let tris = parse_obj(text.as_bytes(), Vec3::zero(), paint()).expect("mesh");
    assert_eq!(tris[0].v0, v(-1.5, 0.25, 0.5));
    assert_eq!(tris[0].v1, Vec3::new(6553, fx(2.0), fx(-3.0)));
    assert_eq!(tris[0].v2, Vec3::new(8090, raytracer::fixed::LIMIT, 0));
}

#[test]
fn empty_text_has_no_triangles() {
    assert_eq!(parse_obj(b"", Vec3::zero(), paint()).expect("mesh").len(), 0);
    assert_eq!(parse_obj(b"v 1 2 3\n", Vec3::zero(), paint()).expect("mesh").len(), 0);
}

#[test]
fn mesh_errors() {
    let z = Vec3::zero();
    assert_eq!(parse_obj(b"v 1 2\n", z, paint()).err(), Some(MeshError::NotEnoughElements));
    assert_eq!(parse_obj(b"v 1 x 2\n", z, paint()).err(), Some(MeshError::InvalidNumber));
    assert_eq!(parse_obj(b"v 1e 0 2\n", z, paint()).err(), Some(MeshError::InvalidNumber));
    assert_eq!(parse_obj(b"v 1e+ 0 2\n", z, paint()).err(), Some(MeshError::InvalidNumber));
    assert_eq!(parse_obj(b"v e3 0 2\n", z, paint()).err(), Some(MeshError::InvalidNumber));
    assert_eq!(parse_obj(b"v 1.5e2x 0 2\n", z, paint()).err(), Some(MeshError::InvalidNumber));
    assert_eq!(parse_obj(b"v - 0 2\n", z, paint()).err(), Some(MeshError::InvalidNumber));
    assert_eq!(parse_obj(b"v 0 0 0\nf 1 1\n", z, paint()).err(), Some(MeshError::NotEnoughElements));
    assert_eq!(parse_obj(b"v 0 0 0\nf a 1 1\n", z, paint()).err(), Some(MeshError::InvalidNumber));
    assert_eq!(parse_obj(b"v 0 0 0\nf 1 1 2\n", z, paint()).err(), Some(MeshError::VertexNotFound));
    assert_eq!(parse_obj(b"v 0 0 0\nf 0 1 1\n", z, paint()).err(), Some(MeshError::VertexNotFound));
    assert_eq!(parse_obj(b"f 1 1 1\nv 0 0 0\n", z, paint()).err(), Some(MeshError::VertexNotFound));
    assert_eq!(
        parse_obj(b"v 0 0 0\nf 99999999999999999999999 1 1\n", z, paint()).err(),
        Some(MeshError::VertexNotFound)
    );
}

#[test]
fn exponents_move_the_point() {
    let text = "v 1e3 -2.5E-1 2.5e-2\nv 5e-7 1e30 -1e30\nv 0e99 1e+2 12.5e1\nv 1e99999999999999999999999 -7e-99999999999999999999999 1.0e-05\nf 1 2 3\nf 4 4 4";
    let tris = parse_obj(text.as_bytes(), Vec3::zero(), paint()).expect("mesh");
    assert_eq!(tris[0].v0, Vec3::new(fx(1000.0), fx(-0.25), 1638));
    assert_eq!(tris[0].v1, Vec3::new(0, raytracer::fixed::LIMIT, -raytracer::fixed::LIMIT));
    assert_eq!(tris[0].v2, Vec3::new(0, fx(100.0), fx(125.0)));
    assert_eq!(tris[1].v0, Vec3::new(raytracer::fixed::LIMIT, 0, 0));
}
