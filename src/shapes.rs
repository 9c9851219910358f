//! Surfaces and their intersection with rays.
//!
//! Each `hit` looks for an intersection whose parameter lies in `[t_min, t_max)`.
use vstd::prelude::*;
use crate::fixed::{
    fx_add, fx_div, fx_neg, fx_sqrt, fx_sub, fx_mul, lemma_root_exists, lemma_sdiv_monotone, sadd, sdiv,
    smul, sneg, ssqrt, ssub, ONE,
};
use crate::material::Material;
use crate::ray::{ray_at, Ray};
use crate::vector::{vcross, vdiv, vdot, vneg, vnormalize, vsub, Vec3};

verus! {

/// Where and how a ray met a surface.
#[derive(Debug, Clone, Copy, PartialEq, Eq, Structural)]
pub struct HitResult {
    pub t: i64,
    pub hit_point: Vec3,
    pub normal: Vec3,
    pub material: Material,
    pub front_face: bool,
}

impl HitResult {
    pub fn t(&self) -> (r: i64)
        ensures
            r == self.t,
    {
        self.t
    }

    pub fn hit_point(&self) -> (r: Vec3)
        ensures
            r == self.hit_point,
    {
        self.hit_point
    }

    pub fn normal(&self) -> (r: Vec3)
        ensures
            r == self.normal,
    {
        self.normal
    }

    pub fn material(&self) -> (r: &Material)
        ensures
            *r == self.material,
    {
        &self.material
    }

    pub fn front_face(&self) -> (r: bool)
        ensures
            r == self.front_face,
    {
        self.front_face
    }
}

/// A shape that a ray can hit.
pub trait Hittable {
    /// The hit, if any, whose ray parameter lies in `[lo, hi)`.
    spec fn hit_spec(&self, ray: Ray, lo: int, hi: int) -> Option<HitResult>;

    fn hit(&self, ray: Ray, t_min: i64, t_max: i64) -> (r: Option<HitResult>)
        ensures
            r == self.hit_spec(ray, t_min as int, t_max as int),
    ;
}

pub open spec fn in_span(t: int, lo: int, hi: int) -> bool {
    lo <= t < hi
}

/// A sphere; a negative radius turns its normals inward (a hollow shell).
#[derive(Debug, Clone, Copy, PartialEq, Eq, Structural)]
pub struct Sphere {
    pub center: Vec3,
    pub radius: i64,
    pub material: Material,
}

/// The two roots of `|O + tD - C|^2 = r^2`, smaller first, when they are real
/// and the ray has a direction and the sphere a size.
pub open spec fn sphere_roots(s: Sphere, ray: Ray) -> Option<(int, int)> {
    let oc = vsub(ray.origin, s.center);
    let a = vdot(ray.dir, ray.dir);
    let half_b = vdot(oc, ray.dir);
    let c = ssub(vdot(oc, oc), smul(s.radius as int, s.radius as int));
    let disc = ssub(smul(half_b, half_b), smul(a, c));
    if disc < 0 || a <= 0 || s.radius == 0 {
        None
    } else {
        let root = ssqrt(disc);
        Some((sdiv(ssub(sneg(half_b), root), a), sdiv(sadd(sneg(half_b), root), a)))
    }
}

/// The record of a sphere hit at `t`, its normal turned against the ray.
pub open spec fn sphere_record(s: Sphere, ray: Ray, t: int) -> HitResult {
    let p = ray_at(ray, t);
    let outward = vdiv(vsub(p, s.center), s.radius as int);
    if vdot(ray.dir, outward) > 0 {
        HitResult { t: t as i64, hit_point: p, normal: vneg(outward), material: s.material, front_face: false }
    } else {
        HitResult { t: t as i64, hit_point: p, normal: outward, material: s.material, front_face: true }
    }
}

/// The nearer root in the span, else the farther one, else no hit.
pub open spec fn sphere_hit(s: Sphere, ray: Ray, lo: int, hi: int) -> Option<HitResult> {
    match sphere_roots(s, ray) {
        None => None,
        Some((r1, r2)) => if in_span(r1, lo, hi) {
            Some(sphere_record(s, ray, r1))
        } else if in_span(r2, lo, hi) {
            Some(sphere_record(s, ray, r2))
        } else {
            None
        },
    }
}

impl Sphere {
    pub fn new(center: Vec3, radius: i64, material: Material) -> (r: Sphere)
        ensures
            r == (Sphere { center, radius, material }),
    {
        Sphere { center, radius, material }
    }

    fn record(&self, ray: Ray, t: i64) -> (r: HitResult)
        requires
            self.radius != 0,
        ensures
            r == sphere_record(*self, ray, t as int),
    {
        let p = ray.at(t);
        let outward = p.sub(self.center).div(self.radius);
        if ray.dir.dot(outward) > 0 {
            HitResult { t, hit_point: p, normal: outward.neg(), material: self.material, front_face: false }
        } else {
            HitResult { t, hit_point: p, normal: outward, material: self.material, front_face: true }
        }
    }
}

impl Hittable for Sphere {
    open spec fn hit_spec(&self, ray: Ray, lo: int, hi: int) -> Option<HitResult> {
        sphere_hit(*self, ray, lo, hi)
    }

    fn hit(&self, ray: Ray, t_min: i64, t_max: i64) -> (r: Option<HitResult>) {
        let oc = ray.origin.sub(self.center);
        let a = ray.dir.norm_sq();
        let half_b = oc.dot(ray.dir);
        let c = fx_sub(oc.norm_sq(), fx_mul(self.radius, self.radius));
        let disc = fx_sub(fx_mul(half_b, half_b), fx_mul(a, c));
        if disc < 0 || a <= 0 || self.radius == 0 {
            return None;
        }
        let root = fx_sqrt(disc);
        let mut t = fx_div(fx_sub(fx_neg(half_b), root), a);
        if !(t_min <= t && t < t_max) {
            t = fx_div(fx_add(fx_neg(half_b), root), a);
            if !(t_min <= t && t < t_max) {
                return None;
            }
        }
        Some(self.record(ray, t))
    }
}

/// A plane of points `p` with `p . normal == dist`, `normal` of unit length.
/// It is lit from one side: a hit reports the negated normal and a back face.
#[derive(Debug, Clone, Copy, PartialEq, Eq, Structural)]
pub struct InfinitePlane {
    pub dist: i64,
    pub normal: Vec3,
    pub material: Material,
}

pub open spec fn plane_hit(pl: InfinitePlane, ray: Ray, lo: int, hi: int) -> Option<HitResult> {
    let den = vdot(ray.dir, pl.normal);
    let t = sdiv(ssub(pl.dist as int, vdot(ray.origin, pl.normal)), den);
    if den == 0 || !in_span(t, lo, hi) {
        None
    } else {
        Some(
            HitResult {
                t: t as i64,
                hit_point: ray_at(ray, t),
                normal: vneg(pl.normal),
                material: pl.material,
                front_face: false,
            },
        )
    }
}

impl InfinitePlane {
    /// The stored normal is `normal` scaled to unit length.
    pub fn new(dist: i64, normal: Vec3, material: Material) -> (r: InfinitePlane)
        ensures
            r == (InfinitePlane { dist, normal: vnormalize(normal), material }),
    {
        InfinitePlane { dist, normal: normal.normalize(), material }
    }
}

impl Hittable for InfinitePlane {
    open spec fn hit_spec(&self, ray: Ray, lo: int, hi: int) -> Option<HitResult> {
        plane_hit(*self, ray, lo, hi)
    }

    fn hit(&self, ray: Ray, t_min: i64, t_max: i64) -> (r: Option<HitResult>) {
        let den = ray.dir.dot(self.normal);
        if den == 0 {
            return None;
        }
        let t = fx_div(fx_sub(self.dist, ray.origin.dot(self.normal)), den);
        if !(t_min <= t && t < t_max) {
            return None;
        }
        Some(
            HitResult {
                t,
                hit_point: ray.at(t),
                normal: self.normal.neg(),
                material: self.material,
                front_face: false,
            },
        )
    }
}

#[derive(Debug, Clone, Copy, PartialEq, Eq, Structural)]
pub struct Triangle {
    pub v0: Vec3,
    pub v1: Vec3,
    pub v2: Vec3,
    pub material: Material,
}

/// Moller-Trumbore: solve `O + tD = v0 + u e1 + v e2` by Cramer's rule and
/// keep the solution when `u >= 0`, `v >= 0`, `u + v <= 1` and `t` is in the
/// span. A zero determinant (the ray parallel to the triangle's plane) gives
/// no hit. The normal is `e1 x e2` made unit, whichever side the ray comes from.
pub open spec fn triangle_hit(tr: Triangle, ray: Ray, lo: int, hi: int) -> Option<HitResult> {
    let e1 = vsub(tr.v1, tr.v0);
    let e2 = vsub(tr.v2, tr.v0);
    let p = vcross(ray.dir, e2);
    let det = vdot(e1, p);
    let s = vsub(ray.origin, tr.v0);
    let q = vcross(s, e1);
    let u = sdiv(vdot(s, p), det);
    let v = sdiv(vdot(ray.dir, q), det);
    let t = sdiv(vdot(e2, q), det);
    if det == 0 || u < 0 || u > ONE || v < 0 || sadd(u, v) > ONE || !in_span(t, lo, hi) {
        None
    } else {
        Some(
            HitResult {
                t: t as i64,
                hit_point: ray_at(ray, t),
                normal: vnormalize(vcross(e1, e2)),
                material: tr.material,
                front_face: false,
            },
        )
    }
}

impl Triangle {
    pub fn new(v0: Vec3, v1: Vec3, v2: Vec3, material: Material) -> (r: Triangle)
        ensures
            r == (Triangle { v0, v1, v2, material }),
    {
        Triangle { v0, v1, v2, material }
    }
}

impl Hittable for Triangle {
    open spec fn hit_spec(&self, ray: Ray, lo: int, hi: int) -> Option<HitResult> {
        triangle_hit(*self, ray, lo, hi)
    }

    fn hit(&self, ray: Ray, t_min: i64, t_max: i64) -> (r: Option<HitResult>) {
        let e1 = self.v1.sub(self.v0);
        let e2 = self.v2.sub(self.v0);
        let p = ray.dir.cross(e2);
        let det = e1.dot(p);
        if det == 0 {
            return None;
        }
        let s = ray.origin.sub(self.v0);
        let u = fx_div(s.dot(p), det);
        if u < 0 || u > ONE {
            return None;
        }
        let q = s.cross(e1);
        let v = fx_div(ray.dir.dot(q), det);
        if v < 0 || fx_add(u, v) > ONE {
            return None;
        }
        let t = fx_div(e2.dot(q), det);
        if !(t_min <= t && t < t_max) {
            return None;
        }
        Some(
            HitResult {
                t,
                hit_point: ray.at(t),
                normal: e1.cross(e2).normalize(),
                material: self.material,
                front_face: false,
            },
        )
    }
}

/// Any of the shapes a scene can hold.
#[derive(Debug, Clone, Copy, PartialEq, Eq, Structural)]
pub enum Surface {
    Sphere(Sphere),
    Plane(InfinitePlane),
    Triangle(Triangle),
}

#[verifier::opaque]
pub open spec fn surface_hit(s: Surface, ray: Ray, lo: int, hi: int) -> Option<HitResult> {
    match s {
        Surface::Sphere(x) => sphere_hit(x, ray, lo, hi),
        Surface::Plane(x) => plane_hit(x, ray, lo, hi),
        Surface::Triangle(x) => triangle_hit(x, ray, lo, hi),
    }
}

impl Surface {
    pub open spec fn material_spec(&self) -> Material {
        match *self {
            Surface::Sphere(x) => x.material,
            Surface::Plane(x) => x.material,
            Surface::Triangle(x) => x.material,
        }
    }

    pub fn material(&self) -> (r: Material)
        ensures
            r == self.material_spec(),
    {
        match *self {
            Surface::Sphere(x) => x.material,
            Surface::Plane(x) => x.material,
            Surface::Triangle(x) => x.material,
        }
    }
}

impl Hittable for Surface {
    open spec fn hit_spec(&self, ray: Ray, lo: int, hi: int) -> Option<HitResult> {
        surface_hit(*self, ray, lo, hi)
    }

    fn hit(&self, ray: Ray, t_min: i64, t_max: i64) -> (r: Option<HitResult>) {
        proof {
            reveal(surface_hit);
        }
        match self {
            Surface::Sphere(x) => x.hit(ray, t_min, t_max),
            Surface::Plane(x) => x.hit(ray, t_min, t_max),
            Surface::Triangle(x) => x.hit(ray, t_min, t_max),
        }
    }
}

/// The two roots of a sphere come in order.
proof fn lemma_sphere_roots_ordered(s: Sphere, ray: Ray)
    ensures
        sphere_roots(s, ray) matches Some((r1, r2)) ==> r1 <= r2,
{
    if let Some((r1, r2)) = sphere_roots(s, ray) {
        let oc = vsub(ray.origin, s.center);
        let a = vdot(ray.dir, ray.dir);
        let half_b = vdot(oc, ray.dir);
        let c = ssub(vdot(oc, oc), smul(s.radius as int, s.radius as int));
        let disc = ssub(smul(half_b, half_b), smul(a, c));
        assert(disc * ONE >= 0) by (nonlinear_arith)
            requires
                disc >= 0,
        ;
        lemma_root_exists(disc * ONE);
        let root = ssqrt(disc);
        assert(root >= 0);
        lemma_sdiv_monotone(ssub(sneg(half_b), root), sadd(sneg(half_b), root), a);
    }
}

/// A hit lies in the span it was sought in and carries the surface's material.
pub proof fn lemma_hit_in_span(s: Surface, ray: Ray, lo: int, hi: int)
    ensures
        surface_hit(s, ray, lo, hi) matches Some(h) ==> in_span(h.t as int, lo, hi) && h.material
            == s.material_spec(),
{
    reveal(surface_hit);
}

/// Narrowing the span never creates a hit.
pub proof fn lemma_narrow_miss(s: Surface, ray: Ray, lo: int, hi: int, hi2: int)
    requires
        surface_hit(s, ray, lo, hi) is None,
        hi2 <= hi,
    ensures
        surface_hit(s, ray, lo, hi2) is None,
{
    reveal(surface_hit);
}

/// Below the nearest hit in a span there is no hit.
pub proof fn lemma_miss_below_hit(s: Surface, ray: Ray, lo: int, hi: int, hi2: int)
    requires
        surface_hit(s, ray, lo, hi) matches Some(h) && hi2 <= h.t,
    ensures
        surface_hit(s, ray, lo, hi2) is None,
{
    reveal(surface_hit);
    if let Surface::Sphere(x) = s {
        lemma_sphere_roots_ordered(x, ray);
    }
}

/// A hit survives widening the span and narrowing it down to just past the hit.
pub proof fn lemma_hit_stable(s: Surface, ray: Ray, lo: int, hi: int, hi2: int)
    requires
        surface_hit(s, ray, lo, hi) matches Some(h) && h.t < hi2,
    ensures
        hi2 <= hi ==> surface_hit(s, ray, lo, hi2) == surface_hit(s, ray, lo, hi),
        hi <= hi2 ==> surface_hit(s, ray, lo, hi2) == surface_hit(s, ray, lo, hi),
{
    reveal(surface_hit);
    if let Surface::Sphere(x) = s {
        lemma_sphere_roots_ordered(x, ray);
    }
}

} // verus!
