//! How surfaces scatter light.
use vstd::prelude::*;
use crate::fixed::{fx_add, fx_div, fx_min, fx_mul, fx_sqrt, fx_sub, sadd, sdiv, smin, smul, ssqrt, ssub, ONE};
use crate::ray::Ray;
use crate::sampling::{cube_point, next_u64, unit_fraction_of, unit_of};
use crate::shapes::HitResult;
use crate::vector::{is_zero, vadd, vdot, vneg, vnorm, vnormalize, vreflect, vrefract, vscale, within, Vec3};
use rand::rngs::StdRng;

verus! {

#[derive(Debug, Clone, Copy, PartialEq, Eq, Structural)]
pub enum Material {
    /// Lambertian reflection.
    Diffuse { color: Vec3 },
    /// Mirror reflection, blurred by `fuzz`.
    Metal { color: Vec3, fuzz: i64 },
    /// A dielectric that reflects or refracts.
    Glass { refractive_index: i64 },
    /// A source that emits `intensity * color` and scatters nothing.
    Light { color: Vec3, intensity: i64 },
}

/// Colors: no channel is negative.
pub open spec fn is_color(c: Vec3) -> bool {
    0 <= c.x && 0 <= c.y && 0 <= c.z
}

/// The outcome of a scattering event.
#[derive(Debug, Clone, Copy, PartialEq, Eq, Structural)]
pub struct Scatter {
    pub ray: Ray,
    pub attenuation: Vec3,
}

/// The random quantities one scattering event consumes.
#[derive(Debug, Clone, Copy, PartialEq, Eq, Structural)]
pub struct ScatterDraw {
    /// A point of the cube `[-1, 1)^3`.
    pub offset: Vec3,
    /// A value in `[0, 1)`.
    pub chance: i64,
}

impl ScatterDraw {
    pub open spec fn valid(&self) -> bool {
        within(self.offset, -ONE as int, ONE as int) && 0 <= self.chance < ONE
    }
}

/// Schlick's approximation `r0 + (1 - r0)(1 - cos)^5` with `r0 = ((1 - n)/(1 + n))^2`.
pub open spec fn schlick_r0(n: int) -> int {
    let r = sdiv(ssub(ONE as int, n), sadd(ONE as int, n));
    smul(r, r)
}

pub open spec fn pow5(x: int) -> int {
    smul(smul(smul(smul(x, x), x), x), x)
}

pub open spec fn schlick(cos: int, n: int) -> int {
    let r0 = schlick_r0(n);
    sadd(r0, smul(ssub(ONE as int, r0), pow5(ssub(ONE as int, cos))))
}

/// White: glass absorbs nothing.
pub open spec fn white() -> Vec3 {
    Vec3 { x: ONE, y: ONE, z: ONE }
}

pub open spec fn nonneg_part(x: int) -> int {
    if x < 0 {
        0
    } else {
        x
    }
}

/// What `m` does with `ray` at `hit`, given the draws `d`.
pub open spec fn scatter_spec(m: Material, ray: Ray, hit: HitResult, d: ScatterDraw) -> Option<Scatter> {
    match m {
        Material::Diffuse { color } => {
            let b = vadd(hit.normal, vnormalize(d.offset));
            let dir = if is_zero(b) { hit.normal } else { b };
            Some(Scatter { ray: Ray { origin: hit.hit_point, dir }, attenuation: color })
        },
        Material::Metal { color, fuzz } => {
            let blur = if is_zero(d.offset) {
                Vec3 { x: 0, y: 0, z: 0 }
            } else {
                vscale(sdiv(fuzz as int, vnorm(d.offset)), d.offset)
            };
            let dir = vadd(vreflect(ray.dir, hit.normal), blur);
            if vdot(dir, hit.normal) < 0 {
                None
            } else {
                Some(Scatter { ray: Ray { origin: hit.hit_point, dir }, attenuation: color })
            }
        },
        Material::Glass { refractive_index } => {
            let ratio = if hit.front_face {
                sdiv(ONE as int, refractive_index as int)
            } else {
                refractive_index as int
            };
            let unit = vnormalize(ray.dir);
            let cos = smin(vdot(vneg(unit), hit.normal), ONE as int);
            let sin = ssqrt(nonneg_part(ssub(ONE as int, smul(cos, cos))));
            let dir = if smul(ratio, sin) > ONE || schlick(cos, ratio) > d.chance {
                vreflect(unit, hit.normal)
            } else {
                vrefract(unit, hit.normal, ratio)
            };
            Some(Scatter { ray: Ray { origin: hit.hit_point, dir }, attenuation: white() })
        },
        Material::Light { .. } => None,
    }
}

/// The light a material gives off.
pub open spec fn emitted_spec(m: Material) -> Vec3 {
    match m {
        Material::Light { color, intensity } => vscale(intensity as int, color),
        _ => Vec3 { x: 0, y: 0, z: 0 },
    }
}

impl Material {
    /// Colors are non-negative, refractive indices positive, intensities non-negative.
    pub open spec fn wf(&self) -> bool {
        match *self {
            Material::Diffuse { color } => is_color(color),
            Material::Metal { color, .. } => is_color(color),
            Material::Glass { refractive_index } => refractive_index > 0,
            Material::Light { color, intensity } => is_color(color) && intensity >= 0,
        }
    }

    /// Tests `wf`.
    pub fn is_valid(&self) -> (r: bool)
        ensures
            r == self.wf(),
    {
        match *self {
            Material::Diffuse { color } => is_color_exec(color),
            Material::Metal { color, .. } => is_color_exec(color),
            Material::Glass { refractive_index } => refractive_index > 0,
            Material::Light { color, intensity } => is_color_exec(color) && intensity >= 0,
        }
    }

    /// Scatters with the given draws.
    pub fn scatter_with(&self, ray: Ray, hit: &HitResult, d: ScatterDraw) -> (r: Option<Scatter>)
        requires
            self.wf(),
        ensures
            r == scatter_spec(*self, ray, *hit, d),
    {
        match *self {
            Material::Diffuse { color } => {
                let mut dir = hit.normal.add(d.offset.normalize());
                if dir.is_near_zero() {
                    dir = hit.normal;
                }
                Some(Scatter { ray: Ray::new(hit.hit_point, dir), attenuation: color })
            },
            Material::Metal { color, fuzz } => {
                let blur = if d.offset.is_near_zero() {
                    Vec3::zero()
                } else {
                    d.offset.scale(fx_div(fuzz, d.offset.norm()))
                };
                let dir = ray.dir.reflect(hit.normal).add(blur);
                if dir.dot(hit.normal) < 0 {
                    return None;
                }
                Some(Scatter { ray: Ray::new(hit.hit_point, dir), attenuation: color })
            },
            Material::Glass { refractive_index } => {
                let ratio = if hit.front_face {
                    fx_div(ONE, refractive_index)
                } else {
                    refractive_index
                };
                proof {
                    crate::fixed::lemma_tdiv_bounded(ONE as int * ONE, refractive_index as int);
                }
                let unit = ray.dir.normalize();
                let cos = fx_min(unit.neg().dot(hit.normal), ONE);
                let rest = fx_sub(ONE, fx_mul(cos, cos));
                let sin = fx_sqrt(if rest < 0 { 0 } else { rest });
                let dir = if fx_mul(ratio, sin) > ONE || reflectance(cos, ratio) > d.chance {
                    unit.reflect(hit.normal)
                } else {
                    unit.refract(hit.normal, ratio)
                };
                Some(Scatter { ray: Ray::new(hit.hit_point, dir), attenuation: Vec3::new(ONE, ONE, ONE) })
            },
            Material::Light { .. } => None,
        }
    }

    /// Scatters `ray` at `hit`, drawing what it needs from `rng`; the result is
    /// what `scatter_with` gives for the draw that four random words spell.
    pub fn scatter(&self, ray: Ray, hit: &HitResult, rng: &mut StdRng) -> (r: Option<Scatter>)
        requires
            self.wf(),
        ensures
            exists|bx: u64, by: u64, bz: u64, bc: u64|
                r == #[trigger] scatter_spec(*self, ray, *hit, draw_of(bx as int, by as int, bz as int, bc as int)),
    {
        let bx = next_u64(rng);
        let by = next_u64(rng);
        let bz = next_u64(rng);
        let bc = next_u64(rng);
        let d = ScatterDraw::from_bits(bx, by, bz, bc);
        let r = self.scatter_with(ray, hit, d);
        assert(r == scatter_spec(*self, ray, *hit, draw_of(bx as int, by as int, bz as int, bc as int)));
        r
    }

    pub fn emitted(&self) -> (r: Vec3)
        ensures
            r == emitted_spec(*self),
    {
        match *self {
            Material::Light { color, intensity } => color.scale(intensity),
            _ => Vec3::zero(),
        }
    }
}

fn is_color_exec(c: Vec3) -> (r: bool)
    ensures
        r == is_color(c),
{
    0 <= c.x && 0 <= c.y && 0 <= c.z
}

/// The draw that four random words spell.
pub open spec fn draw_of(bx: int, by: int, bz: int, bc: int) -> ScatterDraw {
    ScatterDraw { offset: cube_point(bx, by, bz), chance: unit_of(bc) as i64 }
}

impl ScatterDraw {
    pub fn from_bits(bx: u64, by: u64, bz: u64, bc: u64) -> (r: ScatterDraw)
        ensures
            r == draw_of(bx as int, by as int, bz as int, bc as int),
            r.valid(),
    {
        ScatterDraw { offset: Vec3::from_bits(bx, by, bz), chance: unit_fraction_of(bc) }
    }

    pub fn random(rng: &mut StdRng) -> (r: ScatterDraw)
        ensures
            exists|bx: u64, by: u64, bz: u64, bc: u64|
                r == #[trigger] draw_of(bx as int, by as int, bz as int, bc as int),
            r.valid(),
    {
        let bx = next_u64(rng);
        let by = next_u64(rng);
        let bz = next_u64(rng);
        let bc = next_u64(rng);
        ScatterDraw::from_bits(bx, by, bz, bc)
    }
}

/// Schlick's reflectance for the cosine `cos` and the index ratio `n`.
pub fn reflectance(cos: i64, n: i64) -> (r: i64)
    requires
        n >= 0,
    ensures
        r == schlick(cos as int, n as int),
{
    let r = fx_div(fx_sub(ONE, n), fx_add(ONE, n));
    let r0 = fx_mul(r, r);
    let x = fx_sub(ONE, cos);
    let p = fx_mul(fx_mul(fx_mul(fx_mul(x, x), x), x), x);
    fx_add(r0, fx_mul(fx_sub(ONE, r0), p))
}

/// At normal incidence the reflectance is the base reflectance `r0`.
pub proof fn lemma_reflectance_at_normal_incidence(n: int)
    ensures
        schlick(ONE as int, n) == schlick_r0(n),
{
    let r0 = schlick_r0(n);
    assert(crate::fixed::tdiv(0, ONE as int) == 0);
    assert(smul(0, 0) == 0);
    assert(pow5(0) == 0);
    assert(ssub(ONE as int, r0) * 0 == 0);
    assert(smul(ssub(ONE as int, r0), 0) == 0);
    assert(ssub(ONE as int, ONE as int) == 0);
}

} // verus!
