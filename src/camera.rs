//! The camera: viewport geometry, sample rays, and the radiance integrator.
use vstd::prelude::*;
use rand::rngs::StdRng;
use crate::fixed::{
    fx_add, fx_min, fx_mul, fx_sqrt, fx_sub, lemma_tdiv_bounded, sadd, sat, smin, smul,
    ssqrt, ssub, tdiv, HALF, LIMIT, ONE,
};
use crate::material::{draw_of, emitted_spec, is_color, scatter_spec, Material, ScatterDraw};
use crate::ray::Ray;
use crate::sampling::{next_u64, unit_fraction_of, unit_of};
use crate::scene::{lemma_nearest_hit, nearest, surfaces_wf, Scene};
use crate::shapes::{lemma_hit_in_span, surface_hit, HitResult};
use crate::vector::{
    v3, vadd, vcross, vdiv, vmul, vneg, vnorm, vnormalize, vscale, vsub, Vec3,
};

verus! {

/// Smallest ray parameter searched, about `0.001`: it keeps a scattered ray from
/// hitting the surface it leaves.
pub const T_MIN: i64 = 66;

/// Largest ray parameter searched: the saturation bound, which stands for infinity.
pub const T_MAX: i64 = LIMIT;

/// Red channel of the sky colour at the zenith (`0.7`).
pub const SKY_RED: i64 = 45875;

/// Why a camera could not be built.
#[derive(Debug, Clone, Copy, PartialEq, Eq, Structural)]
pub enum CameraError {
    ZeroWidth,
    ZeroHeight,
    ZeroSamples,
    ZeroDepth,
}

pub open spec fn nonneg(c: Vec3) -> bool {
    c.x >= 0 && c.y >= 0 && c.z >= 0
}

pub open spec fn clamp_unit(a: int) -> int {
    if a < 0 {
        0
    } else if a > ONE {
        ONE as int
    } else {
        a
    }
}

/// The background: white at the horizon and below, blending toward
/// `(0.7, 1, 1)` as the ray turns upward.
pub open spec fn sky(dir: Vec3) -> Vec3 {
    let n = vnormalize(dir);
    let a = clamp_unit(smul(HALF as int, sadd(n.y as int, ONE as int)));
    let k = ssub(ONE as int, a);
    v3(sadd(k, smul(SKY_RED as int, a)), sadd(k, a), sadd(k, a))
}

/// Radiance along `ray` over at most `depth` bounces, where the `i`-th
/// scattering event uses the draw `ds[i]`. A ray that leaves the scene sees the
/// sky; a surface that scatters nothing contributes what it emits (black but
/// for lights); a scattered ray's radiance is filtered by the attenuation.
pub open spec fn path_color(ss: Seq<crate::shapes::Surface>, ray: Ray, depth: nat, ds: Seq<ScatterDraw>) -> Vec3
    decreases depth,
{
    if depth == 0 {
        Vec3 { x: 0, y: 0, z: 0 }
    } else {
        match nearest(ss, ray, T_MIN as int, T_MAX as int) {
            None => sky(ray.dir),
            Some(h) => match scatter_spec(h.material, ray, h, ds[0]) {
                Some(s) => vmul(s.attenuation, path_color(ss, s.ray, (depth - 1) as nat, ds.drop_first())),
                None => emitted_spec(h.material),
            },
        }
    }
}

/// `d` is the draw that some four random words spell.
pub open spec fn is_drawn(d: ScatterDraw) -> bool {
    exists|bx: u64, by: u64, bz: u64, bc: u64| d == #[trigger] draw_of(bx as int, by as int, bz as int, bc as int)
}

pub open spec fn all_drawn(ds: Seq<ScatterDraw>) -> bool {
    forall|i: int| 0 <= i < ds.len() ==> is_drawn(#[trigger] ds[i])
}

/// An 8-bit channel: gamma 2 (a square root), scaled to 255, clamped.
pub open spec fn channel_byte(c: int) -> int {
    if c <= 0 {
        0
    } else {
        smin(tdiv(ssqrt(c) * 255, ONE as int), 255)
    }
}

/// The mean of `samples` colours whose saturating sum is `sum`.
pub open spec fn average(sum: Vec3, samples: int) -> Vec3 {
    vdiv(sum, samples * ONE)
}

/// Viewport geometry: `(pixel_delta_u, pixel_delta_v, top_left_pixel)`.
pub open spec fn viewport(from: Vec3, at: Vec3, up: Vec3, width: int, height: int, fov_scale: int) -> (
    Vec3,
    Vec3,
    Vec3,
) {
    let focal = vnorm(vsub(from, at));
    let vh = smul(sadd(fov_scale, fov_scale), focal);
    let vw = sat(tdiv(vh * width, height));
    let w = vnormalize(vsub(from, at));
    let u = vnormalize(vcross(up, w));
    let v = vnormalize(vcross(w, u));
    let span_u = vscale(vw, u);
    let span_v = vscale(vh, vneg(v));
    let du = vdiv(span_u, width * ONE);
    let dv = vdiv(span_v, height * ONE);
    let corner = vsub(vsub(vsub(from, vscale(focal, w)), vscale(HALF as int, span_u)), vscale(HALF as int, span_v));
    (du, dv, vadd(corner, vscale(HALF as int, vadd(du, dv))))
}

pub struct Camera {
    image_width: u32,
    image_height: u32,
    samples: u32,
    max_depth: u32,
    center: Vec3,
    pixel_delta_u: Vec3,
    pixel_delta_v: Vec3,
    top_left_pixel_pos: Vec3,
}

impl Camera {
    pub closed spec fn width(&self) -> nat {
        self.image_width as nat
    }

    pub closed spec fn height(&self) -> nat {
        self.image_height as nat
    }

    pub closed spec fn samples(&self) -> nat {
        self.samples as nat
    }

    pub closed spec fn depth(&self) -> nat {
        self.max_depth as nat
    }

    pub closed spec fn center(&self) -> Vec3 {
        self.center
    }

    pub closed spec fn geometry(&self) -> (Vec3, Vec3, Vec3) {
        (self.pixel_delta_u, self.pixel_delta_v, self.top_left_pixel_pos)
    }

    pub closed spec fn wf(&self) -> bool {
        self.image_width > 0 && self.image_height > 0 && self.samples > 0 && self.max_depth > 0
    }

    /// A camera at `look_from` aimed at `look_at`, with `view_up` fixing the
    /// roll. `fov_scale` is `tan(fov / 2)` of the vertical field of view, in
    /// fixed point. Fails on an empty image, no samples, or no bounces.
    pub fn new(
        look_from: Vec3,
        look_at: Vec3,
        view_up: Vec3,
        image_width: u32,
        image_height: u32,
        fov_scale: i64,
        samples: u32,
        max_depth: u32,
    ) -> (r: Result<Camera, CameraError>)
        ensures
            image_width == 0 ==> r == Err::<Camera, CameraError>(CameraError::ZeroWidth),
            image_width > 0 && image_height == 0 ==> r == Err::<Camera, CameraError>(CameraError::ZeroHeight),
            image_width > 0 && image_height > 0 && samples == 0 ==> r == Err::<Camera, CameraError>(
                CameraError::ZeroSamples,
            ),
            image_width > 0 && image_height > 0 && samples > 0 && max_depth == 0 ==> r == Err::<
                Camera,
                CameraError,
            >(CameraError::ZeroDepth),
            r is Ok <==> (image_width > 0 && image_height > 0 && samples > 0 && max_depth > 0),
            r matches Ok(c) ==> {
                &&& c.wf()
                &&& c.width() == image_width
                &&& c.height() == image_height
                &&& c.samples() == samples
                &&& c.depth() == max_depth
                &&& c.center() == look_from
                &&& c.geometry() == viewport(
                    look_from,
                    look_at,
                    view_up,
                    image_width as int,
                    image_height as int,
                    fov_scale as int,
                )
            },
    {
        if image_width == 0 {
            return Err(CameraError::ZeroWidth);
        }
        if image_height == 0 {
            return Err(CameraError::ZeroHeight);
        }
        if samples == 0 {
            return Err(CameraError::ZeroSamples);
        }
        if max_depth == 0 {
            return Err(CameraError::ZeroDepth);
        }
        let back = look_from.sub(look_at);
        let focal = back.norm();
        let vh = fx_mul(fx_add(fov_scale, fov_scale), focal);
        let vw = scale_ratio(vh, image_width, image_height);
        let w = back.normalize();
        let u = view_up.cross(w).normalize();
        let v = w.cross(u).normalize();
        let span_u = u.scale(vw);
        let span_v = v.neg().scale(vh);
        let du = span_u.div(image_width as i64 * ONE);
        let dv = span_v.div(image_height as i64 * ONE);
        let corner = look_from.sub(w.scale(focal)).sub(span_u.scale(HALF)).sub(span_v.scale(HALF));
        let top_left = corner.add(du.add(dv).scale(HALF));
        Ok(
            Camera {
                image_width,
                image_height,
                samples,
                max_depth,
                center: look_from,
                pixel_delta_u: du,
                pixel_delta_v: dv,
                top_left_pixel_pos: top_left,
            },
        )
    }

    pub fn image_width(&self) -> (r: u32)
        ensures
            r == self.width(),
    {
        self.image_width
    }

    pub fn image_height(&self) -> (r: u32)
        ensures
            r == self.height(),
    {
        self.image_height
    }

    /// The spec of `sample_ray`: through pixel `(x, y)`, offset by `(dx, dy)` pixels.
    pub closed spec fn sample_ray_spec(&self, x: int, y: int, dx: int, dy: int) -> Ray {
        let pixel = vadd(
            vadd(self.top_left_pixel_pos, vscale(x * ONE, self.pixel_delta_u)),
            vscale(y * ONE, self.pixel_delta_v),
        );
        let p = vadd(vadd(pixel, vscale(dx, self.pixel_delta_u)), vscale(dy, self.pixel_delta_v));
        Ray { origin: self.center, dir: vsub(p, self.center) }
    }

    /// The ray from the camera centre through pixel `(x, y)` moved by the
    /// fixed-point pixel fractions `dx`, `dy`.
    pub fn sample_ray(&self, x: u32, y: u32, dx: i64, dy: i64) -> (r: Ray)
        ensures
            r == self.sample_ray_spec(x as int, y as int, dx as int, dy as int),
    {
        let pixel = self.top_left_pixel_pos.add(self.pixel_delta_u.scale(x as i64 * ONE)).add(
            self.pixel_delta_v.scale(y as i64 * ONE),
        );
        let p = pixel.add(self.pixel_delta_u.scale(dx)).add(self.pixel_delta_v.scale(dy));
        Ray::new(self.center, p.sub(self.center))
    }

    /// A ray through a uniformly jittered point of pixel `(x, y)`.
    pub fn ray_rand(&self, x: u32, y: u32, rng: &mut StdRng) -> (r: Ray)
        ensures
            exists|bx: u64, by: u64|
                r == #[trigger] self.sample_ray_spec(x as int, y as int, jitter_of(bx as int), jitter_of(by as int)),
    {
        let dx = jitter(rng);
        let dy = jitter(rng);
        self.sample_ray(x, y, dx, dy)
    }

    /// `path_color` over the draws `draws[k..k + depth]`.
    fn trace(&self, ray: Ray, scene: &Scene, draws: &Vec<ScatterDraw>, k: usize, depth: u32) -> (r: Vec3)
        requires
            scene.wf(),
            k + depth <= draws@.len(),
        ensures
            r == path_color(scene@, ray, depth as nat, draws@.subrange(k as int, k + depth)),
            nonneg(r),
        decreases depth,
    {
        let ghost ds = draws@.subrange(k as int, k + depth);
        proof {
            lemma_path_color_nonneg(scene@, ray, depth as nat, ds);
        }
        if depth == 0 {
            return Vec3::zero();
        }
        match scene.hit(ray, T_MIN, T_MAX) {
            None => sky_color(ray.dir),
            Some(h) => {
                proof {
                    lemma_nearest_hit(scene@, ray, T_MIN as int, T_MAX as int);
                    let i = choose|i: int|
                        0 <= i < scene@.len() && #[trigger] surface_hit(
                            scene@[i],
                            ray,
                            T_MIN as int,
                            T_MAX as int,
                        ) == Some(h);
                    lemma_hit_in_span(scene@[i], ray, T_MIN as int, T_MAX as int);
                }
                assert(ds[0] == draws@[k as int]);
                assert(k + 1 <= draws.len());
                match h.material.scatter_with(ray, &h, draws[k]) {
                    Some(s) => {
                        let c = self.trace(s.ray, scene, draws, k + 1, depth - 1);
                        assert(ds.drop_first() =~= draws@.subrange(k + 1, k + 1 + (depth - 1)));
                        s.attenuation.mul(c)
                    },
                    None => h.material.emitted(),
                }
            },
        }
    }

    /// Radiance along `ray` with one bounce for each of the given draws.
    pub fn ray_color_with(&self, ray: Ray, scene: &Scene, draws: &Vec<ScatterDraw>) -> (r: Vec3)
        requires
            scene.wf(),
            draws@.len() <= u32::MAX,
        ensures
            r == path_color(scene@, ray, draws@.len(), draws@),
            nonneg(r),
    {
        assert(draws@.subrange(0, draws@.len() as int) =~= draws@);
        self.trace(ray, scene, draws, 0, draws.len() as u32)
    }

    /// Radiance along `ray` with at most `depth` bounces: `ray_color_with` on
    /// `depth` draws from `rng`.
    pub fn ray_color(&self, ray: Ray, scene: &Scene, depth: u32, rng: &mut StdRng) -> (r: Vec3)
        requires
            scene.wf(),
        ensures
            nonneg(r),
            exists|ds: Seq<ScatterDraw>|
                ds.len() == depth && all_drawn(ds) && r == #[trigger] path_color(scene@, ray, depth as nat, ds),
    {
        let draws = draw_many(rng, depth as usize);
        self.ray_color_with(ray, scene, &draws)
    }

}

/// Saturating sum of colours, in order.
pub open spec fn sum_colors(cs: Seq<Vec3>) -> Vec3
    decreases cs.len(),
{
    if cs.len() == 0 {
        Vec3 { x: 0, y: 0, z: 0 }
    } else {
        vadd(sum_colors(cs.drop_last()), cs.last())
    }
}

/// A jitter offset in pixel fractions that one random word spells.
pub open spec fn jitter_of(bits: int) -> int {
    unit_of(bits) - HALF
}

pub open spec fn is_jitter(j: (i64, i64)) -> bool {
    exists|bx: u64, by: u64| j == (#[trigger] jitter_of(bx as int) as i64, #[trigger] jitter_of(by as int) as i64)
}

pub open spec fn all_jitter(js: Seq<(i64, i64)>) -> bool {
    forall|k: int| 0 <= k < js.len() ==> is_jitter(#[trigger] js[k])
}

/// The sample colours of pixel `(x, y)`: one per jitter offset, the `i`-th
/// bouncing with the `i`-th run of `depth` draws.
pub open spec fn sample_colors(
    cam: &Camera,
    ss: Seq<crate::shapes::Surface>,
    x: int,
    y: int,
    jit: Seq<(i64, i64)>,
    ds: Seq<ScatterDraw>,
) -> Seq<Vec3> {
    Seq::new(
        jit.len(),
        |i: int|
            path_color(
                ss,
                cam.sample_ray_spec(x, y, jit[i].0 as int, jit[i].1 as int),
                cam.depth(),
                ds.subrange(i * cam.depth(), (i + 1) * cam.depth()),
            ),
    )
}

/// The mean of the sample colours.
pub open spec fn pixel_spec(
    cam: &Camera,
    ss: Seq<crate::shapes::Surface>,
    x: int,
    y: int,
    jit: Seq<(i64, i64)>,
    ds: Seq<ScatterDraw>,
) -> Vec3 {
    average(sum_colors(sample_colors(cam, ss, x, y, jit, ds)), cam.samples() as int)
}

/// `c` is the colour of pixel `(x, y)` for some drawn jitter and draws.
pub open spec fn is_pixel_color(cam: &Camera, ss: Seq<crate::shapes::Surface>, x: int, y: int, c: Vec3) -> bool {
    exists|jit: Seq<(i64, i64)>, ds: Seq<ScatterDraw>|
        jit.len() == cam.samples() && ds.len() == cam.samples() * cam.depth() && all_jitter(jit) && all_drawn(ds)
            && c == #[trigger] pixel_spec(cam, ss, x, y, jit, ds)
}

impl Camera {
    /// `pixel_color_with` on the jitter offsets `jitter[jo..jo + samples]` and
    /// the draws `draws[dofs..dofs + samples * depth]`.
    fn pixel_color_at(
        &self,
        x: u32,
        y: u32,
        scene: &Scene,
        jitter: &Vec<(i64, i64)>,
        jo: usize,
        draws: &Vec<ScatterDraw>,
        dofs: usize,
    ) -> (r: Vec3)
        requires
            self.wf(),
            scene.wf(),
            jo + self.samples() <= jitter@.len(),
            dofs + self.samples() * self.depth() <= draws@.len(),
        ensures
            r == pixel_spec(
                self,
                scene@,
                x as int,
                y as int,
                jitter@.subrange(jo as int, jo + self.samples()),
                draws@.subrange(dofs as int, dofs + self.samples() * self.depth()),
            ),
            nonneg(r),
    {
        let n = self.samples as usize;
        let d = self.max_depth as usize;
        let ghost js = jitter@.subrange(jo as int, jo + n);
        let ghost ds = draws@.subrange(dofs as int, dofs + n * d);
        let ghost cs = sample_colors(self, scene@, x as int, y as int, js, ds);
        let mut sum = Vec3::zero();
        let mut i: usize = 0;
        let total = draws.len();
        let jl = jitter.len();
        while i < n
            invariant
                jl == jitter@.len(),
                n == self.samples(),
                d == self.depth(),
                self.wf(),
                i <= n,
                scene.wf(),
                jo + n <= jitter@.len(),
                dofs + n * d <= draws@.len(),
                total == draws@.len(),
                js == jitter@.subrange(jo as int, jo + n),
                ds == draws@.subrange(dofs as int, dofs + n * d),
                cs == sample_colors(self, scene@, x as int, y as int, js, ds),
                sum == sum_colors(cs.take(i as int)),
                nonneg(sum),
            decreases n - i,
        {
            proof {
                assert((i + 1) * d <= n * d) by (nonlinear_arith)
                    requires
                        i < n,
                ;
                assert((i + 1) * d == i * d + d) by (nonlinear_arith);
                assert(i * d <= n * d);
                assert(ds.subrange(i * d, (i + 1) * d) =~= draws@.subrange(dofs + i * d, dofs + i * d + d));
                assert(js[i as int] == jitter@[jo + i]);
            }
            let (dx, dy) = jitter[jo + i];
            let ray = self.sample_ray(x, y, dx, dy);
            let c = self.trace(ray, scene, draws, dofs + i * d, self.max_depth);
            assert(cs.take(i + 1).drop_last() =~= cs.take(i as int));
            assert(cs.take(i + 1).last() == c);
            sum = sum.add(c);
            i += 1;
        }
        assert(cs.take(n as int) =~= cs);
        let avg = sum.div(self.samples as i64 * ONE);
        proof {
            lemma_tdiv_bounded(sum.x * ONE, self.samples * ONE);
            lemma_tdiv_bounded(sum.y * ONE, self.samples * ONE);
            lemma_tdiv_bounded(sum.z * ONE, self.samples * ONE);
            assert(sum.x * ONE >= 0 && sum.y * ONE >= 0 && sum.z * ONE >= 0) by (nonlinear_arith)
                requires
                    nonneg(sum),
            ;
        }
        avg
    }

    /// The mean colour of pixel `(x, y)` over one sample for each jitter
    /// offset, the `i`-th sample bouncing with `draws[i * depth..(i + 1) * depth]`.
    pub fn pixel_color_with(
        &self,
        x: u32,
        y: u32,
        scene: &Scene,
        jitter: &Vec<(i64, i64)>,
        draws: &Vec<ScatterDraw>,
    ) -> (r: Vec3)
        requires
            self.wf(),
            scene.wf(),
            jitter@.len() == self.samples(),
            draws@.len() == self.samples() * self.depth(),
        ensures
            r == pixel_spec(self, scene@, x as int, y as int, jitter@, draws@),
            nonneg(r),
    {
        assert(jitter@.subrange(0, self.samples() as int) =~= jitter@);
        assert(draws@.subrange(0, (self.samples() * self.depth()) as int) =~= draws@);
        self.pixel_color_at(x, y, scene, jitter, 0, draws, 0)
    }

    /// Jitter offsets and draws for the samples of one pixel.
    fn draw_pixel(&self, rng: &mut StdRng) -> (r: (Vec<(i64, i64)>, Vec<ScatterDraw>))
        ensures
            r.0@.len() == self.samples(),
            r.1@.len() == self.samples() * self.depth(),
            all_jitter(r.0@),
            all_drawn(r.1@),
    {
        let n = self.samples as usize;
        let mut jit: Vec<(i64, i64)> = Vec::new();
        while jit.len() < n
            invariant
                jit@.len() <= n,
                all_jitter(jit@),
            decreases n - jit@.len(),
        {
            let dx = jitter(rng);
            let dy = jitter(rng);
            jit.push((dx, dy));
            assert(is_jitter(jit@[jit@.len() - 1]));
        }
        let mut draws: Vec<ScatterDraw> = Vec::new();
        let mut i: usize = 0;
        while i < n
            invariant
                i <= n,
                draws@.len() == i * self.depth(),
                all_drawn(draws@),
            decreases n - i,
        {
            append_draws(rng, &mut draws, self.max_depth as usize);
            assert((i + 1) * self.depth() == i * self.depth() + self.depth()) by (nonlinear_arith);
            i += 1;
        }
        (jit, draws)
    }

    /// The colour of pixel `(x, y)`: `pixel_color_with` on jitter and draws from `rng`.
    pub fn pixel_color(&self, x: u32, y: u32, scene: &Scene, rng: &mut StdRng) -> (r: Vec3)
        requires
            self.wf(),
            scene.wf(),
        ensures
            nonneg(r),
            is_pixel_color(self, scene@, x as int, y as int, r),
    {
        let (jit, draws) = self.draw_pixel(rng);
        self.pixel_color_with(x, y, scene, &jit, &draws)
    }

    /// Renders the scene into RGB bytes, row by row from the top, three bytes a
    /// pixel: the image that `render_with` gives for jitter offsets and draws
    /// taken from `rng`, pixel by pixel.
    pub fn render_image(&self, scene: &Scene, rng: &mut StdRng) -> (r: Vec<u8>)
        requires
            self.wf(),
            scene.wf(),
        ensures
            exists|jit: Seq<(i64, i64)>, ds: Seq<ScatterDraw>|
                jit.len() == self.width() * self.height() * self.samples() && ds.len() == self.width()
                    * self.height() * (self.samples() * self.depth()) && all_jitter(jit) && all_drawn(ds)
                    && #[trigger] renders(self, scene@, jit, ds, r@),
    {
        let mut buf: Vec<u8> = Vec::new();
        let ghost w = self.image_width as int;
        let ghost h = self.image_height as int;
        let ghost n = self.samples() as int;
        let ghost nd = self.samples() * self.depth();
        let ghost mut jall: Seq<(i64, i64)> = Seq::empty();
        let ghost mut dall: Seq<ScatterDraw> = Seq::empty();
        let mut y: u32 = 0;
        assert(0 * w * n == 0 && 0 * w * nd == 0) by (nonlinear_arith);
        while y < self.image_height
            invariant
                y <= self.image_height,
                w == self.width(),
                h == self.height(),
                n == self.samples(),
                nd == self.samples() * self.depth(),
                jall.len() == y * w * n,
                dall.len() == y * w * nd,
                all_jitter(jall),
                all_drawn(dall),
                buf@.len() == 3 * (y * w),
                forall|p: int| 0 <= p < y * w ==> shows(buf@, p, #[trigger] image_pixel(self, scene@, jall, dall, p)),
                self.wf(),
                scene.wf(),
            decreases self.image_height - y,
        {
            let mut x: u32 = 0;
            while x < self.image_width
                invariant
                    x <= self.image_width,
                    y < self.image_height,
                    w == self.width(),
                    h == self.height(),
                    n == self.samples(),
                    nd == self.samples() * self.depth(),
                    jall.len() == (y * w + x) * n,
                    dall.len() == (y * w + x) * nd,
                    all_jitter(jall),
                    all_drawn(dall),
                    buf@.len() == 3 * (y * w + x),
                    forall|p: int|
                        0 <= p < y * w + x ==> shows(buf@, p, #[trigger] image_pixel(self, scene@, jall, dall, p)),
                    self.wf(),
                    scene.wf(),
                decreases self.image_width - x,
            {
                let ghost pix = y * w + x;
                let (jit, draws) = self.draw_pixel(rng);
                let c = self.pixel_color_with(x, y, scene, &jit, &draws);
                let rgb = to_rgb(c);
                let ghost before = buf@;
                let ghost jold = jall;
                let ghost dold = dall;
                buf.push(rgb.0);
                buf.push(rgb.1);
                buf.push(rgb.2);
                proof {
                    vstd::arithmetic::div_mod::lemma_fundamental_div_mod_converse(pix, w, y as int, x as int);
                    assert(buf@.len() == 3 * pix + 3);
                    assert(forall|k: int| 0 <= k < 3 * pix ==> buf@[k] == before[k]);
                    assert(shows(buf@, pix, c));
                    lemma_render_step(self, scene@, before, buf@, jold, dold, jit@, draws@, pix, c);
                    jall = jold + jit@;
                    dall = dold + draws@;
                    assert((pix + 1) * n == pix * n + n && (pix + 1) * nd == pix * nd + nd) by (nonlinear_arith);
                }
                x += 1;
            }
            proof {
                assert(y * w + w == (y + 1) * w) by (nonlinear_arith);
                assert((y * w + w) * n == (y + 1) * w * n) by (nonlinear_arith);
                assert((y * w + w) * nd == (y + 1) * w * nd) by (nonlinear_arith);
            }
            y += 1;
        }
        proof {
            assert(3 * (y * w) == 3 * self.width() * self.height() && y * w == self.width() * self.height())
                by (nonlinear_arith)
                requires
                    y == self.height(),
                    w == self.width(),
            ;
            assert(jall.len() == self.width() * self.height() * self.samples());
            assert(renders(self, scene@, jall, dall, buf@));
        }
        buf
    }

}

/// The three bytes at pixel `p` of an RGB buffer are those of colour `c`.
pub open spec fn shows(buf: Seq<u8>, p: int, c: Vec3) -> bool {
    &&& buf[3 * p] == channel_byte(c.x as int)
    &&& buf[3 * p + 1] == channel_byte(c.y as int)
    &&& buf[3 * p + 2] == channel_byte(c.z as int)
}

/// The colour of pixel `p` (row-major) when pixel `p` takes the `p`-th run of
/// `samples` jitter offsets and the `p`-th run of `samples * depth` draws.
pub open spec fn image_pixel(
    cam: &Camera,
    ss: Seq<crate::shapes::Surface>,
    jit: Seq<(i64, i64)>,
    ds: Seq<ScatterDraw>,
    p: int,
) -> Vec3 {
    let n = cam.samples() as int;
    let nd = cam.samples() * cam.depth();
    pixel_spec(
        cam,
        ss,
        p % cam.width() as int,
        p / cam.width() as int,
        jit.subrange(p * n, (p + 1) * n),
        ds.subrange(p * nd, (p + 1) * nd),
    )
}

/// One more pixel on an image buffer: the earlier pixels keep their colours
/// when the jitter offsets and draws grow by those of the new pixel.
proof fn lemma_render_step(
    cam: &Camera,
    ss: Seq<crate::shapes::Surface>,
    before: Seq<u8>,
    after: Seq<u8>,
    jold: Seq<(i64, i64)>,
    dold: Seq<ScatterDraw>,
    jit: Seq<(i64, i64)>,
    ds: Seq<ScatterDraw>,
    pix: int,
    c: Vec3,
)
    requires
        cam.wf(),
        pix >= 0,
        jold.len() == pix * cam.samples(),
        dold.len() == pix * (cam.samples() * cam.depth()),
        jit.len() == cam.samples(),
        ds.len() == cam.samples() * cam.depth(),
        all_jitter(jold),
        all_jitter(jit),
        all_drawn(dold),
        all_drawn(ds),
        after.len() == 3 * pix + 3,
        forall|k: int| 0 <= k < 3 * pix ==> after[k] == before[k],
        forall|p: int| 0 <= p < pix ==> shows(before, p, #[trigger] image_pixel(cam, ss, jold, dold, p)),
        shows(after, pix, c),
        c == pixel_spec(cam, ss, pix % cam.width() as int, pix / cam.width() as int, jit, ds),
    ensures
        forall|p: int|
            0 <= p < pix + 1 ==> shows(after, p, #[trigger] image_pixel(cam, ss, jold + jit, dold + ds, p)),
        all_jitter(jold + jit),
        all_drawn(dold + ds),
{
    let n = cam.samples() as int;
    let nd = cam.samples() * cam.depth();
    let jall = jold + jit;
    let dall = dold + ds;
    assert((pix + 1) * n == pix * n + n && (pix + 1) * nd == pix * nd + nd) by (nonlinear_arith);
    assert(jall.subrange(pix * n, (pix + 1) * n) =~= jit);
    assert(dall.subrange(pix * nd, (pix + 1) * nd) =~= ds);
    assert(c == image_pixel(cam, ss, jall, dall, pix));
    assert forall|p: int| 0 <= p < pix + 1 implies shows(after, p, #[trigger] image_pixel(cam, ss, jall, dall, p)) by {
        if p < pix {
            assert((p + 1) * n <= pix * n && (p + 1) * nd <= pix * nd && 0 <= p * n && 0 <= p * nd && p * n
                <= (p + 1) * n && p * nd <= (p + 1) * nd) by (nonlinear_arith)
                requires
                    0 <= p < pix,
                    n >= 0,
                    nd >= 0,
            ;
            assert(jall.subrange(p * n, (p + 1) * n) =~= jold.subrange(p * n, (p + 1) * n));
            assert(dall.subrange(p * nd, (p + 1) * nd) =~= dold.subrange(p * nd, (p + 1) * nd));
            assert(image_pixel(cam, ss, jall, dall, p) == image_pixel(cam, ss, jold, dold, p));
            assert(shows(before, p, image_pixel(cam, ss, jold, dold, p)));
            assert(after[3 * p] == before[3 * p]);
            assert(after[3 * p + 1] == before[3 * p + 1]);
            assert(after[3 * p + 2] == before[3 * p + 2]);
        }
    }
    assert forall|k: int| 0 <= k < jall.len() implies is_jitter(#[trigger] jall[k]) by {
        if k >= jold.len() {
            assert(jall[k] == jit[k - jold.len()]);
        } else {
            assert(jall[k] == jold[k]);
        }
    }
    assert forall|k: int| 0 <= k < dall.len() implies is_drawn(#[trigger] dall[k]) by {
        if k >= dold.len() {
            assert(dall[k] == ds[k - dold.len()]);
        } else {
            assert(dall[k] == dold[k]);
        }
    }
}

/// `buf` is the image of the scene with the given jitter offsets and draws.
pub open spec fn renders(
    cam: &Camera,
    ss: Seq<crate::shapes::Surface>,
    jit: Seq<(i64, i64)>,
    ds: Seq<ScatterDraw>,
    buf: Seq<u8>,
) -> bool {
    &&& buf.len() == 3 * cam.width() * cam.height()
    &&& forall|p: int|
        0 <= p < cam.width() * cam.height() ==> shows(buf, p, #[trigger] image_pixel(cam, ss, jit, ds, p))
}

/// The same camera, scene, jitter offsets and draws give the same image, byte
/// for byte.
pub proof fn lemma_render_determined(
    cam: &Camera,
    ss: Seq<crate::shapes::Surface>,
    jit: Seq<(i64, i64)>,
    ds: Seq<ScatterDraw>,
    a: Seq<u8>,
    b: Seq<u8>,
)
    requires
        renders(cam, ss, jit, ds, a),
        renders(cam, ss, jit, ds, b),
    ensures
        a == b,
{
    assert forall|k: int| 0 <= k < a.len() implies a[k] == b[k] by {
        let p = k / 3;
        vstd::arithmetic::div_mod::lemma_fundamental_div_mod(k, 3);
        assert(0 <= p < cam.width() * cam.height()) by (nonlinear_arith)
            requires
                p == k / 3,
                0 <= k < 3 * cam.width() * cam.height(),
                k == 3 * (k / 3) + k % 3,
                0 <= k % 3 < 3,
        ;
        let c = image_pixel(cam, ss, jit, ds, p);
        assert(shows(a, p, c) && shows(b, p, c));
    }
    assert(a =~= b);
}

impl Camera {
    /// Renders with the given jitter offsets and draws, pixel by pixel in
    /// row-major order: the image is a function of them alone.
    pub fn render_with(&self, scene: &Scene, jitter: &Vec<(i64, i64)>, draws: &Vec<ScatterDraw>) -> (r: Vec<u8>)
        requires
            self.wf(),
            scene.wf(),
            jitter@.len() == self.width() * self.height() * self.samples(),
            draws@.len() == self.width() * self.height() * (self.samples() * self.depth()),
        ensures
            renders(self, scene@, jitter@, draws@, r@),
    {
        let mut buf: Vec<u8> = Vec::new();
        let ghost w = self.image_width as int;
        let ghost h = self.image_height as int;
        let n = self.samples as usize;
        let ghost nd = self.samples() * self.depth();
        let jl = jitter.len();
        let dl = draws.len();
        let mut y: u32 = 0;
        let mut jo: usize = 0;
        let mut dofs: usize = 0;
        assert(0 * w * n == 0 && 0 * w * nd == 0) by (nonlinear_arith);
        while y < self.image_height
            invariant
                y <= self.image_height,
                w == self.width(),
                h == self.height(),
                n == self.samples(),
                nd == self.samples() * self.depth(),
                jl == jitter@.len() == w * h * n,
                dl == draws@.len() == w * h * nd,
                jo == y * w * n,
                dofs == y * w * nd,
                buf@.len() == 3 * (y * w),
                forall|p: int|
                    0 <= p < y * w ==> shows(buf@, p, #[trigger] image_pixel(self, scene@, jitter@, draws@, p)),
                self.wf(),
                scene.wf(),
            decreases self.image_height - y,
        {
            let mut x: u32 = 0;
            while x < self.image_width
                invariant
                    x <= self.image_width,
                    y < self.image_height,
                    w == self.width(),
                    h == self.height(),
                    n == self.samples(),
                    nd == self.samples() * self.depth(),
                    jl == jitter@.len() == w * h * n,
                    dl == draws@.len() == w * h * nd,
                    jo == (y * w + x) * n,
                    dofs == (y * w + x) * nd,
                    buf@.len() == 3 * (y * w + x),
                    forall|p: int|
                        0 <= p < y * w + x ==> shows(buf@, p, #[trigger] image_pixel(self, scene@, jitter@, draws@, p)),
                    self.wf(),
                    scene.wf(),
                decreases self.image_width - x,
            {
                let ghost pix = y * w + x;
                proof {
                    assert(pix + 1 <= w * h) by (nonlinear_arith)
                        requires
                            pix == y * w + x,
                            x < w,
                            y < h,
                    ;
                    assert((pix + 1) * n <= w * h * n && (pix + 1) * n == pix * n + n) by (nonlinear_arith)
                        requires
                            pix + 1 <= w * h,
                            n >= 0,
                    ;
                    assert((pix + 1) * nd <= w * h * nd && (pix + 1) * nd == pix * nd + nd) by (nonlinear_arith)
                        requires
                            pix + 1 <= w * h,
                            nd >= 0,
                    ;
                    vstd::arithmetic::div_mod::lemma_fundamental_div_mod_converse(pix, w, y as int, x as int);
                }
                let c = self.pixel_color_at(x, y, scene, jitter, jo, draws, dofs);
                let rgb = to_rgb(c);
                let ghost before = buf@;
                buf.push(rgb.0);
                buf.push(rgb.1);
                buf.push(rgb.2);
                proof {
                    assert(c == image_pixel(self, scene@, jitter@, draws@, pix));
                    assert forall|p: int| 0 <= p < pix + 1 implies shows(
                        buf@,
                        p,
                        #[trigger] image_pixel(self, scene@, jitter@, draws@, p),
                    ) by {
                        if p < pix {
                            assert(shows(before, p, image_pixel(self, scene@, jitter@, draws@, p)));
                            assert(buf@[3 * p] == before[3 * p]);
                            assert(buf@[3 * p + 1] == before[3 * p + 1]);
                            assert(buf@[3 * p + 2] == before[3 * p + 2]);
                        }
                    }
                }
                jo = jo + n;
                dofs = dofs + self.samples as usize * self.max_depth as usize;
                x += 1;
            }
            proof {
                assert(y * w + w == (y + 1) * w) by (nonlinear_arith);
                assert((y * w + w) * n == (y + 1) * w * n) by (nonlinear_arith);
                assert((y * w + w) * nd == (y + 1) * w * nd) by (nonlinear_arith);
            }
            y += 1;
        }
        proof {
            assert(3 * (y * w) == 3 * self.width() * self.height() && y * w == self.width() * self.height())
                by (nonlinear_arith)
                requires
                    y == self.height(),
                    w == self.width(),
            ;
        }
        buf
    }
}

/// Gamma 2: the square root of a channel, zero for a channel at or below zero.
pub fn gamma_correction(v: i64) -> (r: i64)
    ensures
        r == (if v <= 0 {
            0
        } else {
            ssqrt(v as int)
        }),
        r >= 0,
{
    if v <= 0 {
        0
    } else {
        fx_sqrt(v)
    }
}

fn channel(v: i64) -> (r: u8)
    ensures
        r == channel_byte(v as int),
{
    if v <= 0 {
        return 0;
    }
    let g = gamma_correction(v);
    proof {
        vstd::arithmetic::div_mod::lemma_div_pos_is_pos(g * 255, ONE as int);
        assert(tdiv(g * 255, ONE as int) == (g * 255) / (ONE as int));
    }
    let q = fx_min(g * 255 / ONE, 255);
    q as u8
}

/// The 8-bit RGB triple of a colour.
pub fn to_rgb(c: Vec3) -> (r: (u8, u8, u8))
    ensures
        r.0 == channel_byte(c.x as int),
        r.1 == channel_byte(c.y as int),
        r.2 == channel_byte(c.z as int),
{
    (channel(c.x), channel(c.y), channel(c.z))
}

/// A jitter offset in `[-1/2, 1/2)` of a pixel.
fn jitter(rng: &mut StdRng) -> (r: i64)
    ensures
        exists|b: u64| r == #[trigger] jitter_of(b as int),
{
    let b = next_u64(rng);
    let r = unit_fraction_of(b) - HALF;
    assert(r == jitter_of(b as int));
    r
}

/// `n` scattering draws.
fn draw_many(rng: &mut StdRng, n: usize) -> (r: Vec<ScatterDraw>)
    ensures
        r@.len() == n,
        all_drawn(r@),
{
    let mut v: Vec<ScatterDraw> = Vec::new();
    append_draws(rng, &mut v, n);
    v
}

/// Appends `n` scattering draws to `v`.
fn append_draws(rng: &mut StdRng, v: &mut Vec<ScatterDraw>, n: usize)
    requires
        all_drawn(old(v)@),
    ensures
        final(v)@.len() == old(v)@.len() + n,
        all_drawn(final(v)@),
{
    let ghost start = v@.len();
    let mut k: usize = 0;
    while k < n
        invariant
            k <= n,
            v@.len() == start + k,
            all_drawn(v@),
        decreases n - k,
    {
        let d = ScatterDraw::random(rng);
        v.push(d);
        assert(is_drawn(v@[v@.len() - 1]));
        k += 1;
    }
}

/// `a * num / den` for a fixed-point `a` and a ratio of whole numbers.
fn scale_ratio(a: i64, num: u32, den: u32) -> (r: i64)
    requires
        den > 0,
    ensures
        r == sat(tdiv(a * num, den as int)),
{
    assert(-0x8000_0000_0000_0000_0000_0000 <= a as int * num <= 0x8000_0000_0000_0000_0000_0000)
        by (nonlinear_arith)
        requires
            -0x8000_0000_0000_0000 <= a <= 0x7fff_ffff_ffff_ffff,
            0 <= num <= 0xffff_ffff,
    ;
    let p: i128 = a as i128 * num as i128;
    let q: i128 = if p < 0 {
        -((-p) / den as i128)
    } else {
        p / den as i128
    };
    proof {
        lemma_tdiv_bounded(p as int, den as int);
    }
    if q > LIMIT as i128 {
        LIMIT
    } else if q < -(LIMIT as i128) {
        -LIMIT
    } else {
        q as i64
    }
}

/// The background seen along `dir`.
pub fn sky_color(dir: Vec3) -> (r: Vec3)
    ensures
        r == sky(dir),
{
    let n = dir.normalize();
    let mut a = fx_mul(HALF, fx_add(n.y, ONE));
    if a < 0 {
        a = 0;
    } else if a > ONE {
        a = ONE;
    }
    let k = fx_sub(ONE, a);
    Vec3::new(fx_add(k, fx_mul(SKY_RED, a)), fx_add(k, a), fx_add(k, a))
}

proof fn lemma_smul_nonneg(a: int, b: int)
    requires
        a >= 0,
        b >= 0,
    ensures
        smul(a, b) >= 0,
{
    assert(a * b >= 0) by (nonlinear_arith)
        requires
            a >= 0,
            b >= 0,
    ;
    lemma_tdiv_bounded(a * b, ONE as int);
}

/// Every scattering of a well-formed material attenuates by a colour.
proof fn lemma_attenuation_is_color(m: Material, ray: Ray, h: HitResult, d: ScatterDraw)
    requires
        m.wf(),
    ensures
        scatter_spec(m, ray, h, d) matches Some(s) ==> is_color(s.attenuation),
{
}

/// Radiance never goes negative in a scene of well-formed materials, whatever
/// the draws; the recursion ends after `depth` bounces.
pub proof fn lemma_path_color_nonneg(ss: Seq<crate::shapes::Surface>, ray: Ray, depth: nat, ds: Seq<ScatterDraw>)
    requires
        surfaces_wf(ss),
    ensures
        nonneg(path_color(ss, ray, depth, ds)),
    decreases depth,
{
    if depth > 0 {
        match nearest(ss, ray, T_MIN as int, T_MAX as int) {
            None => {
                let n = vnormalize(ray.dir);
                let a = clamp_unit(smul(HALF as int, sadd(n.y as int, ONE as int)));
                lemma_smul_nonneg(SKY_RED as int, a);
            },
            Some(h) => {
                lemma_nearest_hit(ss, ray, T_MIN as int, T_MAX as int);
                let i = choose|i: int|
                    0 <= i < ss.len() && #[trigger] surface_hit(ss[i], ray, T_MIN as int, T_MAX as int)
                        == Some(h);
                lemma_hit_in_span(ss[i], ray, T_MIN as int, T_MAX as int);
                assert(h.material.wf());
                lemma_attenuation_is_color(h.material, ray, h, ds[0]);
                match scatter_spec(h.material, ray, h, ds[0]) {
                    Some(s) => {
                        let c = path_color(ss, s.ray, (depth - 1) as nat, ds.drop_first());
                        lemma_path_color_nonneg(ss, s.ray, (depth - 1) as nat, ds.drop_first());
                        lemma_smul_nonneg(s.attenuation.x as int, c.x as int);
                        lemma_smul_nonneg(s.attenuation.y as int, c.y as int);
                        lemma_smul_nonneg(s.attenuation.z as int, c.z as int);
                    },
                    None => {
                        if let Material::Light { color, intensity } = h.material {
                            lemma_smul_nonneg(intensity as int, color.x as int);
                            lemma_smul_nonneg(intensity as int, color.y as int);
                            lemma_smul_nonneg(intensity as int, color.z as int);
                        }
                    },
                }
            },
        }
    }
}

} // verus!
