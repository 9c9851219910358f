//! A scene: the surfaces a ray can meet, searched for the nearest hit.
use vstd::prelude::*;
use crate::ray::Ray;
use crate::shapes::{
    lemma_hit_in_span, lemma_hit_stable, lemma_miss_below_hit, lemma_narrow_miss, surface_hit,
    in_span, HitResult, Hittable, InfinitePlane, Sphere, Surface, Triangle,
};

verus! {

/// The result of scanning `ss` in order, each surface searched only below the
/// nearest hit found before it.
pub open spec fn nearest(ss: Seq<Surface>, ray: Ray, lo: int, hi: int) -> Option<HitResult>
    decreases ss.len(),
{
    if ss.len() == 0 {
        None
    } else {
        let prev = nearest(ss.drop_last(), ray, lo, hi);
        let bound = match prev {
            Some(h) => h.t as int,
            None => hi,
        };
        match surface_hit(ss.last(), ray, lo, bound) {
            Some(h) => Some(h),
            None => prev,
        }
    }
}

/// The material of every surface is well formed.
pub open spec fn surfaces_wf(ss: Seq<Surface>) -> bool {
    forall|i: int| 0 <= i < ss.len() ==> (#[trigger] ss[i]).material_spec().wf()
}

pub struct Scene {
    surfaces: Vec<Surface>,
}

impl View for Scene {
    type V = Seq<Surface>;

    closed spec fn view(&self) -> Seq<Surface> {
        self.surfaces@
    }
}

impl Scene {
    pub open spec fn wf(&self) -> bool {
        surfaces_wf(self@)
    }

    pub fn new() -> (r: Scene)
        ensures
            r@ == Seq::<Surface>::empty(),
    {
        Scene { surfaces: Vec::new() }
    }

    pub fn add(&mut self, s: Surface)
        ensures
            final(self)@ == old(self)@.push(s),
    {
        self.surfaces.push(s);
    }

    pub fn add_sphere(&mut self, sphere: Sphere)
        ensures
            final(self)@ == old(self)@.push(Surface::Sphere(sphere)),
    {
        self.add(Surface::Sphere(sphere));
    }

    pub fn add_inf_plane(&mut self, plane: InfinitePlane)
        ensures
            final(self)@ == old(self)@.push(Surface::Plane(plane)),
    {
        self.add(Surface::Plane(plane));
    }

    pub fn add_triangle(&mut self, triangle: Triangle)
        ensures
            final(self)@ == old(self)@.push(Surface::Triangle(triangle)),
    {
        self.add(Surface::Triangle(triangle));
    }

    /// Tests `wf`: every material is well formed.
    pub fn is_valid(&self) -> (r: bool)
        ensures
            r == self.wf(),
    {
        let mut i: usize = 0;
        while i < self.surfaces.len()
            invariant
                i <= self.surfaces@.len(),
                forall|k: int| 0 <= k < i ==> (#[trigger] self.surfaces@[k]).material_spec().wf(),
            decreases self.surfaces@.len() - i,
        {
            if !self.surfaces[i].material().is_valid() {
                return false;
            }
            i += 1;
        }
        true
    }

    pub fn count(&self) -> (r: usize)
        ensures
            r == self@.len(),
    {
        self.surfaces.len()
    }

    /// The nearest hit in `[t_min, t_max)` over all surfaces (see
    /// `lemma_nearest_hit` for what that means).
    pub fn hit(&self, ray: Ray, t_min: i64, t_max: i64) -> (r: Option<HitResult>)
        ensures
            r == nearest(self@, ray, t_min as int, t_max as int),
    {
        let mut closest: Option<HitResult> = None;
        let mut bound: i64 = t_max;
        let mut i: usize = 0;
        while i < self.surfaces.len()
            invariant
                i <= self.surfaces@.len(),
                closest == nearest(self.surfaces@.take(i as int), ray, t_min as int, t_max as int),
                bound == (match closest {
                    Some(h) => h.t,
                    None => t_max,
                }),
            decreases self.surfaces@.len() - i,
        {
            assert(self.surfaces@.take(i + 1).drop_last() =~= self.surfaces@.take(i as int));
            if let Some(h) = self.surfaces[i].hit(ray, t_min, bound) {
                bound = h.t;
                closest = Some(h);
            }
            i += 1;
        }
        assert(self.surfaces@.take(i as int) =~= self.surfaces@);
        closest
    }
}

/// The scan finds the nearest hit: no surface is hit in the span, or the result
/// is one surface's hit in the span and no surface is hit before it.
pub proof fn lemma_nearest_hit(ss: Seq<Surface>, ray: Ray, lo: int, hi: int)
    ensures
        nearest(ss, ray, lo, hi) is None ==> forall|i: int|
            0 <= i < ss.len() ==> (#[trigger] surface_hit(ss[i], ray, lo, hi)) is None,
        nearest(ss, ray, lo, hi) matches Some(h) ==> {
            &&& in_span(h.t as int, lo, hi)
            &&& exists|i: int| 0 <= i < ss.len() && #[trigger] surface_hit(ss[i], ray, lo, hi) == Some(h)
            &&& forall|i: int| 0 <= i < ss.len() ==> (#[trigger] surface_hit(ss[i], ray, lo, h.t as int)) is None
        },
    decreases ss.len(),
{
    if ss.len() > 0 {
        let rest = ss.drop_last();
        let last = ss.last();
        let n = ss.len() - 1;
        lemma_nearest_hit(rest, ray, lo, hi);
        assert(forall|i: int| 0 <= i < n ==> rest[i] == ss[i]);
        assert(ss[n] == last);
        match nearest(rest, ray, lo, hi) {
            None => {
                lemma_hit_in_span(last, ray, lo, hi);
                if let Some(h) = surface_hit(last, ray, lo, hi) {
                    lemma_miss_below_hit(last, ray, lo, hi, h.t as int);
                    assert forall|i: int| 0 <= i < ss.len() implies (#[trigger] surface_hit(
                        ss[i],
                        ray,
                        lo,
                        h.t as int,
                    )) is None by {
                        if i < n {
                            assert(surface_hit(rest[i], ray, lo, hi) is None);
                            lemma_narrow_miss(ss[i], ray, lo, hi, h.t as int);
                        }
                    }
                    assert(surface_hit(ss[n], ray, lo, hi) == Some(h));
                }
            },
            Some(hp) => {
                let bound = hp.t as int;
                lemma_hit_in_span(last, ray, lo, bound);
                if let Some(h) = surface_hit(last, ray, lo, bound) {
                    lemma_hit_stable(last, ray, lo, bound, hi);
                    lemma_miss_below_hit(last, ray, lo, bound, h.t as int);
                    assert forall|i: int| 0 <= i < ss.len() implies (#[trigger] surface_hit(
                        ss[i],
                        ray,
                        lo,
                        h.t as int,
                    )) is None by {
                        if i < n {
                            assert(surface_hit(rest[i], ray, lo, bound) is None);
                            lemma_narrow_miss(ss[i], ray, lo, bound, h.t as int);
                        }
                    }
                    assert(surface_hit(ss[n], ray, lo, hi) == Some(h));
                } else {
                    let k = choose|k: int| 0 <= k < rest.len() && #[trigger] surface_hit(rest[k], ray, lo, hi) == Some(hp);
                    assert(surface_hit(ss[k], ray, lo, hi) == Some(hp));
                }
            },
        }
    }
}

/// Of two surfaces hit in a span, the farther one is never the scene's answer.
pub proof fn lemma_nearer_surface_wins(ss: Seq<Surface>, ray: Ray, lo: int, hi: int, i: int, j: int)
    requires
        0 <= i < ss.len(),
        0 <= j < ss.len(),
        surface_hit(ss[i], ray, lo, hi) matches Some(hn) && surface_hit(ss[j], ray, lo, hi) matches Some(hf)
            && hn.t < hf.t,
    ensures
        nearest(ss, ray, lo, hi) matches Some(h) && h.t <= surface_hit(ss[i], ray, lo, hi)->Some_0.t
            && Some(h) != surface_hit(ss[j], ray, lo, hi),
{
    lemma_nearest_hit(ss, ray, lo, hi);
    let hn = surface_hit(ss[i], ray, lo, hi)->Some_0;
    if let Some(h) = nearest(ss, ray, lo, hi) {
        if hn.t < h.t {
            lemma_hit_stable(ss[i], ray, lo, hi, h.t as int);
        }
    }
}

/// Two spheres along a ray: the scene reports the nearer sphere's hit, and so
/// its material, in whichever order the spheres were added.
pub proof fn lemma_nearer_sphere_wins(a: Sphere, b: Sphere, ray: Ray, lo: int, hi: int)
    requires
        surface_hit(Surface::Sphere(a), ray, lo, hi) matches Some(ha)
            && surface_hit(Surface::Sphere(b), ray, lo, hi) matches Some(hb) && ha.t < hb.t,
    ensures
        nearest(seq![Surface::Sphere(a), Surface::Sphere(b)], ray, lo, hi) == surface_hit(Surface::Sphere(a), ray, lo, hi),
        nearest(seq![Surface::Sphere(b), Surface::Sphere(a)], ray, lo, hi) == surface_hit(Surface::Sphere(a), ray, lo, hi),
        nearest(seq![Surface::Sphere(a), Surface::Sphere(b)], ray, lo, hi)->Some_0.material == a.material,
        nearest(seq![Surface::Sphere(b), Surface::Sphere(a)], ray, lo, hi)->Some_0.material == a.material,
{
    let ab = seq![Surface::Sphere(a), Surface::Sphere(b)];
    let ba = seq![Surface::Sphere(b), Surface::Sphere(a)];
    lemma_nearest_hit(ab, ray, lo, hi);
    lemma_nearest_hit(ba, ray, lo, hi);
    lemma_nearer_surface_wins(ab, ray, lo, hi, 0, 1);
    lemma_nearer_surface_wins(ba, ray, lo, hi, 1, 0);
    lemma_hit_in_span(Surface::Sphere(a), ray, lo, hi);
    assert(ab[0] == Surface::Sphere(a) && ab[1] == Surface::Sphere(b));
    assert(ba[1] == Surface::Sphere(a) && ba[0] == Surface::Sphere(b));
}

} // verus!
