//! Rays: an origin and a direction.
use vstd::prelude::*;
use crate::vector::{vadd, vscale, Vec3};

verus! {

#[derive(Debug, Clone, Copy, PartialEq, Eq, Structural)]
pub struct Ray {
    pub origin: Vec3,
    pub dir: Vec3,
}

/// The point at parameter `t`: `origin + t * dir`.
pub open spec fn ray_at(r: Ray, t: int) -> Vec3 {
    vadd(r.origin, vscale(t, r.dir))
}

impl Ray {
    pub fn new(origin: Vec3, dir: Vec3) -> (r: Ray)
        ensures
            r == (Ray { origin, dir }),
    {
        Ray { origin, dir }
    }

    pub fn at(&self, t: i64) -> (r: Vec3)
        ensures
            r == ray_at(*self, t as int),
    {
        self.origin.add(self.dir.scale(t))
    }

    pub fn origin(&self) -> (r: Vec3)
        ensures
            r == self.origin,
    {
        self.origin
    }

    pub fn dir(&self) -> (r: Vec3)
        ensures
            r == self.dir,
    {
        self.dir
    }
}

/// At parameter zero a ray is at its origin.
pub proof fn lemma_at_zero(r: Ray)
    requires
        r.origin.wf(),
    ensures
        ray_at(r, 0) == r.origin,
{
    assert(crate::fixed::tdiv(0, crate::fixed::ONE as int) == 0);
}

} // verus!
