//! Random draws from a seeded generator.
use vstd::prelude::*;
use rand::rngs::StdRng;
use rand::RngCore;
use crate::fixed::ONE;
use crate::vector::{v3, within, Vec3};

verus! {

/// `rand::rngs::StdRng`, carried through as an opaque value.
#[verifier::external_type_specification]
#[verifier::external_body]
pub struct ExStdRng(StdRng);

/// Relies on `rand::RngCore::next_u64` of `rand::rngs::StdRng`: any `u64` may come back.
#[verifier::external_body]
pub(crate) fn next_u64(rng: &mut StdRng) -> (r: u64) {
    rng.next_u64()
}

/// The fixed-point value in `[0, 1)` that the top 16 bits of `bits` spell.
pub open spec fn unit_of(bits: int) -> int {
    bits / 0x1_0000_0000_0000
}

/// The fixed-point value in `[-1, 1)` that the top 17 bits of `bits` spell.
pub open spec fn signed_of(bits: int) -> int {
    bits / 0x8000_0000_0000 - ONE
}

/// The point of the cube `[-1, 1)^3` that three draws spell.
pub open spec fn cube_point(bx: int, by: int, bz: int) -> Vec3 {
    v3(signed_of(bx), signed_of(by), signed_of(bz))
}

pub fn unit_fraction_of(bits: u64) -> (r: i64)
    ensures
        r == unit_of(bits as int),
        0 <= r < ONE,
{
    (bits / 0x1_0000_0000_0000) as i64
}

pub fn signed_fraction_of(bits: u64) -> (r: i64)
    ensures
        r == signed_of(bits as int),
        -ONE <= r < ONE,
{
    (bits / 0x8000_0000_0000) as i64 - ONE
}

/// A uniform fixed-point value in `[0, 1)`.
pub fn unit_fraction(rng: &mut StdRng) -> (r: i64)
    ensures
        exists|b: u64| r == #[trigger] unit_of(b as int),
        0 <= r < ONE,
{
    let bits = next_u64(rng);
    unit_fraction_of(bits)
}

/// A uniform fixed-point value in `[-1, 1)`.
pub fn signed_fraction(rng: &mut StdRng) -> (r: i64)
    ensures
        exists|b: u64| r == #[trigger] signed_of(b as int),
        -ONE <= r < ONE,
{
    let bits = next_u64(rng);
    signed_fraction_of(bits)
}

impl Vec3 {
    /// The point of the cube `[-1, 1)^3` that three draws spell.
    pub fn from_bits(bx: u64, by: u64, bz: u64) -> (r: Vec3)
        ensures
            r == cube_point(bx as int, by as int, bz as int),
            within(r, -ONE as int, ONE as int),
    {
        Vec3::new(signed_fraction_of(bx), signed_fraction_of(by), signed_fraction_of(bz))
    }

    /// A point drawn uniformly from the cube `[-1, 1)^3`.
    pub fn random(rng: &mut StdRng) -> (r: Vec3)
        ensures
            exists|bx: u64, by: u64, bz: u64| r == #[trigger] cube_point(bx as int, by as int, bz as int),
            within(r, -ONE as int, ONE as int),
    {
        let bx = next_u64(rng);
        let by = next_u64(rng);
        let bz = next_u64(rng);
        Vec3::from_bits(bx, by, bz)
    }

    /// A unit direction drawn at random and turned into the half-space of `normal`.
    pub fn random_on_hemisphere(normal: Vec3, rng: &mut StdRng) -> (r: Vec3)
        ensures
            ONE - 4 <= crate::vector::vnorm(r) <= ONE,
            crate::vector::vdot(r, normal) >= 0,
            exists|bx: u64, by: u64, bz: u64|
                r == #[trigger] crate::vector::vnormalize(cube_point(bx as int, by as int, bz as int)).toward_spec(
                    normal,
                ),
    {
        let d = Vec3::random(rng);
        d.normalize().toward(normal)
    }
}

} // verus!
