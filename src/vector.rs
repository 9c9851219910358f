//! Three-component fixed-point vectors.
use vstd::prelude::*;
use crate::fixed::{
    abs, fx_add, fx_div, fx_min, fx_mul, fx_neg, fx_sqrt, fx_sub, in_range, isqrt, isqrt_wide,
    is_root, lemma_isqrt_unique, sadd, sat, sdiv, smin, smul, sneg, ssqrt, ssub, tdiv, LIMIT, ONE,
};

verus! {

/// A vector whose components are fixed-point values (see `fixed`).
#[derive(Debug, Clone, Copy, PartialEq, Eq, Structural)]
pub struct Vec3 {
    pub x: i64,
    pub y: i64,
    pub z: i64,
}

pub open spec fn v3(x: int, y: int, z: int) -> Vec3 {
    Vec3 { x: x as i64, y: y as i64, z: z as i64 }
}

/// The unit vector along `+z`, used where a zero vector has no direction.
pub open spec fn axis() -> Vec3 {
    Vec3 { x: 0, y: 0, z: ONE }
}

pub open spec fn vadd(a: Vec3, b: Vec3) -> Vec3 {
    v3(sadd(a.x as int, b.x as int), sadd(a.y as int, b.y as int), sadd(a.z as int, b.z as int))
}

pub open spec fn vsub(a: Vec3, b: Vec3) -> Vec3 {
    v3(ssub(a.x as int, b.x as int), ssub(a.y as int, b.y as int), ssub(a.z as int, b.z as int))
}

pub open spec fn vneg(a: Vec3) -> Vec3 {
    v3(sneg(a.x as int), sneg(a.y as int), sneg(a.z as int))
}

/// Each component multiplied by the fixed-point scalar `k`.
pub open spec fn vscale(k: int, a: Vec3) -> Vec3 {
    v3(smul(k, a.x as int), smul(k, a.y as int), smul(k, a.z as int))
}

/// Componentwise product.
pub open spec fn vmul(a: Vec3, b: Vec3) -> Vec3 {
    v3(smul(a.x as int, b.x as int), smul(a.y as int, b.y as int), smul(a.z as int, b.z as int))
}

/// Each component divided by the fixed-point scalar `k`.
pub open spec fn vdiv(a: Vec3, k: int) -> Vec3 {
    v3(sdiv(a.x as int, k), sdiv(a.y as int, k), sdiv(a.z as int, k))
}

/// The dot product of the raw components, before rescaling. Components are
/// read through `sat`, which leaves those of a well-formed vector unchanged.
pub open spec fn dot_raw(a: Vec3, b: Vec3) -> int {
    sat(a.x as int) * sat(b.x as int) + sat(a.y as int) * sat(b.y as int) + sat(a.z as int) * sat(
        b.z as int,
    )
}

pub open spec fn vdot(a: Vec3, b: Vec3) -> int {
    sat(tdiv(dot_raw(a, b), ONE as int))
}

/// Euclidean length: the integer root of the raw squared length is already in raw units.
pub open spec fn vnorm(a: Vec3) -> int {
    sat(isqrt(dot_raw(a, a)))
}

pub open spec fn vcross(a: Vec3, b: Vec3) -> Vec3 {
    v3(
        ssub(smul(a.y as int, b.z as int), smul(a.z as int, b.y as int)),
        ssub(smul(a.z as int, b.x as int), smul(a.x as int, b.z as int)),
        ssub(smul(a.x as int, b.y as int), smul(a.y as int, b.x as int)),
    )
}

pub open spec fn is_zero(a: Vec3) -> bool {
    a.x == 0 && a.y == 0 && a.z == 0
}

/// `a` scaled to unit length; the zero vector maps to `axis()`.
pub open spec fn vnormalize(a: Vec3) -> Vec3 {
    if is_zero(a) {
        axis()
    } else {
        let n = fine_norm(a);
        v3(unit_part(a.x as int, n), unit_part(a.y as int, n), unit_part(a.z as int, n))
    }
}

/// The length of `a` with sixteen more fractional bits than a component: the
/// integer root of the raw squared length scaled by `ONE * ONE`.
pub open spec fn fine_norm(a: Vec3) -> int {
    isqrt(dot_raw(a, a) * ONE * ONE)
}

/// A component `c` divided by a fine length `n`, in fixed point.
pub open spec fn unit_part(c: int, n: int) -> int {
    sat(tdiv(sat(c) * ONE * ONE, n))
}

/// Mirror image of `v` about the plane with normal `n`: `v - 2 (v . n) n`.
pub open spec fn vreflect(v: Vec3, n: Vec3) -> Vec3 {
    let d = vdot(v, n);
    vsub(v, vscale(sadd(d, d), n))
}

/// Snell's law for unit `v` and `n` and the ratio `eta` of refractive indices.
pub open spec fn vrefract(v: Vec3, n: Vec3, eta: int) -> Vec3 {
    let cos = smin(vdot(vneg(v), n), ONE as int);
    let perp = vscale(eta, vadd(v, vscale(cos, n)));
    let rest = ssub(ONE as int, vdot(perp, perp));
    let par = vscale(sneg(ssqrt(abs(rest))), n);
    vadd(perp, par)
}

/// Components within `[lo, hi)`.
pub open spec fn within(a: Vec3, lo: int, hi: int) -> bool {
    lo <= a.x < hi && lo <= a.y < hi && lo <= a.z < hi
}

impl Vec3 {
    /// No component has been clipped by saturation.
    pub open spec fn wf(&self) -> bool {
        in_range(self.x as int) && in_range(self.y as int) && in_range(self.z as int)
    }

    /// Builds a vector from raw fixed-point components.
    pub fn new(x: i64, y: i64, z: i64) -> (r: Vec3)
        ensures
            r == (Vec3 { x, y, z }),
    {
        Vec3 { x, y, z }
    }

    pub fn zero() -> (r: Vec3)
        ensures
            r == (Vec3 { x: 0, y: 0, z: 0 }),
    {
        Vec3 { x: 0, y: 0, z: 0 }
    }

    pub fn x(&self) -> (r: i64)
        ensures
            r == self.x,
    {
        self.x
    }

    pub fn y(&self) -> (r: i64)
        ensures
            r == self.y,
    {
        self.y
    }

    pub fn z(&self) -> (r: i64)
        ensures
            r == self.z,
    {
        self.z
    }

    /// No component reaches the smallest representable step, so only the zero
    /// vector is near zero.
    pub fn is_near_zero(&self) -> (r: bool)
        ensures
            r == is_zero(*self),
    {
        self.x == 0 && self.y == 0 && self.z == 0
    }

    pub fn add(self, o: Vec3) -> (r: Vec3)
        ensures
            r == vadd(self, o),
    {
        Vec3 { x: fx_add(self.x, o.x), y: fx_add(self.y, o.y), z: fx_add(self.z, o.z) }
    }

    pub fn sub(self, o: Vec3) -> (r: Vec3)
        ensures
            r == vsub(self, o),
    {
        Vec3 { x: fx_sub(self.x, o.x), y: fx_sub(self.y, o.y), z: fx_sub(self.z, o.z) }
    }

    pub fn neg(self) -> (r: Vec3)
        ensures
            r == vneg(self),
    {
        Vec3 { x: fx_neg(self.x), y: fx_neg(self.y), z: fx_neg(self.z) }
    }

    /// Multiplication by the fixed-point scalar `k`.
    pub fn scale(self, k: i64) -> (r: Vec3)
        ensures
            r == vscale(k as int, self),
    {
        Vec3 { x: fx_mul(k, self.x), y: fx_mul(k, self.y), z: fx_mul(k, self.z) }
    }

    /// Componentwise product.
    pub fn mul(self, o: Vec3) -> (r: Vec3)
        ensures
            r == vmul(self, o),
    {
        Vec3 { x: fx_mul(self.x, o.x), y: fx_mul(self.y, o.y), z: fx_mul(self.z, o.z) }
    }

    /// Division by the fixed-point scalar `k`.
    pub fn div(self, k: i64) -> (r: Vec3)
        requires
            k != 0,
        ensures
            r == vdiv(self, k as int),
    {
        Vec3 { x: fx_div(self.x, k), y: fx_div(self.y, k), z: fx_div(self.z, k) }
    }

    fn dot_wide(self, o: Vec3) -> (r: i128)
        ensures
            r == dot_raw(self, o),
            -0x4_0000_0000_0000_0000_0000 <= r <= 0x4_0000_0000_0000_0000_0000,
    {
        let ax = clamp(self.x);
        let ay = clamp(self.y);
        let az = clamp(self.z);
        let bx = clamp(o.x);
        let by = clamp(o.y);
        let bz = clamp(o.z);
        proof {
            lemma_small_product(ax as int, bx as int);
            lemma_small_product(ay as int, by as int);
            lemma_small_product(az as int, bz as int);
        }
        ax * bx + ay * by + az * bz
    }

    pub fn dot(self, o: Vec3) -> (r: i64)
        ensures
            r == vdot(self, o),
    {
        let d = self.dot_wide(o);
        let q: i128 = if d < 0 {
            -((-d) / (ONE as i128))
        } else {
            d / (ONE as i128)
        };
        proof {
            crate::fixed::lemma_tdiv_bounded(d as int, ONE as int);
        }
        if q > LIMIT as i128 {
            LIMIT
        } else if q < -(LIMIT as i128) {
            -LIMIT
        } else {
            q as i64
        }
    }

    pub fn norm_sq(&self) -> (r: i64)
        ensures
            r == vdot(*self, *self),
    {
        self.dot(*self)
    }

    pub fn norm(&self) -> (r: i64)
        ensures
            r == vnorm(*self),
            r >= 0,
            !is_zero(*self) ==> r > 0,
    {
        let d = self.dot_wide(*self);
        assert(dot_raw(*self, *self) >= 0) by (nonlinear_arith)
            requires
                dot_raw(*self, *self) == sat(self.x as int) * sat(self.x as int) + sat(self.y as int)
                    * sat(self.y as int) + sat(self.z as int) * sat(self.z as int),
        ;
        let s = isqrt_wide(d as u128);
        proof {
            lemma_isqrt_unique(d as int, s as int);
            assert(s > 0 || d < 1) by (nonlinear_arith)
                requires
                    d < (s + 1) * (s + 1),
                    s >= 0,
            ;
            if !is_zero(*self) {
                assert(d >= 1) by (nonlinear_arith)
                    requires
                        d == sat(self.x as int) * sat(self.x as int) + sat(self.y as int) * sat(
                            self.y as int,
                        ) + sat(self.z as int) * sat(self.z as int),
                        sat(self.x as int) != 0 || sat(self.y as int) != 0 || sat(self.z as int)
                            != 0,
                ;
            }
        }
        if s > LIMIT as u128 {
            LIMIT
        } else {
            s as i64
        }
    }

    pub fn cross(self, o: Vec3) -> (r: Vec3)
        ensures
            r == vcross(self, o),
    {
        Vec3 {
            x: fx_sub(fx_mul(self.y, o.z), fx_mul(self.z, o.y)),
            y: fx_sub(fx_mul(self.z, o.x), fx_mul(self.x, o.z)),
            z: fx_sub(fx_mul(self.x, o.y), fx_mul(self.y, o.x)),
        }
    }

    /// Scales to unit length; the zero vector, which has no direction, yields
    /// `+z`. The result's length is within four raw steps below one.
    pub fn normalize(self) -> (r: Vec3)
        ensures
            r == vnormalize(self),
            ONE - 4 <= vnorm(r) <= ONE,
    {
        if self.is_near_zero() {
            let r = Vec3 { x: 0, y: 0, z: ONE };
            proof {
                assert(sat(ONE as int) == ONE);
                assert(sat(0) == 0);
                assert(dot_raw(r, r) == 0 * 0 + 0 * 0 + ONE * ONE);
                assert(is_root(ONE * ONE, ONE as int)) by (nonlinear_arith);
                lemma_isqrt_unique(ONE * ONE, ONE as int);
            }
            r
        } else {
            let s = self.dot_wide(self);
            assert(dot_raw(self, self) >= 1) by (nonlinear_arith)
                requires
                    dot_raw(self, self) == sat(self.x as int) * sat(self.x as int) + sat(self.y as int) * sat(
                        self.y as int,
                    ) + sat(self.z as int) * sat(self.z as int),
                    sat(self.x as int) != 0 || sat(self.y as int) != 0 || sat(self.z as int) != 0,
            ;
            let scaled: u128 = s as u128 * 0x1_0000_0000;
            let n = isqrt_wide(scaled);
            proof {
                assert(scaled == dot_raw(self, self) * ONE * ONE);
                lemma_isqrt_unique(scaled as int, n as int);
                assert(scaled >= ONE * ONE) by (nonlinear_arith)
                    requires
                        scaled == dot_raw(self, self) * ONE * ONE,
                        dot_raw(self, self) >= 1,
                ;
                assert(n >= ONE) by (nonlinear_arith)
                    requires
                        scaled < (n + 1) * (n + 1),
                        scaled >= ONE * ONE,
                        n >= 0,
                ;
                lemma_normalize_unit(self);
            }
            Vec3 { x: unit_component(self.x, n), y: unit_component(self.y, n), z: unit_component(self.z, n) }
        }
    }

    /// Reflects about the plane with normal `n`.
    pub fn reflect(&self, n: Vec3) -> (r: Vec3)
        ensures
            r == vreflect(*self, n),
    {
        let d = self.dot(n);
        self.sub(n.scale(fx_add(d, d)))
    }

    /// Refracts by Snell's law; `self` and `n` are meant to be unit vectors.
    pub fn refract(&self, n: Vec3, eta: i64) -> (r: Vec3)
        ensures
            r == vrefract(*self, n, eta as int),
    {
        let cos = fx_min(self.neg().dot(n), ONE);
        let perp = self.add(n.scale(cos)).scale(eta);
        let rest = fx_sub(ONE, perp.norm_sq());
        let mag = if rest < 0 {
            fx_neg(rest)
        } else {
            rest
        };
        let par = n.scale(fx_neg(fx_sqrt(mag)));
        perp.add(par)
    }

    /// `self`, or its opposite where `self` does not point along `normal`.
    pub open spec fn toward_spec(self, normal: Vec3) -> Vec3 {
        if vdot(self, normal) > 0 {
            self
        } else {
            vneg(self)
        }
    }

    /// Turns `self` into the half-space that `normal` points into.
    pub fn toward(self, normal: Vec3) -> (r: Vec3)
        ensures
            r == self.toward_spec(normal),
            vnorm(r) == vnorm(self),
            vdot(r, normal) >= 0,
    {
        proof {
            lemma_neg_norm(self);
            lemma_neg_dot(self, normal);
        }
        if self.dot(normal) > 0 {
            self
        } else {
            self.neg()
        }
    }
}

/// Turning a vector around keeps its length.
pub proof fn lemma_neg_norm(a: Vec3)
    ensures
        dot_raw(vneg(a), vneg(a)) == dot_raw(a, a),
        vnorm(vneg(a)) == vnorm(a),
{
    let b = vneg(a);
    assert(sat(b.x as int) == -sat(a.x as int));
    assert(sat(b.y as int) == -sat(a.y as int));
    assert(sat(b.z as int) == -sat(a.z as int));
    assert(dot_raw(b, b) == dot_raw(a, a)) by (nonlinear_arith)
        requires
            dot_raw(b, b) == sat(b.x as int) * sat(b.x as int) + sat(b.y as int) * sat(b.y as int) + sat(
                b.z as int,
            ) * sat(b.z as int),
            dot_raw(a, a) == sat(a.x as int) * sat(a.x as int) + sat(a.y as int) * sat(a.y as int) + sat(
                a.z as int,
            ) * sat(a.z as int),
            sat(b.x as int) == -sat(a.x as int),
            sat(b.y as int) == -sat(a.y as int),
            sat(b.z as int) == -sat(a.z as int),
    ;
}

/// Turning a vector around negates its dot products.
pub proof fn lemma_neg_dot(a: Vec3, n: Vec3)
    ensures
        vdot(vneg(a), n) == -vdot(a, n),
{
    let b = vneg(a);
    assert(sat(b.x as int) == -sat(a.x as int));
    assert(sat(b.y as int) == -sat(a.y as int));
    assert(sat(b.z as int) == -sat(a.z as int));
    assert(dot_raw(b, n) == -dot_raw(a, n)) by (nonlinear_arith)
        requires
            dot_raw(b, n) == sat(b.x as int) * sat(n.x as int) + sat(b.y as int) * sat(n.y as int) + sat(
                b.z as int,
            ) * sat(n.z as int),
            dot_raw(a, n) == sat(a.x as int) * sat(n.x as int) + sat(a.y as int) * sat(n.y as int) + sat(
                a.z as int,
            ) * sat(n.z as int),
            sat(b.x as int) == -sat(a.x as int),
            sat(b.y as int) == -sat(a.y as int),
            sat(b.z as int) == -sat(a.z as int),
    ;
}

proof fn lemma_abs_square(c: int)
    ensures
        abs(c) * abs(c) == c * c,
        abs(c) >= 0,
{
    if c < 0 {
        assert((-c) * (-c) == c * c) by (nonlinear_arith);
    }
}

proof fn lemma_square_le(x: int, y: int)
    requires
        0 <= x <= y,
    ensures
        x * x <= y * y,
{
    assert(x * x <= y * y) by (nonlinear_arith)
        requires
            0 <= x <= y,
    ;
}

proof fn lemma_square_lt(x: int, y: int)
    requires
        0 <= x < y,
    ensures
        x * x < y * y,
{
    assert(x * x < y * y) by (nonlinear_arith)
        requires
            0 <= x < y,
    ;
}

/// `n * a` squared, factored.
proof fn lemma_square_product(n: int, a: int)
    ensures
        (n * a) * (n * a) == (n * n) * (a * a),
{
    assert((n * a) * (n * a) == (n * n) * (a * a)) by (nonlinear_arith);
}

/// `unit_part(c, n)` for a fine length `n` of at least one whole unit.
fn unit_component(c: i64, n: u128) -> (r: i64)
    requires
        ONE <= n < 0x1_0000_0000_0000_0000,
    ensures
        r == unit_part(c as int, n as int),
{
    let cc = clamp(c);
    crate::fixed::clamp_wide(crate::fixed::tdiv_wide(cc * 0x1_0000_0000, n as i128))
}

/// One component of a normalized vector: its magnitude `a` is the floor of
/// `|c| * ONE^2 / n`, and at most one whole unit.
proof fn lemma_unit_component(c: int, n: int, s: int)
    requires
        in_range(c),
        n >= ONE,
        c * c <= s,
        s * ONE * ONE < (n + 1) * (n + 1),
    ensures
        unit_part(c, n) * unit_part(c, n) == abs(unit_part(c, n)) * abs(unit_part(c, n)),
        n * abs(unit_part(c, n)) <= abs(c) * ONE * ONE < n * (abs(unit_part(c, n)) + 1),
        0 <= abs(unit_part(c, n)) <= ONE,
{
    let q = abs(c) * ONE * ONE;
    assert(q >= 0) by (nonlinear_arith)
        requires
            q == abs(c) * ONE * ONE,
            abs(c) >= 0,
    ;
    assert(abs(c * ONE * ONE) == q) by (nonlinear_arith)
        requires
            q == abs(c) * ONE * ONE,
            abs(c) == (if c < 0 { -c } else { c }),
            abs(c * ONE * ONE) == (if c * ONE * ONE < 0 { -(c * ONE * ONE) } else { c * ONE * ONE }),
    ;
    let a = q / n;
    vstd::arithmetic::div_mod::lemma_fundamental_div_mod(q, n);
    vstd::arithmetic::div_mod::lemma_div_pos_is_pos(q, n);
    assert(n * a <= q < n * (a + 1)) by (nonlinear_arith)
        requires
            q == n * a + q % n,
            0 <= q % n < n,
    ;
    lemma_abs_square(c);
    assert(q * q <= s * ONE * ONE * ONE * ONE) by (nonlinear_arith)
        requires
            q == abs(c) * ONE * ONE,
            abs(c) * abs(c) == c * c,
            c * c <= s,
    ;
    assert(q < ONE * (n + 1)) by (nonlinear_arith)
        requires
            q * q <= s * ONE * ONE * ONE * ONE,
            s * ONE * ONE < (n + 1) * (n + 1),
            q >= 0,
            n >= 0,
    ;
    assert(a <= ONE) by (nonlinear_arith)
        requires
            n * a <= q,
            q < ONE * (n + 1),
            n >= ONE,
    ;
    assert(abs(tdiv(c * ONE * ONE, n)) == a);
    lemma_abs_square(unit_part(c, n));
}

/// Normalizing a non-zero vector leaves its length within four raw steps
/// below one whole unit.
pub proof fn lemma_normalize_unit(v: Vec3)
    requires
        !is_zero(v),
    ensures
        ONE - 4 <= vnorm(vnormalize(v)) <= ONE,
{
    let cx = sat(v.x as int);
    let cy = sat(v.y as int);
    let cz = sat(v.z as int);
    let s = dot_raw(v, v);
    assert(s >= 1) by (nonlinear_arith)
        requires
            s == cx * cx + cy * cy + cz * cz,
            cx != 0 || cy != 0 || cz != 0,
    ;
    assert(s * ONE * ONE >= 0) by (nonlinear_arith)
        requires
            s >= 1,
    ;
    crate::fixed::lemma_root_exists(s * ONE * ONE);
    let n = fine_norm(v);
    assert(n >= ONE) by (nonlinear_arith)
        requires
            s * ONE * ONE < (n + 1) * (n + 1),
            s >= 1,
            n >= 0,
    ;
    assert(cx * cx <= s && cy * cy <= s && cz * cz <= s) by (nonlinear_arith)
        requires
            s == cx * cx + cy * cy + cz * cz,
    ;
    lemma_unit_component(cx, n, s);
    lemma_unit_component(cy, n, s);
    lemma_unit_component(cz, n, s);
    let r = vnormalize(v);
    let ax = abs(unit_part(cx, n));
    let ay = abs(unit_part(cy, n));
    let az = abs(unit_part(cz, n));
    assert(unit_part(v.x as int, n) == unit_part(cx, n));
    assert(unit_part(v.y as int, n) == unit_part(cy, n));
    assert(unit_part(v.z as int, n) == unit_part(cz, n));
    let rr = dot_raw(r, r);
    assert(rr == ax * ax + ay * ay + az * az);
    let qx = abs(cx) * ONE * ONE;
    let qy = abs(cy) * ONE * ONE;
    let qz = abs(cz) * ONE * ONE;
    lemma_abs_square(cx);
    lemma_abs_square(cy);
    lemma_abs_square(cz);
    assert(qx * qx + qy * qy + qz * qz == s * ONE * ONE * ONE * ONE) by (nonlinear_arith)
        requires
            qx == abs(cx) * ONE * ONE,
            qy == abs(cy) * ONE * ONE,
            qz == abs(cz) * ONE * ONE,
            abs(cx) * abs(cx) == cx * cx,
            abs(cy) * abs(cy) == cy * cy,
            abs(cz) * abs(cz) == cz * cz,
            s == cx * cx + cy * cy + cz * cz,
    ;
    let nn = n * n;
    let big = s * ONE * ONE * ONE * ONE;
    // Above: n^2 rr <= ONE^4 s < ONE^2 (n + 1)^2 <= n^2 (ONE + 1)^2.
    lemma_square_le(n * ax, qx);
    lemma_square_le(n * ay, qy);
    lemma_square_le(n * az, qz);
    lemma_square_product(n, ax);
    lemma_square_product(n, ay);
    lemma_square_product(n, az);
    assert(nn * rr == nn * (ax * ax) + nn * (ay * ay) + nn * (az * az)) by (nonlinear_arith)
        requires
            rr == ax * ax + ay * ay + az * az,
    ;
    assert(nn * rr <= big);
    assert(big == (ONE * ONE) * (s * ONE * ONE)) by (nonlinear_arith)
        requires
            big == s * ONE * ONE * ONE * ONE,
    ;
    assert((ONE * ONE) * (s * ONE * ONE) < (ONE * ONE) * ((n + 1) * (n + 1))) by (nonlinear_arith)
        requires
            s * ONE * ONE < (n + 1) * (n + 1),
    ;
    lemma_square_le(ONE * (n + 1), n * (ONE + 1));
    lemma_square_product(ONE as int, n + 1);
    lemma_square_product(n, ONE + 1);
    assert(nn * rr < nn * ((ONE + 1) * (ONE + 1)));
    assert(rr < (ONE + 1) * (ONE + 1)) by (nonlinear_arith)
        requires
            nn * rr < nn * ((ONE + 1) * (ONE + 1)),
            nn > 0,
    ;
    // Below: ONE^2 n^2 <= ONE^4 s < n^2 ((ax + 1)^2 + (ay + 1)^2 + (az + 1)^2).
    lemma_square_lt(qx, n * (ax + 1));
    lemma_square_lt(qy, n * (ay + 1));
    lemma_square_lt(qz, n * (az + 1));
    lemma_square_product(n, ax + 1);
    lemma_square_product(n, ay + 1);
    lemma_square_product(n, az + 1);
    let t = (ax + 1) * (ax + 1) + (ay + 1) * (ay + 1) + (az + 1) * (az + 1);
    assert(nn * t == nn * ((ax + 1) * (ax + 1)) + nn * ((ay + 1) * (ay + 1)) + nn * ((az + 1) * (az + 1)))
        by (nonlinear_arith)
        requires
            t == (ax + 1) * (ax + 1) + (ay + 1) * (ay + 1) + (az + 1) * (az + 1),
    ;
    assert(big < nn * t);
    assert((ONE * ONE) * nn <= big) by (nonlinear_arith)
        requires
            nn <= s * ONE * ONE,
            big == (ONE * ONE) * (s * ONE * ONE),
    ;
    assert(ONE * ONE < t) by (nonlinear_arith)
        requires
            (ONE * ONE) * nn < nn * t,
            nn > 0,
    ;
    assert((ONE - 4) * (ONE - 4) <= rr) by (nonlinear_arith)
        requires
            ONE * ONE < t,
            t == (ax + 1) * (ax + 1) + (ay + 1) * (ay + 1) + (az + 1) * (az + 1),
            rr == ax * ax + ay * ay + az * az,
            0 <= ax <= ONE,
            0 <= ay <= ONE,
            0 <= az <= ONE,
    ;
    assert(rr >= 0);
    crate::fixed::lemma_root_exists(rr);
    let k = isqrt(rr);
    assert(ONE - 4 <= k <= ONE) by (nonlinear_arith)
        requires
            k * k <= rr < (k + 1) * (k + 1),
            k >= 0,
            (ONE - 4) * (ONE - 4) <= rr,
            rr < (ONE + 1) * (ONE + 1),
    ;
}

fn clamp(a: i64) -> (r: i128)
    ensures
        r == sat(a as int),
{
    if a > LIMIT {
        LIMIT as i128
    } else if a < -LIMIT {
        -(LIMIT as i128)
    } else {
        a as i128
    }
}

proof fn lemma_small_product(a: int, b: int)
    requires
        in_range(a),
        in_range(b),
    ensures
        -0x1_0000_0000_0000_0000_0000 <= a * b <= 0x1_0000_0000_0000_0000_0000,
{
    assert(-0x1_0000_0000_0000_0000_0000 <= a * b <= 0x1_0000_0000_0000_0000_0000)
        by (nonlinear_arith)
        requires
            -0x100_0000_0000 <= a <= 0x100_0000_0000,
            -0x100_0000_0000 <= b <= 0x100_0000_0000,
    ;
}

} // verus!
