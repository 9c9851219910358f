//! Fixed-point scalars.
//!
//! A real number is carried as an `i64` count of `1 / ONE` steps (16 fractional
//! bits). Every operation computes its mathematical result on wide integers,
//! rounds a quotient toward zero, and saturates to `[-LIMIT, LIMIT]`, so no
//! operation overflows and every result is pinned down by a spec function.
use vstd::prelude::*;

verus! {

/// Raw units in one whole unit.
pub const ONE: i64 = 65536;

/// One half, in raw units.
pub const HALF: i64 = 32768;

/// Magnitude at which every operation saturates (2^24 whole units).
pub const LIMIT: i64 = 1099511627776;

pub open spec fn abs(x: int) -> int {
    if x < 0 {
        -x
    } else {
        x
    }
}

/// Clamps a mathematical result into the representable range.
pub open spec fn sat(x: int) -> int {
    if x > LIMIT {
        LIMIT as int
    } else if x < -LIMIT {
        -LIMIT
    } else {
        x
    }
}

/// Integer division that rounds toward zero.
pub open spec fn tdiv(a: int, b: int) -> int {
    if (a < 0) == (b < 0) {
        abs(a) / abs(b)
    } else {
        -(abs(a) / abs(b))
    }
}

/// A value that no saturating operation has clipped.
pub open spec fn in_range(x: int) -> bool {
    -LIMIT <= x <= LIMIT
}

pub open spec fn sadd(a: int, b: int) -> int {
    sat(a + b)
}

pub open spec fn ssub(a: int, b: int) -> int {
    sat(a - b)
}

pub open spec fn sneg(a: int) -> int {
    sat(-a)
}

/// Product of two fixed-point values.
pub open spec fn smul(a: int, b: int) -> int {
    sat(tdiv(a * b, ONE as int))
}

/// Quotient of two fixed-point values.
pub open spec fn sdiv(a: int, b: int) -> int {
    sat(tdiv(a * ONE, b))
}

/// `r` is the integer square root of `n`.
pub open spec fn is_root(n: int, r: int) -> bool {
    0 <= r && r * r <= n < (r + 1) * (r + 1)
}

/// The integer square root of a non-negative integer.
pub open spec fn isqrt(n: int) -> int {
    choose|r: int| is_root(n, r)
}

/// Square root of a non-negative fixed-point value.
pub open spec fn ssqrt(a: int) -> int {
    sat(isqrt(a * ONE))
}

pub open spec fn smin(a: int, b: int) -> int {
    if a <= b {
        a
    } else {
        b
    }
}

pub proof fn lemma_isqrt_unique(n: int, r: int)
    requires
        is_root(n, r),
    ensures
        isqrt(n) == r,
{
    let c = isqrt(n);
    assert(is_root(n, c));
    if c < r {
        assert((c + 1) * (c + 1) <= r * r) by (nonlinear_arith)
            requires
                0 <= c + 1 <= r,
        ;
    } else if r < c {
        assert((r + 1) * (r + 1) <= c * c) by (nonlinear_arith)
            requires
                0 <= r + 1 <= c,
        ;
    }
}

/// Every non-negative integer has an integer square root.
pub proof fn lemma_root_exists(n: int)
    requires
        n >= 0,
    ensures
        is_root(n, isqrt(n)),
        isqrt(n) >= 0,
    decreases n,
{
    if n == 0 {
        assert(is_root(0, 0));
    } else {
        lemma_root_exists(n - 1);
        let r = isqrt(n - 1);
        if (r + 1) * (r + 1) <= n {
            assert(n < (r + 2) * (r + 2)) by (nonlinear_arith)
                requires
                    n - 1 < (r + 1) * (r + 1),
                    r >= 0,
            ;
            assert(is_root(n, r + 1));
        } else {
            assert(is_root(n, r));
        }
    }
}

/// Rounding toward zero keeps the order of numerators over a positive divisor.
pub proof fn lemma_tdiv_monotone(a: int, b: int, d: int)
    requires
        a <= b,
        d > 0,
    ensures
        tdiv(a, d) <= tdiv(b, d),
{
    if a >= 0 {
        vstd::arithmetic::div_mod::lemma_div_is_ordered(a, b, d);
    } else if b >= 0 {
        vstd::arithmetic::div_mod::lemma_div_pos_is_pos(-a, d);
        vstd::arithmetic::div_mod::lemma_div_pos_is_pos(b, d);
    } else {
        vstd::arithmetic::div_mod::lemma_div_is_ordered(-b, -a, d);
    }
}

/// A fixed-point quotient by a positive divisor keeps the order of numerators.
pub proof fn lemma_sdiv_monotone(a: int, b: int, d: int)
    requires
        a <= b,
        d > 0,
    ensures
        sdiv(a, d) <= sdiv(b, d),
{
    assert(a * ONE <= b * ONE) by (nonlinear_arith)
        requires
            a <= b,
    ;
    lemma_tdiv_monotone(a * ONE, b * ONE, d);
}

/// A quotient rounded toward zero never exceeds the numerator in magnitude.
pub proof fn lemma_tdiv_bounded(a: int, d: int)
    requires
        d != 0,
    ensures
        abs(tdiv(a, d)) <= abs(a),
        a >= 0 && d > 0 ==> tdiv(a, d) >= 0,
{
    vstd::arithmetic::div_mod::lemma_div_is_ordered_by_denominator(abs(a), 1, abs(d));
    vstd::arithmetic::div_mod::lemma_div_pos_is_pos(abs(a), abs(d));
}

pub fn clamp_wide(x: i128) -> (r: i64)
    ensures
        r == sat(x as int),
{
    if x > LIMIT as i128 {
        LIMIT
    } else if x < -(LIMIT as i128) {
        -LIMIT
    } else {
        x as i64
    }
}

pub fn tdiv_wide(a: i128, b: i128) -> (r: i128)
    requires
        b != 0,
        a > i128::MIN,
        b > i128::MIN,
    ensures
        r == tdiv(a as int, b as int),
{
    let ua: i128 = if a < 0 {
        -a
    } else {
        a
    };
    let ub: i128 = if b < 0 {
        -b
    } else {
        b
    };
    let q: i128 = ua / ub;
    proof {
        lemma_tdiv_bounded(a as int, b as int);
    }
    if (a < 0) == (b < 0) {
        q
    } else {
        -q
    }
}

pub fn fx_add(a: i64, b: i64) -> (r: i64)
    ensures
        r == sadd(a as int, b as int),
{
    clamp_wide(a as i128 + b as i128)
}

pub fn fx_sub(a: i64, b: i64) -> (r: i64)
    ensures
        r == ssub(a as int, b as int),
{
    clamp_wide(a as i128 - b as i128)
}

pub fn fx_neg(a: i64) -> (r: i64)
    ensures
        r == sneg(a as int),
{
    clamp_wide(-(a as i128))
}

pub fn fx_mul(a: i64, b: i64) -> (r: i64)
    ensures
        r == smul(a as int, b as int),
{
    assert(-0x4000_0000_0000_0000_0000_0000_0000_0000 <= a as int * b as int
        <= 0x4000_0000_0000_0000_0000_0000_0000_0000) by (nonlinear_arith)
        requires
            -0x8000_0000_0000_0000 <= a <= 0x7fff_ffff_ffff_ffff,
            -0x8000_0000_0000_0000 <= b <= 0x7fff_ffff_ffff_ffff,
    ;
    let p: i128 = a as i128 * b as i128;
    clamp_wide(tdiv_wide(p, ONE as i128))
}

pub fn fx_div(a: i64, b: i64) -> (r: i64)
    requires
        b != 0,
    ensures
        r == sdiv(a as int, b as int),
{
    assert(-0x8000_0000_0000_0000_0000_0000 <= a as int * ONE <= 0x8000_0000_0000_0000_0000_0000)
        by (nonlinear_arith)
        requires
            -0x8000_0000_0000_0000 <= a <= 0x7fff_ffff_ffff_ffff,
    ;
    let p: i128 = a as i128 * (ONE as i128);
    clamp_wide(tdiv_wide(p, b as i128))
}

pub fn fx_min(a: i64, b: i64) -> (r: i64)
    ensures
        r == smin(a as int, b as int),
{
    if a <= b {
        a
    } else {
        b
    }
}

/// Integer square root by bisection.
pub fn isqrt_wide(n: u128) -> (r: u128)
    ensures
        is_root(n as int, r as int),
        r < 0x1_0000_0000_0000_0000,
{
    let mut lo: u128 = 0;
    let mut hi: u128 = 0x1_0000_0000_0000_0000;
    assert(hi * hi == 0x1_0000_0000_0000_0000_0000_0000_0000_0000) by (nonlinear_arith)
        requires
            hi == 0x1_0000_0000_0000_0000u128,
    ;
    while hi - lo > 1
        invariant
            lo < hi <= 0x1_0000_0000_0000_0000,
            lo * lo <= n,
            n < hi * hi,
        decreases hi - lo,
    {
        let mid: u128 = lo + (hi - lo) / 2;
        assert(mid * mid < 0x1_0000_0000_0000_0000_0000_0000_0000_0000) by (nonlinear_arith)
            requires
                mid < 0x1_0000_0000_0000_0000,
        ;
        if mid * mid <= n {
            lo = mid;
        } else {
            hi = mid;
        }
    }
    lo
}

pub fn fx_sqrt(a: i64) -> (r: i64)
    requires
        a >= 0,
    ensures
        r == ssqrt(a as int),
        r >= 0,
{
    assert(a as int * ONE <= 0x8000_0000_0000_0000_0000_0000) by (nonlinear_arith)
        requires
            0 <= a <= 0x7fff_ffff_ffff_ffff,
    ;
    let n: u128 = a as u128 * (ONE as u128);
    let s = isqrt_wide(n);
    proof {
        lemma_isqrt_unique(n as int, s as int);
    }
    clamp_wide(s as i128)
}

} // verus!
