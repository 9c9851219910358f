//! Wavefront OBJ meshes: `v x y z` lines give vertices, `f a b c` lines give
//! triangles by 1-based vertex index (anything after a `/` in an index is
//! ignored, as are extra indices and all other lines).
//!
//! Coordinates are decimals `[+-]digits[.digits][(e|E)[+-]digits]` (at least
//! one mantissa digit). Digits past the sixth decimal are below the
//! fixed-point step and are ignored; the value is truncated to fixed point and
//! saturates like every other value.
use vstd::prelude::*;
use crate::fixed::{clamp_wide, sat, tdiv, LIMIT, ONE};
use crate::material::Material;
use crate::shapes::Triangle;
use crate::vector::{vadd, Vec3};

verus! {

/// Why a mesh could not be read.
#[derive(Debug, Clone, Copy, PartialEq, Eq, Structural)]
pub enum MeshError {
    /// A `v` or `f` line has fewer than three values.
    NotEnoughElements,
    /// A value is not a decimal (for `v`) or an index (for `f`).
    InvalidNumber,
    /// A face names a vertex that has not been given before it.
    VertexNotFound,
}

pub open spec fn is_space(b: u8) -> bool {
    b == 32 || b == 9 || b == 13
}

pub open spec fn is_digit(b: u8) -> bool {
    48 <= b <= 57
}

/// The number that a run of decimal digits spells.
pub open spec fn digits_value(t: Seq<u8>) -> int
    decreases t.len(),
{
    if t.len() == 0 {
        0
    } else {
        digits_value(t.drop_last()) * 10 + (t.last() - 48)
    }
}

pub open spec fn pow10(n: nat) -> int
    decreases n,
{
    if n == 0 {
        1
    } else {
        10 * pow10((n - 1) as nat)
    }
}

/// First position at or after `k` where `t` has no digit.
pub open spec fn digits_end(t: Seq<u8>, k: int) -> int
    decreases t.len() - k,
{
    if 0 <= k < t.len() && is_digit(t[k]) {
        digits_end(t, k + 1)
    } else {
        k
    }
}

/// The first six decimals of a fraction, as millionths.
pub open spec fn micros(f: Seq<u8>) -> int {
    if f.len() >= 6 {
        digits_value(f.take(6))
    } else {
        digits_value(f) * pow10((6 - f.len()) as nat)
    }
}

/// The integer digits of the mantissa digits `m` once the decimal point
/// stands after position `p`: zeros pad them on the right.
pub open spec fn int_digits_at(m: Seq<u8>, p: int) -> Seq<u8> {
    Seq::new(
        (if p > 0 {
            p
        } else {
            0
        }) as nat,
        |j: int|
            if j < m.len() {
                m[j]
            } else {
                48u8
            },
    )
}

/// The fraction digits of `m` once the decimal point stands after position
/// `p`: zeros pad them on the left.
pub open spec fn frac_digits_at(m: Seq<u8>, p: int) -> Seq<u8> {
    Seq::new(
        (if p < m.len() {
            m.len() - p
        } else {
            0
        }) as nat,
        |k: int|
            if p + k < 0 {
                48u8
            } else {
                m[p + k]
            },
    )
}

/// The value of the mantissa digits `m` with the point after position `p`.
pub open spec fn shifted_magnitude(m: Seq<u8>, p: int) -> int {
    digits_value(int_digits_at(m, p)) * ONE + tdiv(micros(frac_digits_at(m, p)) * ONE, 1000000)
}

/// The fixed-point value of a decimal token, if it is one: an optional sign,
/// digits with an optional point (at least one digit), and an optional
/// exponent `e` or `E` with an optional sign and at least one digit, which
/// moves the point.
pub open spec fn decimal(t: Seq<u8>) -> Option<int> {
    let l = layout(t);
    if !l.complete(t) {
        None
    } else {
        let e0 = if l.has_exp {
            digits_value(t.subrange(l.ds, l.de))
        } else {
            0
        };
        let ev = if l.exp_neg {
            -e0
        } else {
            e0
        };
        let mag = shifted_magnitude(t.subrange(l.sl, l.ie) + t.subrange(l.fs, l.fe), (l.ie - l.sl) + ev);
        Some(
            sat(
                if l.neg {
                    -mag
                } else {
                    mag
                },
            ),
        )
    }
}

/// Where the parts of a decimal token lie: the mantissa's integer digits
/// `[sl, ie)` and fraction digits `[fs, fe)`, the exponent digits `[ds, de)`.
pub struct Layout {
    pub neg: bool,
    pub sl: int,
    pub ie: int,
    pub fs: int,
    pub fe: int,
    pub has_exp: bool,
    pub exp_neg: bool,
    pub ds: int,
    pub de: int,
}

impl Layout {
    /// The parts cover the token, and the mantissa and any exponent have digits.
    pub open spec fn complete(&self, t: Seq<u8>) -> bool {
        &&& (if self.has_exp {
            self.de
        } else {
            self.fe
        }) == t.len()
        &&& !(self.ie == self.sl && self.fe == self.fs)
        &&& !(self.has_exp && self.de == self.ds)
    }
}

/// The layout of a token read as `[+-]digits[.digits][(e|E)[+-]digits]`.
#[verifier::opaque]
pub open spec fn layout(t: Seq<u8>) -> Layout {
    let signed = t.len() > 0 && (t[0] == 45 || t[0] == 43);
    let sl: int = if signed {
        1
    } else {
        0
    };
    let ie = digits_end(t, sl);
    let has_dot = ie < t.len() && t[ie] == 46;
    let fs = if has_dot {
        ie + 1
    } else {
        ie
    };
    let fe = digits_end(t, fs);
    let has_exp = fe < t.len() && (t[fe] == 101 || t[fe] == 69);
    let es = fe + 1;
    let exp_signed = has_exp && es < t.len() && (t[es] == 45 || t[es] == 43);
    let ds = if exp_signed {
        es + 1
    } else if has_exp {
        es
    } else {
        fe
    };
    Layout {
        neg: signed && t[0] == 45,
        sl,
        ie,
        fs,
        fe,
        has_exp,
        exp_neg: exp_signed && t[es] == 45,
        ds,
        de: digits_end(t, ds),
    }
}

/// The vertex index at the start of a face token (up to a `/`), if it is one.
pub open spec fn index_value(t: Seq<u8>) -> Option<int> {
    let e = digits_end(t, 0);
    if e == 0 || (e < t.len() && t[e] != 47) {
        None
    } else {
        Some(digits_value(t.take(e)))
    }
}

/// First position at or after `i` (and before `end`) that is not a space.
pub open spec fn skip_spaces(s: Seq<u8>, i: int, end: int) -> int
    decreases end - i,
{
    if i < end && is_space(s[i]) {
        skip_spaces(s, i + 1, end)
    } else {
        i
    }
}

/// End of the token that starts at `i`.
pub open spec fn token_end(s: Seq<u8>, i: int, end: int) -> int
    decreases end - i,
{
    if i < end && !is_space(s[i]) {
        token_end(s, i + 1, end)
    } else {
        i
    }
}

/// Length of the line starting at `i`, up to its line break or the end.
pub open spec fn line_len(s: Seq<u8>, i: int) -> nat
    decreases s.len() - i,
{
    if 0 <= i < s.len() && s[i] != 10 {
        1 + line_len(s, i + 1)
    } else {
        0
    }
}

/// Position of the line break that ends the line starting at `i`, or the end.
pub open spec fn line_end(s: Seq<u8>, i: int) -> int {
    if i + line_len(s, i) <= s.len() {
        i + line_len(s, i)
    } else {
        s.len() as int
    }
}

/// Bounds of the next token after `i` within a line ending at `end`.
pub open spec fn next_token(s: Seq<u8>, i: int, end: int) -> (int, int) {
    let a = skip_spaces(s, i, end);
    (a, token_end(s, a, end))
}

/// What one line says.
pub enum Entry {
    Vertex(Vec3),
    Face(int, int, int),
    Other,
}

/// The values after a `v`: three decimals.
pub open spec fn vertex_entry(s: Seq<u8>, i: int, end: int) -> Result<Entry, MeshError> {
    let (a1, b1) = next_token(s, i, end);
    let (a2, b2) = next_token(s, b1, end);
    let (a3, b3) = next_token(s, b2, end);
    if a1 == b1 {
        Err(MeshError::NotEnoughElements)
    } else if decimal(s.subrange(a1, b1)) is None {
        Err(MeshError::InvalidNumber)
    } else if a2 == b2 {
        Err(MeshError::NotEnoughElements)
    } else if decimal(s.subrange(a2, b2)) is None {
        Err(MeshError::InvalidNumber)
    } else if a3 == b3 {
        Err(MeshError::NotEnoughElements)
    } else if decimal(s.subrange(a3, b3)) is None {
        Err(MeshError::InvalidNumber)
    } else {
        Ok(
            Entry::Vertex(
                Vec3 {
                    x: decimal(s.subrange(a1, b1))->Some_0 as i64,
                    y: decimal(s.subrange(a2, b2))->Some_0 as i64,
                    z: decimal(s.subrange(a3, b3))->Some_0 as i64,
                },
            ),
        )
    }
}

/// The values after an `f`: three indices.
pub open spec fn face_entry(s: Seq<u8>, i: int, end: int) -> Result<Entry, MeshError> {
    let (a1, b1) = next_token(s, i, end);
    let (a2, b2) = next_token(s, b1, end);
    let (a3, b3) = next_token(s, b2, end);
    if a1 == b1 {
        Err(MeshError::NotEnoughElements)
    } else if index_value(s.subrange(a1, b1)) is None {
        Err(MeshError::InvalidNumber)
    } else if a2 == b2 {
        Err(MeshError::NotEnoughElements)
    } else if index_value(s.subrange(a2, b2)) is None {
        Err(MeshError::InvalidNumber)
    } else if a3 == b3 {
        Err(MeshError::NotEnoughElements)
    } else if index_value(s.subrange(a3, b3)) is None {
        Err(MeshError::InvalidNumber)
    } else {
        Ok(
            Entry::Face(
                index_value(s.subrange(a1, b1))->Some_0,
                index_value(s.subrange(a2, b2))->Some_0,
                index_value(s.subrange(a3, b3))->Some_0,
            ),
        )
    }
}

/// The line `s[i..end]`, read by its first token.
pub open spec fn line_entry(s: Seq<u8>, i: int, end: int) -> Result<Entry, MeshError> {
    let (a, b) = next_token(s, i, end);
    if s.subrange(a, b) == seq![118u8] {
        vertex_entry(s, b, end)
    } else if s.subrange(a, b) == seq![102u8] {
        face_entry(s, b, end)
    } else {
        Ok(Entry::Other)
    }
}

pub open spec fn names_vertex(k: int, verts: Seq<Vec3>) -> bool {
    1 <= k <= verts.len()
}

/// The triangles of the mesh from position `i` on, given the vertices and
/// triangles read before it.
pub open spec fn mesh_from(
    s: Seq<u8>,
    i: int,
    verts: Seq<Vec3>,
    tris: Seq<Triangle>,
    pos: Vec3,
    material: Material,
) -> Result<Seq<Triangle>, MeshError>
    decreases s.len() + 1 - i,
{
    if i < 0 || i >= s.len() {
        Ok(tris)
    } else {
        let e = line_end(s, i);
        match line_entry(s, i, e) {
            Err(err) => Err(err),
            Ok(Entry::Other) => mesh_from(s, e + 1, verts, tris, pos, material),
            Ok(Entry::Vertex(p)) => mesh_from(s, e + 1, verts.push(p), tris, pos, material),
            Ok(Entry::Face(a, b, c)) => if names_vertex(a, verts) && names_vertex(b, verts) && names_vertex(
                c,
                verts,
            ) {
                let t = Triangle {
                    v0: vadd(verts[a - 1], pos),
                    v1: vadd(verts[b - 1], pos),
                    v2: vadd(verts[c - 1], pos),
                    material,
                };
                mesh_from(s, e + 1, verts, tris.push(t), pos, material)
            } else {
                Err(MeshError::VertexNotFound)
            },
        }
    }
}

/// The triangles of the mesh text `s`, moved by `pos`, all of `material`.
pub open spec fn mesh(s: Seq<u8>, pos: Vec3, material: Material) -> Result<Seq<Triangle>, MeshError> {
    mesh_from(s, 0, Seq::empty(), Seq::empty(), pos, material)
}

/// Bound at which digit runs stop growing: larger than any vertex count, and
/// far past the saturation bound as a coordinate.
pub const DIGITS_CAP: u128 = 0x1_0000_0000_0000_0000;

pub open spec fn capped(v: int) -> int {
    if v < DIGITS_CAP {
        v
    } else {
        DIGITS_CAP as int
    }
}

pub open spec fn all_digits(t: Seq<u8>) -> bool {
    forall|k: int| 0 <= k < t.len() ==> is_digit(#[trigger] t[k])
}

proof fn lemma_digits_value_bounds(t: Seq<u8>)
    requires
        all_digits(t),
    ensures
        0 <= digits_value(t) < pow10(t.len()),
    decreases t.len(),
{
    if t.len() > 0 {
        let u = t.drop_last();
        assert(all_digits(u)) by {
            assert forall|k: int| 0 <= k < u.len() implies is_digit(#[trigger] u[k]) by {
                assert(u[k] == t[k]);
            }
        }
        lemma_digits_value_bounds(u);
        assert(is_digit(t[t.len() - 1]));
    }
}

/// Reads the digits `s[a..b]`, capping the value at `DIGITS_CAP`.
fn digit_run(s: &[u8], a: usize, b: usize) -> (r: u128)
    requires
        a <= b <= s@.len(),
        all_digits(s@.subrange(a as int, b as int)),
    ensures
        r == capped(digits_value(s@.subrange(a as int, b as int))),
{
    let mut acc: u128 = 0;
    let mut k: usize = a;
    while k < b
        invariant
            a <= k <= b <= s@.len(),
            all_digits(s@.subrange(a as int, b as int)),
            acc == capped(digits_value(s@.subrange(a as int, k as int))),
        decreases b - k,
    {
        let ghost t = s@.subrange(a as int, k as int + 1);
        assert(t.drop_last() =~= s@.subrange(a as int, k as int));
        assert(s@.subrange(a as int, b as int)[k - a] == s[k as int]);
        let d = (s[k] - 48) as u128;
        proof {
            assert forall|j: int| 0 <= j < k - a implies is_digit(
                #[trigger] s@.subrange(a as int, k as int)[j],
            ) by {
                assert(s@.subrange(a as int, k as int)[j] == s@.subrange(a as int, b as int)[j]);
            }
            lemma_digits_value_bounds(s@.subrange(a as int, k as int));
        }
        let next = acc * 10 + d;
        acc = if next < DIGITS_CAP {
            next
        } else {
            DIGITS_CAP
        };
        k += 1;
    }
    acc
}

fn skip_spaces_at(s: &[u8], i: usize, end: usize) -> (r: usize)
    requires
        i <= end <= s@.len(),
    ensures
        r == skip_spaces(s@, i as int, end as int),
        i <= r <= end,
{
    let mut k = i;
    while k < end && (s[k] == 32 || s[k] == 9 || s[k] == 13)
        invariant
            i <= k <= end <= s@.len(),
            skip_spaces(s@, k as int, end as int) == skip_spaces(s@, i as int, end as int),
        decreases end - k,
    {
        k += 1;
    }
    k
}

fn token_end_at(s: &[u8], i: usize, end: usize) -> (r: usize)
    requires
        i <= end <= s@.len(),
    ensures
        r == token_end(s@, i as int, end as int),
        i <= r <= end,
{
    let mut k = i;
    while k < end && !(s[k] == 32 || s[k] == 9 || s[k] == 13)
        invariant
            i <= k <= end <= s@.len(),
            token_end(s@, k as int, end as int) == token_end(s@, i as int, end as int),
        decreases end - k,
    {
        k += 1;
    }
    k
}

fn next_token_at(s: &[u8], i: usize, end: usize) -> (r: (usize, usize))
    requires
        i <= end <= s@.len(),
    ensures
        (r.0 as int, r.1 as int) == next_token(s@, i as int, end as int),
        i <= r.0 <= r.1 <= end,
{
    let a = skip_spaces_at(s, i, end);
    (a, token_end_at(s, a, end))
}

fn line_end_at(s: &[u8], i: usize) -> (r: usize)
    requires
        i < s@.len(),
    ensures
        r == line_end(s@, i as int),
        i <= r <= s@.len(),
{
    let mut k = i;
    while k < s.len() && s[k] != 10
        invariant
            i <= k <= s@.len(),
            i + line_len(s@, i as int) == k + line_len(s@, k as int),
        decreases s@.len() - k,
    {
        k += 1;
    }
    k
}

/// First position at or after `k` in `s[a..b]` without a digit, as an index of `s`.
fn digits_end_at(s: &[u8], a: usize, b: usize, k: usize) -> (r: usize)
    requires
        a <= k <= b <= s@.len(),
    ensures
        r - a == digits_end(s@.subrange(a as int, b as int), k - a),
        k <= r <= b,
        all_digits(s@.subrange(k as int, r as int)),
{
    let ghost t = s@.subrange(a as int, b as int);
    let mut j = k;
    while j < b && s[j] >= 48 && s[j] <= 57
        invariant
            a <= k <= j <= b <= s@.len(),
            t == s@.subrange(a as int, b as int),
            digits_end(t, j - a) == digits_end(t, k - a),
            all_digits(s@.subrange(k as int, j as int)),
        decreases b - j,
    {
        assert(t[j - a] == s[j as int]);
        proof {
            assert forall|m: int| 0 <= m < j + 1 - k implies is_digit(
                #[trigger] s@.subrange(k as int, j + 1)[m],
            ) by {
                if m < j - k {
                    assert(s@.subrange(k as int, j + 1)[m] == s@.subrange(k as int, j as int)[m]);
                }
            }
        }
        j += 1;
    }
    if j < b {
        assert(t[j - a] == s[j as int]);
    }
    j
}

proof fn lemma_pow10_small(n: nat)
    requires
        n <= 6,
    ensures
        pow10(n) <= 1000000,
        n <= 5 ==> pow10(n) <= 100000,
        pow10(0) == 1,
        pow10(6) == 1000000,
{
    reveal_with_fuel(pow10, 7);
}

/// The first six decimals of the digits `s[a..b]`, as millionths.
fn micros_of(s: &[u8], a: usize, b: usize) -> (r: u64)
    requires
        a <= b <= s@.len(),
        all_digits(s@.subrange(a as int, b as int)),
    ensures
        r == micros(s@.subrange(a as int, b as int)),
        r < 1000000,
{
    let ghost f = s@.subrange(a as int, b as int);
    let mut acc: u64 = 0;
    let mut count: usize = 0;
    let mut k = a;
    while k < b
        invariant
            a <= k <= b <= s@.len(),
            f == s@.subrange(a as int, b as int),
            all_digits(f),
            count == (if k - a < 6 { k - a } else { 6 }),
            acc == digits_value(f.take(count as int)),
            acc < pow10(count as nat),
        decreases b - k,
    {
        if count < 6 {
            proof {
                lemma_pow10_small(count as nat);
            }
            assert(f.take(count + 1).drop_last() =~= f.take(count as int));
            assert(f[count as int] == s[k as int]);
            assert(pow10((count + 1) as nat) == 10 * pow10(count as nat));
            acc = acc * 10 + (s[k] - 48) as u64;
            count += 1;
        }
        k += 1;
    }
    let ghost n = count;
    assert(f.take(n as int) =~= (if f.len() >= 6 { f.take(6) } else { f }));
    proof {
        lemma_pow10_small(0);
        let dv = digits_value(f.take(n as int));
        assert(dv * pow10(0) == dv);
        assert(((count - n) as nat) == 0);
    }
    while count < 6
        invariant
            n <= count <= 6,
            n == (if f.len() < 6 { f.len() } else { 6 }),
            acc == digits_value(f.take(n as int)) * pow10((count - n) as nat),
            acc < pow10(count as nat),
        decreases 6 - count,
    {
        assert(pow10((count + 1 - n) as nat) == 10 * pow10((count - n) as nat));
        assert(pow10((count + 1) as nat) == 10 * pow10(count as nat));
        proof {
            lemma_pow10_small(count as nat);
            let dv = digits_value(f.take(n as int));
            let p = pow10((count - n) as nat);
            assert(dv * p * 10 == dv * (10 * p)) by (nonlinear_arith);
        }
        acc = acc * 10;
        count += 1;
    }
    proof {
        lemma_pow10_small(6);
        lemma_pow10_small(0);
        let dv = digits_value(f.take(n as int));
        assert(dv * pow10(0) == dv);
        if f.len() < 6 {
            assert(f.take(n as int) =~= f);
        }
    }
    acc
}

/// Capping a huge integer part leaves the saturated value unchanged.
proof fn lemma_cap_saturates(v: int, f: int, neg: bool)
    requires
        v >= 0,
        f >= 0,
    ensures
        sat(if neg { -(v * ONE + f) } else { v * ONE + f }) == sat(
            if neg { -(capped(v) * ONE + f) } else { capped(v) * ONE + f },
        ),
{
    if v >= DIGITS_CAP {
        assert(v * ONE >= DIGITS_CAP * ONE) by (nonlinear_arith)
            requires
                v >= DIGITS_CAP,
        ;
    }
}

/// A run of zero digits has the value zero.
proof fn lemma_zero_digits(t: Seq<u8>)
    requires
        forall|k: int| 0 <= k < t.len() ==> #[trigger] t[k] == 48u8,
    ensures
        digits_value(t) == 0,
    decreases t.len(),
{
    if t.len() > 0 {
        let u = t.drop_last();
        assert forall|k: int| 0 <= k < u.len() implies #[trigger] u[k] == 48u8 by {
            assert(u[k] == t[k]);
        }
        lemma_zero_digits(u);
        assert(t[t.len() - 1] == 48u8);
    }
}

/// Digits that are not all zero have a value of at least one.
proof fn lemma_nonzero_digits(t: Seq<u8>, k: int)
    requires
        all_digits(t),
        0 <= k < t.len(),
        t[k] != 48u8,
    ensures
        digits_value(t) >= 1,
    decreases t.len(),
{
    let u = t.drop_last();
    assert(all_digits(u)) by {
        assert forall|j: int| 0 <= j < u.len() implies is_digit(#[trigger] u[j]) by {
            assert(u[j] == t[j]);
        }
    }
    lemma_digits_value_bounds(u);
    assert(is_digit(t[t.len() - 1]));
    if k < t.len() - 1 {
        assert(u[k] == t[k]);
        lemma_nonzero_digits(u, k);
    }
}

proof fn lemma_pow10_positive(n: nat)
    ensures
        pow10(n) >= 1,
    decreases n,
{
    if n > 0 {
        lemma_pow10_positive((n - 1) as nat);
    }
}

proof fn lemma_pow10_monotone(a: nat, b: nat)
    requires
        a <= b,
    ensures
        1 <= pow10(a) <= pow10(b),
    decreases b,
{
    lemma_pow10_positive(a);
    if a < b {
        lemma_pow10_monotone(a, (b - 1) as nat);
    }
}

/// Zeros appended to digits multiply their value by a power of ten.
proof fn lemma_append_zeros(m: Seq<u8>, p: int)
    requires
        p >= m.len(),
    ensures
        digits_value(int_digits_at(m, p)) == digits_value(m) * pow10((p - m.len()) as nat),
    decreases p - m.len(),
{
    let t = int_digits_at(m, p);
    if p == m.len() {
        assert(t =~= m);
    } else {
        assert(t.drop_last() =~= int_digits_at(m, p - 1));
        lemma_append_zeros(m, p - 1);
        let v = digits_value(m);
        let q = pow10((p - 1 - m.len()) as nat);
        assert(v * q * 10 == v * (10 * q)) by (nonlinear_arith);
    }
}

/// Nineteen digits or fewer stay below `DIGITS_CAP`.
proof fn lemma_short_digits(t: Seq<u8>)
    requires
        all_digits(t),
        t.len() <= 19,
    ensures
        digits_value(t) < DIGITS_CAP,
{
    lemma_digits_value_bounds(t);
    lemma_pow10_monotone(t.len(), 19);
    assert(pow10(19) == 10000000000000000000) by {
        reveal_with_fuel(pow10, 20);
    }
}

/// Copies `s[a..b]` onto the end of `v`.
fn append_range(v: &mut Vec<u8>, s: &[u8], a: usize, b: usize)
    requires
        a <= b <= s@.len(),
    ensures
        final(v)@ == old(v)@ + s@.subrange(a as int, b as int),
{
    let ghost start = v@;
    let mut k = a;
    while k < b
        invariant
            a <= k <= b <= s@.len(),
            v@ == start + s@.subrange(a as int, k as int),
        decreases b - k,
    {
        v.push(s[k]);
        assert(start + s@.subrange(a as int, k + 1) =~= (start + s@.subrange(a as int, k as int)).push(s[k as int]));
        k += 1;
    }
}

/// Appends `n` zero digits to `v`.
fn append_zeros(v: &mut Vec<u8>, n: usize)
    ensures
        final(v)@.len() == old(v)@.len() + n,
        forall|k: int| 0 <= k < old(v)@.len() ==> final(v)@[k] == old(v)@[k],
        forall|k: int| old(v)@.len() <= k < final(v)@.len() ==> final(v)@[k] == 48u8,
{
    let ghost start = v@;
    let mut k: usize = 0;
    while k < n
        invariant
            k <= n,
            v@.len() == start.len() + k,
            forall|j: int| 0 <= j < start.len() ==> v@[j] == start[j],
            forall|j: int| start.len() <= j < v@.len() ==> v@[j] == 48u8,
        decreases n - k,
    {
        v.push(48u8);
        k += 1;
    }
}

/// The magnitude of the mantissa digits `m` with the point after position
/// `pt` (`p` is `pt`, or lies with it in a range where the value is settled),
/// as far as saturation can tell.
fn mantissa_value(m: &Vec<u8>, p: i128, Ghost(pt): Ghost<int>) -> (r: i128)
    requires
        all_digits(m@),
        p == pt || (p <= -6 && pt <= -6) || (p >= m@.len() + 20 && pt >= m@.len() + 20),
        -0x1_0000_0000_0000_0000_0000 <= p <= 0x1_0000_0000_0000_0000_0000,
    ensures
        r >= 0,
        r <= 0x1_0000_0000_0000_0000_0000_0000,
        sat(r as int) == sat(shifted_magnitude(m@, pt)),
        sat(-r) == sat(-shifted_magnitude(m@, pt)),
{
    let ghost ms = m@;
    let mlen = m.len();
    let ghost ip = int_digits_at(ms, pt);
    let ghost fp = frac_digits_at(ms, pt);
    if p <= -6 {
        // Six leading zeros after the point: nothing is left above the step.
        proof {
            assert forall|k: int| 0 <= k < ip.len() implies #[trigger] ip[k] == 48u8 by {}
            lemma_zero_digits(ip);
            assert forall|k: int| 0 <= k < fp.take(6).len() implies #[trigger] fp.take(6)[k] == 48u8 by {}
            lemma_zero_digits(fp.take(6));
            assert(tdiv(0, 1000000) == 0);
        }
        0
    } else if p >= mlen as i128 + 20 {
        // At least twenty zeros are appended: zero, or past the saturation bound.
        let mut all_zero = true;
        let mut k: usize = 0;
        while k < mlen
            invariant
                k <= mlen == ms.len(),
                m@ == ms,
                all_zero ==> forall|j: int| 0 <= j < k ==> #[trigger] ms[j] == 48u8,
                !all_zero ==> exists|j: int| 0 <= j < k && #[trigger] ms[j] != 48u8,
            decreases mlen - k,
        {
            if m[k] != 48 {
                all_zero = false;
            }
            k += 1;
        }
        proof {
            assert(fp.len() == 0);
            assert(micros(fp) == 0);
            assert(tdiv(0, 1000000) == 0);
            if all_zero {
                assert forall|k: int| 0 <= k < ip.len() implies #[trigger] ip[k] == 48u8 by {}
                lemma_zero_digits(ip);
            } else {
                let j = choose|j: int| 0 <= j < mlen && #[trigger] ms[j] != 48u8;
                lemma_nonzero_digits(ms, j);
                lemma_append_zeros(ms, pt);
                lemma_pow10_monotone(20, (pt - ms.len()) as nat);
                assert(pow10(20) == 100000000000000000000) by {
                    reveal_with_fuel(pow10, 21);
                }
                let dv = digits_value(ms);
                let q = pow10((pt - ms.len()) as nat);
                assert(dv * q * ONE >= LIMIT) by (nonlinear_arith)
                    requires
                        dv >= 1,
                        q >= 100000000000000000000,
                ;
            }
        }
        if all_zero {
            0
        } else {
            LIMIT as i128
        }
    } else {
        let mut iv: Vec<u8> = Vec::new();
        let mut fv: Vec<u8> = Vec::new();
        if p <= 0 {
            append_zeros(&mut fv, (-p) as usize);
            append_range(&mut fv, m.as_slice(), 0, mlen);
        } else if p >= mlen as i128 {
            append_range(&mut iv, m.as_slice(), 0, mlen);
            append_zeros(&mut iv, (p - mlen as i128) as usize);
        } else {
            append_range(&mut iv, m.as_slice(), 0, p as usize);
            append_range(&mut fv, m.as_slice(), p as usize, mlen);
        }
        proof {
            assert(iv@ =~= ip);
            assert(fv@ =~= fp);
            assert(all_digits(ip)) by {
                assert forall|k: int| 0 <= k < ip.len() implies is_digit(#[trigger] ip[k]) by {
                    if k < ms.len() {
                        assert(is_digit(ms[k]));
                    }
                }
            }
            assert(all_digits(fp)) by {
                assert forall|k: int| 0 <= k < fp.len() implies is_digit(#[trigger] fp[k]) by {
                    if pt + k >= 0 {
                        assert(is_digit(ms[pt + k]));
                    }
                }
            }
            assert(iv@.subrange(0, iv@.len() as int) =~= iv@);
            assert(fv@.subrange(0, fv@.len() as int) =~= fv@);
        }
        let ipc = digit_run(iv.as_slice(), 0, iv.len());
        let mic = micros_of(fv.as_slice(), 0, fv.len());
        let frac: i128 = (mic as i128 * 65536) / 1000000;
        proof {
            lemma_digits_value_bounds(ip);
            vstd::arithmetic::div_mod::lemma_div_pos_is_pos(mic * 65536, 1000000);
            assert(tdiv(mic * ONE, 1000000) == frac);
            lemma_cap_saturates(digits_value(ip), frac as int, false);
            lemma_cap_saturates(digits_value(ip), frac as int, true);
            assert(ipc <= DIGITS_CAP);
        }
        ipc as i128 * 65536 + frac
    }
}

/// The layout of the token `s[a..b]`, as positions in `s`.
fn scan_decimal(s: &[u8], a: usize, b: usize) -> (r: (bool, usize, usize, usize, usize, bool, bool, usize, usize))
    requires
        a <= b <= s@.len(),
    ensures
        ({
            let l = layout(s@.subrange(a as int, b as int));
            let (neg, sl, ie, fs, fe, has_exp, exp_neg, ds, de) = r;
            &&& neg == l.neg && has_exp == l.has_exp && exp_neg == l.exp_neg
            &&& sl - a == l.sl && ie - a == l.ie && fs - a == l.fs && fe - a == l.fe
            &&& ds - a == l.ds && de - a == l.de
            &&& a <= sl <= ie <= fs <= fe <= b && ds <= de <= b
            &&& has_exp ==> fe < ds
            &&& all_digits(s@.subrange(sl as int, ie as int))
            &&& all_digits(s@.subrange(fs as int, fe as int))
            &&& all_digits(s@.subrange(ds as int, de as int))
        }),
{
    proof {
        reveal(layout);
    }
    let ghost t = s@.subrange(a as int, b as int);
    let signed = b > a && (s[a] == 45 || s[a] == 43);
    if b > a {
        assert(t[0] == s[a as int]);
    }
    let start = if signed {
        a + 1
    } else {
        a
    };
    let ie = digits_end_at(s, a, b, start);
    let has_dot = ie < b && s[ie] == 46;
    if ie < b {
        assert(t[ie - a] == s[ie as int]);
    }
    let fs = if has_dot {
        ie + 1
    } else {
        ie
    };
    let fe = digits_end_at(s, a, b, fs);
    let has_exp = fe < b && (s[fe] == 101 || s[fe] == 69);
    if fe < b {
        assert(t[fe - a] == s[fe as int]);
    }
    let es = if fe < b {
        fe + 1
    } else {
        fe
    };
    let exp_signed = has_exp && es < b && (s[es] == 45 || s[es] == 43);
    if has_exp && es < b {
        assert(t[es - a] == s[es as int]);
    }
    let ds = if exp_signed {
        es + 1
    } else if has_exp {
        es
    } else {
        fe
    };
    let de = digits_end_at(s, a, b, ds);
    (signed && s[a] == 45, start, ie, fs, fe, has_exp, exp_signed && s[es] == 45, ds, de)
}

/// The fixed-point value of the decimal `s[a..b]`, if it is one.
#[verifier::rlimit(100)]
#[verifier::spinoff_prover]
fn parse_decimal(s: &[u8], a: usize, b: usize) -> (r: Option<i64>)
    requires
        a <= b <= s@.len(),
    ensures
        match decimal(s@.subrange(a as int, b as int)) {
            None => r is None,
            Some(v) => r == Some(v as i64),
        },
{
    let ghost t = s@.subrange(a as int, b as int);
    let (neg, start, ie, fs, fe, has_exp, eneg, ds, de) = scan_decimal(s, a, b);
    let ghost l = layout(t);
    if !((if has_exp { de } else { fe }) == b && !(ie == start && fe == fs) && !(has_exp && de == ds)) {
        return None;
    }
    let e0: u128 = if has_exp {
        digit_run(s, ds, de)
    } else {
        0
    };
    let ghost ev0: int = if has_exp {
        digits_value(s@.subrange(ds as int, de as int))
    } else {
        0
    };
    let ghost ev: int = if eneg {
        -ev0
    } else {
        ev0
    };
    proof {
        if has_exp {
            assert(t.subrange(ds - a, de - a) =~= s@.subrange(ds as int, de as int));
            lemma_digits_value_bounds(s@.subrange(ds as int, de as int));
            if de - ds <= 19 {
                lemma_short_digits(s@.subrange(ds as int, de as int));
            }
        }
    }
    // The mantissa digits, without sign and point.
    let mut m: Vec<u8> = Vec::new();
    append_range(&mut m, s, start, ie);
    append_range(&mut m, s, fs, fe);
    let ghost ms = m@;
    proof {
        assert(t.subrange(start - a, ie - a) =~= s@.subrange(start as int, ie as int));
        assert(t.subrange(fs - a, fe - a) =~= s@.subrange(fs as int, fe as int));
        assert(all_digits(ms)) by {
            assert forall|k: int| 0 <= k < ms.len() implies is_digit(#[trigger] ms[k]) by {
                if k < ie - start {
                    assert(ms[k] == s@.subrange(start as int, ie as int)[k]);
                } else {
                    assert(ms[k] == s@.subrange(fs as int, fe as int)[k - (ie - start)]);
                }
            }
        }
    }
    let mlen = m.len();
    let il = (ie - start) as i128;
    let p: i128 = if eneg {
        il - e0 as i128
    } else {
        il + e0 as i128
    };
    let ghost pt: int = (ie - start) + ev;
    proof {
        assert(ms =~= t.subrange(l.sl, l.ie) + t.subrange(l.fs, l.fe));
        assert(mlen == (ie - start) + (fe - fs));
        if e0 == DIGITS_CAP {
            assert(has_exp);
            assert(de - ds >= 20);
            assert(mlen + 21 <= de);
            assert(ev0 >= DIGITS_CAP);
        } else {
            assert(e0 == ev0);
        }
    }
    let mag = mantissa_value(&m, p, Ghost(pt));
    let v: i128 = if neg {
        -mag
    } else {
        mag
    };
    Some(clamp_wide(v))
}

/// The vertex index that starts the face token `s[a..b]`, capped at `DIGITS_CAP`.
fn parse_index(s: &[u8], a: usize, b: usize) -> (r: Option<u128>)
    requires
        a <= b <= s@.len(),
    ensures
        match index_value(s@.subrange(a as int, b as int)) {
            None => r is None,
            Some(v) => r == Some(capped(v) as u128),
        },
{
    let ghost t = s@.subrange(a as int, b as int);
    let e = digits_end_at(s, a, b, a);
    if e < b {
        assert(t[e - a] == s[e as int]);
    }
    if e == a || (e < b && s[e] != 47) {
        return None;
    }
    assert(t.take(e - a) =~= s@.subrange(a as int, e as int));
    Some(digit_run(s, a, e))
}

/// A line as read: face indices are capped at `DIGITS_CAP`.
enum Parsed {
    Vertex(Vec3),
    Face(u128, u128, u128),
    Other,
}

spec fn parsed_as(p: Parsed, e: Entry) -> bool {
    match (p, e) {
        (Parsed::Vertex(a), Entry::Vertex(b)) => a == b,
        (Parsed::Face(a, b, c), Entry::Face(x, y, z)) => {
            &&& a == capped(x) && b == capped(y) && c == capped(z)
            &&& x >= 0 && y >= 0 && z >= 0
        },
        (Parsed::Other, Entry::Other) => true,
        _ => false,
    }
}

spec fn read_as(r: Result<Parsed, MeshError>, e: Result<Entry, MeshError>) -> bool {
    match e {
        Err(err) => r == Err::<Parsed, MeshError>(err),
        Ok(en) => r matches Ok(p) && parsed_as(p, en),
    }
}

fn read_vertex(s: &[u8], i: usize, end: usize) -> (r: Result<Parsed, MeshError>)
    requires
        i <= end <= s@.len(),
    ensures
        read_as(r, vertex_entry(s@, i as int, end as int)),
{
    let (a1, b1) = next_token_at(s, i, end);
    if a1 == b1 {
        return Err(MeshError::NotEnoughElements);
    }
    let x = match parse_decimal(s, a1, b1) {
        None => return Err(MeshError::InvalidNumber),
        Some(x) => x,
    };
    let (a2, b2) = next_token_at(s, b1, end);
    if a2 == b2 {
        return Err(MeshError::NotEnoughElements);
    }
    let y = match parse_decimal(s, a2, b2) {
        None => return Err(MeshError::InvalidNumber),
        Some(y) => y,
    };
    let (a3, b3) = next_token_at(s, b2, end);
    if a3 == b3 {
        return Err(MeshError::NotEnoughElements);
    }
    let z = match parse_decimal(s, a3, b3) {
        None => return Err(MeshError::InvalidNumber),
        Some(z) => z,
    };
    Ok(Parsed::Vertex(Vec3::new(x, y, z)))
}

proof fn lemma_index_nonneg(t: Seq<u8>)
    ensures
        index_value(t) matches Some(v) ==> v >= 0,
{
    let e = digits_end(t, 0);
    if index_value(t) is Some {
        lemma_digits_end_digits(t, 0);
        assert forall|j: int| 0 <= j < t.take(e).len() implies is_digit(#[trigger] t.take(e)[j]) by {
            assert(t.take(e)[j] == t[j]);
        }
        lemma_digits_value_bounds(t.take(e));
    }
}

/// Everything between `k` and `digits_end(t, k)` is a digit.
proof fn lemma_digits_end_digits(t: Seq<u8>, k: int)
    requires
        0 <= k,
    ensures
        k <= digits_end(t, k),
        digits_end(t, k) <= t.len() || digits_end(t, k) == k,
        forall|j: int| k <= j < digits_end(t, k) ==> is_digit(#[trigger] t[j]),
    decreases t.len() - k,
{
    if 0 <= k < t.len() && is_digit(t[k]) {
        lemma_digits_end_digits(t, k + 1);
    }
}

fn read_face(s: &[u8], i: usize, end: usize) -> (r: Result<Parsed, MeshError>)
    requires
        i <= end <= s@.len(),
    ensures
        read_as(r, face_entry(s@, i as int, end as int)),
{
    let (a1, b1) = next_token_at(s, i, end);
    if a1 == b1 {
        return Err(MeshError::NotEnoughElements);
    }
    let x = match parse_index(s, a1, b1) {
        None => return Err(MeshError::InvalidNumber),
        Some(x) => x,
    };
    let (a2, b2) = next_token_at(s, b1, end);
    if a2 == b2 {
        return Err(MeshError::NotEnoughElements);
    }
    let y = match parse_index(s, a2, b2) {
        None => return Err(MeshError::InvalidNumber),
        Some(y) => y,
    };
    let (a3, b3) = next_token_at(s, b2, end);
    if a3 == b3 {
        return Err(MeshError::NotEnoughElements);
    }
    let z = match parse_index(s, a3, b3) {
        None => return Err(MeshError::InvalidNumber),
        Some(z) => z,
    };
    proof {
        lemma_index_nonneg(s@.subrange(a1 as int, b1 as int));
        lemma_index_nonneg(s@.subrange(a2 as int, b2 as int));
        lemma_index_nonneg(s@.subrange(a3 as int, b3 as int));
    }
    Ok(Parsed::Face(x, y, z))
}

fn read_line(s: &[u8], i: usize, end: usize) -> (r: Result<Parsed, MeshError>)
    requires
        i <= end <= s@.len(),
    ensures
        read_as(r, line_entry(s@, i as int, end as int)),
{
    let (a, b) = next_token_at(s, i, end);
    if b - a == 1 {
        assert(s@.subrange(a as int, b as int)[0] == s[a as int]);
    }
    if b - a == 1 && s[a] == 118 {
        assert(s@.subrange(a as int, b as int) =~= seq![118u8]);
        read_vertex(s, b, end)
    } else if b - a == 1 && s[a] == 102 {
        assert(s@.subrange(a as int, b as int) =~= seq![102u8]);
        assert(seq![118u8][0] == 118u8);
        assert(s@.subrange(a as int, b as int)[0] != seq![118u8][0]);
        read_face(s, b, end)
    } else {
        proof {
            let tok = s@.subrange(a as int, b as int);
            let kv = seq![118u8];
            let kf = seq![102u8];
            assert(kv.len() == 1 && kv[0] == 118u8);
            assert(kf.len() == 1 && kf[0] == 102u8);
            if tok == kv {
                assert(tok[0] == kv[0]);
            }
            if tok == kf {
                assert(tok[0] == kf[0]);
            }
        }
        Ok(Parsed::Other)
    }
}

/// Reads an OBJ mesh from its text: each face becomes a triangle of its three
/// vertices moved by `pos`, with `material`.
pub fn parse_obj(text: &[u8], pos: Vec3, material: Material) -> (r: Result<Vec<Triangle>, MeshError>)
    ensures
        match mesh(text@, pos, material) {
            Ok(ts) => r matches Ok(v) && v@ == ts,
            Err(e) => r == Err::<Vec<Triangle>, MeshError>(e),
        },
{
    let mut verts: Vec<Vec3> = Vec::new();
    let mut tris: Vec<Triangle> = Vec::new();
    let mut i: usize = 0;
    while i < text.len()
        invariant
            i <= text@.len(),
            mesh_from(text@, i as int, verts@, tris@, pos, material) == mesh(text@, pos, material),
        decreases text@.len() - i,
    {
        let e = line_end_at(text, i);
        let entry = read_line(text, i, e);
        match entry {
            Err(err) => {
                return Err(err);
            },
            Ok(Parsed::Other) => {},
            Ok(Parsed::Vertex(p)) => {
                verts.push(p);
            },
            Ok(Parsed::Face(a, b, c)) => {
                let n = verts.len() as u128;
                if a < 1 || a > n || b < 1 || b > n || c < 1 || c > n {
                    return Err(MeshError::VertexNotFound);
                }
                let t = Triangle::new(
                    verts[(a - 1) as usize].add(pos),
                    verts[(b - 1) as usize].add(pos),
                    verts[(c - 1) as usize].add(pos),
                    material,
                );
                tris.push(t);
            },
        }
        if e >= text.len() {
            assert(mesh_from(text@, e + 1, verts@, tris@, pos, material) == Ok::<Seq<Triangle>, MeshError>(tris@));
            return Ok(tris);
        }
        i = e + 1;
    }
    Ok(tris)
}

} // verus!
