//! Three-component vectors over fixed-point reals: points, directions and
//! colours.

use vstd::prelude::*;
use crate::fixed::{
    Fixed, ONE_RAW, LIMIT_RAW, clamp, tdiv, floor_sqrt, isqrt, saturate, div_trunc,
    lemma_product_bound, lemma_floor_sqrt, lemma_floor_sqrt_is, lemma_floor_sqrt_monotone,
    lemma_tdiv_remainder,
};

verus! {

/// A vector, a point or a colour.
#[derive(Clone, Copy, Debug, PartialEq, Eq, Structural)]
pub struct Vec3 {
    pub x: Fixed,
    pub y: Fixed,
    pub z: Fixed,
}

/// A point in space.
pub type Point3 = Vec3;

/// The exact dot product of the raw components; its unit is `1 / 65536²`.
pub open spec fn dot_int(u: Vec3, v: Vec3) -> int {
    u.x@ * v.x@ + u.y@ * v.y@ + u.z@ * v.z@
}

/// The exact squared length of the raw components.
pub open spec fn norm2(u: Vec3) -> int {
    dot_int(u, u)
}

/// The dot product, rounded toward zero and saturated.
pub open spec fn spec_dot(u: Vec3, v: Vec3) -> Fixed {
    Fixed::of(tdiv(dot_int(u, v), ONE_RAW as int))
}

/// The cross product; each component is rounded once.
pub open spec fn spec_cross(u: Vec3, v: Vec3) -> Vec3 {
    Vec3 {
        x: Fixed::of(tdiv(u.y@ * v.z@ - u.z@ * v.y@, ONE_RAW as int)),
        y: Fixed::of(tdiv(u.z@ * v.x@ - u.x@ * v.z@, ONE_RAW as int)),
        z: Fixed::of(tdiv(u.x@ * v.y@ - u.y@ * v.x@, ONE_RAW as int)),
    }
}

/// The channel-wise product.
pub open spec fn spec_hadamard(u: Vec3, v: Vec3) -> Vec3 {
    Vec3 { x: u.x.spec_mul(v.x), y: u.y.spec_mul(v.y), z: u.z.spec_mul(v.z) }
}

/// The length of `u` with sixteen further fractional bits.
pub open spec fn fine_len(u: Vec3) -> int {
    floor_sqrt(norm2(u) * 0x1_0000_0000)
}

/// The vector of length one along `u`; the zero vector stays zero.
pub open spec fn spec_unit_vector(u: Vec3) -> Vec3 {
    if norm2(u) == 0 {
        u
    } else {
        Vec3 {
            x: Fixed::of(tdiv(u.x@ * 0x1_0000_0000, fine_len(u))),
            y: Fixed::of(tdiv(u.y@ * 0x1_0000_0000, fine_len(u))),
            z: Fixed::of(tdiv(u.z@ * 0x1_0000_0000, fine_len(u))),
        }
    }
}

impl Vec3 {
    /// Every component is well-formed.
    pub open spec fn wf(self) -> bool {
        self.x.wf() && self.y.wf() && self.z.wf()
    }

    /// The sum, component by component.
    pub open spec fn spec_add(self, other: Vec3) -> Vec3 {
        Vec3 {
            x: self.x.spec_add(other.x),
            y: self.y.spec_add(other.y),
            z: self.z.spec_add(other.z),
        }
    }

    /// The difference, component by component.
    pub open spec fn spec_sub(self, other: Vec3) -> Vec3 {
        Vec3 {
            x: self.x.spec_sub(other.x),
            y: self.y.spec_sub(other.y),
            z: self.z.spec_sub(other.z),
        }
    }

    /// The vector stretched by the factor `k`.
    pub open spec fn spec_scale(self, k: Fixed) -> Vec3 {
        Vec3 { x: self.x.spec_mul(k), y: self.y.spec_mul(k), z: self.z.spec_mul(k) }
    }

    /// The vector shrunk by the divisor `k`.
    pub open spec fn spec_div(self, k: Fixed) -> Vec3 {
        Vec3 { x: self.x.spec_div(k), y: self.y.spec_div(k), z: self.z.spec_div(k) }
    }

    /// The opposite vector.
    pub open spec fn spec_negate(self) -> Vec3 {
        Vec3 { x: self.x.spec_neg(), y: self.y.spec_neg(), z: self.z.spec_neg() }
    }

    /// The length, rounded down and saturated.
    pub open spec fn spec_len(self) -> Fixed {
        Fixed::of(floor_sqrt(norm2(self)))
    }

    /// The squared length, rounded down and saturated.
    pub open spec fn spec_len_squared(self) -> Fixed {
        Fixed::of(tdiv(norm2(self), ONE_RAW as int))
    }

    /// The zero vector.
    pub open spec fn spec_zero() -> Vec3 {
        Vec3 { x: Fixed { raw: 0 }, y: Fixed { raw: 0 }, z: Fixed { raw: 0 } }
    }

    /// Tells whether every component is well-formed.
    pub fn is_wf(&self) -> (r: bool)
        ensures
            r == self.wf(),
    {
        self.x.is_wf() && self.y.is_wf() && self.z.is_wf()
    }

    /// The vector with the given components.
    pub fn new(x: Fixed, y: Fixed, z: Fixed) -> (r: Vec3)
        ensures
            r == (Vec3 { x, y, z }),
    {
        Vec3 { x, y, z }
    }

    /// The length, rounded down and saturated.
    pub fn len(&self) -> (r: Fixed)
        requires
            self.wf(),
        ensures
            r == self.spec_len(),
            r.wf(),
    {
        let n: i128 = dot_wide(*self, *self);
        proof {
            lemma_norm2_bound(*self);
        }
        let s: u128 = isqrt(n as u128);
        if s > LIMIT_RAW as u128 {
            Fixed { raw: LIMIT_RAW }
        } else {
            Fixed { raw: s as i64 }
        }
    }

    /// The squared length, rounded down and saturated.
    pub fn len_squared(&self) -> (r: Fixed)
        requires
            self.wf(),
        ensures
            r == self.spec_len_squared(),
            r.wf(),
    {
        let n: i128 = dot_wide(*self, *self);
        proof {
            lemma_norm2_bound(*self);
        }
        saturate(div_trunc(n, 65536))
    }

    /// The sum, component by component.
    pub fn add(self, other: Vec3) -> (r: Vec3)
        ensures
            r == self.spec_add(other),
            r.wf(),
    {
        Vec3 { x: self.x.add(other.x), y: self.y.add(other.y), z: self.z.add(other.z) }
    }

    /// The difference, component by component.
    pub fn sub(self, other: Vec3) -> (r: Vec3)
        ensures
            r == self.spec_sub(other),
            r.wf(),
    {
        Vec3 { x: self.x.sub(other.x), y: self.y.sub(other.y), z: self.z.sub(other.z) }
    }

    /// The vector stretched by the factor `k`.
    pub fn scale(self, k: Fixed) -> (r: Vec3)
        ensures
            r == self.spec_scale(k),
            r.wf(),
    {
        Vec3 { x: self.x.mul(k), y: self.y.mul(k), z: self.z.mul(k) }
    }

    /// The vector shrunk by the divisor `k`, which must not be zero.
    pub fn div(self, k: Fixed) -> (r: Vec3)
        requires
            k@ != 0,
        ensures
            r == self.spec_div(k),
            r.wf(),
    {
        Vec3 { x: self.x.div(k), y: self.y.div(k), z: self.z.div(k) }
    }

    /// The opposite vector.
    pub fn negate(self) -> (r: Vec3)
        ensures
            r == self.spec_negate(),
            r.wf(),
    {
        Vec3 { x: self.x.neg(), y: self.y.neg(), z: self.z.neg() }
    }
}

impl Default for Vec3 {
    /// The zero vector.
    fn default() -> (r: Vec3)
        ensures
            r == Vec3::spec_zero(),
    {
        Vec3 { x: Fixed { raw: 0 }, y: Fixed { raw: 0 }, z: Fixed { raw: 0 } }
    }
}

/// The exact dot product of two well-formed vectors lies within `3 * 2^60`.
pub proof fn lemma_dot_bound(u: Vec3, v: Vec3)
    requires
        u.wf(),
        v.wf(),
    ensures
        -0x3000_0000_0000_0000 <= dot_int(u, v) <= 0x3000_0000_0000_0000,
{
    lemma_product_bound(u.x@, v.x@, 0x4000_0000, 0x4000_0000);
    lemma_product_bound(u.y@, v.y@, 0x4000_0000, 0x4000_0000);
    lemma_product_bound(u.z@, v.z@, 0x4000_0000, 0x4000_0000);
}

/// The exact squared length is never negative.
pub proof fn lemma_norm2_bound(u: Vec3)
    requires
        u.wf(),
    ensures
        0 <= norm2(u) <= 0x3000_0000_0000_0000,
{
    lemma_dot_bound(u, u);
    assert(u.x@ * u.x@ >= 0 && u.y@ * u.y@ >= 0 && u.z@ * u.z@ >= 0) by (nonlinear_arith);
}

/// A vector of exact squared length zero is the zero vector.
pub proof fn lemma_norm2_zero(u: Vec3)
    ensures
        norm2(u) == 0 <==> u == Vec3::spec_zero(),
{
    let (x, y, z) = (u.x@, u.y@, u.z@);
    assert(x * x >= 0 && y * y >= 0 && z * z >= 0) by (nonlinear_arith);
    assert(x * x == 0 ==> x == 0) by (nonlinear_arith);
    assert(y * y == 0 ==> y == 0) by (nonlinear_arith);
    assert(z * z == 0 ==> z == 0) by (nonlinear_arith);
}

/// The exact dot product, in units of `1 / 65536²`.
pub fn dot_wide(u: Vec3, v: Vec3) -> (r: i128)
    requires
        u.wf(),
        v.wf(),
    ensures
        r == dot_int(u, v),
{
    proof {
        lemma_product_bound(u.x@, v.x@, 0x4000_0000, 0x4000_0000);
        lemma_product_bound(u.y@, v.y@, 0x4000_0000, 0x4000_0000);
        lemma_product_bound(u.z@, v.z@, 0x4000_0000, 0x4000_0000);
    }
    u.x.raw as i128 * v.x.raw as i128 + u.y.raw as i128 * v.y.raw as i128 + u.z.raw as i128
        * v.z.raw as i128
}

/// The dot product, rounded toward zero and saturated.
pub fn dot(u: Vec3, v: Vec3) -> (r: Fixed)
    requires
        u.wf(),
        v.wf(),
    ensures
        r == spec_dot(u, v),
        r.wf(),
{
    let d: i128 = dot_wide(u, v);
    proof {
        lemma_dot_bound(u, v);
    }
    saturate(div_trunc(d, 65536))
}

/// One component of a cross product: `a * b - c * d`, rounded and saturated.
fn cross_term(a: Fixed, b: Fixed, c: Fixed, d: Fixed) -> (r: Fixed)
    requires
        a.wf(),
        b.wf(),
        c.wf(),
        d.wf(),
    ensures
        r == Fixed::of(tdiv(a@ * b@ - c@ * d@, ONE_RAW as int)),
        r.wf(),
{
    proof {
        lemma_product_bound(a@, b@, 0x4000_0000, 0x4000_0000);
        lemma_product_bound(c@, d@, 0x4000_0000, 0x4000_0000);
    }
    let w: i128 = a.raw as i128 * b.raw as i128 - c.raw as i128 * d.raw as i128;
    saturate(div_trunc(w, 65536))
}

/// The cross product; each component is rounded once.
pub fn cross(u: Vec3, v: Vec3) -> (r: Vec3)
    requires
        u.wf(),
        v.wf(),
    ensures
        r == spec_cross(u, v),
        r.wf(),
{
    Vec3 {
        x: cross_term(u.y, v.z, u.z, v.y),
        y: cross_term(u.z, v.x, u.x, v.z),
        z: cross_term(u.x, v.y, u.y, v.x),
    }
}

/// The channel-wise product, by which a colour is attenuated.
pub fn hadamard(u: Vec3, v: Vec3) -> (r: Vec3)
    ensures
        r == spec_hadamard(u, v),
        r.wf(),
{
    Vec3 { x: u.x.mul(v.x), y: u.y.mul(v.y), z: u.z.mul(v.z) }
}

/// The vector of length one along `u`. The zero vector has no direction and
/// is handed back unchanged.
pub fn unit_vector(u: Vec3) -> (r: Vec3)
    requires
        u.wf(),
    ensures
        r == spec_unit_vector(u),
        r.wf(),
{
    let n: i128 = dot_wide(u, u);
    proof {
        lemma_norm2_bound(u);
    }
    if n == 0 {
        return u;
    }
    let fine: u128 = isqrt(n as u128 * 0x1_0000_0000);
    proof {
        lemma_fine_len_positive(norm2(u));
        assert(fine < 0x1_0000_0000_0000_0000_0000_0000) by (nonlinear_arith)
            requires
                fine >= 0,
                fine * fine <= norm2(u) * 0x1_0000_0000,
                norm2(u) <= 0x3000_0000_0000_0000,
        ;
    }
    let d: i128 = fine as i128;
    Vec3 {
        x: saturate(div_trunc(u.x.raw as i128 * 0x1_0000_0000, d)),
        y: saturate(div_trunc(u.y.raw as i128 * 0x1_0000_0000, d)),
        z: saturate(div_trunc(u.z.raw as i128 * 0x1_0000_0000, d)),
    }
}

/// The fine length of a vector that is not zero is at least one: `n2` is
/// the exact squared length, and the fine length its square root with 32
/// fractional bits, rounded down.
proof fn lemma_fine_len_positive(n2: int)
    requires
        n2 >= 1,
    ensures
        floor_sqrt(n2 * 0x1_0000_0000) >= 0x1_0000,
        floor_sqrt(n2 * 0x1_0000_0000) * floor_sqrt(n2 * 0x1_0000_0000) <= n2 * 0x1_0000_0000,
        n2 * 0x1_0000_0000 < (floor_sqrt(n2 * 0x1_0000_0000) + 1) * (floor_sqrt(
            n2 * 0x1_0000_0000,
        ) + 1),
{
    lemma_floor_sqrt(n2 * 0x1_0000_0000);
    let f = floor_sqrt(n2 * 0x1_0000_0000);
    assert(f >= 0x1_0000) by (nonlinear_arith)
        requires
            f >= 0,
            (f + 1) * (f + 1) > n2 * 0x1_0000_0000,
            n2 >= 1,
    ;
}

/// One component of a unit vector lies between minus one and one: `x` is a
/// raw component and `n2` the exact squared length of its vector.
proof fn lemma_unit_component(x: int, n2: int)
    requires
        x * x <= n2,
        n2 > 0,
    ensures
        -ONE_RAW <= tdiv(x * 0x1_0000_0000, floor_sqrt(n2 * 0x1_0000_0000)) <= ONE_RAW,
{
    let ax = if x >= 0 {
        x
    } else {
        -x
    };
    let f = floor_sqrt(n2 * 0x1_0000_0000);
    let g = ax * 0x1_0000;
    assert(g * g <= n2 * 0x1_0000_0000 && g >= 0 && g * g < (g + 1) * (g + 1))
        by (nonlinear_arith)
        requires
            x * x <= n2,
            ax == x || ax == -x,
            ax >= 0,
            g == ax * 0x1_0000,
    ;
    lemma_floor_sqrt_is(g * g, g);
    lemma_floor_sqrt_monotone(g * g, n2 * 0x1_0000_0000);
    lemma_fine_len_positive(n2);
    assert(0 <= (ax * 0x1_0000_0000) / f <= 0x1_0000) by (nonlinear_arith)
        requires
            f > 0,
            ax >= 0,
            ax * 0x1_0000 <= f,
    ;
}

/// Every component of a unit vector lies between minus one and one.
pub proof fn lemma_unit_vector_bounded(u: Vec3)
    requires
        u.wf(),
    ensures
        spec_unit_vector(u).wf(),
        -ONE_RAW <= spec_unit_vector(u).x@ <= ONE_RAW,
        -ONE_RAW <= spec_unit_vector(u).y@ <= ONE_RAW,
        -ONE_RAW <= spec_unit_vector(u).z@ <= ONE_RAW,
{
    lemma_norm2_bound(u);
    lemma_norm2_zero(u);
    if norm2(u) != 0 {
        let (x, y, z) = (u.x@, u.y@, u.z@);
        assert(x * x >= 0 && y * y >= 0 && z * z >= 0) by (nonlinear_arith);
        lemma_unit_component(x, norm2(u));
        lemma_unit_component(y, norm2(u));
        lemma_unit_component(z, norm2(u));
    }
}

/// What rounding a quotient down costs its square: for `v = ⌊a / f⌋` the
/// square of `v f` lies between `a² − 2 a f` and `a²`.
proof fn lemma_quotient_square(a: int, f: int)
    requires
        a >= 0,
        f > 0,
    ensures
        0 <= a / f,
        ((a / f) * (a / f)) * (f * f) <= a * a,
        ((a / f) * (a / f)) * (f * f) >= a * a - 2 * (a * f),
{
    let v = a / f;
    let w = v * f;
    assert(0 <= v && w <= a < w + f) by (nonlinear_arith)
        requires
            a >= 0,
            f > 0,
            v == a / f,
            w == v * f,
    ;
    assert((v * v) * (f * f) == w * w) by (nonlinear_arith)
        requires
            w == v * f,
    ;
    assert(0 <= w) by (nonlinear_arith)
        requires
            w == v * f,
            v >= 0,
            f > 0,
    ;
    assert(w * w <= a * a) by (nonlinear_arith)
        requires
            0 <= w <= a,
    ;
    if a >= f {
        assert(w * w >= a * a - 2 * (a * f)) by (nonlinear_arith)
            requires
                w >= a - f,
                a - f >= 0,
                f > 0,
        ;
    } else {
        assert(a * a - 2 * (a * f) <= 0) by (nonlinear_arith)
            requires
                0 <= a < f,
        ;
        assert(w * w >= 0) by (nonlinear_arith);
    }
}

/// The square of one component of a unit vector, times the square of the
/// fine length, against the square of the scaled component of the vector.
proof fn lemma_unit_component_square(x: int, n2: int) -> (r: (int, int))
    requires
        x * x <= n2,
        n2 > 0,
    ensures
        ({
            let f = floor_sqrt(n2 * 0x1_0000_0000);
            let c = clamp(tdiv(x * 0x1_0000_0000, f));
            let (a, f2) = r;
            &&& f2 == f
            &&& a >= 0
            &&& a * a == (x * x) * 0x1_0000_0000_0000_0000
            &&& (c * c) * (f * f) <= a * a
            &&& (c * c) * (f * f) >= a * a - 2 * (a * f)
        }),
{
    let f = floor_sqrt(n2 * 0x1_0000_0000);
    lemma_unit_component(x, n2);
    lemma_fine_len_positive(n2);
    let ax = if x >= 0 {
        x
    } else {
        -x
    };
    let a = ax * 0x1_0000_0000;
    lemma_quotient_square(a, f);
    let v = a / f;
    let t = tdiv(x * 0x1_0000_0000, f);
    assert(t == v || t == -v);
    assert(clamp(t) == t);
    assert(t * t == v * v) by (nonlinear_arith)
        requires
            t == v || t == -v,
    ;
    assert(a * a == (x * x) * 0x1_0000_0000_0000_0000) by (nonlinear_arith)
        requires
            a == ax * 0x1_0000_0000,
            ax == x || ax == -x,
    ;
    (a, f)
}

/// A unit vector has length one, up to rounding: the exact squared length
/// of the unit vector along a vector that is not zero differs from one by
/// less than five parts in 65536.
pub proof fn lemma_unit_vector_norm(u: Vec3)
    requires
        u.wf(),
        norm2(u) > 0,
    ensures
        0x1_0000_0000 - 0x4_0000 - 5 <= norm2(spec_unit_vector(u)) <= 0x1_0000_0000 + 0x3_0000,
{
    let n2 = norm2(u);
    let f = fine_len(u);
    let (x, y, z) = (u.x@, u.y@, u.z@);
    assert(x * x >= 0 && y * y >= 0 && z * z >= 0) by (nonlinear_arith);
    let (a, _) = lemma_unit_component_square(x, n2);
    let (b, _) = lemma_unit_component_square(y, n2);
    let (c, _) = lemma_unit_component_square(z, n2);
    let w = spec_unit_vector(u);
    let big = norm2(w);
    let f2 = f * f;
    lemma_fine_len_positive(n2);
    let sq = a * a + b * b + c * c;
    assert(sq == n2 * 0x1_0000_0000_0000_0000);
    assert(big * f2 == (w.x@ * w.x@) * f2 + (w.y@ * w.y@) * f2 + (w.z@ * w.z@) * f2)
        by (nonlinear_arith)
        requires
            big == w.x@ * w.x@ + w.y@ * w.y@ + w.z@ * w.z@,
    ;
    let total = a + b + c;
    assert(big * f2 <= sq);
    assert(2 * (a * f) + 2 * (b * f) + 2 * (c * f) == 2 * (total * f)) by (nonlinear_arith)
        requires
            total == a + b + c,
    ;
    assert(big * f2 >= sq - 2 * (total * f));
    // fine² ≤ n2 · 2³² < (fine + 1)²
    let m = n2 * 0x1_0000_0000;
    assert(sq == m * 0x1_0000_0000);
    assert(f2 <= m < (f + 1) * (f + 1));
    // the upper bound
    assert(big <= 0x1_0000_0000 + 0x3_0000) by (nonlinear_arith)
        requires
            big * f2 <= m * 0x1_0000_0000,
            m < (f + 1) * (f + 1),
            f2 == f * f,
            f >= 0x1_0000,
    ;
    // (a + b + c)² ≤ 3 (a² + b² + c²)
    assert(total * total <= 3 * sq) by (nonlinear_arith)
        requires
            total == a + b + c,
            sq == a * a + b * b + c * c,
    ;
    assert(total < 0x2_0000 * (f + 1)) by (nonlinear_arith)
        requires
            total >= 0,
            total * total <= 3 * (m * 0x1_0000_0000),
            m < (f + 1) * (f + 1),
            f >= 0,
    ;
    assert(big >= 0x1_0000_0000 - 0x4_0000 - 5) by (nonlinear_arith)
        requires
            big * f2 >= m * 0x1_0000_0000 - 2 * (total * f),
            m >= f2,
            f2 == f * f,
            0 <= total < 0x2_0000 * (f + 1),
            f >= 0x1_0000,
    ;
}

/// The exact squared length of the cross product of `(x, y, z)` and
/// `(dx, dy, dz)`.
pub open spec fn cross_norm2(x: int, y: int, z: int, dx: int, dy: int, dz: int) -> int {
    (y * dz - z * dy) * (y * dz - z * dy) + (z * dx - x * dz) * (z * dx - x * dz) + (x * dy - y
        * dx) * (x * dy - y * dx)
}

/// Lagrange's identity: `(a·b)² + |a × b|² = |a|² |b|²`.
pub proof fn lemma_lagrange_identity(x: int, y: int, z: int, dx: int, dy: int, dz: int)
    ensures
        (x * dx + y * dy + z * dz) * (x * dx + y * dy + z * dz) + cross_norm2(x, y, z, dx, dy, dz)
            == (dx * dx + dy * dy + dz * dz) * (x * x + y * y + z * z),
        cross_norm2(x, y, z, dx, dy, dz) >= 0,
{
    lemma_square_of_sum(x * dx, y * dy, z * dz);
    lemma_square_of_difference(y * dz, z * dy);
    lemma_square_of_difference(z * dx, x * dz);
    lemma_square_of_difference(x * dy, y * dx);
    lemma_square_of_product(x, dx);
    lemma_square_of_product(x, dy);
    lemma_square_of_product(x, dz);
    lemma_square_of_product(y, dx);
    lemma_square_of_product(y, dy);
    lemma_square_of_product(y, dz);
    lemma_square_of_product(z, dx);
    lemma_square_of_product(z, dy);
    lemma_square_of_product(z, dz);
    lemma_swap_factors(x, dx, y, dy);
    lemma_swap_factors(z, dx, x, dz);
    lemma_swap_factors(y, dy, z, dz);
    assert((y * dz) * (z * dy) == (y * dy) * (z * dz)) by (nonlinear_arith);
    assert((x * dx) * (z * dz) == (z * dx) * (x * dz)) by (nonlinear_arith);
    let (xx, yy, zz) = (x * x, y * y, z * z);
    let (ax, ay, az) = (dx * dx, dy * dy, dz * dz);
    assert((ax + ay + az) * (xx + yy + zz) == xx * ax + xx * ay + xx * az + yy * ax + yy * ay + yy
        * az + zz * ax + zz * ay + zz * az) by (nonlinear_arith);
    let (p, q, r) = (y * dz - z * dy, z * dx - x * dz, x * dy - y * dx);
    assert(p * p >= 0 && q * q >= 0 && r * r >= 0) by (nonlinear_arith);
}

/// `(a + b + c)²` written out.
proof fn lemma_square_of_sum(a: int, b: int, c: int)
    ensures
        (a + b + c) * (a + b + c) == a * a + b * b + c * c + 2 * (a * b) + 2 * (a * c) + 2 * (b
            * c),
{
    assert((a + b + c) * (a + b + c) == a * a + b * b + c * c + 2 * (a * b) + 2 * (a * c) + 2 * (b
        * c)) by (nonlinear_arith);
}

/// `(a − b)²` written out.
proof fn lemma_square_of_difference(a: int, b: int)
    ensures
        (a - b) * (a - b) == a * a - 2 * (a * b) + b * b,
{
    assert((a - b) * (a - b) == a * a - 2 * (a * b) + b * b) by (nonlinear_arith);
}

/// `(a b)² = a² b²`.
proof fn lemma_square_of_product(a: int, b: int)
    ensures
        (a * b) * (a * b) == (a * a) * (b * b),
{
    assert((a * b) * (a * b) == (a * a) * (b * b)) by (nonlinear_arith);
}

/// `(a b)(c d) = (a d)(c b)`.
proof fn lemma_swap_factors(a: int, b: int, c: int, d: int)
    ensures
        (a * b) * (c * d) == (a * d) * (c * b),
{
    assert((a * b) * (c * d) == (a * d) * (c * b)) by (nonlinear_arith);
}

/// The Cauchy–Schwarz inequality: `(u·v)² ≤ |u|² |v|²`.
pub proof fn lemma_cauchy_schwarz(u: Vec3, v: Vec3)
    ensures
        dot_int(u, v) * dot_int(u, v) <= norm2(u) * norm2(v),
{
    lemma_lagrange_identity(u.x@, u.y@, u.z@, v.x@, v.y@, v.z@);
    let (a, b) = (norm2(u), norm2(v));
    assert(a * b == b * a) by (nonlinear_arith);
}

/// The vector has length one up to the rounding of `unit_vector`: no
/// component exceeds one, and the exact squared length differs from one by
/// less than five parts in 65536.
pub open spec fn is_unit(v: Vec3) -> bool {
    &&& -ONE_RAW <= v.x@ <= ONE_RAW
    &&& -ONE_RAW <= v.y@ <= ONE_RAW
    &&& -ONE_RAW <= v.z@ <= ONE_RAW
    &&& 0x1_0000_0000 - 0x4_0000 - 5 <= norm2(v) <= 0x1_0000_0000 + 0x3_0000
}

/// The unit vector along a vector that is not zero has length one.
pub proof fn lemma_unit_vector_is_unit(u: Vec3)
    requires
        u.wf(),
        norm2(u) > 0,
    ensures
        is_unit(spec_unit_vector(u)),
{
    lemma_unit_vector_bounded(u);
    lemma_unit_vector_norm(u);
}

/// One term of the dot product of a unit vector with a vector `n` against
/// the same term for the vector it was made from: `x` is the raw component,
/// `f` the fine length and `ni` the component of `n`.
proof fn lemma_alignment_term(x: int, f: int, ni: int)
    requires
        f > 0,
        -ONE_RAW <= ni <= ONE_RAW,
    ensures
        (tdiv(x * 0x1_0000_0000, f) * ni) * f <= (x * ni) * 0x1_0000_0000 + f * 65536,
{
    let a = x * 0x1_0000_0000;
    let q = tdiv(a, f);
    lemma_tdiv_remainder(a, f);
    let rem = a - q * f;
    assert((q * ni) * f == a * ni - rem * ni) by (nonlinear_arith)
        requires
            rem == a - q * f,
    ;
    assert(-(rem * ni) <= f * 65536) by (nonlinear_arith)
        requires
            -f < rem < f,
            -65536 <= ni <= 65536,
    ;
    assert(a * ni == (x * ni) * 0x1_0000_0000) by (nonlinear_arith)
        requires
            a == x * 0x1_0000_0000,
    ;
}

/// Rounding to unit length turns a vector by little: where `n` does not
/// point along `d`, it points along the unit vector of `d` by at most three
/// raw units of one.
pub proof fn lemma_unit_vector_alignment(d: Vec3, n: Vec3)
    requires
        d.wf(),
        norm2(d) > 0,
        -ONE_RAW <= n.x@ <= ONE_RAW,
        -ONE_RAW <= n.y@ <= ONE_RAW,
        -ONE_RAW <= n.z@ <= ONE_RAW,
        dot_int(d, n) <= 0,
    ensures
        dot_int(spec_unit_vector(d), n) <= 3 * ONE_RAW,
{
    let n2 = norm2(d);
    let f = fine_len(d);
    let (x, y, z) = (d.x@, d.y@, d.z@);
    assert(x * x >= 0 && y * y >= 0 && z * z >= 0) by (nonlinear_arith);
    lemma_unit_component(x, n2);
    lemma_unit_component(y, n2);
    lemma_unit_component(z, n2);
    lemma_fine_len_positive(n2);
    lemma_alignment_term(x, f, n.x@);
    lemma_alignment_term(y, f, n.y@);
    lemma_alignment_term(z, f, n.z@);
    let u = spec_unit_vector(d);
    let e = dot_int(u, n);
    let g = dot_int(d, n);
    assert(e * f == (u.x@ * n.x@) * f + (u.y@ * n.y@) * f + (u.z@ * n.z@) * f)
        by (nonlinear_arith)
        requires
            e == u.x@ * n.x@ + u.y@ * n.y@ + u.z@ * n.z@,
    ;
    assert(g * 0x1_0000_0000 == (x * n.x@) * 0x1_0000_0000 + (y * n.y@) * 0x1_0000_0000 + (z
        * n.z@) * 0x1_0000_0000);
    assert(e <= 3 * 65536) by (nonlinear_arith)
        requires
            e * f <= g * 0x1_0000_0000 + 3 * (f * 65536),
            g <= 0,
            f > 0,
    ;
}

/// The opposite of a vector of length one has length one.
pub proof fn lemma_negate_is_unit(u: Vec3)
    requires
        is_unit(u),
    ensures
        is_unit(u.spec_negate()),
        norm2(u.spec_negate()) == norm2(u),
{
    let (x, y, z) = (u.x@, u.y@, u.z@);
    assert((-x) * (-x) == x * x && (-y) * (-y) == y * y && (-z) * (-z) == z * z)
        by (nonlinear_arith);
}

/// No component of a unit vector points against the component of the
/// vector it was made from.
pub proof fn lemma_unit_vector_sign(u: Vec3)
    requires
        u.wf(),
        norm2(u) > 0,
    ensures
        u.x@ >= 0 ==> spec_unit_vector(u).x@ >= 0,
        u.x@ <= 0 ==> spec_unit_vector(u).x@ <= 0,
        u.y@ >= 0 ==> spec_unit_vector(u).y@ >= 0,
        u.y@ <= 0 ==> spec_unit_vector(u).y@ <= 0,
        u.z@ >= 0 ==> spec_unit_vector(u).z@ >= 0,
        u.z@ <= 0 ==> spec_unit_vector(u).z@ <= 0,
{
    lemma_fine_len_positive(norm2(u));
    let f = fine_len(u);
    lemma_tdiv_remainder(u.x@ * 0x1_0000_0000, f);
    lemma_tdiv_remainder(u.y@ * 0x1_0000_0000, f);
    lemma_tdiv_remainder(u.z@ * 0x1_0000_0000, f);
}

} // verus!
