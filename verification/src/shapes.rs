//! The sphere: its intersection with a ray, solved without rounding up to
//! the final divisions. The hit point is taken from the root before that is
//! rounded to a parameter, and the normal is the unit vector from the centre
//! to the point, so every reported point lies on the sphere and every normal
//! has length one, whatever the length of the ray's direction.

use vstd::prelude::*;
use crate::fixed::{
    Fixed, ONE_RAW, LIMIT_RAW, tdiv, floor_sqrt, isqrt, div_trunc, saturate, lemma_product_bound,
    lemma_floor_sqrt, lemma_tdiv_monotone, lemma_tdiv_between, lemma_tdiv_remainder,
};
use crate::vec3::{
    Vec3, Point3, dot_int, norm2, dot_wide, cross_norm2, unit_vector, spec_unit_vector, is_unit,
    lemma_norm2_bound, lemma_lagrange_identity, lemma_unit_vector_is_unit, lemma_unit_vector_sign,
    lemma_negate_is_unit,
};
use crate::base::{Ray, HitRecord, Geometry, lemma_negate_flips_dot, lemma_dot_commutes};

verus! {

/// A sphere. A negative radius keeps the surface and turns the outward
/// normal inward, which makes the inside of a hollow shell.
#[derive(Clone, Copy, Debug)]
pub struct Sphere {
    pub center: Point3,
    pub radius: Fixed,
}

impl Sphere {
    /// Tells whether `hit` accepts the sphere: the radius is at least
    /// `MIN_RADIUS_RAW` in magnitude and the whole sphere lies inside the
    /// range of well-formed points, with a margin of two raw units.
    pub fn is_wf(&self) -> (r: bool)
        ensures
            r == self.wf(),
    {
        if !(self.center.is_wf() && self.radius.is_wf()) {
            return false;
        }
        let size: i64 = if self.radius.raw >= 0 {
            self.radius.raw
        } else {
            -self.radius.raw
        };
        size >= MIN_RADIUS_RAW && fits(self.center.x, size) && fits(self.center.y, size) && fits(
            self.center.z,
            size,
        )
    }
}

/// The smallest magnitude of a radius that `hit` accepts. Below it the
/// rounding of the hit point is no longer small against the sphere.
pub const MIN_RADIUS_RAW: i64 = 8;

/// The magnitude of a raw value.
pub open spec fn magnitude(x: int) -> int {
    if x >= 0 {
        x
    } else {
        -x
    }
}

/// A sphere of the given size around this coordinate of its centre stays
/// two raw units inside the range of well-formed numbers.
pub open spec fn spec_fits(c: Fixed, size: int) -> bool {
    magnitude(c@) + size + 2 <= LIMIT_RAW
}

/// Tells whether a sphere of the given size around this coordinate of its
/// centre stays inside the range.
fn fits(c: Fixed, size: i64) -> (r: bool)
    requires
        c.wf(),
        0 <= size <= LIMIT_RAW,
    ensures
        r == spec_fits(c, size as int),
{
    let m: i64 = if c.raw >= 0 {
        c.raw
    } else {
        -c.raw
    };
    m + size + 2 <= LIMIT_RAW
}

/// The coefficient `a = D·D` of the quadratic `|O + tD − C|² = r²`.
pub open spec fn quad_a(ray: Ray) -> int {
    norm2(ray.direction)
}

/// The coefficient `half_b = (O − C)·D`.
pub open spec fn quad_half_b(s: Sphere, ray: Ray) -> int {
    (ray.origin.x@ - s.center.x@) * ray.direction.x@ + (ray.origin.y@ - s.center.y@)
        * ray.direction.y@ + (ray.origin.z@ - s.center.z@) * ray.direction.z@
}

/// The exact squared distance from the centre to the ray's origin.
pub open spec fn origin_dist2(s: Sphere, ray: Ray) -> int {
    (ray.origin.x@ - s.center.x@) * (ray.origin.x@ - s.center.x@) + (ray.origin.y@ - s.center.y@)
        * (ray.origin.y@ - s.center.y@) + (ray.origin.z@ - s.center.z@) * (ray.origin.z@
        - s.center.z@)
}

/// The coefficient `c = |O − C|² − r²`.
pub open spec fn quad_c(s: Sphere, ray: Ray) -> int {
    origin_dist2(s, ray) - s.radius@ * s.radius@
}

/// The discriminant `half_b² − a·c`, computed without rounding.
pub open spec fn discriminant(s: Sphere, ray: Ray) -> int {
    quad_half_b(s, ray) * quad_half_b(s, ray) - quad_a(ray) * quad_c(s, ray)
}

/// The numerator `−half_b − √Δ` of the smaller root.
pub open spec fn near_numerator(s: Sphere, ray: Ray) -> int {
    -quad_half_b(s, ray) - floor_sqrt(discriminant(s, ray))
}

/// The numerator `−half_b + √Δ` of the larger root.
pub open spec fn far_numerator(s: Sphere, ray: Ray) -> int {
    -quad_half_b(s, ray) + floor_sqrt(discriminant(s, ray))
}

/// The smaller root `(−half_b − √Δ) / a` as a raw parameter.
pub open spec fn near_root(s: Sphere, ray: Ray) -> int {
    tdiv(near_numerator(s, ray) * ONE_RAW, quad_a(ray))
}

/// The larger root `(−half_b + √Δ) / a` as a raw parameter.
pub open spec fn far_root(s: Sphere, ray: Ray) -> int {
    tdiv(far_numerator(s, ray) * ONE_RAW, quad_a(ray))
}

/// The parameter lies strictly inside the interval.
pub open spec fn within(t: int, t_min: Fixed, t_max: Fixed) -> bool {
    t_min@ < t < t_max@
}

/// The point of the ray at the root with the numerator `num`:
/// `O + D · num / a`, each component rounded once. It is taken from the
/// root before that is rounded to a parameter, so a long direction does not
/// carry the point off the sphere.
pub open spec fn point_at(ray: Ray, num: int) -> Vec3 {
    Vec3 {
        x: Fixed::of(ray.origin.x@ + tdiv(ray.direction.x@ * num, quad_a(ray))),
        y: Fixed::of(ray.origin.y@ + tdiv(ray.direction.y@ * num, quad_a(ray))),
        z: Fixed::of(ray.origin.z@ + tdiv(ray.direction.z@ * num, quad_a(ray))),
    }
}

/// The outward normal at the point `p` of the sphere: `(p − C) / r`, taken
/// as the unit vector along `p − C`, turned round where the radius is
/// negative.
pub open spec fn outward_at(s: Sphere, p: Vec3) -> Vec3 {
    let u = spec_unit_vector(p.spec_sub(s.center));
    if s.radius@ > 0 {
        u
    } else {
        u.spec_negate()
    }
}

/// The record of the hit at the root with numerator `num` and rounded
/// parameter `t`.
pub open spec fn record_at(s: Sphere, ray: Ray, num: int, t: Fixed) -> HitRecord {
    let p = point_at(ray, num);
    HitRecord::spec_new(ray, p, t, outward_at(s, p))
}

/// The exact squared distance of `p` from the centre.
pub open spec fn dist2(s: Sphere, p: Vec3) -> int {
    (p.x@ - s.center.x@) * (p.x@ - s.center.x@) + (p.y@ - s.center.y@) * (p.y@ - s.center.y@)
        + (p.z@ - s.center.z@) * (p.z@ - s.center.z@)
}

/// The point lies on the sphere up to rounding: its squared distance from
/// the centre lies between `r² − 6 |r|` and `r² + 4 |r| + 3` in raw units,
/// so its distance differs from `|r|` by less than four raw units.
pub open spec fn on_sphere(s: Sphere, p: Vec3) -> bool {
    let r = magnitude(s.radius@);
    r * r - 6 * r <= dist2(s, p) <= r * r + 4 * r + 3
}

/// The two roots come in order.
pub proof fn lemma_roots_ordered(s: Sphere, ray: Ray)
    requires
        quad_a(ray) > 0,
        discriminant(s, ray) >= 0,
    ensures
        near_root(s, ray) <= far_root(s, ray),
{
    lemma_floor_sqrt(discriminant(s, ray));
    let sq = floor_sqrt(discriminant(s, ray));
    let hb = quad_half_b(s, ray);
    assert((-hb - sq) * ONE_RAW <= (-hb + sq) * ONE_RAW);
    lemma_tdiv_monotone((-hb - sq) * ONE_RAW, (-hb + sq) * ONE_RAW, quad_a(ray));
}

/// The exact squared length of `(O − C) × D`: the squared distance between
/// the centre and the ray's line, times `D·D`.
pub open spec fn moment2(s: Sphere, ray: Ray) -> int {
    cross_norm2(
        ray.origin.x@ - s.center.x@,
        ray.origin.y@ - s.center.y@,
        ray.origin.z@ - s.center.z@,
        ray.direction.x@,
        ray.direction.y@,
        ray.direction.z@,
    )
}

/// The parameter at which the ray passes closest to the centre.
pub open spec fn center_param(s: Sphere, ray: Ray) -> int {
    tdiv(-quad_half_b(s, ray) * ONE_RAW, quad_a(ray))
}

/// Lagrange's identity: `((O − C)·D)² + |(O − C) × D|² = |O − C|² |D|²`.
pub proof fn lemma_lagrange(s: Sphere, ray: Ray)
    ensures
        quad_half_b(s, ray) * quad_half_b(s, ray) + moment2(s, ray) == quad_a(ray) * origin_dist2(
            s,
            ray,
        ),
{
    lemma_lagrange_identity(
        ray.origin.x@ - s.center.x@,
        ray.origin.y@ - s.center.y@,
        ray.origin.z@ - s.center.z@,
        ray.direction.x@,
        ray.direction.y@,
        ray.direction.z@,
    );
}

/// The discriminant is `D·D` times the gap between the squared radius and
/// the squared distance from the centre to the ray's line.
pub proof fn lemma_discriminant(s: Sphere, ray: Ray)
    ensures
        discriminant(s, ray) == quad_a(ray) * (s.radius@ * s.radius@) - moment2(s, ray),
{
    lemma_lagrange(s, ray);
    let a = quad_a(ray);
    let o = origin_dist2(s, ray);
    let r2 = s.radius@ * s.radius@;
    assert(a * (o - r2) == a * o - a * r2) by (nonlinear_arith);
}

/// A ray whose line stays farther from the centre than the radius misses the
/// sphere, whatever the interval.
pub proof fn lemma_distant_ray_misses(s: Sphere, ray: Ray, t_min: Fixed, t_max: Fixed)
    requires
        moment2(s, ray) > s.radius@ * s.radius@ * quad_a(ray),
    ensures
        s.intersect(ray, t_min, t_max) is None,
{
    lemma_discriminant(s, ray);
    let a = quad_a(ray);
    let r2 = s.radius@ * s.radius@;
    assert(a * r2 == r2 * a) by (nonlinear_arith);
}

/// A ray that starts outside the sphere and points straight at its centre
/// meets it twice. The discriminant is `D·D · r²`, both roots are positive
/// and lie symmetrically about the parameter of the centre, and `hit`
/// reports the nearer one whenever it lies inside the interval.
pub proof fn lemma_ray_toward_center(s: Sphere, ray: Ray, t_min: Fixed, t_max: Fixed)
    requires
        moment2(s, ray) == 0,
        quad_half_b(s, ray) < 0,
        quad_c(s, ray) > 0,
    ensures
        quad_a(ray) > 0,
        discriminant(s, ray) == quad_a(ray) * (s.radius@ * s.radius@),
        discriminant(s, ray) >= 0,
        0 <= floor_sqrt(discriminant(s, ray)) < -quad_half_b(s, ray),
        0 <= near_root(s, ray) <= center_param(s, ray) <= far_root(s, ray),
        -1 <= near_root(s, ray) + far_root(s, ray) - 2 * center_param(s, ray) <= 1,
        within(near_root(s, ray), t_min, t_max) ==> s.intersect(ray, t_min, t_max) == Some(
            record_at(s, ray, near_numerator(s, ray), Fixed { raw: near_root(s, ray) as i64 }),
        ),
{
    lemma_lagrange(s, ray);
    lemma_discriminant(s, ray);
    let a = quad_a(ray);
    let hb = quad_half_b(s, ray);
    let o = origin_dist2(s, ray);
    let r2 = s.radius@ * s.radius@;
    let disc = discriminant(s, ray);
    assert(a >= 0) by {
        let d = ray.direction;
        assert(d.x@ * d.x@ >= 0 && d.y@ * d.y@ >= 0 && d.z@ * d.z@ >= 0) by (nonlinear_arith);
    }
    assert(a > 0 && r2 >= 0 && a * r2 >= 0 && a * r2 < hb * hb) by (nonlinear_arith)
        requires
            hb * hb == a * o,
            hb < 0,
            a >= 0,
            o - r2 > 0,
            r2 == s.radius@ * s.radius@,
    ;
    lemma_floor_sqrt(disc);
    let sq = floor_sqrt(disc);
    assert(sq < -hb) by (nonlinear_arith)
        requires
            0 <= sq,
            sq * sq <= disc,
            disc < hb * hb,
            hb < 0,
    ;
    let n1 = (-hb - sq) * ONE_RAW;
    let nc = -hb * ONE_RAW;
    let n2 = (-hb + sq) * ONE_RAW;
    lemma_tdiv_monotone(0, n1, a);
    lemma_tdiv_monotone(n1, nc, a);
    lemma_tdiv_monotone(nc, n2, a);
    assert(tdiv(0, a) == 0) by (nonlinear_arith)
        requires
            a > 0,
    ;
    assert(-1 <= n1 / a + n2 / a - 2 * (nc / a) <= 1) by (nonlinear_arith)
        requires
            a > 0,
            n1 >= 0,
            n2 >= 0,
            nc >= 0,
            n1 + n2 == 2 * nc,
    ;
}

/// Where `(O − C) × D` is zero, `O − C` and `D` lie on one line:
/// `((O − C)·D) D = (D·D) (O − C)`, component by component.
proof fn lemma_parallel_components(x: int, y: int, z: int, dx: int, dy: int, dz: int)
    requires
        cross_norm2(x, y, z, dx, dy, dz) == 0,
    ensures
        (x * dx + y * dy + z * dz) * dx == (dx * dx + dy * dy + dz * dz) * x,
        (x * dx + y * dy + z * dz) * dy == (dx * dx + dy * dy + dz * dz) * y,
        (x * dx + y * dy + z * dz) * dz == (dx * dx + dy * dy + dz * dz) * z,
{
    let (p, q, r) = (y * dz - z * dy, z * dx - x * dz, x * dy - y * dx);
    assert(p * p >= 0 && q * q >= 0 && r * r >= 0) by (nonlinear_arith);
    assert(p == 0 && q == 0 && r == 0) by (nonlinear_arith)
        requires
            p * p + q * q + r * r == 0,
            p * p >= 0,
            q * q >= 0,
            r * r >= 0,
    ;
    let (sx, sy, sz) = (x * dx, y * dy, z * dz);
    let (ax, ay, az) = (dx * dx, dy * dy, dz * dz);
    // along x
    lemma_parallel_term(y, dy, x, dx);
    lemma_parallel_term(z, dz, x, dx);
    assert((sx + sy + sz) * dx == sx * dx + sy * dx + sz * dx) by (nonlinear_arith);
    assert((ax + ay + az) * x == ax * x + ay * x + az * x) by (nonlinear_arith);
    assert(sx * dx == ax * x) by (nonlinear_arith)
        requires
            sx == x * dx,
            ax == dx * dx,
    ;
    // along y
    lemma_parallel_term(x, dx, y, dy);
    lemma_parallel_term(z, dz, y, dy);
    assert((sx + sy + sz) * dy == sx * dy + sy * dy + sz * dy) by (nonlinear_arith);
    assert((ax + ay + az) * y == ax * y + ay * y + az * y) by (nonlinear_arith);
    assert(sy * dy == ay * y) by (nonlinear_arith)
        requires
            sy == y * dy,
            ay == dy * dy,
    ;
    // along z
    lemma_parallel_term(x, dx, z, dz);
    lemma_parallel_term(y, dy, z, dz);
    assert((sx + sy + sz) * dz == sx * dz + sy * dz + sz * dz) by (nonlinear_arith);
    assert((ax + ay + az) * z == ax * z + ay * z + az * z) by (nonlinear_arith);
    assert(sz * dz == az * z) by (nonlinear_arith)
        requires
            sz == z * dz,
            az == dz * dz,
    ;
}

/// Where `x dz = z dx`, `(x dx) dz = (dx dx) z`.
proof fn lemma_parallel_term(x: int, dx: int, z: int, dz: int)
    requires
        x * dz == z * dx,
    ensures
        (x * dx) * dz == (dx * dx) * z,
{
    assert((x * dx) * dz == dx * (x * dz)) by (nonlinear_arith);
    assert(dx * (z * dx) == (dx * dx) * z) by (nonlinear_arith);
}

/// One component of the hit point against the exact point of the ray:
/// `oc`, `d` are the raw components of `O − C` and `D`, `num / a` the root.
/// With `big = a (O − C) + num D`, the component `e` of `p − C` has
/// `a e` within `a` of `big`.
proof fn lemma_point_component(oc: int, d: int, num: int, a: int) -> (e: int)
    requires
        a > 0,
    ensures
        e == oc + tdiv(d * num, a),
        (e * e) * (a * a) >= (oc * a + d * num) * (oc * a + d * num) - 2 * (magnitude(
            oc * a + d * num,
        ) * a),
        (e * e) * (a * a) <= (oc * a + d * num) * (oc * a + d * num) + 2 * (magnitude(
            oc * a + d * num,
        ) * a) + a * a,
{
    let m = tdiv(d * num, a);
    lemma_tdiv_remainder(d * num, a);
    let rho = d * num - m * a;
    let e = oc + m;
    let big = oc * a + d * num;
    let mb = magnitude(big);
    assert(e * a == big - rho) by (nonlinear_arith)
        requires
            e == oc + m,
            big == oc * a + d * num,
            rho == d * num - m * a,
    ;
    assert((e * e) * (a * a) == big * big - 2 * (big * rho) + rho * rho) by (nonlinear_arith)
        requires
            e * a == big - rho,
    ;
    assert(-(mb * a) <= big * rho <= mb * a) by (nonlinear_arith)
        requires
            -a < rho < a,
            mb >= 0,
            mb == big || mb == -big,
    ;
    assert(0 <= rho * rho <= a * a) by (nonlinear_arith)
        requires
            -a < rho < a,
    ;
    e
}

/// The point at either root lies on the sphere, up to rounding, whatever
/// the length of the direction; it is not the centre, and neither it nor
/// its offset from the centre is touched by saturation.
pub proof fn lemma_point_on_sphere(s: Sphere, ray: Ray, num: int)
    requires
        s.wf(),
        ray.wf(),
        quad_a(ray) > 0,
        discriminant(s, ray) >= 0,
        num == near_numerator(s, ray) || num == far_numerator(s, ray),
    ensures
        ({
            let p = point_at(ray, num);
            let e = p.spec_sub(s.center);
            &&& p.wf()
            &&& p.x@ == ray.origin.x@ + tdiv(ray.direction.x@ * num, quad_a(ray))
            &&& p.y@ == ray.origin.y@ + tdiv(ray.direction.y@ * num, quad_a(ray))
            &&& p.z@ == ray.origin.z@ + tdiv(ray.direction.z@ * num, quad_a(ray))
            &&& e.x@ == p.x@ - s.center.x@
            &&& e.y@ == p.y@ - s.center.y@
            &&& e.z@ == p.z@ - s.center.z@
            &&& norm2(e) == dist2(s, p)
            &&& norm2(e) > 0
            &&& on_sphere(s, p)
        }),
{
    let a = quad_a(ray);
    let hb = quad_half_b(s, ray);
    let disc = discriminant(s, ray);
    let sq = floor_sqrt(disc);
    let r = magnitude(s.radius@);
    let r2 = s.radius@ * s.radius@;
    let (x, y, z) = (
        ray.origin.x@ - s.center.x@,
        ray.origin.y@ - s.center.y@,
        ray.origin.z@ - s.center.z@,
    );
    let (dx, dy, dz) = (ray.direction.x@, ray.direction.y@, ray.direction.z@);
    let o2 = origin_dist2(s, ray);
    lemma_floor_sqrt(disc);
    lemma_discriminant(s, ray);
    lemma_lagrange_identity(x, y, z, dx, dy, dz);
    let ex = lemma_point_component(x, dx, num, a);
    let ey = lemma_point_component(y, dy, num, a);
    let ez = lemma_point_component(z, dz, num, a);
    let (bx, by, bz) = (x * a + dx * num, y * a + dy * num, z * a + dz * num);
    let (mx, my, mz) = (magnitude(bx), magnitude(by), magnitude(bz));
    let sum_b = bx * bx + by * by + bz * bz;
    let sum_m = mx + my + mz;
    let sum_e = ex * ex + ey * ey + ez * ez;
    let a2 = a * a;
    // the exact point: Σ big² = a (a r² − (Δ − √Δ²))
    lemma_big_square(x, dx, a, num);
    lemma_big_square(y, dy, a, num);
    lemma_big_square(z, dz, a, num);
    let k = a * num;
    let nn = num * num;
    assert(a2 * (x * x) + a2 * (y * y) + a2 * (z * z) == a2 * o2) by (nonlinear_arith)
        requires
            o2 == x * x + y * y + z * z,
    ;
    assert(k * (x * dx) + k * (y * dy) + k * (z * dz) == k * hb) by (nonlinear_arith)
        requires
            hb == x * dx + y * dy + z * dz,
    ;
    assert(nn * (dx * dx) + nn * (dy * dy) + nn * (dz * dz) == nn * a) by (nonlinear_arith)
        requires
            a == dx * dx + dy * dy + dz * dz,
    ;
    assert(sum_b == a2 * o2 + 2 * (k * hb) + nn * a);
    assert((num + hb) * (num + hb) == sq * sq) by (nonlinear_arith)
        requires
            num + hb == sq || num + hb == -sq,
    ;
    let g = disc - sq * sq;
    assert((sq + 1) * (sq + 1) == sq * sq + 2 * sq + 1) by (nonlinear_arith);
    assert(0 <= g <= 2 * sq);
    assert(r2 == r * r) by (nonlinear_arith)
        requires
            r == s.radius@ || r == -s.radius@,
            r2 == s.radius@ * s.radius@,
    ;
    let (ao2, ar2, nh) = (a * o2, a * r2, num * hb);
    assert((num + hb) * (num + hb) == nn + 2 * nh + hb * hb) by (nonlinear_arith)
        requires
            nn == num * num,
            nh == num * hb,
    ;
    assert(a * (o2 - r2) == ao2 - ar2) by (nonlinear_arith)
        requires
            ao2 == a * o2,
            ar2 == a * r2,
    ;
    let j = ao2 + 2 * nh + nn;
    assert(j == ar2 - g);
    assert(a2 * o2 == a * ao2 && k * hb == a * nh && a * ar2 == a2 * r2) by (nonlinear_arith)
        requires
            a2 == a * a,
            ao2 == a * o2,
            ar2 == a * r2,
            k == a * num,
            nh == num * hb,
    ;
    assert(a * j == a * ao2 + 2 * (a * nh) + nn * a) by (nonlinear_arith)
        requires
            j == ao2 + 2 * nh + nn,
    ;
    assert(a * j == a * ar2 - a * g) by (nonlinear_arith)
        requires
            j == ar2 - g,
    ;
    assert(sum_b == a2 * r2 - a * g);
    // √Δ ≤ a |r|
    assert(disc <= a * r2);
    assert(sq <= a * r) by (nonlinear_arith)
        requires
            sq >= 0,
            sq * sq <= a * r2,
            r2 == r * r,
            a >= 1,
            r >= 0,
    ;
    assert(0 <= a * g <= 2 * (a2 * r)) by (nonlinear_arith)
        requires
            0 <= g <= 2 * sq,
            sq <= a * r,
            a >= 1,
            a2 == a * a,
    ;
    // Σ |big| ≤ 2 a |r|
    assert(sum_m * sum_m <= 3 * sum_b) by (nonlinear_arith)
        requires
            sum_m == mx + my + mz,
            sum_b == bx * bx + by * by + bz * bz,
            mx == bx || mx == -bx,
            my == by || my == -by,
            mz == bz || mz == -bz,
    ;
    assert(sum_m <= 2 * (a * r)) by (nonlinear_arith)
        requires
            sum_m >= 0,
            sum_m * sum_m <= 3 * sum_b,
            sum_b <= a2 * r2,
            a2 == a * a,
            r2 == r * r,
            a >= 1,
            r >= 0,
    ;
    assert(sum_e * a2 == (ex * ex) * a2 + (ey * ey) * a2 + (ez * ez) * a2) by (nonlinear_arith)
        requires
            sum_e == ex * ex + ey * ey + ez * ez,
    ;
    assert(2 * (mx * a) + 2 * (my * a) + 2 * (mz * a) == 2 * (sum_m * a)) by (nonlinear_arith)
        requires
            sum_m == mx + my + mz,
    ;
    assert(sum_m * a <= 2 * (a2 * r)) by (nonlinear_arith)
        requires
            0 <= sum_m <= 2 * (a * r),
            a >= 1,
            a2 == a * a,
    ;
    assert(sum_b - 4 * (a2 * r) <= sum_e * a2 <= sum_b + 4 * (a2 * r) + 3 * a2);
    assert(a2 >= 1) by (nonlinear_arith)
        requires
            a >= 1,
            a2 == a * a,
    ;
    assert(r2 - 6 * r <= sum_e <= r2 + 4 * r + 3) by (nonlinear_arith)
        requires
            a2 * r2 - 6 * (a2 * r) <= sum_e * a2 <= a2 * r2 + 4 * (a2 * r) + 3 * a2,
            a2 >= 1,
    ;
    // no component leaves the range
    assert(r >= 8 && r2 >= 8 * r) by (nonlinear_arith)
        requires
            r >= 8,
            r2 == r * r,
    ;
    assert(sum_e > 0);
    lemma_component_within(ex, ey, ez, r);
    lemma_component_within(ey, ez, ex, r);
    lemma_component_within(ez, ex, ey, r);
}

/// The square of `x a + d n`, written out.
proof fn lemma_big_square(x: int, d: int, a: int, n: int)
    ensures
        (x * a + d * n) * (x * a + d * n) == (a * a) * (x * x) + 2 * ((a * n) * (x * d)) + (n * n)
            * (d * d),
{
    let (p, q) = (x * a, d * n);
    assert((p + q) * (p + q) == p * p + 2 * (p * q) + q * q) by (nonlinear_arith);
    assert((x * a) * (x * a) == (a * a) * (x * x)) by (nonlinear_arith);
    assert((d * n) * (d * n) == (n * n) * (d * d)) by (nonlinear_arith);
    assert((x * a) * (d * n) == (a * n) * (x * d)) by (nonlinear_arith);
}

/// A component of a vector whose squared length is at most
/// `r² + 4 r + 3` is at most `r + 2` in magnitude.
proof fn lemma_component_within(e: int, f: int, g: int, r: int)
    requires
        r >= 0,
        e * e + f * f + g * g <= r * r + 4 * r + 3,
    ensures
        -(r + 2) <= e <= r + 2,
{
    assert(-(r + 2) <= e <= r + 2) by (nonlinear_arith)
        requires
            r >= 0,
            e * e + f * f + g * g <= r * r + 4 * r + 3,
    ;
}

/// The outward normal at a point that is not the centre has length one,
/// and so has the normal that a hit record keeps.
pub proof fn lemma_outward_is_unit(s: Sphere, ray: Ray, p: Vec3, t: Fixed)
    requires
        p.spec_sub(s.center).wf(),
        norm2(p.spec_sub(s.center)) > 0,
    ensures
        is_unit(outward_at(s, p)),
        is_unit(HitRecord::spec_new(ray, p, t, outward_at(s, p)).normal),
{
    let u = spec_unit_vector(p.spec_sub(s.center));
    lemma_unit_vector_is_unit(p.spec_sub(s.center));
    lemma_negate_is_unit(u);
    lemma_negate_is_unit(outward_at(s, p));
}

/// Every point that `hit` reports lies on the sphere up to rounding, and
/// every normal has length one, whatever the length of the ray's direction.
/// The parameter lies strictly inside the interval and the normal opposes
/// the ray.
pub proof fn lemma_hit_on_sphere(s: Sphere, ray: Ray, t_min: Fixed, t_max: Fixed)
    requires
        s.wf(),
        ray.wf(),
        t_min.wf(),
        t_max.wf(),
    ensures
        s.intersect(ray, t_min, t_max) matches Some(h) ==> {
            &&& h.wf()
            &&& t_min@ < h.t@ < t_max@
            &&& on_sphere(s, h.p)
            &&& is_unit(h.normal)
            &&& is_unit(h.spec_outward_normal())
            &&& dot_int(h.normal, ray.direction) <= 0
        },
{
    if let Some(h) = s.intersect(ray, t_min, t_max) {
        lemma_norm2_bound(ray.direction);
        let num = if within(near_root(s, ray), t_min, t_max) {
            near_numerator(s, ray)
        } else {
            far_numerator(s, ray)
        };
        lemma_point_on_sphere(s, ray, num);
        let p = point_at(ray, num);
        lemma_outward_is_unit(s, ray, p, h.t);
        let outward = outward_at(s, p);
        lemma_negate_flips_dot(outward, ray.direction);
        lemma_dot_commutes(outward, ray.direction);
        lemma_negate_is_unit(h.normal);
    }
}

/// One component of the hit point against the ray at the rounded
/// parameter: `d num / a` and `d t`, with `t = 65536 num / a` rounded,
/// differ by less than `2 + |d| / 65536`.
proof fn lemma_point_follows_parameter(d: int, num: int, a: int)
    requires
        a > 0,
    ensures
        65536 * magnitude(
            tdiv(d * num, a) - tdiv(d * tdiv(num * 65536, a), 65536),
        ) < 2 * 65536 + magnitude(d),
{
    let t = tdiv(num * 65536, a);
    let m = tdiv(d * num, a);
    let at = tdiv(d * t, 65536);
    lemma_tdiv_remainder(d * num, a);
    lemma_tdiv_remainder(num * 65536, a);
    lemma_tdiv_remainder(d * t, 65536);
    let r1 = d * num - m * a;
    let th = num * 65536 - t * a;
    let r2 = d * t - at * 65536;
    let md = magnitude(d);
    let diff = m - at;
    assert((a * 65536) * diff == -(r1 * 65536) + d * th + a * r2) by (nonlinear_arith)
        requires
            diff == m - at,
            r1 == d * num - m * a,
            th == num * 65536 - t * a,
            r2 == d * t - at * 65536,
    ;
    assert(-(md * a) <= d * th <= md * a) by (nonlinear_arith)
        requires
            -a < th < a,
            md >= 0,
            md == d || md == -d,
    ;
    assert(-(a * 65536) < a * r2 < a * 65536) by (nonlinear_arith)
        requires
            -65536 < r2 < 65536,
            a > 0,
    ;
    assert(-(a * 65536) < r1 * 65536 < a * 65536);
    let bound = 2 * 65536 + md;
    assert(a * bound == 2 * (a * 65536) + md * a) by (nonlinear_arith)
        requires
            bound == 2 * 65536 + md,
    ;
    assert(-(a * bound) < (a * 65536) * diff < a * bound);
    assert(-bound < 65536 * diff < bound) by (nonlinear_arith)
        requires
            -(a * bound) < (a * 65536) * diff < a * bound,
            a > 0,
    ;
}

/// The reported point is the point of the ray at the reported parameter, up
/// to rounding: in each component it differs from `O + t D` by less than
/// two raw units plus the direction's component over 65536.
pub proof fn lemma_point_on_ray(s: Sphere, ray: Ray, t_min: Fixed, t_max: Fixed)
    requires
        s.wf(),
        ray.wf(),
        t_min.wf(),
        t_max.wf(),
    ensures
        s.intersect(ray, t_min, t_max) matches Some(h) ==> {
            &&& 65536 * magnitude(
                h.p.x@ - (ray.origin.x@ + tdiv(ray.direction.x@ * h.t@, 65536)),
            ) < 2 * 65536 + magnitude(ray.direction.x@)
            &&& 65536 * magnitude(
                h.p.y@ - (ray.origin.y@ + tdiv(ray.direction.y@ * h.t@, 65536)),
            ) < 2 * 65536 + magnitude(ray.direction.y@)
            &&& 65536 * magnitude(
                h.p.z@ - (ray.origin.z@ + tdiv(ray.direction.z@ * h.t@, 65536)),
            ) < 2 * 65536 + magnitude(ray.direction.z@)
        },
{
    if let Some(h) = s.intersect(ray, t_min, t_max) {
        lemma_norm2_bound(ray.direction);
        let a = quad_a(ray);
        let num = if within(near_root(s, ray), t_min, t_max) {
            near_numerator(s, ray)
        } else {
            far_numerator(s, ray)
        };
        lemma_point_on_sphere(s, ray, num);
        assert(h.t@ == tdiv(num * 65536, a));
        lemma_point_follows_parameter(ray.direction.x@, num, a);
        lemma_point_follows_parameter(ray.direction.y@, num, a);
        lemma_point_follows_parameter(ray.direction.z@, num, a);
    }
}

/// One component of the hit of a ray that aims at the centre: `oc` and `d`
/// are the raw components of `O − C` and `D`, and `num / a` is the root
/// before the centre. The point stays between origin and centre, so the
/// component `e` of `p − C` does not point along `d`.
proof fn lemma_toward_center_component(oc: int, d: int, num: int, hb: int, a: int) -> (e: int)
    requires
        a > 0,
        hb < 0,
        0 < num <= -hb,
        hb * d == a * oc,
    ensures
        e == oc + tdiv(d * num, a),
        d > 0 ==> oc <= e <= 0,
        d < 0 ==> 0 <= e <= oc,
        d == 0 ==> e == 0 && oc == 0,
{
    let m = tdiv(d * num, a);
    if d > 0 {
        assert(oc < 0) by (nonlinear_arith)
            requires
                hb * d == a * oc,
                hb < 0,
                d > 0,
                a > 0,
        ;
        assert(0 * a <= d * num <= (-oc) * a) by (nonlinear_arith)
            requires
                hb * d == a * oc,
                0 < num <= -hb,
                d > 0,
                a > 0,
        ;
        lemma_tdiv_between(d * num, a, 0, -oc);
    } else if d < 0 {
        assert(oc > 0) by (nonlinear_arith)
            requires
                hb * d == a * oc,
                hb < 0,
                d < 0,
                a > 0,
        ;
        assert((-oc) * a <= d * num <= 0 * a) by (nonlinear_arith)
            requires
                hb * d == a * oc,
                0 < num <= -hb,
                d < 0,
                a > 0,
        ;
        lemma_tdiv_between(d * num, a, -oc, 0);
    } else {
        assert(oc == 0) by (nonlinear_arith)
            requires
                hb * d == a * oc,
                d == 0,
                a > 0,
        ;
        assert(d * num == 0) by (nonlinear_arith)
            requires
                d == 0,
        ;
        assert(0 * a == 0);
        lemma_tdiv_between(d * num, a, 0, 0);
    }
    oc + m
}

/// A component of the normal does not point along the component of the
/// direction, where the offset from the centre does not.
proof fn lemma_opposed_term(d: int, e: int, w: int)
    requires
        d > 0 ==> e <= 0,
        d < 0 ==> e >= 0,
        d == 0 ==> e == 0,
        e >= 0 ==> w >= 0,
        e <= 0 ==> w <= 0,
    ensures
        d * w <= 0,
        d * w == 0 ==> w == 0,
{
    assert(d * w <= 0 && (d * w == 0 ==> w == 0)) by (nonlinear_arith)
        requires
            d > 0 ==> w <= 0,
            d < 0 ==> w >= 0,
            d == 0 ==> w == 0,
    ;
}

/// `p` lies between `o` and `c`, ends included.
pub open spec fn between(o: int, p: int, c: int) -> bool {
    o <= p <= c || c <= p <= o
}

/// A ray that starts outside a sphere of positive radius and points
/// straight at its centre hits the front: where the nearer root lies inside
/// the interval, `hit` reports it. The point lies on the sphere and, in
/// every component, between the origin and the centre, so it is the point
/// of the sphere nearest to the origin. The record's `front_face` is true.
pub proof fn lemma_hit_toward_center_is_front_face(
    s: Sphere,
    ray: Ray,
    t_min: Fixed,
    t_max: Fixed,
)
    requires
        s.wf(),
        s.radius@ > 0,
        ray.wf(),
        t_min.wf(),
        t_max.wf(),
        moment2(s, ray) == 0,
        quad_half_b(s, ray) < 0,
        quad_c(s, ray) > 0,
        within(near_root(s, ray), t_min, t_max),
    ensures
        s.intersect(ray, t_min, t_max) matches Some(h) && {
            &&& h.front_face
            &&& h.t@ == near_root(s, ray)
            &&& h.p == point_at(ray, near_numerator(s, ray))
            &&& on_sphere(s, h.p)
            &&& between(ray.origin.x@, h.p.x@, s.center.x@)
            &&& between(ray.origin.y@, h.p.y@, s.center.y@)
            &&& between(ray.origin.z@, h.p.z@, s.center.z@)
            &&& is_unit(h.normal)
            &&& h.spec_outward_normal() == h.normal
        },
{
    lemma_ray_toward_center(s, ray, t_min, t_max);
    lemma_hit_on_sphere(s, ray, t_min, t_max);
    let (ox, oy, oz) = (ray.origin.x@, ray.origin.y@, ray.origin.z@);
    let (cx, cy, cz) = (s.center.x@, s.center.y@, s.center.z@);
    let (dx, dy, dz) = (ray.direction.x@, ray.direction.y@, ray.direction.z@);
    let a = quad_a(ray);
    let hb = quad_half_b(s, ray);
    let num = near_numerator(s, ray);
    lemma_parallel_components(ox - cx, oy - cy, oz - cz, dx, dy, dz);
    lemma_point_on_sphere(s, ray, num);
    let p = point_at(ray, num);
    let e = p.spec_sub(s.center);
    let ex = lemma_toward_center_component(ox - cx, dx, num, hb, a);
    let ey = lemma_toward_center_component(oy - cy, dy, num, hb, a);
    let ez = lemma_toward_center_component(oz - cz, dz, num, hb, a);
    assert(e.x@ == ex && e.y@ == ey && e.z@ == ez);
    let w = spec_unit_vector(e);
    lemma_unit_vector_sign(e);
    lemma_unit_vector_is_unit(e);
    lemma_opposed_term(dx, ex, w.x@);
    lemma_opposed_term(dy, ey, w.y@);
    lemma_opposed_term(dz, ez, w.z@);
    assert(p.x@ == cx + ex && p.y@ == cy + ey && p.z@ == cz + ez);
    let along = dot_int(ray.direction, w);
    assert(along <= 0);
    if along == 0 {
        assert(w.x@ == 0 && w.y@ == 0 && w.z@ == 0);
        assert(norm2(w) == 0);
    }
}

/// What `hit` reports is the record at one of the two roots: the parameter
/// is the rounded root, the point is the point of the ray at the root, and
/// the outward normal is the unit vector from the centre to the point,
/// turned round where the radius is negative.
pub proof fn lemma_intersect_within(s: Sphere, ray: Ray, t_min: Fixed, t_max: Fixed)
    requires
        t_min.wf(),
        t_max.wf(),
    ensures
        s.intersect(ray, t_min, t_max) matches Some(h) ==> {
            &&& t_min@ < h.t@ < t_max@
            &&& h.t@ == near_root(s, ray) || h.t@ == far_root(s, ray)
            &&& h.p == point_at(ray, near_numerator(s, ray)) || h.p == point_at(
                ray,
                far_numerator(s, ray),
            )
            &&& h.spec_outward_normal() == outward_at(s, h.p)
        },
{
    if let Some(h) = s.intersect(ray, t_min, t_max) {
        let u = spec_unit_vector(h.p.spec_sub(s.center));
        assert(u.wf());
        lemma_negate_flips_dot(u, ray.direction);
        let outward = outward_at(s, h.p);
        lemma_negate_flips_dot(outward, ray.direction);
        lemma_negate_flips_dot(outward.spec_negate(), ray.direction);
    }
}

impl Geometry for Sphere {
    /// The centre and the radius are well-formed, the radius is at least
    /// `MIN_RADIUS_RAW` in magnitude, and the whole sphere lies inside the
    /// range of well-formed points, with a margin of two raw units.
    open spec fn wf(&self) -> bool {
        &&& self.center.wf()
        &&& self.radius.wf()
        &&& magnitude(self.radius@) >= MIN_RADIUS_RAW
        &&& spec_fits(self.center.x, magnitude(self.radius@))
        &&& spec_fits(self.center.y, magnitude(self.radius@))
        &&& spec_fits(self.center.z, magnitude(self.radius@))
    }

    /// The hit at the smallest root of `|O + tD − C|² = r²` strictly inside
    /// the interval. A ray without direction meets nothing.
    open spec fn intersect(&self, ray: Ray, t_min: Fixed, t_max: Fixed) -> Option<HitRecord> {
        if quad_a(ray) == 0 || discriminant(*self, ray) < 0 {
            None
        } else if within(near_root(*self, ray), t_min, t_max) {
            Some(
                record_at(
                    *self,
                    ray,
                    near_numerator(*self, ray),
                    Fixed { raw: near_root(*self, ray) as i64 },
                ),
            )
        } else if within(far_root(*self, ray), t_min, t_max) {
            Some(
                record_at(
                    *self,
                    ray,
                    far_numerator(*self, ray),
                    Fixed { raw: far_root(*self, ray) as i64 },
                ),
            )
        } else {
            None
        }
    }

    /// The smaller root is tried first, so a lower bound on the far side
    /// cannot bring up the larger one.
    proof fn lemma_narrow(&self, ray: Ray, t_min: Fixed, t_max: Fixed, bound: Fixed) {
        if quad_a(ray) != 0 && discriminant(*self, ray) >= 0 {
            lemma_norm2_bound(ray.direction);
            lemma_roots_ordered(*self, ray);
        }
    }

    /// Solves the quadratic without rounding and reports the smallest root
    /// strictly inside the interval. The point is taken from the root
    /// before it is rounded, so it lies on the sphere whatever the length of
    /// the direction.
    fn hit(&self, ray: &Ray, t_min: Fixed, t_max: Fixed) -> (r: Option<HitRecord>)
        ensures
            r matches Some(h) ==> on_sphere(*self, h.p) && is_unit(h.spec_outward_normal())
                && h.spec_outward_normal() == outward_at(*self, h.p),
    {
        let d = ray.direction;
        let ocx: i128 = ray.origin.x.raw as i128 - self.center.x.raw as i128;
        let ocy: i128 = ray.origin.y.raw as i128 - self.center.y.raw as i128;
        let ocz: i128 = ray.origin.z.raw as i128 - self.center.z.raw as i128;
        let rad: i128 = self.radius.raw as i128;
        proof {
            lemma_norm2_bound(d);
            lemma_product_bound(ocx as int, d.x@, 0x8000_0000, 0x4000_0000);
            lemma_product_bound(ocy as int, d.y@, 0x8000_0000, 0x4000_0000);
            lemma_product_bound(ocz as int, d.z@, 0x8000_0000, 0x4000_0000);
            lemma_product_bound(ocx as int, ocx as int, 0x8000_0000, 0x8000_0000);
            lemma_product_bound(ocy as int, ocy as int, 0x8000_0000, 0x8000_0000);
            lemma_product_bound(ocz as int, ocz as int, 0x8000_0000, 0x8000_0000);
            lemma_product_bound(rad as int, rad as int, 0x4000_0000, 0x4000_0000);
            assert(ocx * ocx >= 0 && ocy * ocy >= 0 && ocz * ocz >= 0 && rad * rad >= 0)
                by (nonlinear_arith);
        }
        let a: i128 = dot_wide(d, d);
        let half_b: i128 = ocx * d.x.raw as i128 + ocy * d.y.raw as i128 + ocz * d.z.raw as i128;
        let c: i128 = ocx * ocx + ocy * ocy + ocz * ocz - rad * rad;
        if a == 0 {
            return None;
        }
        proof {
            lemma_product_bound(
                half_b as int,
                half_b as int,
                0x6000_0000_0000_0000,
                0x6000_0000_0000_0000,
            );
            lemma_product_bound(a as int, c as int, 0x3000_0000_0000_0000, 0xC000_0000_0000_0000);
        }
        let discriminant: i128 = half_b * half_b - a * c;
        if discriminant < 0 {
            return None;
        }
        let sqrtd: i128 = isqrt(discriminant as u128) as i128;
        let mut num: i128 = -half_b - sqrtd;
        let mut root: i128 = div_trunc(num * 65536, a);
        if root <= t_min.raw as i128 || root >= t_max.raw as i128 {
            num = -half_b + sqrtd;
            root = div_trunc(num * 65536, a);
            if root <= t_min.raw as i128 || root >= t_max.raw as i128 {
                return None;
            }
        }
        proof {
            lemma_hit_on_sphere(*self, *ray, t_min, t_max);
            lemma_point_on_sphere(*self, *ray, num as int);
            lemma_product_bound(d.x@, num as int, 0x4000_0000, 0x2_0000_0000_0000_0000);
            lemma_product_bound(d.y@, num as int, 0x4000_0000, 0x2_0000_0000_0000_0000);
            lemma_product_bound(d.z@, num as int, 0x4000_0000, 0x2_0000_0000_0000_0000);
        }
        let t = Fixed { raw: root as i64 };
        let p = Vec3 {
            x: saturate(ray.origin.x.raw as i128 + div_trunc(d.x.raw as i128 * num, a)),
            y: saturate(ray.origin.y.raw as i128 + div_trunc(d.y.raw as i128 * num, a)),
            z: saturate(ray.origin.z.raw as i128 + div_trunc(d.z.raw as i128 * num, a)),
        };
        let unit = unit_vector(p.sub(self.center));
        let outward = if self.radius.raw > 0 {
            unit
        } else {
            unit.negate()
        };
        Some(HitRecord::new(ray, p, t, outward))
    }
}

} // verus!
