//! Why a dielectric whose refractive index is one leaves the direction of a
//! ray alone: the proof that the refracted ray runs along the unit direction
//! of the incoming one, up to rounding.

use vstd::prelude::*;
use crate::fixed::{
    Fixed, ONE_RAW, tdiv, floor_sqrt, lemma_floor_sqrt, lemma_sqrt_of_fraction, lemma_tdiv_between,
    lemma_tdiv_remainder,
};
use crate::vec3::{
    Vec3, dot_int, norm2, spec_dot, spec_unit_vector, is_unit, lemma_cauchy_schwarz,
    lemma_norm2_bound, lemma_unit_vector_is_unit, lemma_unit_vector_alignment,
    lemma_unit_vector_bounded,
};
use crate::base::{Ray, HitRecord, Geometry, lemma_negate_flips_dot, lemma_dot_commutes};
use crate::shapes::{Sphere, lemma_hit_on_sphere};
use crate::materials::{DielectricMaterial, spec_refract, lemma_mul_one};

verus! {

/// How far a component of the refracted direction may lie from the
/// component of the incoming unit direction, in raw units: about 0.02.
pub const STRAIGHT_TOLERANCE_RAW: i64 = 1386;

/// The capped cosine between a unit vector `u` and a unit normal `n` that
/// does not point along it: `c = min(−u·n, 1)`.
proof fn lemma_cosine(u: Vec3, n: Vec3) -> (c: int)
    requires
        is_unit(u),
        is_unit(n),
        dot_int(u, n) <= 3 * ONE_RAW,
    ensures
        c == spec_dot(u.spec_negate(), n).spec_min(Fixed { raw: ONE_RAW })@,
        -3 <= c <= ONE_RAW,
        -4 * ONE_RAW <= c * ONE_RAW + dot_int(u, n) <= 4 * ONE_RAW,
{
    lemma_negate_flips_dot(u, n);
    lemma_cauchy_schwarz(u, n);
    let e = dot_int(u, n);
    let d = -e;
    let (a, b) = (norm2(u), norm2(n));
    assert(a * b <= 4295163904 * 4295163904) by (nonlinear_arith)
        requires
            0 <= a <= 4295163904,
            0 <= b <= 4295163904,
    ;
    assert(d * d == e * e) by (nonlinear_arith)
        requires
            d == -e,
    ;
    assert(d <= 4295163904) by (nonlinear_arith)
        requires
            d * d <= 4295163904 * 4295163904,
    ;
    assert(4295163904 == (65536 + 3) * 65536);
    lemma_tdiv_between(d, 65536, -3, 65539);
    lemma_tdiv_remainder(d, 65536);
    let t = tdiv(d, 65536);
    if t <= 65536 {
        t
    } else {
        65536
    }
}

/// One component of the part of the refracted ray across the normal,
/// `r = u + c n`, against the exact value: with `g = u + c n` in units of
/// one over 65536², `r²` lies within `4/65536` of `g²`.
proof fn lemma_across_term(ui: int, ni: int, c: int) -> (r: int)
    requires
        -ONE_RAW <= ui <= ONE_RAW,
        -ONE_RAW <= ni <= ONE_RAW,
        -3 <= c <= ONE_RAW,
    ensures
        r == ui + tdiv(ni * c, ONE_RAW as int),
        -2 * ONE_RAW <= r <= 2 * ONE_RAW,
        -ONE_RAW <= tdiv(ni * c, ONE_RAW as int) <= ONE_RAW,
        (r * r) * 4294967296 >= 4294967296 * (ui * ui) + 131072 * (c * (ui * ni)) + (c * c) * (ni
            * ni) - 4 * 281474976710656,
        (r * r) * 4294967296 <= 4294967296 * (ui * ui) + 131072 * (c * (ui * ni)) + (c * c) * (ni
            * ni) + 4 * 281474976710656 + 4294967296,
{
    let nc = ni * c;
    assert(-65536 * 65536 <= nc <= 65536 * 65536) by (nonlinear_arith)
        requires
            nc == ni * c,
            -65536 <= ni <= 65536,
            -3 <= c <= 65536,
    ;
    let p = tdiv(nc, 65536);
    lemma_tdiv_between(nc, 65536, -65536, 65536);
    lemma_tdiv_remainder(nc, 65536);
    let r = ui + p;
    let eps = nc - p * 65536;
    let g = 65536 * ui + nc;
    assert(65536 * r == g - eps);
    assert(-2 * 4294967296 <= g <= 2 * 4294967296);
    assert((r * r) * 4294967296 == g * g - 2 * (g * eps) + eps * eps) by (nonlinear_arith)
        requires
            65536 * r == g - eps,
    ;
    assert(-2 * 281474976710656 <= g * eps <= 2 * 281474976710656) by (nonlinear_arith)
        requires
            -2 * 4294967296 <= g <= 2 * 4294967296,
            -65536 < eps < 65536,
    ;
    assert(0 <= eps * eps <= 4294967296) by (nonlinear_arith)
        requires
            -65536 < eps < 65536,
    ;
    assert(g * g == 4294967296 * (ui * ui) + 131072 * (c * (ui * ni)) + (c * c) * (ni * ni))
        by (nonlinear_arith)
        requires
            g == 65536 * ui + nc,
            nc == ni * c,
    ;
    r
}

/// The exact squared length `R` of the part across the normal is nearly
/// `1 − c²`.
proof fn lemma_across_length(u: Vec3, n: Vec3, c: int, rx: int, ry: int, rz: int)
    requires
        is_unit(u),
        is_unit(n),
        -3 <= c <= ONE_RAW,
        -4 * ONE_RAW <= c * ONE_RAW + dot_int(u, n) <= 4 * ONE_RAW,
        rx == u.x@ + tdiv(n.x@ * c, ONE_RAW as int),
        ry == u.y@ + tdiv(n.y@ * c, ONE_RAW as int),
        rz == u.z@ + tdiv(n.z@ * c, ONE_RAW as int),
    ensures
        4294967296 - c * c - 28 * 65536 - 10 <= rx * rx + ry * ry + rz * rz <= 4294967296 - c * c
            + 26 * 65536 + 3,
{
    let _ = lemma_across_term(u.x@, n.x@, c);
    let _ = lemma_across_term(u.y@, n.y@, c);
    let _ = lemma_across_term(u.z@, n.z@, c);
    let big = rx * rx + ry * ry + rz * rz;
    let (nu, nn, e) = (norm2(u), norm2(n), dot_int(u, n));
    let s2: int = 4294967296;
    let s3: int = 281474976710656;
    assert(big * s2 == (rx * rx) * s2 + (ry * ry) * s2 + (rz * rz) * s2) by (nonlinear_arith)
        requires
            big == rx * rx + ry * ry + rz * rz,
    ;
    let cc = c * c;
    assert(c * (u.x@ * n.x@) + c * (u.y@ * n.y@) + c * (u.z@ * n.z@) == c * e)
        by (nonlinear_arith)
        requires
            e == u.x@ * n.x@ + u.y@ * n.y@ + u.z@ * n.z@,
    ;
    assert(cc * (n.x@ * n.x@) + cc * (n.y@ * n.y@) + cc * (n.z@ * n.z@) == cc * nn)
        by (nonlinear_arith)
        requires
            nn == n.x@ * n.x@ + n.y@ * n.y@ + n.z@ * n.z@,
    ;
    let sum_g = s2 * nu + 131072 * (c * e) + cc * nn;
    assert(sum_g - 12 * s3 <= big * s2 <= sum_g + 12 * s3 + 3 * s2);
    // sum_g against 65536² (65536² − c²)
    let delta = -e - c * 65536;
    assert(-4 * 65536 <= delta <= 4 * 65536);
    assert(c * e == -(cc * 65536) - c * delta) by (nonlinear_arith)
        requires
            delta == -e - c * 65536,
            cc == c * c,
    ;
    assert(0 <= cc <= 4294967296) by (nonlinear_arith)
        requires
            cc == c * c,
            -3 <= c <= 65536,
    ;
    assert(-4 * 4294967296 <= c * delta <= 4 * 4294967296) by (nonlinear_arith)
        requires
            -3 <= c <= 65536,
            -4 * 65536 <= delta <= 4 * 65536,
    ;
    assert(cc * s2 - cc * (4 * 65536 + 5) <= cc * nn <= cc * s2 + cc * (3 * 65536))
        by (nonlinear_arith)
        requires
            cc >= 0,
            s2 - 4 * 65536 - 5 <= nn <= s2 + 3 * 65536,
            s2 == 4294967296,
    ;
    assert(cc * (4 * 65536 + 5) <= s2 * (4 * 65536 + 5) && cc * (3 * 65536) <= s2 * (3 * 65536))
        by (nonlinear_arith)
        requires
            0 <= cc <= s2,
            s2 == 4294967296,
    ;
    assert(s2 * (s2 - 4 * 65536 - 5) <= s2 * nu <= s2 * (s2 + 3 * 65536)) by (nonlinear_arith)
        requires
            s2 - 4 * 65536 - 5 <= nu <= s2 + 3 * 65536,
            s2 == 4294967296,
    ;
    assert(131072 * (c * e) == -(2 * (cc * s2)) - 131072 * (c * delta)) by (nonlinear_arith)
        requires
            c * e == -(cc * 65536) - c * delta,
            s2 == 4294967296,
    ;
    let target = s2 * s2 - cc * s2;
    assert(target - 16 * s3 - 10 * s2 <= sum_g <= target + 14 * s3);
    assert(target == (s2 - cc) * s2) by (nonlinear_arith)
        requires
            target == s2 * s2 - cc * s2,
            s2 == 4294967296,
    ;
    assert(s2 - cc - 28 * 65536 - 10 <= big <= s2 - cc + 26 * 65536 + 3) by (nonlinear_arith)
        requires
            (s2 - cc) * s2 - 28 * s3 - 10 * s2 <= big * s2 <= (s2 - cc) * s2 + 26 * s3 + 3 * s2,
            s2 == 4294967296,
            s3 == 281474976710656,
    ;
}

/// The length `q` of the part along the normal is nearly the cosine: with
/// `R` the exact squared length of the part across, `q = √(1 − R)` differs
/// from `|c|` by at most 1379 raw units.
proof fn lemma_along_length(big: int, c: int) -> (q: int)
    requires
        -3 <= c <= ONE_RAW,
        0 <= big,
        4294967296 - c * c - 28 * 65536 - 10 <= big <= 4294967296 - c * c + 26 * 65536 + 3,
    ensures
        ({
            let w = ONE_RAW - tdiv(big, ONE_RAW as int);
            q == floor_sqrt((if w < 0 { 0 } else { w }) * ONE_RAW)
        }),
        -65536 <= ONE_RAW - tdiv(big, ONE_RAW as int) <= 65536,
        0 <= q <= 65536 + 1379,
        -1379 <= q - c <= 1379 + 6,
{
    let cc = c * c;
    assert(0 <= cc <= 4294967296) by (nonlinear_arith)
        requires
            cc == c * c,
            -3 <= c <= 65536,
    ;
    lemma_tdiv_remainder(big, 65536);
    let w = 65536 - tdiv(big, 65536);
    let a = (if w < 0 {
        0
    } else {
        w
    }) * 65536;
    assert(w * 65536 == 4294967296 - tdiv(big, 65536) * 65536);
    assert(cc - 26 * 65536 - 3 <= w * 65536 <= cc + 29 * 65536 + 10);
    assert(0 <= a <= cc + 29 * 65536 + 10 && a >= cc - 26 * 65536 - 3);
    lemma_floor_sqrt(a);
    let q = floor_sqrt(a);
    let ac = if c >= 0 {
        c
    } else {
        -c
    };
    assert(ac * ac == cc) by (nonlinear_arith)
        requires
            ac == c || ac == -c,
            cc == c * c,
    ;
    assert(q <= ac + 1379) by (nonlinear_arith)
        requires
            q >= 0,
            ac >= 0,
            q * q <= ac * ac + 29 * 65536 + 10,
    ;
    assert(q >= ac - 1379) by (nonlinear_arith)
        requires
            q >= 0,
            ac >= 0,
            (q + 1) * (q + 1) > ac * ac - 26 * 65536 - 3,
    ;
    q
}

/// One component of the refracted direction: the two parts together differ
/// from the incoming component by the normal's component times `c − q`.
proof fn lemma_straight_term(ui: int, ni: int, c: int, q: int)
    requires
        -ONE_RAW <= ui <= ONE_RAW,
        -ONE_RAW <= ni <= ONE_RAW,
        -3 <= c <= ONE_RAW,
        0 <= q <= 65536 + 1379,
        -1379 <= q - c <= 1379 + 6,
    ensures
        -(65536 + 1379) <= tdiv(ni * (-q), ONE_RAW as int) <= 65536 + 1379,
        -STRAIGHT_TOLERANCE_RAW <= tdiv(ni * c, ONE_RAW as int) + tdiv(ni * (-q), ONE_RAW as int)
            <= STRAIGHT_TOLERANCE_RAW,
{
    let nc = ni * c;
    let nq = ni * (-q);
    lemma_tdiv_remainder(nc, 65536);
    lemma_tdiv_remainder(nq, 65536);
    assert(-(65536 + 1379) * 65536 <= nq <= (65536 + 1379) * 65536) by (nonlinear_arith)
        requires
            nq == ni * (-q),
            -65536 <= ni <= 65536,
            0 <= q <= 65536 + 1379,
    ;
    lemma_tdiv_between(nq, 65536, -66915, 66915);
    assert(-1385 * 65536 <= nc + nq <= 1385 * 65536) by (nonlinear_arith)
        requires
            nc == ni * c,
            nq == ni * (-q),
            -65536 <= ni <= 65536,
            -1385 <= c - q <= 1385,
    ;
}

/// The refracted direction for an index ratio of one: each component lies
/// within the tolerance of the component of the incoming unit direction `u`,
/// where `n` is a unit normal that does not point along `u`.
pub proof fn lemma_refract_straight(u: Vec3, n: Vec3)
    requires
        is_unit(u),
        is_unit(n),
        dot_int(u, n) <= 3 * ONE_RAW,
    ensures
        ({
            let out = spec_refract(u, n, Fixed { raw: ONE_RAW });
            &&& -STRAIGHT_TOLERANCE_RAW <= out.x@ - u.x@ <= STRAIGHT_TOLERANCE_RAW
            &&& -STRAIGHT_TOLERANCE_RAW <= out.y@ - u.y@ <= STRAIGHT_TOLERANCE_RAW
            &&& -STRAIGHT_TOLERANCE_RAW <= out.z@ - u.z@ <= STRAIGHT_TOLERANCE_RAW
        }),
{
    let one = Fixed { raw: ONE_RAW };
    let c = lemma_cosine(u, n);
    let cos_theta = spec_dot(u.spec_negate(), n).spec_min(one);
    assert(cos_theta@ == c);
    let rx = lemma_across_term(u.x@, n.x@, c);
    let ry = lemma_across_term(u.y@, n.y@, c);
    let rz = lemma_across_term(u.z@, n.z@, c);
    let inner = u.spec_add(n.spec_scale(cos_theta));
    assert(inner.x@ == rx && inner.y@ == ry && inner.z@ == rz);
    lemma_mul_one(inner.x);
    lemma_mul_one(inner.y);
    lemma_mul_one(inner.z);
    let r_perp = inner.spec_scale(one);
    assert(r_perp == inner);
    lemma_across_length(u, n, c, rx, ry, rz);
    let big = norm2(r_perp);
    assert(big == rx * rx + ry * ry + rz * rz);
    assert(rx * rx >= 0 && ry * ry >= 0 && rz * rz >= 0) by (nonlinear_arith);
    let q = lemma_along_length(big, c);
    let len2 = r_perp.spec_len_squared();
    assert(len2@ == tdiv(big, ONE_RAW as int)) by {
        lemma_tdiv_remainder(big, 65536);
    }
    let w = one.spec_sub(len2);
    assert(w@ == ONE_RAW - tdiv(big, ONE_RAW as int));
    let root = w.spec_sqrt();
    assert(root@ == q);
    let along = root.spec_neg();
    assert(along@ == -q);
    lemma_straight_term(u.x@, n.x@, c, q);
    lemma_straight_term(u.y@, n.y@, c, q);
    lemma_straight_term(u.z@, n.z@, c, q);
    let r_parallel = n.spec_scale(along);
    assert(r_parallel.x@ == tdiv(n.x@ * (-q), ONE_RAW as int));
    assert(r_parallel.y@ == tdiv(n.y@ * (-q), ONE_RAW as int));
    assert(r_parallel.z@ == tdiv(n.z@ * (-q), ONE_RAW as int));
    let out = spec_refract(u, n, one);
    assert(out == r_perp.spec_add(r_parallel));
}

/// A dielectric of index one has the same index on both sides of every
/// surface, and never reflects totally.
pub proof fn lemma_index_one_never_reflects_totally(
    m: DielectricMaterial,
    ray: Ray,
    hit: HitRecord,
)
    requires
        m.ir@ == ONE_RAW,
    ensures
        m.spec_ratio(hit)@ == ONE_RAW,
        !m.total_reflection(ray, hit),
{
    let one = Fixed { raw: ONE_RAW };
    assert(m.ir == one);
    assert(one.spec_div(one)@ == ONE_RAW) by {
        assert(ONE_RAW * ONE_RAW == 65536int * 65536);
    }
    let c = DielectricMaterial::spec_cos_theta(ray, hit);
    let cc = c.spec_mul(c);
    assert(cc@ >= 0) by {
        assert(c@ * c@ >= 0) by (nonlinear_arith);
    }
    let w = one.spec_sub(cc);
    let arg = if w@ < 0 {
        0
    } else {
        w@
    };
    assert(0 <= arg <= ONE_RAW);
    lemma_sqrt_of_fraction(arg);
    let sin = DielectricMaterial::spec_sin_theta(ray, hit);
    assert(0 <= sin@ <= ONE_RAW);
    assert(one.spec_mul(sin)@ == sin@) by {
        assert(ONE_RAW * sin@ == 65536 * sin@);
    }
}

/// A dielectric whose refractive index is one does not bend light: unless
/// the ray is reflected, it goes on from the hit point along its own unit
/// direction, each component within `STRAIGHT_TOLERANCE_RAW`, whatever the
/// angle of incidence. The normal must have length one and oppose the ray,
/// as the normal of a hit record does.
pub proof fn lemma_index_one_keeps_direction(
    m: DielectricMaterial,
    ray: Ray,
    hit: HitRecord,
    draw: Fixed,
)
    requires
        m.ir@ == ONE_RAW,
        ray.direction.wf(),
        norm2(ray.direction) > 0,
        is_unit(hit.normal),
        dot_int(hit.normal, ray.direction) <= 0,
        !m.reflects(ray, hit, draw),
    ensures
        ({
            let out = m.spec_scatter_with(ray, hit, draw);
            let u = spec_unit_vector(ray.direction);
            &&& out.0.origin == hit.p
            &&& -STRAIGHT_TOLERANCE_RAW <= out.0.direction.x@ - u.x@ <= STRAIGHT_TOLERANCE_RAW
            &&& -STRAIGHT_TOLERANCE_RAW <= out.0.direction.y@ - u.y@ <= STRAIGHT_TOLERANCE_RAW
            &&& -STRAIGHT_TOLERANCE_RAW <= out.0.direction.z@ - u.z@ <= STRAIGHT_TOLERANCE_RAW
        }),
{
    let u = spec_unit_vector(ray.direction);
    lemma_unit_vector_is_unit(ray.direction);
    lemma_unit_vector_bounded(ray.direction);
    lemma_dot_commutes(hit.normal, ray.direction);
    lemma_unit_vector_alignment(ray.direction, hit.normal);
    lemma_index_one_never_reflects_totally(m, ray, hit);
    assert(m.spec_ratio(hit) == Fixed { raw: ONE_RAW });
    lemma_refract_straight(u, hit.normal);
}

/// The same for a hit that a sphere reports: its normal has length one and
/// opposes the ray, so a sphere of refractive index one lets every ray
/// that it does not reflect go on along its own unit direction.
pub proof fn lemma_index_one_through_sphere(
    m: DielectricMaterial,
    s: Sphere,
    ray: Ray,
    t_min: Fixed,
    t_max: Fixed,
    draw: Fixed,
)
    requires
        m.ir@ == ONE_RAW,
        s.wf(),
        ray.wf(),
        t_min.wf(),
        t_max.wf(),
        s.intersect(ray, t_min, t_max) matches Some(h) && !m.reflects(ray, h, draw),
    ensures
        s.intersect(ray, t_min, t_max) matches Some(h) && {
            let out = m.spec_scatter_with(ray, h, draw);
            let u = spec_unit_vector(ray.direction);
            &&& out.0.origin == h.p
            &&& -STRAIGHT_TOLERANCE_RAW <= out.0.direction.x@ - u.x@ <= STRAIGHT_TOLERANCE_RAW
            &&& -STRAIGHT_TOLERANCE_RAW <= out.0.direction.y@ - u.y@ <= STRAIGHT_TOLERANCE_RAW
            &&& -STRAIGHT_TOLERANCE_RAW <= out.0.direction.z@ - u.z@ <= STRAIGHT_TOLERANCE_RAW
        },
{
    lemma_hit_on_sphere(s, ray, t_min, t_max);
    lemma_norm2_bound(ray.direction);
    let h = s.intersect(ray, t_min, t_max)->0;
    lemma_index_one_keeps_direction(m, ray, h, draw);
}

} // verus!
