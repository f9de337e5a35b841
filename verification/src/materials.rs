//! Random directions and the three surface finishes: diffuse, metallic and
//! dielectric. Each finish has a `scatter` that draws its random numbers
//! and a `scatter_with` that takes them as arguments and is fully specified.

use vstd::prelude::*;
use crate::fixed::{
    Fixed, ONE_RAW, LIMIT_RAW, clamp, tdiv, lemma_tdiv_between, lemma_tdiv_monotone,
    lemma_tdiv_multiple, lemma_product_bound,
};
use crate::vec3::{
    Vec3, dot_int, norm2, dot_wide, dot, unit_vector, spec_dot, spec_unit_vector, is_unit,
    lemma_unit_vector_bounded, lemma_unit_vector_norm, lemma_unit_vector_is_unit,
};
use crate::base::{
    Ray, HitRecord, Material, Color, is_color, check_color, lemma_negate_flips_dot,
    lemma_dot_commutes,
};

verus! {

/// A whole number drawn from `lo..hi` by the thread's generator:
/// `rand::Rng::gen_range` on `rand::thread_rng()`. Every outcome lies in the
/// half-open range; nothing else is claimed of it. An empty range makes the
/// generator panic and is ruled out. Whatever the arguments, the generator
/// also panics where the operating system's entropy source fails, at first
/// use or on reseeding; like running out of memory, that is outside the
/// contract.
#[verifier::external_body]
fn random_raw(lo: i64, hi: i64) -> (r: i64)
    requires
        lo < hi,
    ensures
        lo <= r < hi,
{
    rand::Rng::gen_range(&mut rand::thread_rng(), lo..hi)
}

/// A random number that is at least zero and less than one.
pub fn random_fraction() -> (r: Fixed)
    ensures
        0 <= r@ < ONE_RAW,
{
    Fixed { raw: random_raw(0, ONE_RAW) }
}

/// Every component is at least minus one and less than one.
pub open spec fn in_unit_cube(v: Vec3) -> bool {
    &&& -ONE_RAW <= v.x@ < ONE_RAW
    &&& -ONE_RAW <= v.y@ < ONE_RAW
    &&& -ONE_RAW <= v.z@ < ONE_RAW
}

/// A random vector whose components are at least minus one and less than one.
pub fn random_in_unit_cube() -> (r: Vec3)
    ensures
        in_unit_cube(r),
{
    Vec3 {
        x: Fixed { raw: random_raw(-ONE_RAW, ONE_RAW) },
        y: Fixed { raw: random_raw(-ONE_RAW, ONE_RAW) },
        z: Fixed { raw: random_raw(-ONE_RAW, ONE_RAW) },
    }
}

/// The vector lies strictly inside the sphere of radius one and is not its
/// centre, so that it has a direction.
pub open spec fn in_unit_sphere(v: Vec3) -> bool {
    v.wf() && 0 < norm2(v) < ONE_RAW * ONE_RAW
}

/// Tells whether a well-formed vector lies strictly inside the unit sphere
/// and away from its centre.
pub fn is_in_unit_sphere(v: Vec3) -> (r: bool)
    requires
        v.wf(),
    ensures
        r == in_unit_sphere(v),
{
    let n: i128 = dot_wide(v, v);
    0 < n && n < 4294967296
}

/// Candidate `i` is the first that lies inside the unit sphere.
pub open spec fn is_first_inside(candidates: Seq<Vec3>, i: int) -> bool {
    &&& 0 <= i < candidates.len()
    &&& in_unit_sphere(candidates[i])
    &&& forall|j: int| 0 <= j < i ==> !in_unit_sphere(#[trigger] candidates[j])
}

/// No candidate lies inside the unit sphere.
pub open spec fn none_inside(candidates: Seq<Vec3>) -> bool {
    forall|j: int| 0 <= j < candidates.len() ==> !in_unit_sphere(#[trigger] candidates[j])
}

/// The first of the candidates that lies inside the unit sphere, if there
/// is one.
pub fn first_in_unit_sphere(candidates: &Vec<Vec3>) -> (r: Option<Vec3>)
    requires
        forall|j: int| 0 <= j < candidates.len() ==> (#[trigger] candidates@[j]).wf(),
    ensures
        r is None <==> none_inside(candidates@),
        r matches Some(v) ==> exists|i: int|
            is_first_inside(candidates@, i) && v == #[trigger] candidates@[i],
{
    let mut k: usize = 0;
    while k < candidates.len()
        invariant
            k <= candidates.len(),
            forall|j: int| 0 <= j < candidates.len() ==> (#[trigger] candidates@[j]).wf(),
            forall|j: int| 0 <= j < k ==> !in_unit_sphere(#[trigger] candidates@[j]),
        decreases candidates.len() - k,
    {
        let v = candidates[k];
        if is_in_unit_sphere(v) {
            assert(is_first_inside(candidates@, k as int));
            return Some(v);
        }
        k = k + 1;
    }
    None
}

/// How many candidates `random_in_unit_sphere` draws before it settles for
/// the fallback.
pub const SPHERE_ATTEMPTS: u32 = 64;

/// What `random_in_unit_sphere` returns where every candidate was rejected:
/// the point halfway up the z axis.
pub open spec fn spec_sphere_fallback() -> Vec3 {
    Vec3 { x: Fixed { raw: 0 }, y: Fixed { raw: 0 }, z: Fixed { raw: 32768 } }
}

/// `r` is what the candidates settle: the first of them inside the unit
/// sphere, or the fallback where none of them is.
pub open spec fn settles(candidates: Seq<Vec3>, r: Vec3) -> bool {
    ||| exists|i: int| is_first_inside(candidates, i) && r == #[trigger] candidates[i]
    ||| none_inside(candidates) && r == spec_sphere_fallback()
}

/// `r` is a vector that `random_in_unit_sphere` may return: what some
/// candidates from the unit cube, at most `SPHERE_ATTEMPTS` of them, settle.
/// This describes how the sample comes about and allows no fewer vectors
/// than `in_unit_sphere`: every vector inside the sphere is settled by the
/// one candidate that is itself (`lemma_sphere_sample_is_any_inside`).
pub open spec fn is_sphere_sample(r: Vec3) -> bool {
    exists|candidates: Seq<Vec3>|
        {
            &&& candidates.len() <= SPHERE_ATTEMPTS
            &&& forall|j: int| 0 <= j < candidates.len() ==> in_unit_cube(#[trigger] candidates[j])
            &&& #[trigger] settles(candidates, r)
        }
}

/// The vectors that `random_in_unit_sphere` may return are exactly the
/// vectors inside the unit sphere, away from its centre.
pub proof fn lemma_sphere_sample_is_any_inside(r: Vec3)
    ensures
        is_sphere_sample(r) <==> in_unit_sphere(r),
{
    assert(32768int * 32768 == 1073741824);
    if in_unit_sphere(r) {
        let (x, y, z) = (r.x@, r.y@, r.z@);
        assert(x * x >= 0 && y * y >= 0 && z * z >= 0) by (nonlinear_arith);
        assert(-65536 < x < 65536) by (nonlinear_arith)
            requires
                x * x < 65536 * 65536,
        ;
        assert(-65536 < y < 65536) by (nonlinear_arith)
            requires
                y * y < 65536 * 65536,
        ;
        assert(-65536 < z < 65536) by (nonlinear_arith)
            requires
                z * z < 65536 * 65536,
        ;
        let one = seq![r];
        assert(one.len() == 1 && one[0] == r);
        assert(in_unit_cube(r));
        assert(is_first_inside(one, 0));
        assert(settles(one, r));
        assert(is_sphere_sample(r));
    }
    if is_sphere_sample(r) {
        let candidates = choose|candidates: Seq<Vec3>|
            {
                &&& candidates.len() <= SPHERE_ATTEMPTS
                &&& forall|j: int|
                    0 <= j < candidates.len() ==> in_unit_cube(#[trigger] candidates[j])
                &&& #[trigger] settles(candidates, r)
            };
        assert(settles(candidates, r));
        let fallback = spec_sphere_fallback();
        let (fx, fy, fz) = (fallback.x@, fallback.y@, fallback.z@);
        assert(fx == 0 && fy == 0 && fz == 32768);
        assert(fx * fx == 0 && fy * fy == 0 && fz * fz == 1073741824) by (nonlinear_arith)
            requires
                fx == 0,
                fy == 0,
                fz == 32768,
        ;
        assert(in_unit_sphere(fallback));
        assert(in_unit_sphere(r));
    }
}

/// A random vector strictly inside the unit sphere and away from its
/// centre, by rejection: draws candidates from the cube around the sphere
/// until one falls inside, and returns that one. After `SPHERE_ATTEMPTS`
/// rejections in a row it returns the fallback.
pub fn random_in_unit_sphere() -> (r: Vec3)
    ensures
        in_unit_sphere(r),
        is_sphere_sample(r),
{
    let mut drawn: Vec<Vec3> = Vec::new();
    let mut found = false;
    while drawn.len() < SPHERE_ATTEMPTS as usize && !found
        invariant
            drawn.len() <= SPHERE_ATTEMPTS,
            forall|j: int| 0 <= j < drawn.len() ==> in_unit_cube(#[trigger] drawn@[j]),
        decreases SPHERE_ATTEMPTS - drawn.len(),
    {
        let x = random_in_unit_cube();
        found = is_in_unit_sphere(x);
        drawn.push(x);
    }
    let r = match first_in_unit_sphere(&drawn) {
        Some(v) => v,
        None => Vec3 { x: Fixed { raw: 0 }, y: Fixed { raw: 0 }, z: Fixed { raw: 32768 } },
    };
    proof {
        assert(32768int * 32768 == 1073741824);
        assert(settles(drawn@, r));
    }
    r
}

/// A random direction: a vector from inside the unit sphere, stretched to
/// length one.
pub fn random_unit_vector() -> (r: Vec3)
    ensures
        r.wf(),
        is_unit(r),
        exists|s: Vec3|
            is_sphere_sample(s) && in_unit_sphere(s) && r == #[trigger] spec_unit_vector(s),
{
    let s = random_in_unit_sphere();
    proof {
        lemma_unit_vector_is_unit(s);
    }
    unit_vector(s)
}

/// `v` if it points to the side of `normal`, and `−v` if it does not.
pub open spec fn spec_toward(v: Vec3, normal: Vec3) -> Vec3 {
    if dot_int(v, normal) > 0 {
        v
    } else {
        v.spec_negate()
    }
}

/// Turns `v` to the side of `normal`. The result never points against the
/// normal.
pub fn toward(v: Vec3, normal: &Vec3) -> (r: Vec3)
    requires
        v.wf(),
        normal.wf(),
    ensures
        r == spec_toward(v, *normal),
        r.wf(),
        dot_int(r, *normal) >= 0,
{
    proof {
        lemma_negate_flips_dot(v, *normal);
    }
    if dot_wide(v, *normal) > 0 {
        v
    } else {
        v.negate()
    }
}

/// `h` is a direction that `random_in_hemisphere` may give for `normal`: a
/// unit vector along a sample from inside the unit sphere, turned to the
/// side of the normal.
pub open spec fn is_hemisphere_sample(h: Vec3, normal: Vec3) -> bool {
    exists|s: Vec3|
        is_sphere_sample(s) && in_unit_sphere(s) && h == spec_toward(
            #[trigger] spec_unit_vector(s),
            normal,
        )
}

/// A random direction in the hemisphere around `normal`.
pub fn random_in_hemisphere(normal: &Vec3) -> (r: Vec3)
    requires
        normal.wf(),
    ensures
        r.wf(),
        dot_int(r, *normal) >= 0,
        is_hemisphere_sample(r, *normal),
{
    let v = random_unit_vector();
    toward(v, normal)
}

/// A diffuse surface.
#[derive(Clone, Copy, Debug)]
pub struct LambertianMaterial {
    pub albedo: Color,
}

/// One term of the dot product of a saturated sum with one of its summands
/// is at least the term of the other summand.
proof fn lemma_saturated_term(n: int, h: int)
    requires
        -LIMIT_RAW <= n <= LIMIT_RAW,
        -LIMIT_RAW <= h <= LIMIT_RAW,
    ensures
        clamp(n + h) * n >= h * n,
{
    let c = clamp(n + h);
    if c == n + h {
        assert((n + h) * n >= h * n) by (nonlinear_arith);
    } else if n + h > LIMIT_RAW {
        assert(c * n >= h * n) by (nonlinear_arith)
            requires
                c >= h,
                n > 0,
        ;
    } else {
        assert(c * n >= h * n) by (nonlinear_arith)
            requires
                c <= h,
                n < 0,
        ;
    }
}

impl LambertianMaterial {
    /// Tells whether `scatter` accepts the material: the albedo is a colour.
    pub fn is_wf(&self) -> (r: bool)
        ensures
            r == self.wf(),
    {
        check_color(&self.albedo)
    }

    /// The scattered ray for the hemisphere sample `h`: it leaves the hit
    /// point along `normal + h`, attenuated by the albedo.
    pub open spec fn spec_scatter_with(self, hit: HitRecord, h: Vec3) -> (Ray, Color) {
        (Ray { origin: hit.p, direction: hit.normal.spec_add(h) }, self.albedo)
    }

    /// Scatters along `normal + h`. With a sample from the hemisphere around
    /// the normal the scattered ray stays in that hemisphere.
    pub fn scatter_with(&self, hit_record: &HitRecord, h: Vec3) -> (r: (Ray, Color))
        ensures
            r == self.spec_scatter_with(*hit_record, h),
            r.0.direction.wf(),
            hit_record.normal.wf() && h.wf() && dot_int(h, hit_record.normal) >= 0 ==> dot_int(
                r.0.direction,
                hit_record.normal,
            ) >= 0,
    {
        proof {
            if hit_record.normal.wf() && h.wf() {
                let n = hit_record.normal;
                lemma_saturated_term(n.x@, h.x@);
                lemma_saturated_term(n.y@, h.y@);
                lemma_saturated_term(n.z@, h.z@);
            }
        }
        (Ray { origin: hit_record.p, direction: hit_record.normal.add(h) }, self.albedo)
    }
}

impl Material for LambertianMaterial {
    /// The albedo is a colour.
    open spec fn wf(&self) -> bool {
        is_color(self.albedo)
    }

    /// The outcomes for all samples from the hemisphere around the normal.
    open spec fn may_scatter(&self, ray: Ray, hit: HitRecord, out: Option<(Ray, Color)>) -> bool {
        exists|h: Vec3|
            is_hemisphere_sample(h, hit.normal) && out == Some(
                #[trigger] self.spec_scatter_with(hit, h),
            )
    }

    /// Scatters along the normal plus a random direction from the hemisphere
    /// around it. Never absorbs.
    fn scatter(&self, _ray: &Ray, hit_record: &HitRecord) -> (r: Option<(Ray, Color)>)
        ensures
            r matches Some(s) && s.0.origin == hit_record.p && s.1 == self.albedo && dot_int(
                s.0.direction,
                hit_record.normal,
            ) >= 0,
    {
        let h = random_in_hemisphere(&hit_record.normal);
        let out = self.scatter_with(hit_record, h);
        proof {
            assert(out == self.spec_scatter_with(*hit_record, h));
        }
        Some(out)
    }
}

/// The mirror image of `v` at a surface with normal `n`: `v − 2 (v·n) n`.
pub open spec fn spec_reflect(v: Vec3, n: Vec3) -> Vec3 {
    let k = spec_dot(n, v);
    v.spec_sub(n.spec_scale(k.spec_add(k)))
}

/// The mirror image of `v` at a surface with normal `n`.
pub fn reflect(v: Vec3, n: Vec3) -> (r: Vec3)
    requires
        v.wf(),
        n.wf(),
    ensures
        r == spec_reflect(v, n),
        r.wf(),
{
    let k = dot(n, v);
    v.sub(n.scale(k.add(k)))
}

/// A metallic surface: a mirror, blurred by `fuzz`.
#[derive(Clone, Copy, Debug)]
pub struct MetalMaterial {
    pub albedo: Color,
    pub fuzz: Fixed,
}

impl MetalMaterial {
    /// Tells whether `scatter` accepts the material: the albedo is a colour
    /// and the fuzz is well-formed and not negative.
    pub fn is_wf(&self) -> (r: bool)
        ensures
            r == self.wf(),
    {
        check_color(&self.albedo) && self.fuzz.is_wf() && self.fuzz.raw >= 0
    }

    /// The direction after the hit for the sample `s` from the unit sphere:
    /// the mirror image of the ray's unit direction plus `fuzz * s`.
    pub open spec fn spec_direction(self, ray: Ray, hit: HitRecord, s: Vec3) -> Vec3 {
        spec_reflect(spec_unit_vector(ray.direction), hit.normal).spec_add(
            s.spec_scale(self.fuzz),
        )
    }

    /// The outcome for the sample `s`: absorbed where the blurred mirror
    /// image does not leave the surface, else scattered along it.
    pub open spec fn spec_scatter_with(self, ray: Ray, hit: HitRecord, s: Vec3) -> Option<
        (Ray, Color),
    > {
        let direction = self.spec_direction(ray, hit, s);
        if dot_int(direction, hit.normal) <= 0 {
            None
        } else {
            Some((Ray { origin: hit.p, direction }, self.albedo))
        }
    }

    /// Scatters with the given sample from the unit sphere.
    pub fn scatter_with(&self, ray: &Ray, hit_record: &HitRecord, s: Vec3) -> (r: Option<
        (Ray, Color),
    >)
        requires
            ray.direction.wf(),
            hit_record.normal.wf(),
        ensures
            r == self.spec_scatter_with(*ray, *hit_record, s),
            r matches Some(out) ==> out.0.direction.wf() && dot_int(
                out.0.direction,
                hit_record.normal,
            ) > 0,
    {
        let unit = unit_vector(ray.direction);
        let direction = reflect(unit, hit_record.normal).add(s.scale(self.fuzz));
        if dot_wide(direction, hit_record.normal) <= 0 {
            return None;
        }
        Some((Ray { origin: hit_record.p, direction }, self.albedo))
    }
}

/// One component of the mirror image of a unit vector `u` at the normal
/// `−u`, where `k` is the rounded dot product of the two: the image differs
/// from `−u` by at most ten raw units.
proof fn lemma_mirror_component(ui: int, k: int)
    requires
        -ONE_RAW <= ui <= ONE_RAW,
        -ONE_RAW - 3 <= k <= -ONE_RAW + 5,
    ensures
        -10 <= (ui - tdiv((-ui) * (k + k), ONE_RAW as int)) + ui <= 10,
{
    let p = (-ui) * (k + k);
    let e = k + 65536;
    assert(p == 2 * ui * 65536 - 2 * (ui * e)) by (nonlinear_arith)
        requires
            p == (-ui) * (k + k),
            e == k + 65536,
    ;
    assert(-5 * 65536 <= ui * e <= 5 * 65536) by (nonlinear_arith)
        requires
            -65536 <= ui <= 65536,
            -3 <= e <= 5,
    ;
    assert((2 * ui - 10) * 65536 == 2 * ui * 65536 - 10 * 65536);
    assert((2 * ui + 10) * 65536 == 2 * ui * 65536 + 10 * 65536);
    lemma_tdiv_between(p, 65536, 2 * ui - 10, 2 * ui + 10);
}

/// A mirror without fuzz sends a ray that meets it at a right angle
/// straight back: where the normal is the reversed unit direction of the
/// ray, the ray is scattered, and each component of the new direction
/// differs from the normal's by at most ten raw units.
pub proof fn lemma_metal_normal_incidence(m: MetalMaterial, ray: Ray, hit: HitRecord, s: Vec3)
    requires
        m.fuzz@ == 0,
        ray.direction.wf(),
        norm2(ray.direction) > 0,
        hit.normal == spec_unit_vector(ray.direction).spec_negate(),
    ensures
        m.spec_scatter_with(ray, hit, s) matches Some(out) && {
            &&& out.0.origin == hit.p
            &&& out.1 == m.albedo
            &&& -10 <= out.0.direction.x@ - hit.normal.x@ <= 10
            &&& -10 <= out.0.direction.y@ - hit.normal.y@ <= 10
            &&& -10 <= out.0.direction.z@ - hit.normal.z@ <= 10
        },
{
    let u = spec_unit_vector(ray.direction);
    let n = hit.normal;
    lemma_unit_vector_bounded(ray.direction);
    lemma_unit_vector_norm(ray.direction);
    lemma_negate_flips_dot(u, u);
    let big = norm2(u);
    assert(dot_int(n, u) == -big);
    let k = spec_dot(n, u);
    assert(65536 - 5 <= big / 65536 <= 65536 + 3);
    assert(k@ == -(big / 65536));
    let kk = k.spec_add(k);
    assert(kk@ == k@ + k@);
    lemma_mirror_component(u.x@, k@);
    lemma_mirror_component(u.y@, k@);
    lemma_mirror_component(u.z@, k@);
    let image = spec_reflect(u, n);
    assert(image.x@ == u.x@ - tdiv(n.x@ * kk@, ONE_RAW as int));
    assert(image.y@ == u.y@ - tdiv(n.y@ * kk@, ONE_RAW as int));
    assert(image.z@ == u.z@ - tdiv(n.z@ * kk@, ONE_RAW as int));
    let blur = s.spec_scale(m.fuzz);
    assert(blur == Vec3::spec_zero()) by {
        assert(s.x@ * 0 == 0 && s.y@ * 0 == 0 && s.z@ * 0 == 0);
    }
    let direction = m.spec_direction(ray, hit, s);
    assert(direction == image);
    let (dx, dy, dz) = (direction.x@ - n.x@, direction.y@ - n.y@, direction.z@ - n.z@);
    assert(dot_int(direction, n) == dot_int(n, n) + (dx * n.x@ + dy * n.y@ + dz * n.z@))
        by (nonlinear_arith)
        requires
            dx == direction.x@ - n.x@,
            dy == direction.y@ - n.y@,
            dz == direction.z@ - n.z@,
    ;
    lemma_negate_flips_dot(u, n);
    lemma_dot_commutes(u, n);
    assert(dot_int(n, n) == big);
    lemma_product_bound(dx, n.x@, 10, 65536);
    lemma_product_bound(dy, n.y@, 10, 65536);
    lemma_product_bound(dz, n.z@, 10, 65536);
}

impl Material for MetalMaterial {
    /// The albedo is a colour, and the fuzz is well-formed and not negative.
    open spec fn wf(&self) -> bool {
        is_color(self.albedo) && self.fuzz.wf() && self.fuzz@ >= 0
    }

    /// The outcomes for all samples from the unit sphere.
    open spec fn may_scatter(&self, ray: Ray, hit: HitRecord, out: Option<(Ray, Color)>) -> bool {
        exists|s: Vec3|
            is_sphere_sample(s) && in_unit_sphere(s) && out == #[trigger] self.spec_scatter_with(
                ray,
                hit,
                s,
            )
    }

    /// Scatters along the mirror image of the ray, blurred by a random sample
    /// from the unit sphere.
    fn scatter(&self, ray: &Ray, hit_record: &HitRecord) -> (r: Option<(Ray, Color)>)
        ensures
            r matches Some(out) ==> out.0.origin == hit_record.p && out.1 == self.albedo && dot_int(
                out.0.direction,
                hit_record.normal,
            ) > 0,
    {
        let s = random_in_unit_sphere();
        let out = self.scatter_with(ray, hit_record, s);
        proof {
            assert(out == self.spec_scatter_with(*ray, *hit_record, s));
        }
        out
    }
}

/// The share of light that a dielectric reflects at a right angle:
/// `r0 = ((1 − η) / (1 + η))²`.
pub open spec fn spec_base_reflectance(ratio: Fixed) -> Fixed {
    let one = Fixed { raw: ONE_RAW };
    let q = one.spec_sub(ratio).spec_div(one.spec_add(ratio));
    q.spec_mul(q)
}

/// The fifth power, multiplied out from the left.
pub open spec fn spec_fifth_power(x: Fixed) -> Fixed {
    x.spec_mul(x).spec_mul(x).spec_mul(x).spec_mul(x)
}

/// The Schlick approximation of the share of light that a dielectric
/// reflects: `r0 + (1 − r0) (1 − cos θ)⁵` with `r0 = ((1 − η) / (1 + η))²`.
pub open spec fn spec_reflectance(cosine: Fixed, ratio: Fixed) -> Fixed {
    let one = Fixed { raw: ONE_RAW };
    let r0 = spec_base_reflectance(ratio);
    let x5 = spec_fifth_power(one.spec_sub(cosine));
    r0.spec_add(one.spec_sub(r0).spec_mul(x5))
}

/// The Schlick approximation of a dielectric's reflectance.
pub fn reflectance(cosine: Fixed, ratio: Fixed) -> (r: Fixed)
    requires
        ratio@ != -ONE_RAW,
    ensures
        r == spec_reflectance(cosine, ratio),
        r.wf(),
{
    let one = Fixed::one();
    let q = one.sub(ratio).div(one.add(ratio));
    let r0 = q.mul(q);
    let x = one.sub(cosine);
    let x5 = x.mul(x).mul(x).mul(x).mul(x);
    r0.add(one.sub(r0).mul(x5))
}

/// Multiplying by one changes nothing.
pub proof fn lemma_mul_one(a: Fixed)
    requires
        a.wf(),
    ensures
        a.spec_mul(Fixed { raw: ONE_RAW }) == a,
{
    let k = a@;
    assert(k * ONE_RAW == k * 65536);
    if k >= 0 {
        assert((k * 65536) / 65536 == k);
    } else {
        assert((-(k * 65536)) / 65536 == -k);
    }
}

/// At grazing incidence, where the cosine is zero, a dielectric reflects
/// all light, whatever its refractive index.
pub proof fn lemma_reflectance_grazing(ratio: Fixed)
    ensures
        spec_reflectance(Fixed { raw: 0 }, ratio)@ == ONE_RAW,
{
    let one = Fixed { raw: ONE_RAW };
    let q = one.spec_sub(ratio).spec_div(one.spec_add(ratio));
    let r0 = q.spec_mul(q);
    let x = one.spec_sub(Fixed { raw: 0 });
    assert(x == one);
    lemma_mul_one(one);
    let x5 = x.spec_mul(x).spec_mul(x).spec_mul(x).spec_mul(x);
    assert(x5 == one);
    assert(q@ * q@ >= 0) by (nonlinear_arith);
    assert(0 <= r0@ <= LIMIT_RAW);
    lemma_mul_one(one.spec_sub(r0));
}

/// The reflectance at a right angle is a share: for a positive index ratio
/// it lies between zero and one.
pub proof fn lemma_base_reflectance_range(ratio: Fixed)
    requires
        ratio.wf(),
        ratio@ > 0,
    ensures
        0 <= spec_base_reflectance(ratio)@ <= ONE_RAW,
{
    let one = Fixed { raw: ONE_RAW };
    let den = one.spec_add(ratio);
    let num = one.spec_sub(ratio);
    let q = num.spec_div(den);
    assert(-65536 <= q@ <= 65536) by {
        let a = num@ * ONE_RAW;
        let d = den@;
        assert(d > 0 && -d <= num@ <= d);
        assert(a == num@ * 65536);
        if a >= 0 {
            assert(0 <= a / d <= 65536) by (nonlinear_arith)
                requires
                    d > 0,
                    0 <= a <= d * 65536,
            ;
        } else {
            assert(0 <= (-a) / d <= 65536) by (nonlinear_arith)
                requires
                    d > 0,
                    0 <= -a <= d * 65536,
            ;
        }
    }
    let k = q@;
    assert(0 <= k * k <= 65536 * 65536) by (nonlinear_arith)
        requires
            -65536 <= k <= 65536,
    ;
}

/// The product of two shares is a share and grows with each factor.
proof fn lemma_share_product_monotone(a1: int, b1: int, a2: int, b2: int)
    requires
        0 <= a1 <= a2 <= ONE_RAW,
        0 <= b1 <= b2 <= ONE_RAW,
    ensures
        0 <= tdiv(a1 * b1, ONE_RAW as int) <= tdiv(a2 * b2, ONE_RAW as int) <= ONE_RAW,
{
    assert(0 <= a1 * b1 <= a2 * b2 <= 65536 * 65536) by (nonlinear_arith)
        requires
            0 <= a1 <= a2 <= 65536,
            0 <= b1 <= b2 <= 65536,
    ;
    lemma_tdiv_between(a1 * b1, 65536, 0, 65536);
    lemma_tdiv_between(a2 * b2, 65536, 0, 65536);
    lemma_tdiv_monotone(a1 * b1, a2 * b2, 65536);
}

/// The fifth power of a share is a share and grows with it.
pub proof fn lemma_fifth_power_monotone(a: Fixed, b: Fixed)
    requires
        0 <= a@ <= b@ <= ONE_RAW,
    ensures
        0 <= spec_fifth_power(a)@ <= spec_fifth_power(b)@ <= ONE_RAW,
{
    let a2 = a.spec_mul(a);
    let b2 = b.spec_mul(b);
    lemma_share_product_monotone(a@, a@, b@, b@);
    let a3 = a2.spec_mul(a);
    let b3 = b2.spec_mul(b);
    lemma_share_product_monotone(a2@, a@, b2@, b@);
    let a4 = a3.spec_mul(a);
    let b4 = b3.spec_mul(b);
    lemma_share_product_monotone(a3@, a@, b3@, b@);
    lemma_share_product_monotone(a4@, a@, b4@, b@);
}

/// The reflectance never falls below its value at a right angle and never
/// exceeds one.
pub proof fn lemma_reflectance_bounds(cosine: Fixed, ratio: Fixed)
    requires
        0 <= cosine@ <= ONE_RAW,
        ratio.wf(),
        ratio@ > 0,
    ensures
        spec_base_reflectance(ratio)@ <= spec_reflectance(cosine, ratio)@ <= ONE_RAW,
        cosine@ == ONE_RAW ==> spec_reflectance(cosine, ratio) == spec_base_reflectance(ratio),
{
    let one = Fixed { raw: ONE_RAW };
    lemma_base_reflectance_range(ratio);
    let r0 = spec_base_reflectance(ratio);
    let x = one.spec_sub(cosine);
    lemma_fifth_power_monotone(x, one);
    let x5 = spec_fifth_power(x);
    let w = one.spec_sub(r0);
    lemma_share_product_monotone(w@, x5@, w@, 65536);
    lemma_tdiv_multiple(w@, 65536);
    if cosine@ == ONE_RAW {
        lemma_fifth_power_monotone(x, x);
        assert(x@ == 0);
        assert(x@ * x@ == 0);
        assert(x.spec_mul(x)@ == 0);
        assert(x5@ == 0) by {
            assert(0int * 0 == 0);
        }
        assert(w@ * x5@ == 0) by (nonlinear_arith)
            requires
                x5@ == 0,
        ;
    }
}

/// The reflectance does not grow with the cosine: the flatter the ray meets
/// the surface, the more of it is reflected.
pub proof fn lemma_reflectance_monotone(steep: Fixed, flat: Fixed, ratio: Fixed)
    requires
        0 <= flat@ <= steep@ <= ONE_RAW,
        ratio.wf(),
        ratio@ > 0,
    ensures
        spec_reflectance(steep, ratio)@ <= spec_reflectance(flat, ratio)@,
{
    let one = Fixed { raw: ONE_RAW };
    lemma_base_reflectance_range(ratio);
    let r0 = spec_base_reflectance(ratio);
    let xs = one.spec_sub(steep);
    let xf = one.spec_sub(flat);
    lemma_fifth_power_monotone(xs, xf);
    let w = one.spec_sub(r0);
    lemma_share_product_monotone(w@, spec_fifth_power(xs)@, w@, spec_fifth_power(xf)@);
    lemma_share_product_monotone(w@, spec_fifth_power(xf)@, w@, 65536);
    lemma_tdiv_multiple(w@, 65536);
}

/// One more factor `x = 1 − c` in a power of `x`: if `y` is at least
/// `1 − m c − e`, then `y x` is at least `1 − (m + 1) c − (e + 1)`.
proof fn lemma_power_step(y: int, x: int, c: int, m: int, e: int)
    requires
        0 <= c <= ONE_RAW,
        x == ONE_RAW - c,
        0 <= y <= ONE_RAW,
        y >= ONE_RAW - m * c - e,
        m >= 0,
        e >= 0,
    ensures
        0 <= tdiv(y * x, ONE_RAW as int) <= ONE_RAW,
        tdiv(y * x, ONE_RAW as int) >= ONE_RAW - (m + 1) * c - (e + 1),
{
    let p = y * x;
    assert(0 <= p <= 65536 * 65536) by (nonlinear_arith)
        requires
            p == y * x,
            0 <= y <= 65536,
            0 <= x <= 65536,
    ;
    let n = p / 65536;
    assert(n * 65536 <= p < n * 65536 + 65536);
    let bound = 65536 - m * c - e;
    if bound >= 0 {
        assert(p >= bound * x) by (nonlinear_arith)
            requires
                p == y * x,
                y >= bound,
                x >= 0,
        ;
        assert(bound * x >= 65536 * bound - 65536 * c) by (nonlinear_arith)
            requires
                x == 65536 - c,
                bound == 65536 - m * c - e,
                0 <= c,
                m >= 0,
                e >= 0,
                bound >= 0,
        ;
        assert((m + 1) * c == m * c + c) by (nonlinear_arith);
    } else {
        assert((m + 1) * c == m * c + c) by (nonlinear_arith);
    }
}

/// Near grazing incidence a dielectric reflects nearly all light: for a
/// cosine `c` between zero and one and a positive index ratio the
/// reflectance lies between `1 − 5 c − 5/65536` and one.
pub proof fn lemma_reflectance_near_grazing(cosine: Fixed, ratio: Fixed)
    requires
        0 <= cosine@ <= ONE_RAW,
        ratio.wf(),
        ratio@ > 0,
    ensures
        ONE_RAW - 5 * cosine@ - 5 <= spec_reflectance(cosine, ratio)@ <= ONE_RAW,
{
    let one = Fixed { raw: ONE_RAW };
    lemma_base_reflectance_range(ratio);
    let r0 = spec_base_reflectance(ratio);
    let c = cosine@;
    let x = one.spec_sub(cosine);
    assert(x@ == 65536 - c);
    let x2 = x.spec_mul(x);
    let x3 = x2.spec_mul(x);
    let x4 = x3.spec_mul(x);
    let x5 = x4.spec_mul(x);
    assert(1 * c == c);
    lemma_power_step(x@, x@, c, 1, 0);
    lemma_power_step(x2@, x@, c, 2, 1);
    lemma_power_step(x3@, x@, c, 3, 2);
    lemma_power_step(x4@, x@, c, 4, 3);
    assert(x5@ >= 65536 - 5 * c - 4);
    assert(0 <= x5@ <= 65536);
    let w = one.spec_sub(r0);
    assert(w@ == 65536 - r0@);
    let t = w.spec_mul(x5);
    let p = w@ * x5@;
    assert(0 <= p <= w@ * 65536 && p >= w@ * 65536 - 65536 * (5 * c + 4)) by (nonlinear_arith)
        requires
            p == w@ * x5@,
            0 <= w@ <= 65536,
            0 <= x5@ <= 65536,
            x5@ >= 65536 - (5 * c + 4),
            5 * c + 4 >= 0,
    ;
    assert(t@ == p / 65536);
    assert(w@ - (5 * c + 4) - 1 <= t@ <= w@);
}

/// The direction of a ray bent at a surface by Snell's law. `uv` is the
/// unit direction of the incoming ray, `n` the normal against it and
/// `ratio` the quotient of the two refractive indices. The part across the
/// normal is `ratio (uv + cos θ n)`, the part along it `−√(1 − |across|²) n`.
pub open spec fn spec_refract(uv: Vec3, n: Vec3, ratio: Fixed) -> Vec3 {
    let one = Fixed { raw: ONE_RAW };
    let cos_theta = spec_dot(uv.spec_negate(), n).spec_min(one);
    let r_perp = uv.spec_add(n.spec_scale(cos_theta)).spec_scale(ratio);
    let r_parallel = n.spec_scale(one.spec_sub(r_perp.spec_len_squared()).spec_sqrt().spec_neg());
    r_perp.spec_add(r_parallel)
}

/// The direction of a ray bent at a surface by Snell's law.
pub fn refract(uv: Vec3, n: Vec3, ratio: Fixed) -> (r: Vec3)
    requires
        uv.wf(),
        n.wf(),
    ensures
        r == spec_refract(uv, n, ratio),
        r.wf(),
{
    let one = Fixed::one();
    let cos_theta = dot(uv.negate(), n).min(one);
    let r_perp = uv.add(n.scale(cos_theta)).scale(ratio);
    let r_parallel = n.scale(one.sub(r_perp.len_squared()).sqrt().neg());
    r_perp.add(r_parallel)
}

/// A clear surface such as glass or water, with refractive index `ir`.
#[derive(Clone, Copy, Debug)]
pub struct DielectricMaterial {
    pub ir: Fixed,
}

/// The reciprocal of a positive index is positive.
proof fn lemma_reciprocal_positive(ir: Fixed)
    requires
        ir.wf(),
        ir@ > 0,
    ensures
        (Fixed { raw: ONE_RAW }).spec_div(ir)@ > 0,
{
    let k = ir@;
    assert(0x1_0000_0000int / k >= 4) by (nonlinear_arith)
        requires
            0 < k <= 0x4000_0000,
    ;
    assert(ONE_RAW as int * ONE_RAW as int == 0x1_0000_0000);
}

impl DielectricMaterial {
    /// Tells whether `scatter` accepts the material: the refractive index is
    /// well-formed and positive.
    pub fn is_wf(&self) -> (r: bool)
        ensures
            r == self.wf(),
    {
        self.ir.is_wf() && self.ir.raw > 0
    }

    /// The quotient of the refractive indices on the two sides of the
    /// surface, in the order in which the ray crosses them.
    pub open spec fn spec_ratio(self, hit: HitRecord) -> Fixed {
        if hit.front_face {
            (Fixed { raw: ONE_RAW }).spec_div(self.ir)
        } else {
            self.ir
        }
    }

    /// The cosine of the angle of incidence, capped at one.
    pub open spec fn spec_cos_theta(ray: Ray, hit: HitRecord) -> Fixed {
        spec_dot(spec_unit_vector(ray.direction).spec_negate(), hit.normal).spec_min(
            Fixed { raw: ONE_RAW },
        )
    }

    /// The sine of the angle of incidence.
    pub open spec fn spec_sin_theta(ray: Ray, hit: HitRecord) -> Fixed {
        let c = Self::spec_cos_theta(ray, hit);
        (Fixed { raw: ONE_RAW }).spec_sub(c.spec_mul(c)).spec_sqrt()
    }

    /// No refracted ray exists: the light is reflected totally.
    pub open spec fn total_reflection(self, ray: Ray, hit: HitRecord) -> bool {
        self.spec_ratio(hit).spec_mul(Self::spec_sin_theta(ray, hit))@ > ONE_RAW
    }

    /// The ray is reflected: totally, or because the draw from `[0, 1)` fell
    /// below the reflectance.
    pub open spec fn reflects(self, ray: Ray, hit: HitRecord, draw: Fixed) -> bool {
        self.total_reflection(ray, hit) || draw@ < spec_reflectance(
            Self::spec_cos_theta(ray, hit),
            self.spec_ratio(hit),
        )@
    }

    /// The outcome for the given draw: reflected or refracted from the hit
    /// point, with no loss of colour.
    pub open spec fn spec_scatter_with(self, ray: Ray, hit: HitRecord, draw: Fixed) -> (
        Ray,
        Color,
    ) {
        let unit = spec_unit_vector(ray.direction);
        let direction = if self.reflects(ray, hit, draw) {
            spec_reflect(unit, hit.normal)
        } else {
            spec_refract(unit, hit.normal, self.spec_ratio(hit))
        };
        let one = Fixed { raw: ONE_RAW };
        (Ray { origin: hit.p, direction }, Vec3 { x: one, y: one, z: one })
    }

    /// Scatters with the given draw from `[0, 1)`.
    pub fn scatter_with(&self, ray: &Ray, hit_record: &HitRecord, draw: Fixed) -> (r: (
        Ray,
        Color,
    ))
        requires
            self.ir.wf(),
            self.ir@ > 0,
            ray.direction.wf(),
            hit_record.normal.wf(),
        ensures
            r == self.spec_scatter_with(*ray, *hit_record, draw),
            r.0.direction.wf(),
    {
        let one = Fixed::one();
        proof {
            lemma_reciprocal_positive(self.ir);
        }
        let ratio = if hit_record.front_face {
            one.div(self.ir)
        } else {
            self.ir
        };
        let unit = unit_vector(ray.direction);
        let cos_theta = dot(unit.negate(), hit_record.normal).min(one);
        let sin_theta = one.sub(cos_theta.mul(cos_theta)).sqrt();
        let cannot_refract = ratio.mul(sin_theta).raw > ONE_RAW;
        let direction = if cannot_refract || draw.raw < reflectance(cos_theta, ratio).raw {
            reflect(unit, hit_record.normal)
        } else {
            refract(unit, hit_record.normal, ratio)
        };
        (Ray { origin: hit_record.p, direction }, Vec3 { x: one, y: one, z: one })
    }
}

/// A ray that grazes a dielectric, with a cosine of zero, is reflected
/// whatever the draw, and goes on along the mirror image of its unit
/// direction.
pub proof fn lemma_grazing_ray_is_reflected(
    m: DielectricMaterial,
    ray: Ray,
    hit: HitRecord,
    draw: Fixed,
)
    requires
        DielectricMaterial::spec_cos_theta(ray, hit)@ == 0,
        draw@ < ONE_RAW,
    ensures
        m.reflects(ray, hit, draw),
        m.spec_scatter_with(ray, hit, draw).0.direction == spec_reflect(
            spec_unit_vector(ray.direction),
            hit.normal,
        ),
{
    lemma_reflectance_grazing(m.spec_ratio(hit));
    assert(DielectricMaterial::spec_cos_theta(ray, hit) == Fixed { raw: 0 });
}

impl Material for DielectricMaterial {
    /// The refractive index is well-formed and positive.
    open spec fn wf(&self) -> bool {
        self.ir.wf() && self.ir@ > 0
    }

    /// The outcomes for all draws from `[0, 1)`.
    open spec fn may_scatter(&self, ray: Ray, hit: HitRecord, out: Option<(Ray, Color)>) -> bool {
        exists|draw: Fixed|
            0 <= draw@ < ONE_RAW && out == Some(#[trigger] self.spec_scatter_with(ray, hit, draw))
    }

    /// Reflects or refracts, by a random draw against the reflectance. Never
    /// absorbs.
    fn scatter(&self, ray: &Ray, hit_record: &HitRecord) -> (r: Option<(Ray, Color)>)
        ensures
            r matches Some(out) && out.0.origin == hit_record.p && out.1 == (Vec3 {
                x: Fixed { raw: ONE_RAW },
                y: Fixed { raw: ONE_RAW },
                z: Fixed { raw: ONE_RAW },
            }),
    {
        let draw = random_fraction();
        let out = self.scatter_with(ray, hit_record, draw);
        proof {
            assert(out == self.spec_scatter_with(*ray, *hit_record, draw));
        }
        Some(out)
    }
}

/// Any of the three finishes, so that one scene can hold objects of
/// different materials.
#[derive(Clone, Copy, Debug)]
pub enum AnyMaterial {
    Lambertian(LambertianMaterial),
    Metal(MetalMaterial),
    Dielectric(DielectricMaterial),
}

impl AnyMaterial {
    /// Tells whether `scatter` accepts the material.
    pub fn is_wf(&self) -> (r: bool)
        ensures
            r == self.wf(),
    {
        match self {
            AnyMaterial::Lambertian(m) => m.is_wf(),
            AnyMaterial::Metal(m) => m.is_wf(),
            AnyMaterial::Dielectric(m) => m.is_wf(),
        }
    }
}

impl Material for AnyMaterial {
    /// The finish inside is well-formed.
    open spec fn wf(&self) -> bool {
        match self {
            AnyMaterial::Lambertian(m) => m.wf(),
            AnyMaterial::Metal(m) => m.wf(),
            AnyMaterial::Dielectric(m) => m.wf(),
        }
    }

    /// The outcomes of the finish inside.
    open spec fn may_scatter(&self, ray: Ray, hit: HitRecord, out: Option<(Ray, Color)>) -> bool {
        match self {
            AnyMaterial::Lambertian(m) => m.may_scatter(ray, hit, out),
            AnyMaterial::Metal(m) => m.may_scatter(ray, hit, out),
            AnyMaterial::Dielectric(m) => m.may_scatter(ray, hit, out),
        }
    }

    /// Scatters as the finish inside does.
    fn scatter(&self, ray: &Ray, hit_record: &HitRecord) -> (r: Option<(Ray, Color)>) {
        match self {
            AnyMaterial::Lambertian(m) => m.scatter(ray, hit_record),
            AnyMaterial::Metal(m) => m.scatter(ray, hit_record),
            AnyMaterial::Dielectric(m) => m.scatter(ray, hit_record),
        }
    }
}

} // verus!
