//! Rays, hit records, and the two capabilities a scene object is made of:
//! a geometry that a ray can hit and a material that scatters it.

use vstd::prelude::*;
use crate::fixed::{Fixed, ONE_RAW};
use crate::vec3::{Vec3, Point3, dot_int, dot_wide, is_unit};

verus! {

/// A colour in linear light: red, green and blue in `x`, `y` and `z`.
pub type Color = Vec3;

/// Every channel lies between zero and one.
pub open spec fn is_color(c: Color) -> bool {
    &&& 0 <= c.x@ <= ONE_RAW
    &&& 0 <= c.y@ <= ONE_RAW
    &&& 0 <= c.z@ <= ONE_RAW
}

/// Tells whether every channel lies between zero and one.
pub fn check_color(c: &Color) -> (r: bool)
    ensures
        r == is_color(*c),
{
    0 <= c.x.raw && c.x.raw <= ONE_RAW && 0 <= c.y.raw && c.y.raw <= ONE_RAW && 0 <= c.z.raw
        && c.z.raw <= ONE_RAW
}

/// A half-line: the points `origin + t * direction`.
#[derive(Clone, Copy, Debug)]
pub struct Ray {
    pub origin: Vec3,
    pub direction: Vec3,
}

impl Ray {
    /// Origin and direction are well-formed.
    pub open spec fn wf(self) -> bool {
        self.origin.wf() && self.direction.wf()
    }

    /// The point at parameter `t`.
    pub open spec fn spec_at(self, t: Fixed) -> Vec3 {
        self.origin.spec_add(self.direction.spec_scale(t))
    }

    /// Tells whether origin and direction are well-formed.
    pub fn is_wf(&self) -> (r: bool)
        ensures
            r == self.wf(),
    {
        self.origin.is_wf() && self.direction.is_wf()
    }

    /// The point at parameter `t`: `origin + t * direction`.
    pub fn at(&self, t: Fixed) -> (r: Vec3)
        ensures
            r == self.spec_at(t),
            r.wf(),
    {
        self.origin.add(self.direction.scale(t))
    }
}

/// Where and how a ray met a surface: the point `p`, and the parameter `t`
/// of the ray there, rounded. The normal always opposes the ray;
/// `front_face` tells whether the outward normal already did, so the outward
/// normal is `normal` on a front face and its negation otherwise.
#[derive(Clone, Copy, Debug)]
pub struct HitRecord {
    pub p: Point3,
    pub normal: Vec3,
    pub t: Fixed,
    pub front_face: bool,
}

impl HitRecord {
    /// Point, normal and parameter are well-formed.
    pub open spec fn wf(self) -> bool {
        self.p.wf() && self.normal.wf() && self.t.wf()
    }

    /// The normal that points out of the surface: the stored normal on a
    /// front face and its negation on a back face.
    pub open spec fn spec_outward_normal(self) -> Vec3 {
        if self.front_face {
            self.normal
        } else {
            self.normal.spec_negate()
        }
    }

    /// The normal that points out of the surface.
    pub fn outward_normal(&self) -> (r: Vec3)
        ensures
            r == self.spec_outward_normal(),
    {
        if self.front_face {
            self.normal
        } else {
            self.normal.negate()
        }
    }

    /// The record of a hit at `p` with outward normal `normal`.
    pub open spec fn spec_new(ray: Ray, p: Point3, t: Fixed, normal: Vec3) -> HitRecord {
        let front_face = dot_int(ray.direction, normal) < 0;
        HitRecord {
            p,
            normal: if front_face {
                normal
            } else {
                normal.spec_negate()
            },
            t,
            front_face,
        }
    }

    /// Builds the record from the outward normal, turning the normal against
    /// the ray. The stored normal never points along the ray.
    pub fn new(ray: &Ray, p: Point3, t: Fixed, normal: Vec3) -> (r: HitRecord)
        requires
            ray.direction.wf(),
            normal.wf(),
        ensures
            r == HitRecord::spec_new(*ray, p, t, normal),
            r.normal.wf(),
            dot_int(r.normal, ray.direction) <= 0,
            r.spec_outward_normal() == normal,
    {
        let front_face = dot_wide(ray.direction, normal) < 0;
        proof {
            lemma_negate_flips_dot(normal, ray.direction);
            lemma_dot_commutes(normal, ray.direction);
            lemma_negate_flips_dot(normal.spec_negate(), ray.direction);
        }
        let normal = if !front_face {
            normal.negate()
        } else {
            normal
        };
        HitRecord { p, t, normal, front_face }
    }
}

/// The dot product is symmetric.
pub proof fn lemma_dot_commutes(u: Vec3, v: Vec3)
    ensures
        dot_int(u, v) == dot_int(v, u),
{
    assert(u.x@ * v.x@ == v.x@ * u.x@) by (nonlinear_arith);
    assert(u.y@ * v.y@ == v.y@ * u.y@) by (nonlinear_arith);
    assert(u.z@ * v.z@ == v.z@ * u.z@) by (nonlinear_arith);
}

/// Negating a well-formed vector is exact and negates its dot products.
pub proof fn lemma_negate_flips_dot(u: Vec3, v: Vec3)
    requires
        u.wf(),
    ensures
        u.spec_negate().wf(),
        u.spec_negate().x@ == -u.x@,
        u.spec_negate().y@ == -u.y@,
        u.spec_negate().z@ == -u.z@,
        dot_int(u.spec_negate(), v) == -dot_int(u, v),
{
    assert((-u.x@) * v.x@ == -(u.x@ * v.x@)) by (nonlinear_arith);
    assert((-u.y@) * v.y@ == -(u.y@ * v.y@)) by (nonlinear_arith);
    assert((-u.z@) * v.z@ == -(u.z@ * v.z@)) by (nonlinear_arith);
}

/// A surface that a ray can hit.
pub trait Geometry: Send + Sync {
    /// The surface is one that `hit` accepts.
    spec fn wf(&self) -> bool;

    /// The nearest intersection whose parameter lies strictly between
    /// `t_min` and `t_max`, if there is one.
    spec fn intersect(&self, ray: Ray, t_min: Fixed, t_max: Fixed) -> Option<HitRecord>;

    /// Lowering the upper bound keeps the nearest intersection if it still
    /// lies below the bound and loses it otherwise; it never brings up
    /// another one.
    proof fn lemma_narrow(&self, ray: Ray, t_min: Fixed, t_max: Fixed, bound: Fixed)
        requires
            self.wf(),
            ray.wf(),
            t_min.wf(),
            t_max.wf(),
            bound.wf(),
            bound@ <= t_max@,
        ensures
            self.intersect(ray, t_min, bound) == match self.intersect(ray, t_min, t_max) {
                Some(h) => if h.t@ < bound@ {
                    Some(h)
                } else {
                    None
                },
                None => None,
            },
    ;

    /// The nearest intersection of the ray with the surface whose parameter
    /// lies strictly between `t_min` and `t_max`, or nothing. The normal of
    /// the record has length one and opposes the ray.
    fn hit(&self, ray: &Ray, t_min: Fixed, t_max: Fixed) -> (r: Option<HitRecord>)
        requires
            self.wf(),
            ray.wf(),
            t_min.wf(),
            t_max.wf(),
        ensures
            r == self.intersect(*ray, t_min, t_max),
            r matches Some(h) ==> h.wf() && t_min@ < h.t@ < t_max@ && is_unit(h.normal)
                && dot_int(h.normal, ray.direction) <= 0,
    ;
}

/// A surface finish: decides whether and where a ray goes on after a hit.
pub trait Material: Send + Sync {
    /// The parameters are ones that `scatter` accepts.
    spec fn wf(&self) -> bool;

    /// `out` is one of the results that `scatter` may give for this ray and
    /// hit; which of them it gives is left to chance.
    spec fn may_scatter(&self, ray: Ray, hit: HitRecord, out: Option<(Ray, Color)>) -> bool;

    /// The scattered ray and the share of each colour channel that survives,
    /// or nothing where the ray is absorbed.
    fn scatter(&self, ray: &Ray, hit_record: &HitRecord) -> (r: Option<(Ray, Color)>)
        requires
            self.wf(),
            ray.wf(),
            hit_record.wf(),
        ensures
            self.may_scatter(*ray, *hit_record, r),
            r matches Some(s) ==> s.0.wf() && is_color(s.1),
    ;
}

/// A surface with its finish.
pub struct Object<G: Geometry, M: Material> {
    pub geometry: G,
    pub material: M,
}

impl<G: Geometry, M: Material> Object<G, M> {
    /// Geometry and material are well-formed.
    pub open spec fn wf(self) -> bool {
        self.geometry.wf() && self.material.wf()
    }
}

} // verus!
