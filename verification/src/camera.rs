//! The pinhole camera: an eye at the origin looking down the negative z
//! axis at a viewport one focal length away.

use vstd::prelude::*;
use crate::fixed::{Fixed, ONE_RAW};
use crate::vec3::{Vec3, Point3};
use crate::base::Ray;

verus! {

/// The raw value of the viewport's height, the real number two.
pub const VIEWPORT_HEIGHT_RAW: i64 = 131072;

/// The raw value of the focal length, the real number one.
pub const FOCAL_LENGTH_RAW: i64 = 65536;

/// The eye point and the viewport, fixed when the camera is made.
#[derive(Clone, Copy, Debug)]
pub struct Camera {
    pub origin: Point3,
    pub lower_left_corner: Point3,
    pub horizontal: Vec3,
    pub vertical: Vec3,
}

impl Camera {
    /// The eye point and the viewport are well-formed.
    pub open spec fn wf(self) -> bool {
        &&& self.origin.wf()
        &&& self.lower_left_corner.wf()
        &&& self.horizontal.wf()
        &&& self.vertical.wf()
    }

    /// The camera for a viewport of height two and width `2 * aspect_ratio`,
    /// one unit in front of the origin. Its lower left corner is
    /// `origin − horizontal / 2 − vertical / 2 − (0, 0, focal_length)`.
    pub open spec fn spec_new(aspect_ratio: Fixed) -> Camera {
        let zero = Fixed { raw: 0 };
        let two = Fixed { raw: 131072 };
        let viewport_height = Fixed { raw: VIEWPORT_HEIGHT_RAW };
        let viewport_width = aspect_ratio.spec_mul(viewport_height);
        let origin = Vec3 { x: zero, y: zero, z: zero };
        let horizontal = Vec3 { x: viewport_width, y: zero, z: zero };
        let vertical = Vec3 { x: zero, y: viewport_height, z: zero };
        let depth = Vec3 { x: zero, y: zero, z: Fixed { raw: FOCAL_LENGTH_RAW } };
        Camera {
            origin,
            lower_left_corner: origin.spec_sub(horizontal.spec_div(two)).spec_sub(
                vertical.spec_div(two),
            ).spec_sub(depth),
            horizontal,
            vertical,
        }
    }

    /// The ray through the viewport at `(u, v)`, where `(0, 0)` is the lower
    /// left corner and `(1, 1)` the upper right one.
    pub open spec fn spec_get_ray(self, u: Fixed, v: Fixed) -> Ray {
        Ray {
            origin: self.origin,
            direction: self.lower_left_corner.spec_add(self.horizontal.spec_scale(u)).spec_add(
                self.vertical.spec_scale(v),
            ).spec_sub(self.origin),
        }
    }

    /// Tells whether the eye point and the viewport are well-formed.
    pub fn is_wf(&self) -> (r: bool)
        ensures
            r == self.wf(),
    {
        self.origin.is_wf() && self.lower_left_corner.is_wf() && self.horizontal.is_wf()
            && self.vertical.is_wf()
    }

    /// The camera at the origin for a viewport of the given aspect ratio
    /// (width over height).
    pub fn new(aspect_ratio: Fixed) -> (r: Camera)
        ensures
            r == Camera::spec_new(aspect_ratio),
            r.wf(),
    {
        let zero = Fixed::zero();
        let two = Fixed { raw: 131072 };
        let viewport_height = Fixed { raw: VIEWPORT_HEIGHT_RAW };
        let viewport_width = aspect_ratio.mul(viewport_height);
        let origin = Vec3 { x: zero, y: zero, z: zero };
        let horizontal = Vec3 { x: viewport_width, y: zero, z: zero };
        let vertical = Vec3 { x: zero, y: viewport_height, z: zero };
        let depth = Vec3 { x: zero, y: zero, z: Fixed { raw: FOCAL_LENGTH_RAW } };
        Camera {
            origin,
            lower_left_corner: origin.sub(horizontal.div(two)).sub(vertical.div(two)).sub(depth),
            horizontal,
            vertical,
        }
    }

    /// The ray from the eye through the viewport at `(u, v)`.
    pub fn get_ray(&self, u: Fixed, v: Fixed) -> (r: Ray)
        ensures
            r == self.spec_get_ray(u, v),
            self.origin.wf() ==> r.wf(),
    {
        Ray {
            origin: self.origin,
            direction: self.lower_left_corner.add(self.horizontal.scale(u)).add(
                self.vertical.scale(v),
            ).sub(self.origin),
        }
    }
}

/// Every ray of a freshly made camera starts at the origin and advances by
/// exactly one focal length along the negative z axis, so none of them is
/// without direction.
pub proof fn lemma_camera_rays_advance(aspect_ratio: Fixed, u: Fixed, v: Fixed)
    ensures
        Camera::spec_new(aspect_ratio).spec_get_ray(u, v).origin == Vec3::spec_zero(),
        Camera::spec_new(aspect_ratio).spec_get_ray(u, v).direction.z@ == -ONE_RAW,
{
    let zero = Fixed { raw: 0 };
    assert(zero.spec_mul(u)@ == 0) by {
        assert(0 * u@ == 0);
    }
    assert(zero.spec_mul(v)@ == 0) by {
        assert(0 * v@ == 0);
    }
    assert(zero.spec_div(Fixed { raw: 131072 })@ == 0);
}

} // verus!
