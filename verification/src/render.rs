//! The scene's nearest hit, the colour of a ray, and the renderer that turns
//! samples into display colours.

use vstd::prelude::*;
use crate::fixed::{Fixed, ONE_RAW, tdiv, saturate, div_trunc};
use crate::vec3::{
    Vec3, dot_int, hadamard, is_unit, unit_vector, spec_hadamard, spec_unit_vector,
    lemma_unit_vector_bounded,
};
use crate::base::{Ray, HitRecord, Geometry, Material, Object, Color, is_color};
use crate::camera::Camera;
use crate::color::{to_rgb, spec_to_rgb, lemma_channel_byte_range};
use crate::materials::random_fraction;

verus! {

/// The raw value of the nearest parameter at which a hit counts: 0.001,
/// so that a scattered ray does not hit the surface it leaves.
pub const T_MIN_RAW: i64 = 65;

/// The raw value of the farthest parameter at which a hit counts: 100.
pub const T_MAX_RAW: i64 = 6553600;

/// Every geometry of the scene is well-formed.
pub open spec fn geometries_wf<G: Geometry, M: Material>(objects: Seq<Object<G, M>>) -> bool {
    forall|i: int| 0 <= i < objects.len() ==> (#[trigger] objects[i]).geometry.wf()
}

/// Every object of the scene is well-formed.
pub open spec fn scene_wf<G: Geometry, M: Material>(objects: Seq<Object<G, M>>) -> bool {
    forall|i: int| 0 <= i < objects.len() ==> (#[trigger] objects[i]).wf()
}

/// No object is hit inside the interval.
pub open spec fn all_miss<G: Geometry, M: Material>(
    objects: Seq<Object<G, M>>,
    ray: Ray,
    t_min: Fixed,
    t_max: Fixed,
) -> bool {
    forall|j: int|
        0 <= j < objects.len() ==> (#[trigger] objects[j]).geometry.intersect(ray, t_min, t_max)
            is None
}

/// Object `i` is hit at `h`, and no object is hit nearer. Of several objects
/// hit at the very same parameter, the first in the scene's order counts.
pub open spec fn is_nearest<G: Geometry, M: Material>(
    objects: Seq<Object<G, M>>,
    ray: Ray,
    t_min: Fixed,
    t_max: Fixed,
    i: int,
    h: HitRecord,
) -> bool {
    &&& 0 <= i < objects.len()
    &&& objects[i].geometry.intersect(ray, t_min, t_max) == Some(h)
    &&& forall|j: int|
        0 <= j < objects.len() ==> match (#[trigger] objects[j]).geometry.intersect(
            ray,
            t_min,
            t_max,
        ) {
            Some(g) => h.t@ < g.t@ || (h.t@ == g.t@ && i <= j),
            None => true,
        }
}

/// At most one object and record are the nearest hit.
pub proof fn lemma_nearest_unique<G: Geometry, M: Material>(
    objects: Seq<Object<G, M>>,
    ray: Ray,
    t_min: Fixed,
    t_max: Fixed,
    i1: int,
    h1: HitRecord,
    i2: int,
    h2: HitRecord,
)
    requires
        is_nearest(objects, ray, t_min, t_max, i1, h1),
        is_nearest(objects, ray, t_min, t_max, i2, h2),
    ensures
        i1 == i2,
        h1 == h2,
{
    assert(objects[i1].geometry.intersect(ray, t_min, t_max) == Some(h1));
    assert(objects[i2].geometry.intersect(ray, t_min, t_max) == Some(h2));
}

/// The nearest hit of the ray among the objects, inside the open interval
/// from `t_min` to `t_max`, with the object that was hit.
pub fn hit_list<'a, G: Geometry, M: Material>(
    ray: &Ray,
    objects: &'a Vec<Object<G, M>>,
    t_min: Fixed,
    t_max: Fixed,
) -> (r: Option<(&'a Object<G, M>, HitRecord)>)
    requires
        ray.wf(),
        t_min.wf(),
        t_max.wf(),
        geometries_wf(objects@),
    ensures
        r is None <==> all_miss(objects@, *ray, t_min, t_max),
        r matches Some(found) ==> found.1.wf() && t_min@ < found.1.t@ < t_max@ && is_unit(
            found.1.normal,
        ) && dot_int(found.1.normal, ray.direction) <= 0 && exists|i: int|
            #[trigger] is_nearest(objects@, *ray, t_min, t_max, i, found.1) && *found.0
                == objects@[i],
{
    let mut best: Option<(usize, HitRecord)> = None;
    let mut closest = t_max;
    let mut k: usize = 0;
    while k < objects.len()
        invariant
            k <= objects.len(),
            ray.wf(),
            t_min.wf(),
            t_max.wf(),
            closest.wf(),
            closest@ <= t_max@,
            geometries_wf(objects@),
            match best {
                None => {
                    &&& closest == t_max
                    &&& forall|j: int|
                        0 <= j < k ==> (#[trigger] objects@[j]).geometry.intersect(
                            *ray,
                            t_min,
                            t_max,
                        ) is None
                },
                Some((i, h)) => {
                    &&& i < k
                    &&& h.wf()
                    &&& t_min@ < h.t@ < t_max@
                    &&& is_unit(h.normal)
                    &&& dot_int(h.normal, ray.direction) <= 0
                    &&& closest == h.t
                    &&& objects@[i as int].geometry.intersect(*ray, t_min, t_max) == Some(h)
                    &&& forall|j: int|
                        0 <= j < k ==> match (#[trigger] objects@[j]).geometry.intersect(
                            *ray,
                            t_min,
                            t_max,
                        ) {
                            Some(g) => h.t@ < g.t@ || (h.t@ == g.t@ && i <= j),
                            None => true,
                        }
                },
            },
        decreases objects.len() - k,
    {
        let result = objects[k].geometry.hit(ray, t_min, closest);
        proof {
            objects@[k as int].geometry.lemma_narrow(*ray, t_min, t_max, closest);
        }
        if let Some(h) = result {
            closest = h.t;
            best = Some((k, h));
        }
        k = k + 1;
    }
    match best {
        None => None,
        Some((i, h)) => {
            proof {
                assert(is_nearest(objects@, *ray, t_min, t_max, i as int, h));
            }
            Some((&objects[i], h))
        },
    }
}

/// The colour of the sky along the ray: white at the horizon's lower end,
/// blending into sky blue with the height of the ray's unit direction.
pub open spec fn spec_background(ray: Ray) -> Color {
    let one = Fixed { raw: ONE_RAW };
    let half = Fixed { raw: 32768 };
    let white = Vec3 { x: one, y: one, z: one };
    let blue = Vec3 { x: half, y: Fixed { raw: 45875 }, z: one };
    let t = half.spec_mul(spec_unit_vector(ray.direction).y.spec_add(one));
    white.spec_scale(one.spec_sub(t)).spec_add(blue.spec_scale(t))
}

/// A blend `(1 − t) · 1 + t · b` of one with a channel `b` is a channel.
proof fn lemma_blend_channel(t: int, b: int)
    requires
        0 <= t <= ONE_RAW,
        0 <= b <= ONE_RAW,
    ensures
        0 <= tdiv(ONE_RAW * (ONE_RAW - t), ONE_RAW as int) + tdiv(b * t, ONE_RAW as int)
            <= ONE_RAW,
        tdiv(ONE_RAW * (ONE_RAW - t), ONE_RAW as int) == ONE_RAW - t,
        0 <= tdiv(b * t, ONE_RAW as int) <= t,
{
    assert(ONE_RAW * (ONE_RAW - t) == 65536 * (65536 - t));
    assert(0 <= (b * t) / 65536 <= t) by (nonlinear_arith)
        requires
            0 <= t,
            0 <= b <= 65536,
    ;
    assert(b * t >= 0) by (nonlinear_arith)
        requires
            0 <= t,
            0 <= b,
    ;
}

/// The colour of the sky along the ray.
pub fn background(ray: &Ray) -> (r: Color)
    requires
        ray.direction.wf(),
    ensures
        r == spec_background(*ray),
        is_color(r),
{
    let one = Fixed::one();
    let half = Fixed { raw: 32768 };
    let white = Vec3 { x: one, y: one, z: one };
    let blue = Vec3 { x: half, y: Fixed { raw: 45875 }, z: one };
    let unit_direction = unit_vector(ray.direction);
    let t = half.mul(unit_direction.y.add(one));
    proof {
        lemma_unit_vector_bounded(ray.direction);
        let s = unit_direction.y@ + ONE_RAW;
        assert(0 <= s <= 2 * ONE_RAW);
        assert(32768 * s >= 0);
        assert(t@ == (32768 * s) / 65536);
        assert(0 <= t@ <= ONE_RAW);
        lemma_blend_channel(t@, 32768);
        lemma_blend_channel(t@, 45875);
        lemma_blend_channel(t@, 65536);
    }
    white.scale(one.sub(t)).add(blue.scale(t))
}

/// The channel-wise product of two colours is a colour.
pub proof fn lemma_hadamard_color(a: Color, b: Color)
    requires
        is_color(a),
        is_color(b),
    ensures
        is_color(spec_hadamard(a, b)),
{
    lemma_attenuated_channel(a.x@, b.x@);
    lemma_attenuated_channel(a.y@, b.y@);
    lemma_attenuated_channel(a.z@, b.z@);
}

/// The product of two channels is a channel.
proof fn lemma_attenuated_channel(a: int, b: int)
    requires
        0 <= a <= ONE_RAW,
        0 <= b <= ONE_RAW,
    ensures
        0 <= tdiv(a * b, ONE_RAW as int) <= ONE_RAW,
{
    assert(a * b >= 0 && 0 <= (a * b) / 65536 <= 65536) by (nonlinear_arith)
        requires
            0 <= a <= 65536,
            0 <= b <= 65536,
    ;
}

/// The colour black.
pub open spec fn spec_black() -> Color {
    Vec3 { x: Fixed { raw: 0 }, y: Fixed { raw: 0 }, z: Fixed { raw: 0 } }
}

/// `c` is a colour that tracing the ray through the scene may give with
/// `depth` bounces left. With none left the colour is black. A ray that hits
/// nothing has the colour of the sky. A ray that hits an object is black if
/// the material absorbs it, and otherwise has the colour of the scattered
/// ray, traced with one bounce less and attenuated channel by channel.
pub open spec fn may_color<G: Geometry, M: Material>(
    world: Seq<Object<G, M>>,
    ray: Ray,
    depth: nat,
    c: Color,
) -> bool
    decreases depth,
{
    let t_min = Fixed { raw: T_MIN_RAW };
    let t_max = Fixed { raw: T_MAX_RAW };
    if depth == 0 {
        c == spec_black()
    } else {
        ||| all_miss(world, ray, t_min, t_max) && c == spec_background(ray)
        ||| exists|i: int, h: HitRecord| #[trigger]
            is_nearest(world, ray, t_min, t_max, i, h) && {
                ||| world[i].material.may_scatter(ray, h, None) && c == spec_black()
                ||| exists|child: Ray, attenuation: Color, inner: Color|
                    #![trigger
                        world[i].material.may_scatter(ray, h, Some((child, attenuation))),
                        spec_hadamard(attenuation, inner),
                    ]
                    world[i].material.may_scatter(ray, h, Some((child, attenuation)))
                        && may_color(world, child, (depth - 1) as nat, inner) && c
                        == spec_hadamard(attenuation, inner)
            }
    }
}

/// The colour of the ray with at most `depth` bounces.
pub fn ray_color<G: Geometry, M: Material>(
    ray: &Ray,
    world: &Vec<Object<G, M>>,
    depth: usize,
) -> (r: Color)
    requires
        ray.wf(),
        scene_wf(world@),
    ensures
        is_color(r),
        may_color(world@, *ray, depth as nat, r),
        depth == 0 ==> r == spec_black(),
        depth > 0 && all_miss(
            world@,
            *ray,
            Fixed { raw: T_MIN_RAW },
            Fixed { raw: T_MAX_RAW },
        ) ==> r == spec_background(*ray),
    decreases depth,
{
    let black = Vec3 { x: Fixed { raw: 0 }, y: Fixed { raw: 0 }, z: Fixed { raw: 0 } };
    if depth == 0 {
        return black;
    }
    let t_min = Fixed { raw: T_MIN_RAW };
    let t_max = Fixed { raw: T_MAX_RAW };
    match hit_list(ray, world, t_min, t_max) {
        None => background(ray),
        Some((object, hit_record)) => {
            let ghost i = choose|i: int|
                #[trigger] is_nearest(world@, *ray, t_min, t_max, i, hit_record) && *object
                    == world@[i];
            assert(world@[i].wf());
            match object.material.scatter(ray, &hit_record) {
                Some((child_ray, attenuation)) => {
                    let inner = ray_color(&child_ray, world, depth - 1);
                    proof {
                        lemma_hadamard_color(attenuation, inner);
                    }
                    hadamard(attenuation, inner)
                },
                None => black,
            }
        },
    }
}

/// The viewport coordinate of a sample in pixel `pixel` of `extent`:
/// `(pixel + jitter) / extent`, rounded down.
pub open spec fn spec_sample_coordinate(pixel: u32, jitter: Fixed, extent: u32) -> Fixed {
    Fixed { raw: ((pixel * ONE_RAW + jitter@) / (extent as int)) as i64 }
}

/// The viewport coordinate of a sample that lies `jitter` of a pixel's
/// width beyond the lower edge of pixel `pixel`.
pub fn sample_coordinate(pixel: u32, jitter: Fixed, extent: u32) -> (r: Fixed)
    requires
        pixel < extent,
        0 <= jitter@ < ONE_RAW,
    ensures
        r == spec_sample_coordinate(pixel, jitter, extent),
        0 <= r@ < ONE_RAW,
{
    let n: i64 = pixel as i64 * 65536 + jitter.raw;
    assert(0 <= n as int / extent as int && (n as int) / (extent as int) < 65536)
        by (nonlinear_arith)
        requires
            0 <= n < (pixel + 1) * 65536,
            pixel < extent,
    ;
    Fixed { raw: n / extent as i64 }
}

/// Channel `k` of a colour: red is 0, green 1 and blue 2.
pub open spec fn channel(c: Color, k: int) -> int {
    if k == 0 {
        c.x@
    } else if k == 1 {
        c.y@
    } else {
        c.z@
    }
}

/// The sum of channel `k` over the samples.
pub open spec fn channel_total(samples: Seq<Color>, k: int) -> int
    decreases samples.len(),
{
    if samples.len() == 0 {
        0
    } else {
        channel_total(samples.drop_last(), k) + channel(samples.last(), k)
    }
}

/// The mean of the samples, channel by channel, rounded toward zero.
pub open spec fn spec_mean(samples: Seq<Color>) -> Color {
    Vec3 {
        x: Fixed::of(tdiv(channel_total(samples, 0), samples.len() as int)),
        y: Fixed::of(tdiv(channel_total(samples, 1), samples.len() as int)),
        z: Fixed::of(tdiv(channel_total(samples, 2), samples.len() as int)),
    }
}

/// The channel sums of well-formed samples are bounded by their number, and
/// those of colours lie between zero and that number.
pub proof fn lemma_channel_total_bound(samples: Seq<Color>, k: int)
    requires
        forall|j: int| 0 <= j < samples.len() ==> (#[trigger] samples[j]).wf(),
    ensures
        -0x4000_0000 * samples.len() <= channel_total(samples, k) <= 0x4000_0000 * samples.len(),
        (forall|j: int| 0 <= j < samples.len() ==> is_color(#[trigger] samples[j])) ==> 0
            <= channel_total(samples, k) <= ONE_RAW * samples.len(),
    decreases samples.len(),
{
    if samples.len() > 0 {
        let rest = samples.drop_last();
        assert forall|j: int| 0 <= j < rest.len() implies (#[trigger] rest[j]).wf() by {
            assert(rest[j] == samples[j]);
        }
        lemma_channel_total_bound(rest, k);
        assert(samples.last() == samples[samples.len() - 1]);
        if forall|j: int| 0 <= j < samples.len() ==> is_color(#[trigger] samples[j]) {
            assert forall|j: int| 0 <= j < rest.len() implies is_color(#[trigger] rest[j]) by {
                assert(rest[j] == samples[j]);
            }
        }
    }
}

/// The mean of colours is a colour.
pub proof fn lemma_mean_color(samples: Seq<Color>)
    requires
        samples.len() > 0,
        forall|j: int| 0 <= j < samples.len() ==> is_color(#[trigger] samples[j]),
    ensures
        is_color(spec_mean(samples)),
{
    let n = samples.len() as int;
    assert forall|k: int| 0 <= k < 3 implies 0 <= #[trigger] tdiv(channel_total(samples, k), n)
        <= ONE_RAW by {
        lemma_channel_total_bound(samples, k);
        let t = channel_total(samples, k);
        assert(0 <= t / n <= 65536) by (nonlinear_arith)
            requires
                0 <= t <= 65536 * n,
                n > 0,
        ;
    }
    assert(0 <= tdiv(channel_total(samples, 0), n) <= ONE_RAW);
    assert(0 <= tdiv(channel_total(samples, 1), n) <= ONE_RAW);
    assert(0 <= tdiv(channel_total(samples, 2), n) <= ONE_RAW);
}

/// The mean of the samples, channel by channel.
pub fn mean(samples: &Vec<Color>) -> (r: Color)
    requires
        samples.len() > 0,
        forall|j: int| 0 <= j < samples.len() ==> (#[trigger] samples@[j]).wf(),
    ensures
        r == spec_mean(samples@),
        r.wf(),
{
    let mut sx: i128 = 0;
    let mut sy: i128 = 0;
    let mut sz: i128 = 0;
    let mut i: usize = 0;
    while i < samples.len()
        invariant
            i <= samples.len(),
            forall|j: int| 0 <= j < samples.len() ==> (#[trigger] samples@[j]).wf(),
            sx == channel_total(samples@.take(i as int), 0),
            sy == channel_total(samples@.take(i as int), 1),
            sz == channel_total(samples@.take(i as int), 2),
        decreases samples.len() - i,
    {
        proof {
            let next = samples@.take(i + 1);
            assert(next.drop_last() =~= samples@.take(i as int));
            assert(next.last() == samples@[i as int]);
            lemma_channel_total_bound(samples@.take(i as int), 0);
            lemma_channel_total_bound(samples@.take(i as int), 1);
            lemma_channel_total_bound(samples@.take(i as int), 2);
        }
        let c = samples[i];
        sx = sx + c.x.raw as i128;
        sy = sy + c.y.raw as i128;
        sz = sz + c.z.raw as i128;
        i = i + 1;
    }
    proof {
        assert(samples@.take(samples.len() as int) =~= samples@);
        lemma_channel_total_bound(samples@, 0);
        lemma_channel_total_bound(samples@, 1);
        lemma_channel_total_bound(samples@, 2);
    }
    let n: i128 = samples.len() as i128;
    Vec3 {
        x: saturate(div_trunc(sx, n)),
        y: saturate(div_trunc(sy, n)),
        z: saturate(div_trunc(sz, n)),
    }
}

/// `c` is a colour that one sample through pixel `(x, y)` may give: the
/// colour of the camera's ray through some point of the pixel.
pub open spec fn is_sample<G: Geometry, M: Material>(
    camera: Camera,
    world: Seq<Object<G, M>>,
    x: u32,
    y: u32,
    width: u32,
    height: u32,
    depth: nat,
    c: Color,
) -> bool {
    exists|jx: Fixed, jy: Fixed|
        0 <= jx@ < ONE_RAW && 0 <= jy@ < ONE_RAW && #[trigger] may_color(
            world,
            camera.spec_get_ray(
                spec_sample_coordinate(x, jx, width),
                spec_sample_coordinate(y, jy, height),
            ),
            depth,
            c,
        )
}

/// `rgb` is a display colour that pixel `(x, y)` may get: the encoding of
/// the mean of `samples_per_pixel` samples through the pixel.
pub open spec fn is_pixel<G: Geometry, M: Material>(
    camera: Camera,
    world: Seq<Object<G, M>>,
    x: u32,
    y: u32,
    width: u32,
    height: u32,
    samples_per_pixel: u32,
    depth: nat,
    rgb: Seq<u8>,
) -> bool {
    exists|samples: Seq<Color>|
        {
            &&& samples.len() == samples_per_pixel
            &&& forall|k: int|
                0 <= k < samples.len() ==> is_color(#[trigger] samples[k]) && is_sample(
                    camera,
                    world,
                    x,
                    y,
                    width,
                    height,
                    depth,
                    samples[k],
                )
            &&& rgb == #[trigger] spec_to_rgb(spec_mean(samples))
        }
}

/// One sample through pixel `(x, y)`: the colour of the camera's ray
/// through a random point of the pixel.
pub fn sample_pixel<G: Geometry, M: Material>(
    camera: &Camera,
    world: &Vec<Object<G, M>>,
    x: u32,
    y: u32,
    width: u32,
    height: u32,
    max_depth: usize,
) -> (r: Color)
    requires
        camera.wf(),
        scene_wf(world@),
        x < width,
        y < height,
    ensures
        is_color(r),
        is_sample(*camera, world@, x, y, width, height, max_depth as nat, r),
        max_depth == 0 ==> r == spec_black(),
{
    let u = sample_coordinate(x, random_fraction(), width);
    let v = sample_coordinate(y, random_fraction(), height);
    let ray = camera.get_ray(u, v);
    ray_color(&ray, world, max_depth)
}

/// The display colour of pixel `(x, y)`, counted from the lower left corner
/// of a `width` by `height` image: the encoded mean of `samples_per_pixel`
/// samples.
pub fn render_pixel<G: Geometry, M: Material>(
    camera: &Camera,
    world: &Vec<Object<G, M>>,
    x: u32,
    y: u32,
    width: u32,
    height: u32,
    samples_per_pixel: u32,
    max_depth: usize,
) -> (r: [u8; 3])
    requires
        camera.wf(),
        scene_wf(world@),
        x < width,
        y < height,
        samples_per_pixel > 0,
    ensures
        is_pixel(
            *camera,
            world@,
            x,
            y,
            width,
            height,
            samples_per_pixel,
            max_depth as nat,
            r@,
        ),
        max_depth == 0 ==> r@ == seq![0u8, 0u8, 0u8],
{
    let mut samples: Vec<Color> = Vec::new();
    let mut k: u32 = 0;
    while k < samples_per_pixel
        invariant
            k <= samples_per_pixel,
            camera.wf(),
            scene_wf(world@),
            x < width,
            y < height,
            samples.len() == k,
            forall|j: int|
                0 <= j < samples.len() ==> is_color(#[trigger] samples@[j]) && is_sample(
                    *camera,
                    world@,
                    x,
                    y,
                    width,
                    height,
                    max_depth as nat,
                    samples@[j],
                ) && (max_depth == 0 ==> samples@[j] == spec_black()),
        decreases samples_per_pixel - k,
    {
        let c = sample_pixel(camera, world, x, y, width, height, max_depth);
        samples.push(c);
        k = k + 1;
    }
    let rgb = to_rgb(mean(&samples));
    proof {
        assert(rgb@ == spec_to_rgb(spec_mean(samples@)));
        if max_depth == 0 {
            lemma_mean_of_black(samples@);
            lemma_channel_byte_range(Fixed { raw: 0 });
            assert(rgb@ =~= seq![0u8, 0u8, 0u8]);
        }
    }
    rgb
}

/// The mean of black samples is black.
pub proof fn lemma_mean_of_black(samples: Seq<Color>)
    requires
        samples.len() > 0,
        forall|j: int| 0 <= j < samples.len() ==> #[trigger] samples[j] == spec_black(),
    ensures
        spec_mean(samples) == spec_black(),
{
    assert forall|k: int| #[trigger] channel_total(samples, k) == 0 by {
        lemma_black_total(samples, k);
    }
    let n = samples.len() as int;
    assert(0int / n == 0) by (nonlinear_arith)
        requires
            n > 0,
    ;
}

/// The channel sums of black samples are zero.
proof fn lemma_black_total(samples: Seq<Color>, k: int)
    requires
        forall|j: int| 0 <= j < samples.len() ==> #[trigger] samples[j] == spec_black(),
    ensures
        channel_total(samples, k) == 0,
    decreases samples.len(),
{
    if samples.len() > 0 {
        let rest = samples.drop_last();
        assert forall|j: int| 0 <= j < rest.len() implies #[trigger] rest[j] == spec_black() by {
            assert(rest[j] == samples[j]);
        }
        lemma_black_total(rest, k);
        assert(samples.last() == samples[samples.len() - 1]);
    }
}

/// The place of pixel number `idx` in a `width` by `height` image whose
/// pixels are numbered row by row from the lower left corner: the column,
/// and the row as the image stores it, counted from the top.
pub open spec fn spec_pixel_place(idx: u32, width: u32, height: u32) -> (u32, u32) {
    ((idx % width) as u32, (height - (idx / width) - 1) as u32)
}

/// One entry of the image: the column, the stored row and the display
/// colour of pixel number `idx`.
pub fn render_entry<G: Geometry, M: Material>(
    camera: &Camera,
    world: &Vec<Object<G, M>>,
    idx: u32,
    width: u32,
    height: u32,
    samples_per_pixel: u32,
    max_depth: usize,
) -> (r: (u32, u32, [u8; 3]))
    requires
        camera.wf(),
        scene_wf(world@),
        idx < width * height,
        samples_per_pixel > 0,
    ensures
        (r.0, r.1) == spec_pixel_place(idx, width, height),
        r.0 < width,
        r.1 < height,
        is_pixel(
            *camera,
            world@,
            (idx % width) as u32,
            (idx / width) as u32,
            width,
            height,
            samples_per_pixel,
            max_depth as nat,
            r.2@,
        ),
        max_depth == 0 ==> r.2@ == seq![0u8, 0u8, 0u8],
{
    assert(width > 0) by (nonlinear_arith)
        requires
            idx < width * height,
    ;
    let y = idx / width;
    let x = idx % width;
    assert(y < height) by (nonlinear_arith)
        requires
            y == idx as int / width as int,
            idx < width * height,
            width > 0,
    ;
    let color = render_pixel(camera, world, x, y, width, height, samples_per_pixel, max_depth);
    (x, height - y - 1, color)
}

/// The whole image: one entry for every pixel, in the order of their
/// numbers.
pub fn render<G: Geometry, M: Material>(
    camera: &Camera,
    world: &Vec<Object<G, M>>,
    width: u32,
    height: u32,
    samples_per_pixel: u32,
    max_depth: usize,
) -> (r: Vec<(u32, u32, [u8; 3])>)
    requires
        camera.wf(),
        scene_wf(world@),
        width * height <= u32::MAX,
        samples_per_pixel > 0,
    ensures
        r.len() == width * height,
        forall|idx: int|
            0 <= idx < r.len() ==> {
                &&& ((#[trigger] r@[idx]).0, r@[idx].1) == spec_pixel_place(
                    idx as u32,
                    width,
                    height,
                )
                &&& is_pixel(
                    *camera,
                    world@,
                    (idx % width as int) as u32,
                    (idx / width as int) as u32,
                    width,
                    height,
                    samples_per_pixel,
                    max_depth as nat,
                    r@[idx].2@,
                )
            },
{
    assert(width * height >= 0) by (nonlinear_arith);
    let count: u32 = width * height;
    let mut image: Vec<(u32, u32, [u8; 3])> = Vec::new();
    let mut idx: u32 = 0;
    while idx < count
        invariant
            idx <= count,
            count == width * height,
            camera.wf(),
            scene_wf(world@),
            samples_per_pixel > 0,
            image.len() == idx,
            forall|j: int|
                0 <= j < image.len() ==> {
                    &&& ((#[trigger] image@[j]).0, image@[j].1) == spec_pixel_place(
                        j as u32,
                        width,
                        height,
                    )
                    &&& is_pixel(
                        *camera,
                        world@,
                        (j % width as int) as u32,
                        (j / width as int) as u32,
                        width,
                        height,
                        samples_per_pixel,
                        max_depth as nat,
                        image@[j].2@,
                    )
                },
        decreases count - idx,
    {
        let entry = render_entry(camera, world, idx, width, height, samples_per_pixel, max_depth);
        image.push(entry);
        idx = idx + 1;
    }
    image
}

/// The height of an image of the given width and aspect ratio (width over
/// height), rounded down; a height beyond the largest `u32` becomes that.
pub fn image_height(width: u32, aspect_ratio: Fixed) -> (r: u32)
    requires
        aspect_ratio@ > 0,
    ensures
        r == if (width * ONE_RAW) / aspect_ratio@ > u32::MAX {
            u32::MAX as int
        } else {
            (width * ONE_RAW) / aspect_ratio@
        },
{
    let n: i64 = width as i64 * 65536;
    let h: i64 = n / aspect_ratio.raw;
    assert(0 <= n as int / aspect_ratio@) by (nonlinear_arith)
        requires
            n >= 0,
            aspect_ratio@ > 0,
    ;
    if h > u32::MAX as i64 {
        u32::MAX
    } else {
        h as u32
    }
}

} // verus!
