use raytracer::base::{Geometry, HitRecord, Ray};
use raytracer::fixed::Fixed;
use raytracer::shapes::Sphere;
use raytracer::vec3::{dot_wide, Vec3};

const ONE: i64 = 65536;

fn v(x: i64, y: i64, z: i64) -> Vec3 {
    Vec3::new(Fixed::from_raw(x), Fixed::from_raw(y), Fixed::from_raw(z))
}

fn raws(u: Vec3) -> (i64, i64, i64) {
    (u.x.raw, u.y.raw, u.z.raw)
}

fn ray(origin: Vec3, direction: Vec3) -> Ray {
    Ray { origin, direction }
}

fn t_min() -> Fixed {
    Fixed::from_ratio(1, 1000)
}

fn t_max() -> Fixed {
    Fixed::from_int(100)
}

fn close(a: Vec3, b: Vec3, tolerance: i64) -> bool {
    (a.x.raw - b.x.raw).abs() <= tolerance
        && (a.y.raw - b.y.raw).abs() <= tolerance
        && (a.z.raw - b.z.raw).abs() <= tolerance
}

fn on_sphere(s: &Sphere, p: Vec3) -> bool {
    let e = (
        (p.x.raw - s.center.x.raw) as i128,
        (p.y.raw - s.center.y.raw) as i128,
        (p.z.raw - s.center.z.raw) as i128,
    );
    let d2 = e.0 * e.0 + e.1 * e.1 + e.2 * e.2;
    let r = s.radius.raw.abs() as i128;
    r * r - 6 * r <= d2 && d2 <= r * r + 4 * r + 3
}

fn has_length_one(n: Vec3) -> bool {
    let n2 = dot_wide(n, n);
    let one: i128 = 65536 * 65536;
    one - 4 * 65536 - 5 <= n2 && n2 <= one + 3 * 65536
}

fn unit_sphere_ahead() -> Sphere {
    Sphere { center: v(0, 0, -ONE), radius: Fixed::from_ratio(1, 2) }
}

#[test]
fn ray_at_walks_along_the_direction() {
    let r = ray(v(ONE, 0, 0), v(0, 2 * ONE, -ONE));
    assert_eq!(raws(r.at(Fixed::from_ratio(3, 2))), (ONE, 3 * ONE, -98304));
    assert_eq!(raws(r.at(Fixed::zero())), (ONE, 0, 0));
    assert_eq!(raws(r.at(Fixed::from_int(-1))), (ONE, -2 * ONE, ONE));
    assert!(r.is_wf());
}

#[test]
fn hit_record_keeps_a_normal_that_opposes_the_ray() {
    let r = ray(v(0, 0, 0), v(0, 0, -ONE));
    let h = HitRecord::new(&r, v(0, 0, -ONE), Fixed::one(), v(0, 0, ONE));
    assert!(h.front_face);
    assert_eq!(raws(h.normal), (0, 0, ONE));
    assert_eq!(raws(h.p), (0, 0, -ONE));
    assert_eq!(h.t.raw, ONE);
}

#[test]
fn hit_record_turns_a_normal_that_follows_the_ray() {
    let r = ray(v(0, 0, 0), v(0, 0, -ONE));
    let h = HitRecord::new(&r, v(0, 0, -ONE), Fixed::one(), v(0, ONE, -ONE));
    assert!(!h.front_face);
    assert_eq!(raws(h.normal), (0, -ONE, ONE));
}

#[test]
fn hit_record_counts_a_grazing_normal_as_back_face() {
    let r = ray(v(0, 0, 0), v(0, 0, -ONE));
    let h = HitRecord::new(&r, v(0, 0, -ONE), Fixed::one(), v(ONE, 0, 0));
    assert!(!h.front_face);
    assert_eq!(raws(h.normal), (-ONE, 0, 0));
}

#[test]
fn hit_record_normal_never_follows_the_ray() {
    let directions = [v(1, 0, 0), v(-5, 7, 9), v(ONE, -ONE, 3), v(0, 0, -ONE), v(-1, -1, -1)];
    let normals = [v(ONE, 0, 0), v(0, -ONE, 0), v(1, 1, 1), v(-40000, 30000, 1), v(0, 0, 1)];
    for d in directions {
        for n in normals {
            let r = ray(v(0, 0, 0), d);
            let h = HitRecord::new(&r, v(0, 0, 0), Fixed::one(), n);
            assert!(dot_wide(h.normal, d) <= 0);
            let outward = if h.front_face { h.normal } else { h.normal.negate() };
            assert_eq!(raws(outward), raws(n));
        }
    }
}

#[test]
fn sphere_hit_head_on() {
    let s = unit_sphere_ahead();
    let h = s.hit(&ray(v(0, 0, 0), v(0, 0, -ONE)), t_min(), t_max()).unwrap();
    assert_eq!(h.t.raw, 32768);
    assert_eq!(raws(h.p), (0, 0, -32768));
    assert_eq!(raws(h.normal), (0, 0, ONE));
    assert!(h.front_face);
}

#[test]
fn sphere_hit_off_axis() {
    let s = unit_sphere_ahead();
    let h = s.hit(&ray(v(0, 0, 0), v(ONE / 4, 0, -ONE)), t_min(), t_max()).unwrap();
    assert_eq!(h.t.raw, 33881);
    assert_eq!(raws(h.p), (8470, 0, -33881));
    assert_eq!(raws(h.normal), (16939, 0, 63308));
    assert!(h.front_face);
}

#[test]
fn sphere_hit_does_not_depend_on_the_length_of_the_direction() {
    let s = unit_sphere_ahead();
    let h = s.hit(&ray(v(0, 0, 0), v(0, 0, -4 * ONE)), t_min(), t_max()).unwrap();
    assert_eq!(h.t.raw, 8192);
    assert_eq!(raws(h.p), (0, 0, -32768));
    assert_eq!(raws(h.normal), (0, 0, ONE));
}

#[test]
fn sphere_hit_reports_the_nearer_of_two_roots() {
    let s = Sphere { center: v(0, 0, -3 * ONE), radius: Fixed::one() };
    let r = ray(v(0, 0, 0), v(0, 0, -ONE));
    let near = s.hit(&r, t_min(), t_max()).unwrap();
    assert_eq!(near.t.raw, 2 * ONE);
    assert!(near.front_face);
    let far = s.hit(&r, Fixed::from_int(2), t_max()).unwrap();
    assert_eq!(far.t.raw, 4 * ONE);
    assert!(!far.front_face);
    assert_eq!(raws(far.normal), (0, 0, ONE));
    assert_eq!(near.t.raw + far.t.raw, 2 * 3 * ONE);
}

#[test]
fn sphere_hit_from_inside_is_a_back_face() {
    let s = unit_sphere_ahead();
    let h = s.hit(&ray(v(0, 0, -ONE), v(0, 0, -ONE)), t_min(), t_max()).unwrap();
    assert_eq!(h.t.raw, 32768);
    assert_eq!(raws(h.p), (0, 0, -98304));
    assert!(!h.front_face);
    assert_eq!(raws(h.normal), (0, 0, ONE));
}

#[test]
fn sphere_with_negative_radius_turns_its_normal() {
    let s = Sphere { center: v(0, 0, -ONE), radius: Fixed::from_ratio(-1, 2) };
    assert!(s.is_wf());
    let h = s.hit(&ray(v(0, 0, 0), v(0, 0, -ONE)), t_min(), t_max()).unwrap();
    assert_eq!(h.t.raw, 32768);
    assert_eq!(raws(h.p), (0, 0, -32768));
    assert!(!h.front_face);
    assert_eq!(raws(h.normal), (0, 0, ONE));
}

#[test]
fn sphere_miss_when_the_line_passes_outside() {
    let s = unit_sphere_ahead();
    assert!(s.hit(&ray(v(0, 0, 0), v(ONE, 0, -ONE)), t_min(), t_max()).is_none());
    assert!(s.hit(&ray(v(0, ONE, 0), v(0, 0, -ONE)), t_min(), t_max()).is_none());
    assert!(s.hit(&ray(v(32769, 0, 0), v(0, 0, -ONE)), t_min(), t_max()).is_none());
}

#[test]
fn sphere_tangent_ray_touches_once() {
    let s = unit_sphere_ahead();
    let h = s.hit(&ray(v(32768, 0, 0), v(0, 0, -ONE)), t_min(), t_max()).unwrap();
    assert_eq!(h.t.raw, ONE);
    assert_eq!(raws(h.p), (32768, 0, -ONE));
    assert_eq!(raws(h.normal), (-ONE, 0, 0));
    assert!(!h.front_face);
}

#[test]
fn sphere_behind_the_ray_is_not_hit() {
    let s = unit_sphere_ahead();
    assert!(s.hit(&ray(v(0, 0, 0), v(0, 0, ONE)), t_min(), t_max()).is_none());
}

#[test]
fn sphere_hit_respects_the_open_interval() {
    let s = Sphere { center: v(0, 0, -3 * ONE), radius: Fixed::one() };
    let r = ray(v(0, 0, 0), v(0, 0, -ONE));
    assert!(s.hit(&r, t_min(), Fixed::from_int(2)).is_none());
    assert_eq!(s.hit(&r, t_min(), Fixed { raw: 2 * ONE + 1 }).unwrap().t.raw, 2 * ONE);
    assert_eq!(s.hit(&r, Fixed { raw: 2 * ONE - 1 }, t_max()).unwrap().t.raw, 2 * ONE);
    assert_eq!(s.hit(&r, Fixed::from_int(2), t_max()).unwrap().t.raw, 4 * ONE);
    assert!(s.hit(&r, Fixed::from_int(4), t_max()).is_none());
    assert!(s.hit(&r, Fixed::from_int(2), Fixed::from_int(4)).is_none());
}

#[test]
fn sphere_hit_parameter_lies_inside_the_interval() {
    let s = Sphere { center: v(3 * ONE, -2 * ONE, -5 * ONE), radius: Fixed::from_int(2) };
    let directions = [v(3 * ONE, -2 * ONE, -5 * ONE), v(ONE, -ONE, -2 * ONE), v(40000, -20000, -ONE)];
    for d in directions {
        let r = ray(v(0, 0, 0), d);
        if let Some(h) = s.hit(&r, t_min(), t_max()) {
            assert!(t_min().raw < h.t.raw && h.t.raw < t_max().raw);
            assert!(dot_wide(h.normal, d) <= 0);
            assert!(on_sphere(&s, h.p));
            assert!(has_length_one(h.normal));
            assert!(close(h.p, r.at(h.t), 3));
        }
    }
    assert!(s.hit(&ray(v(0, 0, 0), directions[0]), t_min(), t_max()).is_some());
}

#[test]
fn ray_without_direction_hits_nothing() {
    let s = unit_sphere_ahead();
    assert!(s.hit(&ray(v(0, 0, -ONE), v(0, 0, 0)), t_min(), t_max()).is_none());
    assert!(s.hit(&ray(v(0, 0, 0), v(0, 0, 0)), t_min(), t_max()).is_none());
}

#[test]
fn sphere_must_have_a_radius_and_lie_inside_the_range() {
    assert!(!Sphere { center: v(0, 0, 0), radius: Fixed::zero() }.is_wf());
    assert!(!Sphere { center: v(0, 0, 0), radius: Fixed { raw: 7 } }.is_wf());
    assert!(!Sphere { center: v(0, 0, 0), radius: Fixed { raw: -7 } }.is_wf());
    assert!(Sphere { center: v(0, 0, 0), radius: Fixed { raw: 8 } }.is_wf());
    assert!(Sphere { center: v(0, 0, 0), radius: Fixed { raw: -8 } }.is_wf());
    assert!(unit_sphere_ahead().is_wf());
    assert!(!Sphere { center: v(0, 0, 0), radius: Fixed { raw: 1 << 31 } }.is_wf());
    let limit: i64 = 1 << 30;
    let fifty = Fixed::from_int(50);
    assert!(Sphere { center: v(limit - 50 * ONE - 2, 0, 0), radius: fifty }.is_wf());
    assert!(!Sphere { center: v(limit - 50 * ONE - 1, 0, 0), radius: fifty }.is_wf());
    assert!(!Sphere { center: v(0, -limit, 0), radius: Fixed::from_int(-50) }.is_wf());
    assert!(!Sphere { center: v(limit, 0, 0), radius: fifty }.is_wf());
}

#[test]
fn sphere_hit_with_a_very_long_direction_stays_on_the_sphere() {
    let s = unit_sphere_ahead();
    let long = ray(v(0, 0, 0), v(0, 0, -10000 * ONE));
    let h = s.hit(&long, Fixed::zero(), t_max()).unwrap();
    assert_eq!(h.t.raw, 3);
    assert_eq!(raws(h.p), (0, 0, -32768));
    assert_eq!(raws(h.normal), (0, 0, ONE));
    assert!(h.front_face);
    let oblique = ray(v(0, 0, 0), v(2500 * ONE, 0, -10000 * ONE));
    let h = s.hit(&oblique, Fixed::zero(), t_max()).unwrap();
    assert_eq!(h.t.raw, 3);
    assert_eq!(raws(h.p), (8470, 0, -33881));
    assert_eq!(raws(h.normal), (16939, 0, 63308));
    let short = s.hit(&ray(v(0, 0, 0), v(ONE / 4, 0, -ONE)), t_min(), t_max()).unwrap();
    assert_eq!(raws(h.p), raws(short.p));
    assert_eq!(raws(h.normal), raws(short.normal));
}

#[test]
fn sphere_hit_with_a_very_short_direction_stays_on_the_sphere() {
    let s = unit_sphere_ahead();
    let r = ray(v(0, 0, 0), v(0, 1, -3));
    let h = s.hit(&r, Fixed::zero(), Fixed { raw: 1 << 30 }).unwrap();
    assert_eq!(h.t.raw, 762472038);
    assert_eq!(raws(h.p), (0, 11634, -34903));
    assert_eq!(raws(h.normal), (0, 23268, 61266));
    assert!(on_sphere(&s, h.p));
    assert!(has_length_one(h.normal));
}

#[test]
fn sphere_at_the_edge_of_the_range_is_hit_on_its_surface() {
    let limit: i64 = 1 << 30;
    let s = Sphere { center: v(limit - 50 * ONE - 2, 0, 0), radius: Fixed::from_int(50) };
    assert!(s.is_wf());
    let outside = ray(v(limit - 150 * ONE, 0, 0), v(ONE, 0, 0));
    let h = s.hit(&outside, t_min(), t_max()).unwrap();
    assert_eq!(h.t.raw, 3276798);
    assert_eq!(raws(h.p), (1067188222, 0, 0));
    assert_eq!(raws(h.normal), (-ONE, 0, 0));
    assert!(h.front_face);
    let inside = ray(s.center, v(ONE, 0, 0));
    let h = s.hit(&inside, t_min(), t_max()).unwrap();
    assert_eq!(h.t.raw, 50 * ONE);
    assert_eq!(raws(h.p), (limit - 2, 0, 0));
    assert_eq!(raws(h.normal), (-ONE, 0, 0));
    assert!(!h.front_face);
    assert!(on_sphere(&s, h.p));
}

#[test]
fn every_hit_lies_on_the_sphere_with_a_normal_of_length_one() {
    let mut seed: i64 = 99;
    let mut next = |span: i64| {
        seed = (seed * 1103515245 + 12345) % 2147483648;
        seed % (2 * span + 1) - span
    };
    let mut hits = 0;
    for round in 0..4000 {
        let size = next(200 * ONE).abs() + 8;
        let radius = Fixed::from_raw(if round % 5 == 0 { -size } else { size });
        let center = v(next(300 * ONE), next(300 * ONE), next(300 * ONE));
        let origin = v(next(300 * ONE), next(300 * ONE), next(300 * ONE));
        let span = [1, 1000, ONE, 1000 * ONE][(round % 4) as usize];
        let toward = v(
            (center.x.raw - origin.x.raw) / 64 + next(span),
            (center.y.raw - origin.y.raw) / 64 + next(span),
            (center.z.raw - origin.z.raw) / 64 + next(span),
        );
        let s = Sphere { center, radius };
        assert!(s.is_wf());
        let far = Fixed { raw: 1 << 30 };
        if let Some(h) = s.hit(&ray(origin, toward), Fixed { raw: -(1 << 30) }, far) {
            assert!(on_sphere(&s, h.p));
            assert!(has_length_one(h.normal));
            assert!(dot_wide(h.normal, toward) <= 0);
            hits += 1;
        }
    }
    assert!(hits > 1000);
}

#[test]
fn large_scene_coordinates_do_not_overflow() {
    let s = Sphere { center: v(0, -100 * ONE - 32768, -ONE), radius: Fixed::from_int(100) };
    let h = s.hit(&ray(v(0, 0, 0), v(0, -ONE, -ONE)), t_min(), t_max()).unwrap();
    assert!(h.front_face);
    assert_eq!(h.t.raw, 32849);
    assert_eq!(raws(h.p), (0, -32849, -32849));
    assert_eq!(raws(h.normal), (0, 65535, 326));
    let limit: i64 = 1 << 30;
    let big = Sphere { center: v(0, 0, 0), radius: Fixed { raw: limit - 2 } };
    assert!(big.is_wf());
    let r = ray(v(-limit, -limit, limit), v(limit, limit, -limit));
    let h = big.hit(&r, t_min(), t_max()).unwrap();
    assert!(on_sphere(&big, h.p));
    assert!(has_length_one(h.normal));
    assert!(h.front_face);
}

#[test]
fn outward_normal_is_recovered_from_the_record() {
    let r = ray(v(0, 0, 0), v(0, 0, -ONE));
    for n in [v(0, 0, ONE), v(0, ONE, -ONE), v(ONE, 0, 0), v(-3, 4, 5)] {
        let h = HitRecord::new(&r, v(0, 0, -ONE), Fixed::one(), n);
        assert_eq!(raws(h.outward_normal()), raws(n));
    }
}

#[test]
fn hit_toward_the_centre_has_roots_about_the_centre() {
    let s = Sphere { center: v(3 * ONE, -6 * ONE, -6 * ONE), radius: Fixed::from_int(2) };
    let r = ray(v(0, 0, 0), v(ONE, -2 * ONE, -2 * ONE));
    let near = s.hit(&r, t_min(), t_max()).unwrap();
    let far = s.hit(&r, near.t, t_max()).unwrap();
    assert!(near.front_face && !far.front_face);
    assert!(near.t.raw < 3 * ONE && 3 * ONE < far.t.raw);
    assert!((near.t.raw + far.t.raw - 2 * 3 * ONE).abs() <= 1);
    assert_eq!(near.t.raw, 152917);
    assert_eq!(far.t.raw, 240298);
}

#[test]
fn hit_toward_the_centre_from_outside_is_a_front_face() {
    let mut seed: i64 = 4242;
    let mut hits = 0;
    for _ in 0..3000 {
        let mut k = [0i64; 5];
        for c in k.iter_mut() {
            seed = (seed * 1103515245 + 12345) % 2147483648;
            *c = seed % 2001 - 1000;
        }
        let step = v(k[0] * 64, k[1] * 64, k[2] * 64);
        let radius = Fixed::from_raw(k[3].abs() * 17 + 8);
        let origin = v(k[4] * 100, -k[2] * 50, k[0] * 25);
        let many = seed % 7 + 2;
        let center = v(
            origin.x.raw + many * step.x.raw,
            origin.y.raw + many * step.y.raw,
            origin.z.raw + many * step.z.raw,
        );
        let wide = dot_wide(step, step) * (many as i128) * (many as i128);
        if wide <= (radius.raw as i128) * (radius.raw as i128) {
            continue;
        }
        let s = Sphere { center, radius };
        if let Some(h) = s.hit(&ray(origin, step), Fixed::zero(), t_max()) {
            assert!(h.front_face);
            assert!(h.t.raw <= many * ONE);
            assert!(dot_wide(h.normal, step) < 0);
            hits += 1;
        }
    }
    assert!(hits > 1000);
}
