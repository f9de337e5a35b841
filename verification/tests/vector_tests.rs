use raytracer::fixed::{Fixed, LIMIT_RAW};
use raytracer::vec3::{cross, dot, dot_wide, hadamard, unit_vector, Point3, Vec3};

fn fx(n: i64, d: i64) -> Fixed {
    Fixed::from_ratio(n, d)
}

fn v(x: i64, y: i64, z: i64) -> Vec3 {
    Vec3::new(Fixed::from_raw(x), Fixed::from_raw(y), Fixed::from_raw(z))
}

fn raws(u: Vec3) -> (i64, i64, i64) {
    (u.x.raw, u.y.raw, u.z.raw)
}

#[test]
fn new_keeps_the_components() {
    let p: Point3 = Vec3::new(fx(1, 1), fx(2, 1), fx(-3, 1));
    assert_eq!(raws(p), (65536, 131072, -196608));
    assert!(p.is_wf());
    assert!(!Vec3::new(fx(1, 1), Fixed { raw: LIMIT_RAW + 1 }, fx(0, 1)).is_wf());
}

#[test]
fn default_is_the_zero_vector() {
    assert_eq!(raws(Vec3::default()), (0, 0, 0));
}

#[test]
fn len_and_len_squared_of_3_4_0() {
    let u = Vec3::new(fx(3, 1), fx(4, 1), fx(0, 1));
    assert_eq!(u.len().raw, 327680);
    assert_eq!(u.len_squared().raw, 1638400);
}

#[test]
fn len_squared_saturates_for_long_vectors() {
    let u = Vec3::new(fx(200, 1), fx(0, 1), fx(0, 1));
    assert_eq!(u.len_squared().raw, LIMIT_RAW);
    assert_eq!(u.len().raw, 200 * 65536);
}

#[test]
fn sum_difference_scale_and_negation() {
    let a = Vec3::new(fx(1, 1), fx(2, 1), fx(3, 1));
    let b = Vec3::new(fx(1, 2), fx(-1, 1), fx(0, 1));
    assert_eq!(raws(a.add(b)), (98304, 65536, 196608));
    assert_eq!(raws(a.sub(b)), (32768, 196608, 196608));
    assert_eq!(raws(a.scale(fx(1, 2))), (32768, 65536, 98304));
    assert_eq!(raws(a.div(fx(2, 1))), (32768, 65536, 98304));
    assert_eq!(raws(a.negate()), (-65536, -131072, -196608));
}

#[test]
fn dot_of_axes_is_zero() {
    let x = Vec3::new(fx(1, 1), fx(0, 1), fx(0, 1));
    let y = Vec3::new(fx(0, 1), fx(1, 1), fx(0, 1));
    assert_eq!(dot(x, y).raw, 0);
    assert_eq!(dot(x, x).raw, 65536);
}

#[test]
fn dot_is_the_sum_of_products() {
    let a = Vec3::new(fx(1, 1), fx(2, 1), fx(3, 1));
    let b = Vec3::new(fx(4, 1), fx(-5, 1), fx(1, 2));
    assert_eq!(dot(a, b).raw, -294912);
    assert_eq!(dot_wide(a, b), -294912 * 65536);
}

#[test]
fn dot_rounds_the_exact_sum_once() {
    let a = v(1, 1, 1);
    let b = v(30000, 30000, 30000);
    assert_eq!(dot_wide(a, b), 90000);
    assert_eq!(dot(a, b).raw, 1);
    assert_eq!(dot(a.negate(), b).raw, -1);
}

#[test]
fn cross_of_axes_is_third_axis() {
    let x = Vec3::new(fx(1, 1), fx(0, 1), fx(0, 1));
    let y = Vec3::new(fx(0, 1), fx(1, 1), fx(0, 1));
    assert_eq!(raws(cross(x, y)), (0, 0, 65536));
    assert_eq!(raws(cross(y, x)), (0, 0, -65536));
}

#[test]
fn cross_of_general_vectors() {
    let a = Vec3::new(fx(1, 1), fx(2, 1), fx(3, 1));
    let b = Vec3::new(fx(4, 1), fx(5, 1), fx(6, 1));
    assert_eq!(raws(cross(a, b)), (-3 * 65536, 6 * 65536, -3 * 65536));
    assert_eq!(raws(cross(a, a)), (0, 0, 0));
}

#[test]
fn hadamard_multiplies_channel_by_channel() {
    let a = Vec3::new(fx(1, 2), fx(1, 4), fx(1, 1));
    let b = Vec3::new(fx(1, 2), fx(1, 2), fx(7, 10));
    assert_eq!(raws(hadamard(a, b)), (16384, 8192, 45875));
}

#[test]
fn unit_vector_of_3_4_0() {
    let u = unit_vector(Vec3::new(fx(3, 1), fx(4, 1), fx(0, 1)));
    assert_eq!(raws(u), (39321, 52428, 0));
}

#[test]
fn unit_vector_of_axis_is_exact() {
    assert_eq!(raws(unit_vector(v(0, 0, -5))), (0, 0, -65536));
    assert_eq!(raws(unit_vector(v(LIMIT_RAW, 0, 0))), (65536, 0, 0));
}

#[test]
fn unit_vector_of_tiny_vector_keeps_direction() {
    assert_eq!(raws(unit_vector(v(1, 1, 0))), (46341, 46341, 0));
}

#[test]
fn unit_vector_of_zero_is_zero() {
    assert_eq!(raws(unit_vector(Vec3::default())), (0, 0, 0));
}

#[test]
fn unit_vector_components_stay_within_one() {
    let samples = [
        v(LIMIT_RAW, LIMIT_RAW, LIMIT_RAW),
        v(-LIMIT_RAW, 1, 0),
        v(123456, -654321, 42),
        v(-1, -1, -1),
        v(65536, 0, 1),
    ];
    for s in samples {
        let u = unit_vector(s);
        for c in [u.x.raw, u.y.raw, u.z.raw] {
            assert!(-65536 <= c && c <= 65536);
        }
        let n2 = dot_wide(u, u);
        assert!(n2 <= 65537 * 65537);
        assert!(n2 >= 65530 * 65530);
    }
}
