use raytracer::fixed::{isqrt, Fixed, LIMIT_RAW, ONE_RAW};

#[test]
fn constants_are_one_and_the_limit() {
    assert_eq!(ONE_RAW, 65536);
    assert_eq!(LIMIT_RAW, 1 << 30);
    assert_eq!(Fixed::one().raw, 65536);
    assert_eq!(Fixed::zero().raw, 0);
}

#[test]
fn from_ratio_rounds_toward_zero() {
    assert_eq!(Fixed::from_ratio(1, 2).raw, 32768);
    assert_eq!(Fixed::from_ratio(1, 3).raw, 21845);
    assert_eq!(Fixed::from_ratio(-1, 3).raw, -21845);
    assert_eq!(Fixed::from_ratio(1, -3).raw, -21845);
    assert_eq!(Fixed::from_ratio(-1, -3).raw, 21845);
    assert_eq!(Fixed::from_ratio(7, 10).raw, 45875);
    assert_eq!(Fixed::from_ratio(16, 9).raw, 116508);
}

#[test]
fn from_int_scales_and_saturates() {
    assert_eq!(Fixed::from_int(3).raw, 196608);
    assert_eq!(Fixed::from_int(-3).raw, -196608);
    assert_eq!(Fixed::from_int(16384).raw, LIMIT_RAW);
    assert_eq!(Fixed::from_int(20000).raw, LIMIT_RAW);
    assert_eq!(Fixed::from_int(-20000).raw, -LIMIT_RAW);
}

#[test]
fn from_raw_saturates() {
    assert_eq!(Fixed::from_raw(17).raw, 17);
    assert_eq!(Fixed::from_raw(i64::MAX).raw, LIMIT_RAW);
    assert_eq!(Fixed::from_raw(i64::MIN).raw, -LIMIT_RAW);
}

#[test]
fn well_formedness_is_the_range() {
    assert!(Fixed { raw: LIMIT_RAW }.is_wf());
    assert!(Fixed { raw: -LIMIT_RAW }.is_wf());
    assert!(!Fixed { raw: LIMIT_RAW + 1 }.is_wf());
    assert!(!Fixed { raw: -LIMIT_RAW - 1 }.is_wf());
}

#[test]
fn addition_and_subtraction_saturate() {
    let a = Fixed::from_int(3);
    let b = Fixed::from_ratio(1, 2);
    assert_eq!(a.add(b).raw, 229376);
    assert_eq!(a.sub(b).raw, 163840);
    assert_eq!(b.sub(a).raw, -163840);
    let big = Fixed::from_int(16000);
    assert_eq!(big.add(big).raw, LIMIT_RAW);
    assert_eq!(big.neg().sub(big).raw, -LIMIT_RAW);
    assert_eq!(Fixed { raw: i64::MAX }.add(Fixed { raw: i64::MAX }).raw, LIMIT_RAW);
}

#[test]
fn negation_is_exact_in_range() {
    assert_eq!(Fixed::from_ratio(1, 3).neg().raw, -21845);
    assert_eq!(Fixed { raw: -LIMIT_RAW }.neg().raw, LIMIT_RAW);
    assert_eq!(Fixed { raw: i64::MIN }.neg().raw, LIMIT_RAW);
}

#[test]
fn multiplication_rounds_toward_zero() {
    let x = Fixed::from_ratio(3, 2);
    assert_eq!(x.mul(x).raw, 147456);
    assert_eq!(Fixed { raw: 1 }.mul(Fixed::from_ratio(1, 2)).raw, 0);
    assert_eq!(Fixed { raw: -1 }.mul(Fixed::from_ratio(1, 2)).raw, 0);
    assert_eq!(Fixed { raw: -3 }.mul(Fixed::from_ratio(1, 2)).raw, -1);
    assert_eq!(Fixed::from_int(200).mul(Fixed::from_int(200)).raw, LIMIT_RAW);
    assert_eq!(Fixed::from_int(-200).mul(Fixed::from_int(200)).raw, -LIMIT_RAW);
}

#[test]
fn multiplication_by_one_is_identity() {
    for raw in [-LIMIT_RAW, -70000, -1, 0, 1, 12345, LIMIT_RAW] {
        assert_eq!(Fixed { raw }.mul(Fixed::one()).raw, raw);
    }
}

#[test]
fn division_rounds_toward_zero() {
    assert_eq!(Fixed::one().div(Fixed::from_int(3)).raw, 21845);
    assert_eq!(Fixed::one().neg().div(Fixed::from_int(3)).raw, -21845);
    assert_eq!(Fixed::one().div(Fixed::from_int(-3)).raw, -21845);
    assert_eq!(Fixed::from_int(3).div(Fixed::from_ratio(1, 2)).raw, 393216);
    assert_eq!(Fixed::one().div(Fixed { raw: 1 }).raw, LIMIT_RAW);
    assert_eq!(Fixed::one().div(Fixed::from_ratio(3, 2)).raw, 43690);
}

#[test]
fn square_root_rounds_down() {
    assert_eq!(Fixed::from_int(4).sqrt().raw, 131072);
    assert_eq!(Fixed::from_int(2).sqrt().raw, 92681);
    assert_eq!(Fixed::from_ratio(1, 4).sqrt().raw, 32768);
    assert_eq!(Fixed::zero().sqrt().raw, 0);
    assert_eq!(Fixed { raw: 1 }.sqrt().raw, 256);
    assert_eq!(Fixed { raw: LIMIT_RAW }.sqrt().raw, 8388608);
}

#[test]
fn square_root_of_a_negative_number_is_zero() {
    assert_eq!(Fixed::from_int(-1).sqrt().raw, 0);
    assert_eq!(Fixed { raw: -1 }.sqrt().raw, 0);
}

#[test]
fn min_picks_the_smaller() {
    let a = Fixed::from_int(2);
    let b = Fixed::from_int(-5);
    assert_eq!(a.min(b).raw, b.raw);
    assert_eq!(b.min(a).raw, b.raw);
    assert_eq!(a.min(a).raw, a.raw);
}

#[test]
fn isqrt_is_the_floor_of_the_root() {
    assert_eq!(isqrt(0), 0);
    assert_eq!(isqrt(1), 1);
    assert_eq!(isqrt(3), 1);
    assert_eq!(isqrt(4), 2);
    assert_eq!(isqrt(15), 3);
    assert_eq!(isqrt(16), 4);
    assert_eq!(isqrt(17), 4);
    assert_eq!(isqrt(4611686018427387904), 2147483648);
    assert_eq!(isqrt(u128::MAX), 18446744073709551615);
}

#[test]
fn isqrt_brackets_its_argument() {
    let mut n: u128 = 1;
    for _ in 0..120 {
        let s = isqrt(n);
        assert!(s * s <= n);
        assert!((s + 1) * (s + 1) > n);
        n = n * 2 + 1;
    }
}
