//! Fixed-point reals with sixteen fractional bits and saturating arithmetic.
//!
//! A [`Fixed`] stores the real number `raw / 65536`. Every operation computes
//! the exact integer result, rounds a quotient toward zero and saturates the
//! result into `[-LIMIT_RAW, LIMIT_RAW]`. So every operation yields a
//! well-formed number, and all but division by zero are total.

use vstd::prelude::*;

verus! {

/// The raw value of the real number one.
pub const ONE_RAW: i64 = 65536;

/// The largest raw magnitude a well-formed number holds: the real 16384.
pub const LIMIT_RAW: i64 = 1073741824;

/// Saturation of a raw value into the representable range.
pub open spec fn clamp(x: int) -> int {
    if x < -(LIMIT_RAW as int) {
        -(LIMIT_RAW as int)
    } else if x > LIMIT_RAW as int {
        LIMIT_RAW as int
    } else {
        x
    }
}

/// Division rounded toward zero. Unspecified for a zero divisor.
pub open spec fn tdiv(a: int, b: int) -> int {
    if a >= 0 {
        a / b
    } else {
        -((-a) / b)
    }
}

/// A quotient is no larger in magnitude than its dividend.
pub proof fn lemma_tdiv_bound(a: int, b: int)
    requires
        b != 0,
    ensures
        a >= 0 ==> -a <= tdiv(a, b) <= a,
        a <= 0 ==> a <= tdiv(a, b) <= -a,
{
    if a >= 0 {
        assert(-a <= a / b <= a) by (nonlinear_arith)
            requires
                a >= 0,
                b != 0,
        ;
    } else {
        assert(a <= (-a) / b <= -a) by (nonlinear_arith)
            requires
                a < 0,
                b != 0,
        ;
    }
}

/// For a positive divisor the quotient grows with the dividend.
pub proof fn lemma_tdiv_monotone(a1: int, a2: int, b: int)
    requires
        a1 <= a2,
        b > 0,
    ensures
        tdiv(a1, b) <= tdiv(a2, b),
{
    if a1 >= 0 {
        assert(a1 / b <= a2 / b) by (nonlinear_arith)
            requires
                0 <= a1 <= a2,
                b > 0,
        ;
    } else if a2 >= 0 {
        assert((-a1) / b >= 0 && a2 / b >= 0) by (nonlinear_arith)
            requires
                a1 < 0 <= a2,
                b > 0,
        ;
    } else {
        assert((-a2) / b <= (-a1) / b) by (nonlinear_arith)
            requires
                0 < -a2 <= -a1,
                b > 0,
        ;
    }
}

/// Rounding a quotient toward zero loses less than one divisor, on the side
/// of the dividend.
pub proof fn lemma_tdiv_remainder(a: int, b: int)
    requires
        b > 0,
    ensures
        -b < a - tdiv(a, b) * b < b,
        a >= 0 ==> 0 <= a - tdiv(a, b) * b && tdiv(a, b) >= 0,
        a <= 0 ==> a - tdiv(a, b) * b <= 0 && tdiv(a, b) <= 0,
{
    if a >= 0 {
        let q = a / b;
        assert(0 <= a - q * b < b && q >= 0) by (nonlinear_arith)
            requires
                a >= 0,
                b > 0,
                q == a / b,
        ;
    } else {
        let q = (-a) / b;
        assert(0 <= (-a) - q * b < b && q >= 0) by (nonlinear_arith)
            requires
                a < 0,
                b > 0,
                q == (-a) / b,
        ;
        assert((-q) * b == -(q * b)) by (nonlinear_arith);
    }
}

/// A multiple of a positive divisor is divided without remainder.
pub proof fn lemma_tdiv_multiple(k: int, b: int)
    requires
        b > 0,
    ensures
        tdiv(k * b, b) == k,
{
    if k >= 0 {
        assert(k * b >= 0 && (k * b) / b == k) by (nonlinear_arith)
            requires
                k >= 0,
                b > 0,
        ;
    } else {
        assert(k * b < 0 && (-(k * b)) / b == -k) by (nonlinear_arith)
            requires
                k < 0,
                b > 0,
        ;
    }
}

/// A dividend between two multiples of a positive divisor has its quotient
/// between the two factors.
pub proof fn lemma_tdiv_between(a: int, b: int, lo: int, hi: int)
    requires
        b > 0,
        lo * b <= a <= hi * b,
    ensures
        lo <= tdiv(a, b) <= hi,
{
    lemma_tdiv_multiple(lo, b);
    lemma_tdiv_multiple(hi, b);
    lemma_tdiv_monotone(lo * b, a, b);
    lemma_tdiv_monotone(a, hi * b, b);
}

/// Machine division, which rounds toward zero.
pub fn div_trunc(a: i128, b: i128) -> (r: i128)
    requires
        b != 0,
        a > i128::MIN,
    ensures
        r == tdiv(a as int, b as int),
{
    proof {
        lemma_tdiv_bound(a as int, b as int);
    }
    a / b
}

/// `s` is the integer square root of `n`, rounded down.
pub open spec fn is_floor_sqrt(n: int, s: int) -> bool {
    0 <= s && s * s <= n && n < (s + 1) * (s + 1)
}

/// The integer square root of a non-negative `n`, rounded down.
pub open spec fn floor_sqrt(n: int) -> int {
    choose|s: int| is_floor_sqrt(n, s)
}

/// Every non-negative integer has a rounded-down square root.
pub proof fn lemma_floor_sqrt(n: int)
    requires
        n >= 0,
    ensures
        is_floor_sqrt(n, floor_sqrt(n)),
    decreases n,
{
    if n == 0 {
        assert(is_floor_sqrt(0, 0));
    } else {
        lemma_floor_sqrt(n - 1);
        let r = floor_sqrt(n - 1);
        if (r + 1) * (r + 1) <= n {
            assert((r + 1) * (r + 1) < (r + 2) * (r + 2)) by (nonlinear_arith)
                requires
                    0 <= r,
            ;
            assert(is_floor_sqrt(n, r + 1));
        } else {
            assert(is_floor_sqrt(n, r));
        }
    }
}

/// The rounded-down square root is unique.
pub proof fn lemma_floor_sqrt_unique(n: int, s: int, t: int)
    requires
        is_floor_sqrt(n, s),
        is_floor_sqrt(n, t),
    ensures
        s == t,
{
    if s < t {
        assert((s + 1) * (s + 1) <= t * t) by (nonlinear_arith)
            requires
                0 <= s,
                s + 1 <= t,
        ;
    }
    if t < s {
        assert((t + 1) * (t + 1) <= s * s) by (nonlinear_arith)
            requires
                0 <= t,
                t + 1 <= s,
        ;
    }
}

/// Any witness of the square-root relation is the square root.
pub proof fn lemma_floor_sqrt_is(n: int, s: int)
    requires
        is_floor_sqrt(n, s),
    ensures
        floor_sqrt(n) == s,
{
    lemma_floor_sqrt(n);
    lemma_floor_sqrt_unique(n, s, floor_sqrt(n));
}

/// The square root is monotone.
pub proof fn lemma_floor_sqrt_monotone(m: int, n: int)
    requires
        0 <= m <= n,
    ensures
        floor_sqrt(m) <= floor_sqrt(n),
{
    lemma_floor_sqrt(m);
    lemma_floor_sqrt(n);
    let s = floor_sqrt(m);
    let t = floor_sqrt(n);
    if t < s {
        assert((t + 1) * (t + 1) <= s * s) by (nonlinear_arith)
            requires
                0 <= t,
                t + 1 <= s,
        ;
    }
}

/// The square root of a number between zero and one lies between zero and
/// one.
pub proof fn lemma_sqrt_of_fraction(c: int)
    requires
        0 <= c <= ONE_RAW,
    ensures
        0 <= floor_sqrt(c * ONE_RAW) <= ONE_RAW,
{
    assert(c * ONE_RAW == c * 65536);
    lemma_floor_sqrt(c * 65536);
    assert(65536int * 65536 < 65537int * 65537);
    lemma_floor_sqrt_is(65536int * 65536, 65536);
    lemma_floor_sqrt_monotone(c * 65536, 65536int * 65536);
}

/// Integer square root by bisection.
pub fn isqrt(n: u128) -> (s: u128)
    ensures
        s == floor_sqrt(n as int),
        s < 18446744073709551616,
{
    let mut lo: u128 = 0;
    let mut hi: u128 = 18446744073709551616;
    assert(hi * hi > n) by (nonlinear_arith)
        requires
            hi == 18446744073709551616,
            n <= u128::MAX,
    ;
    while hi - lo > 1
        invariant
            lo < hi <= 18446744073709551616,
            lo * lo <= n < hi * hi,
        decreases hi - lo,
    {
        let mid: u128 = lo + (hi - lo) / 2;
        let q: u128 = n / mid;
        if mid <= q {
            assert(mid * mid <= n) by (nonlinear_arith)
                requires
                    0 < mid <= q,
                    q == n as int / mid as int,
            ;
            lo = mid;
        } else {
            assert(mid * mid > n) by (nonlinear_arith)
                requires
                    0 <= q < mid,
                    q == n as int / mid as int,
            ;
            hi = mid;
        }
    }
    proof {
        assert(hi == lo + 1);
        lemma_floor_sqrt_is(n as int, lo as int);
    }
    lo
}

/// A real number in fixed point: `raw / 65536`.
#[derive(Clone, Copy, Debug, PartialEq, Eq, Structural)]
pub struct Fixed {
    pub raw: i64,
}

impl View for Fixed {
    type V = int;

    /// The raw value as a mathematical integer.
    open spec fn view(&self) -> int {
        self.raw as int
    }
}

impl Fixed {
    /// The raw value lies in the representable range.
    pub open spec fn wf(self) -> bool {
        -(LIMIT_RAW as int) <= self.raw <= LIMIT_RAW as int
    }

    /// The well-formed number nearest to the raw value `x`.
    pub open spec fn of(x: int) -> Fixed {
        Fixed { raw: clamp(x) as i64 }
    }

    /// The sum, saturated.
    pub open spec fn spec_add(self, other: Fixed) -> Fixed {
        Fixed::of(self@ + other@)
    }

    /// The difference, saturated.
    pub open spec fn spec_sub(self, other: Fixed) -> Fixed {
        Fixed::of(self@ - other@)
    }

    /// The negation, saturated; exact for a well-formed number.
    pub open spec fn spec_neg(self) -> Fixed {
        Fixed::of(-self@)
    }

    /// The product, rounded toward zero and saturated.
    pub open spec fn spec_mul(self, other: Fixed) -> Fixed {
        Fixed::of(tdiv(self@ * other@, ONE_RAW as int))
    }

    /// The quotient, rounded toward zero and saturated.
    pub open spec fn spec_div(self, other: Fixed) -> Fixed {
        Fixed::of(tdiv(self@ * ONE_RAW, other@))
    }

    /// The square root; a negative number counts as zero.
    pub open spec fn spec_sqrt(self) -> Fixed {
        Fixed::of(floor_sqrt((if self@ < 0 { 0 } else { self@ }) * ONE_RAW))
    }

    /// The smaller of two numbers.
    pub open spec fn spec_min(self, other: Fixed) -> Fixed {
        if self@ <= other@ {
            self
        } else {
            other
        }
    }

    /// Tells whether the raw value lies in the representable range.
    pub fn is_wf(&self) -> (r: bool)
        ensures
            r == self.wf(),
    {
        -LIMIT_RAW <= self.raw && self.raw <= LIMIT_RAW
    }

    /// The number zero.
    pub fn zero() -> (r: Fixed)
        ensures
            r@ == 0,
            r.wf(),
    {
        Fixed { raw: 0 }
    }

    /// The number one.
    pub fn one() -> (r: Fixed)
        ensures
            r@ == ONE_RAW,
            r.wf(),
    {
        Fixed { raw: ONE_RAW }
    }

    /// The number with the given raw value, saturated into range.
    pub fn from_raw(raw: i64) -> (r: Fixed)
        ensures
            r == Fixed::of(raw as int),
            r.wf(),
    {
        saturate(raw as i128)
    }

    /// The whole number `n`, saturated into range.
    pub fn from_int(n: i32) -> (r: Fixed)
        ensures
            r == Fixed::of(n * ONE_RAW),
            r.wf(),
    {
        saturate(n as i128 * 65536)
    }

    /// The quotient `num / den`, rounded toward zero and saturated.
    pub fn from_ratio(num: i64, den: i64) -> (r: Fixed)
        requires
            den != 0,
        ensures
            r == Fixed::of(tdiv(num * ONE_RAW, den as int)),
            r.wf(),
    {
        saturate(div_trunc(num as i128 * 65536, den as i128))
    }

    /// The sum, saturated.
    pub fn add(self, other: Fixed) -> (r: Fixed)
        ensures
            r == self.spec_add(other),
            r.wf(),
    {
        saturate(self.raw as i128 + other.raw as i128)
    }

    /// The difference, saturated.
    pub fn sub(self, other: Fixed) -> (r: Fixed)
        ensures
            r == self.spec_sub(other),
            r.wf(),
    {
        saturate(self.raw as i128 - other.raw as i128)
    }

    /// The negation.
    pub fn neg(self) -> (r: Fixed)
        ensures
            r == self.spec_neg(),
            r.wf(),
    {
        saturate(-(self.raw as i128))
    }

    /// The product, rounded toward zero and saturated.
    pub fn mul(self, other: Fixed) -> (r: Fixed)
        ensures
            r == self.spec_mul(other),
            r.wf(),
    {
        proof {
            lemma_product_bound(
                self.raw as int,
                other.raw as int,
                0x8000_0000_0000_0000,
                0x8000_0000_0000_0000,
            );
        }
        saturate(div_trunc(self.raw as i128 * other.raw as i128, ONE_RAW as i128))
    }

    /// Division; the divisor must not be zero.
    pub fn div(self, other: Fixed) -> (r: Fixed)
        requires
            other@ != 0,
        ensures
            r == self.spec_div(other),
            r.wf(),
    {
        saturate(div_trunc(self.raw as i128 * 65536, other.raw as i128))
    }

    /// The square root, rounded down; a negative number counts as zero.
    pub fn sqrt(self) -> (r: Fixed)
        ensures
            r == self.spec_sqrt(),
            r.wf(),
    {
        let a: u128 = if self.raw < 0 {
            0
        } else {
            self.raw as u128
        };
        let s: u128 = isqrt(a * 65536);
        if s > LIMIT_RAW as u128 {
            Fixed { raw: LIMIT_RAW }
        } else {
            Fixed { raw: s as i64 }
        }
    }

    /// The smaller of two numbers.
    pub fn min(self, other: Fixed) -> (r: Fixed)
        ensures
            r == self.spec_min(other),
    {
        if self.raw <= other.raw {
            self
        } else {
            other
        }
    }
}

/// Saturates a wide raw value into a well-formed number.
pub fn saturate(x: i128) -> (r: Fixed)
    ensures
        r == Fixed::of(x as int),
        r.wf(),
{
    if x < -(LIMIT_RAW as i128) {
        Fixed { raw: -LIMIT_RAW }
    } else if x > LIMIT_RAW as i128 {
        Fixed { raw: LIMIT_RAW }
    } else {
        Fixed { raw: x as i64 }
    }
}

/// A product of bounded factors is bounded by the product of the bounds.
pub proof fn lemma_product_bound(a: int, b: int, ma: int, mb: int)
    requires
        -ma <= a <= ma,
        -mb <= b <= mb,
    ensures
        -(ma * mb) <= a * b <= ma * mb,
{
    assert(-(ma * mb) <= a * b <= ma * mb) by (nonlinear_arith)
        requires
            -ma <= a <= ma,
            -mb <= b <= mb,
    ;
}

} // verus!
