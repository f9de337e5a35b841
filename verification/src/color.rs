//! The display encoding of a colour: each channel is clamped to `[0, 1]`,
//! gamma-corrected by a square root and scaled to a byte.

use vstd::prelude::*;
use crate::fixed::{
    Fixed, ONE_RAW, floor_sqrt, isqrt, lemma_floor_sqrt, lemma_floor_sqrt_is,
    lemma_floor_sqrt_monotone,
};
use crate::vec3::Vec3;
use crate::base::{Color, is_color};

verus! {

/// A raw channel value clamped to `[0, 1]`.
pub open spec fn clamp_unit(v: int) -> int {
    if v < 0 {
        0
    } else if v > ONE_RAW {
        ONE_RAW as int
    } else {
        v
    }
}

/// The colour with every channel clamped to `[0, 1]`.
pub open spec fn spec_clamp_color(c: Color) -> Color {
    Vec3 {
        x: Fixed { raw: clamp_unit(c.x@) as i64 },
        y: Fixed { raw: clamp_unit(c.y@) as i64 },
        z: Fixed { raw: clamp_unit(c.z@) as i64 },
    }
}

/// The byte that displays the linear channel value `v`: `⌊255 · √c⌋` for
/// the clamped value `c`. With `c = raw / 65536` this is
/// `⌊√(255² · raw) / 256⌋`, and the square root may be rounded down first.
pub open spec fn spec_channel_byte(v: Fixed) -> int {
    floor_sqrt(65025 * clamp_unit(v@)) / 256
}

/// The three bytes that display the colour, red first.
pub open spec fn spec_to_rgb(c: Color) -> Seq<u8> {
    seq![
        spec_channel_byte(c.x) as u8,
        spec_channel_byte(c.y) as u8,
        spec_channel_byte(c.z) as u8,
    ]
}

/// The byte is the truncated value of `255 · √c` and nothing else: it is
/// the one whole number `b` with `(b / 255)² ≤ c < ((b + 1) / 255)²`.
pub proof fn lemma_channel_byte_exact(v: Fixed)
    ensures
        ({
            let b = spec_channel_byte(v);
            let c = clamp_unit(v@);
            &&& 0 <= b
            &&& (b * b) * 65536 <= 65025 * c
            &&& 65025 * c < ((b + 1) * (b + 1)) * 65536
        }),
{
    let c = clamp_unit(v@);
    let n = 65025 * c;
    lemma_floor_sqrt(n);
    let s = floor_sqrt(n);
    let b = s / 256;
    assert(256 * b <= s < 256 * b + 256);
    assert((b * b) * 65536 <= s * s) by (nonlinear_arith)
        requires
            0 <= 256 * b <= s,
    ;
    assert((s + 1) * (s + 1) <= ((b + 1) * (b + 1)) * 65536) by (nonlinear_arith)
        requires
            0 <= s + 1 <= 256 * (b + 1),
    ;
}

/// A byte always comes out, zero for black and 255 for full intensity.
pub proof fn lemma_channel_byte_range(v: Fixed)
    ensures
        0 <= spec_channel_byte(v) <= 255,
        v@ <= 0 ==> spec_channel_byte(v) == 0,
        v@ >= ONE_RAW ==> spec_channel_byte(v) == 255,
{
    let c = clamp_unit(v@);
    lemma_floor_sqrt(65025 * c);
    assert(65280int * 65280 == 65025 * 65536);
    assert(65280int * 65280 < 65281int * 65281);
    lemma_floor_sqrt_is(65280int * 65280, 65280);
    lemma_floor_sqrt_monotone(65025 * c, 65280int * 65280);
    if v@ <= 0 {
        assert(0int * 0 <= 0 < 1int * 1);
        lemma_floor_sqrt_is(0, 0);
    }
}

/// The encoding is monotone: a brighter channel never gets a smaller byte.
pub proof fn lemma_channel_byte_monotone(a: Fixed, b: Fixed)
    requires
        a@ <= b@,
    ensures
        spec_channel_byte(a) <= spec_channel_byte(b),
{
    lemma_floor_sqrt_monotone(65025 * clamp_unit(a@), 65025 * clamp_unit(b@));
}

/// Clamping a colour again before it is encoded changes nothing: a colour
/// and its clamped form have the same bytes, and so has a clamped colour
/// that is clamped once more.
pub proof fn lemma_to_rgb_reclamp(c: Color)
    ensures
        is_color(spec_clamp_color(c)),
        spec_clamp_color(spec_clamp_color(c)) == spec_clamp_color(c),
        spec_to_rgb(spec_clamp_color(c)) == spec_to_rgb(c),
        is_color(c) ==> spec_clamp_color(c) == c,
{
}

/// Clamps every channel to `[0, 1]`.
pub fn clamp_color(c: Color) -> (r: Color)
    ensures
        r == spec_clamp_color(c),
        is_color(r),
{
    Vec3 { x: clamp_channel(c.x), y: clamp_channel(c.y), z: clamp_channel(c.z) }
}

/// Clamps one channel to `[0, 1]`.
fn clamp_channel(v: Fixed) -> (r: Fixed)
    ensures
        r@ == clamp_unit(v@),
{
    if v.raw < 0 {
        Fixed { raw: 0 }
    } else if v.raw > ONE_RAW {
        Fixed { raw: ONE_RAW }
    } else {
        v
    }
}

/// The byte that displays one linear channel value: the truncated value of
/// `255 · √clamp(v)`.
pub fn channel_byte(v: Fixed) -> (r: u8)
    ensures
        r == spec_channel_byte(v),
{
    let c = clamp_channel(v);
    proof {
        lemma_channel_byte_range(v);
    }
    let s: u128 = isqrt(65025 * c.raw as u128);
    (s / 256) as u8
}

/// The display colour of a linear colour.
pub fn to_rgb(value: Color) -> (r: [u8; 3])
    ensures
        r@ == spec_to_rgb(value),
{
    proof {
        lemma_channel_byte_range(value.x);
        lemma_channel_byte_range(value.y);
        lemma_channel_byte_range(value.z);
    }
    let r = [channel_byte(value.x), channel_byte(value.y), channel_byte(value.z)];
    assert(r@ =~= spec_to_rgb(value));
    r
}

} // verus!
