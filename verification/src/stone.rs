//! Shades and texture orientations of the stone-grey wall: a 16-bit integer
//! hash per brick picks one of three stone colours and whether the brick's
//! texture is mirrored in u and in v.
//!
//! The hash `h` lies in `0..65535` and reads as the fraction `h / 65535`,
//! which therefore lies in `[0, 1)`; the cut-offs below turn the fraction
//! tests into exact integer tests.

use vstd::prelude::*;
use crate::tex::to_u32;

verus! {

/// Light stone, sRGB hex.
pub const STONE_LIGHT: u32 = 0xb9b5a8;

/// Mid stone, sRGB hex.
pub const STONE_MID: u32 = 0x9a968a;

/// Dark stone, sRGB hex.
pub const STONE_DARK: u32 = 0x6f6b62;

/// `h / 65535 < 0.5` (as `f32`) exactly when `h < STONE_HALF_CUT`.
pub const STONE_HALF_CUT: u32 = 32768;

/// `h / 65535 < 0.18` (as `f32`) exactly when `h < STONE_DARK_CUT`.
pub const STONE_DARK_CUT: u32 = 11797;

/// `h / 65535 < 0.55` (as `f32`) exactly when `h < STONE_MID_CUT`.
pub const STONE_MID_CUT: u32 = 36045;

/// The stone hash of `(x, y)`: a wrapping multiply-xor mix folded to the
/// low 16 bits, taken modulo 65535 so that its fraction stays below 1.
pub open spec fn stone_hash_spec(x: i32, y: i32) -> u32 {
    let h0 = (x as u32).wrapping_mul(0x1f1f1f1f) ^ ((y as u32) << 7u32);
    let h1 = h0.wrapping_mul(0x1f1f1f1f);
    ((h1 ^ (h1 >> 13u32)) & 0xffff) % 0xffff
}

/// The stone hash of `(x, y)`: the same pair always gives the same value,
/// and `h / 65535` lies in `[0, 1)`.
pub fn stone_hash_bits(x: i32, y: i32) -> (h: u32)
    ensures
        h == stone_hash_spec(x, y),
        h < 0xffff,
{
    let mut h = (x as u32).wrapping_mul(0x1f1f1f1f) ^ ((y as u32) << 7);
    h = h.wrapping_mul(0x1f1f1f1f);
    h ^= h >> 13;
    (h & 0xffff) % 0xffff
}

/// The stone colour for a hash value: dark below `STONE_DARK_CUT`, mid below
/// `STONE_MID_CUT`, light otherwise.
pub open spec fn stone_for(h: u32) -> u32 {
    if h < STONE_DARK_CUT {
        STONE_DARK
    } else if h < STONE_MID_CUT {
        STONE_MID
    } else {
        STONE_LIGHT
    }
}

/// The stone colour (sRGB hex) of brick `(c, y, x)`, from the hash of
/// `(31x + c, 7y)` with the indices taken as `i32`.
pub fn block_color_hex(c: usize, y: usize, x: usize) -> (hex: u32)
    requires
        i32::MIN <= (x as i32) * 31 <= i32::MAX,
        i32::MIN <= (x as i32) * 31 + (c as i32) <= i32::MAX,
        i32::MIN <= (y as i32) * 7 <= i32::MAX,
    ensures
        hex == stone_for(stone_hash_spec(((x as i32) * 31 + (c as i32)) as i32, ((y as i32) * 7) as i32)),
{
    let r = stone_hash_bits(x as i32 * 31 + c as i32, y as i32 * 7);
    if r < STONE_DARK_CUT {
        STONE_DARK
    } else if r < STONE_MID_CUT {
        STONE_MID
    } else {
        STONE_LIGHT
    }
}

/// Whether brick `(c, y, x)` has its texture mirrored in u and in v, the
/// indices taken as `i32`.
pub fn block_uv_flips(c: usize, y: usize, x: usize) -> (f: (bool, bool))
    requires
        i32::MIN <= (x as i32) * 3 <= i32::MAX,
        i32::MIN <= (x as i32) * 3 + (c as i32) <= i32::MAX,
        i32::MIN <= (y as i32) * 5 <= i32::MAX,
        i32::MIN <= (y as i32) * 5 + (c as i32) <= i32::MAX,
    ensures
        f.0 == (stone_hash_spec(((x as i32) * 3 + (c as i32)) as i32, y as i32) < STONE_HALF_CUT),
        f.1 == (stone_hash_spec(x as i32, ((y as i32) * 5 + (c as i32)) as i32) < STONE_HALF_CUT),
{
    let fx = stone_hash_bits(x as i32 * 3 + c as i32, y as i32) < STONE_HALF_CUT;
    let fy = stone_hash_bits(x as i32, y as i32 * 5 + c as i32) < STONE_HALF_CUT;
    (fx, fy)
}

proof fn lemma_u32_cast_shift(x: i32, y: i32)
    ensures
        x as u32 == to_u32(x as int),
        (y as u32) << 7u32 == to_u32(to_u32(y as int) * 128),
{
    assert(x as u32 == to_u32(x as int)) by (bit_vector);
    assert((y as u32) << 7u32 == to_u32(to_u32(y as int) * 128)) by (bit_vector);
}

/// The stone hash in plain integer arithmetic, for every `x` and `y`: mix
/// `x · 0x1f1f1f1f` with `y · 128` (both modulo `2^32`) by xor, multiply by
/// `0x1f1f1f1f` again, fold the high bits in by `h ^ (h >> 13)`, keep the
/// low 16 bits and reduce them modulo 65535.
pub proof fn lemma_stone_hash_arithmetic(x: i32, y: i32)
    ensures
        ({
            let h0 = to_u32(to_u32(x as int) * 0x1f1f1f1f) ^ to_u32(to_u32(y as int) * 128);
            let h1 = to_u32(h0 as int * 0x1f1f1f1f);
            stone_hash_spec(x, y) == ((h1 ^ (h1 >> 13u32)) & 0xffff) % 0xffff
        }),
{
    lemma_u32_cast_shift(x, y);
}

/// The stone cut-offs are the fraction tests made exact: for every hash
/// `h`, `h < STONE_HALF_CUT` exactly when `h / 65535 < 0.50`,
/// `h < STONE_DARK_CUT` exactly when `h / 65535 < 0.18`, and
/// `h < STONE_MID_CUT` exactly when `h / 65535 < 0.55`.
pub proof fn lemma_stone_cuts_are_fractions(h: u32)
    ensures
        (h < STONE_HALF_CUT) <==> 100 * h < 50 * 65535,
        (h < STONE_DARK_CUT) <==> 100 * h < 18 * 65535,
        (h < STONE_MID_CUT) <==> 100 * h < 55 * 65535,
{
}

/// A brick's stone is dark when its hash reads below 0.18, mid when it
/// reads from 0.18 up to 0.55, and light from 0.55 on.
pub proof fn lemma_stone_bands(h: u32)
    ensures
        stone_for(h) == STONE_DARK <==> 100 * h < 18 * 65535,
        stone_for(h) == STONE_MID <==> 18 * 65535 <= 100 * h < 55 * 65535,
        stone_for(h) == STONE_LIGHT <==> 55 * 65535 <= 100 * h,
{
}

} // verus!
