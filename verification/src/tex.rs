//! The integer hash behind every "random" choice of the scenes: colour
//! shades, texture flips, scatter counts. The same inputs always give the
//! same output, so a scene is reproducible.
//!
//! The hash yields a 24-bit integer `h`; as a fraction in `[0, 1)` it reads
//! `h / 2^24`, which `f32` holds exactly. The cut-offs below turn the
//! fraction tests the scenes make into exact integer tests.

use vstd::prelude::*;

verus! {

/// `h / 2^24 < 0.5` exactly when `h < HALF_CUT`.
pub const HALF_CUT: u32 = 0x0080_0000;

/// `h / 2^24 < 0.18` (as `f32`) exactly when `h < DARK_CUT`.
pub const DARK_CUT: u32 = 3019899;

/// `h / 2^24 < 0.55` (as `f32`) exactly when `h < MID_CUT`.
pub const MID_CUT: u32 = 9227469;

/// The hash of `(a, b)`: a xorshift-style mix with wrapping multiplies,
/// folded to 24 bits with the top bit forced on.
#[verifier::opaque]
pub open spec fn hash2_spec(a: i32, b: i32) -> u32 {
    let a1 = a ^ b.wrapping_mul(0x45d9_f3b3);
    let b1 = b ^ a1.wrapping_mul(0x53a0_5215);
    let a2 = a1 ^ b1.wrapping_mul(0x45d9_f3b3);
    ((a2 as u32).wrapping_mul(2654_435761) | 0x0080_0000) >> 8
}

/// The 24-bit hash of `(a, b)`; as a fraction `h / 2^24` it lies in
/// `[1/512, 1)`.
pub fn hash2_bits(a: i32, b: i32) -> (h: u32)
    ensures
        h == hash2_spec(a, b),
        0x8000 <= h < 0x0100_0000,
{
    let a1 = a ^ b.wrapping_mul(0x45d9_f3b3);
    let b1 = b ^ a1.wrapping_mul(0x53a0_5215);
    let a2 = a1 ^ b1.wrapping_mul(0x45d9_f3b3);
    let p = (a2 as u32).wrapping_mul(2654_435761);
    proof {
        reveal(hash2_spec);
        assert(0x8000 <= (p | 0x0080_0000u32) >> 8u32 < 0x0100_0000) by (bit_vector);
    }
    (p | 0x0080_0000) >> 8
}

/// The 32-bit two's-complement value of the integer `n`: the `i32`
/// congruent to `n` modulo `2^32`.
pub open spec fn to_i32(n: int) -> i32 {
    let m = n % 0x1_0000_0000;
    if m >= 0x8000_0000 {
        (m - 0x1_0000_0000) as i32
    } else {
        m as i32
    }
}

/// The 32-bit unsigned value of the integer `n`: `n` modulo `2^32`.
pub open spec fn to_u32(n: int) -> u32 {
    (n % 0x1_0000_0000) as u32
}

proof fn lemma_i32_as_u32(v: i32)
    ensures
        v as u32 == to_u32(v as int),
{
    assert(v as u32 == to_u32(v as int)) by (bit_vector);
}

/// The hash in plain integer arithmetic: each multiply is the true product
/// taken modulo `2^32` (as a signed value while mixing), mixed by xor, and
/// the last product, with bit 23 forced on, is shifted down by 8. This holds
/// for every `a` and `b`.
pub proof fn lemma_hash2_arithmetic(a: i32, b: i32)
    ensures
        ({
            let a1 = a ^ to_i32(b * 0x45d9_f3b3);
            let b1 = b ^ to_i32(a1 * 0x53a0_5215);
            let a2 = a1 ^ to_i32(b1 * 0x45d9_f3b3);
            hash2_spec(a, b) == (to_u32(to_u32(a2 as int) * 2654_435761) | 0x0080_0000) >> 8
        }),
{
    reveal(hash2_spec);
    let a1 = a ^ to_i32(b * 0x45d9_f3b3);
    let b1 = b ^ to_i32(a1 * 0x53a0_5215);
    let a2 = a1 ^ to_i32(b1 * 0x45d9_f3b3);
    lemma_i32_as_u32(a2);
}

/// The cut-offs are the fraction tests made exact: for every hash `h`,
/// `h < HALF_CUT` exactly when `h / 2^24 < 0.50`, `h < DARK_CUT` exactly
/// when `h / 2^24 < 0.18`, and `h < MID_CUT` exactly when `h / 2^24 < 0.55`.
pub proof fn lemma_cuts_are_fractions(h: u32)
    ensures
        (h < HALF_CUT) <==> 100 * h < 50 * 0x0100_0000,
        (h < DARK_CUT) <==> 100 * h < 18 * 0x0100_0000,
        (h < MID_CUT) <==> 100 * h < 55 * 0x0100_0000,
{
}

} // verus!
