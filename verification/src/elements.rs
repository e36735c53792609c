//! Colour choices of the scene's building elements: each element has a
//! three-shade palette (light, mid, dark) and every placed piece picks one
//! shade, and a mirroring of its texture, from the integer hash of where it
//! sits.

use vstd::prelude::*;
use crate::tex::{hash2_bits, hash2_spec, to_i32, DARK_CUT, HALF_CUT, MID_CUT};

verus! {

/// The palette slot for a hash value: 2 (dark) for about 18% of values,
/// 1 (mid) for the next 37%, 0 (light) for the rest.
pub open spec fn shade_slot(h: u32) -> int {
    if h < DARK_CUT {
        2
    } else if h < MID_CUT {
        1
    } else {
        0
    }
}

/// The palette slot for a hash value (see `shade_slot`).
pub fn shade_index(h: u32) -> (i: usize)
    ensures
        i == shade_slot(h),
        i < 3,
{
    if h < DARK_CUT {
        2
    } else if h < MID_CUT {
        1
    } else {
        0
    }
}

/// The hash that picks the shade of the piece at `(cx, cy, cz)` with extra
/// seed `s`.
pub open spec fn palette_hash(cx: i32, cy: i32, cz: i32, s: i32) -> u32 {
    hash2_spec(cx.wrapping_mul(31).wrapping_add(cz.wrapping_mul(7)), cy.wrapping_mul(13).wrapping_add(s))
}

/// The shade (sRGB hex) that the piece at `(cx, cy, cz)`, seed `s`, takes
/// from palette `pal`.
pub fn sample_palette_hex(pal: [u32; 3], cx: i32, cy: i32, cz: i32, s: i32) -> (hex: u32)
    ensures
        hex == pal@[shade_slot(palette_hash(cx, cy, cz, s))],
{
    let r = hash2_bits(cx.wrapping_mul(31).wrapping_add(cz.wrapping_mul(7)), cy.wrapping_mul(13).wrapping_add(s));
    pal[shade_index(r)]
}

/// Whether the painted piece at `(cx, cy, cz)`, seed `s`, has its texture
/// mirrored in u and in v: each holds for about half of all pieces.
pub fn painted_uv_flips(cx: i32, cy: i32, cz: i32, s: i32) -> (f: (bool, bool))
    requires
        i32::MIN <= cx * 3 <= i32::MAX,
        i32::MIN <= cx * 3 + cz <= i32::MAX,
        i32::MIN <= cy * 5 <= i32::MAX,
        i32::MIN <= cy * 5 + s <= i32::MAX,
    ensures
        f.0 == (hash2_spec((cx * 3 + cz) as i32, cy) < HALF_CUT),
        f.1 == (hash2_spec((cy * 5 + s) as i32, cx) < HALF_CUT),
{
    let fx = hash2_bits(cx * 3 + cz, cy) < HALF_CUT;
    let fy = hash2_bits(cy * 5 + s, cx) < HALF_CUT;
    (fx, fy)
}

/// A shade picked by two independent hashes: dark when the first falls
/// under `DARK_CUT`, else mid when the second falls under `MID_CUT`, else
/// light.
pub fn pick_by_two(pal: [u32; 3], h_dark: u32, h_mid: u32) -> (hex: u32)
    ensures
        hex == if h_dark < DARK_CUT {
            pal@[2]
        } else if h_mid < MID_CUT {
            pal@[1]
        } else {
            pal@[0]
        },
{
    if h_dark < DARK_CUT {
        pal[2]
    } else if h_mid < MID_CUT {
        pal[1]
    } else {
        pal[0]
    }
}

/// The red, green and blue bytes of a `0xRRGGBB` colour.
pub fn rgb_bytes(hex: u32) -> (rgb: (u8, u8, u8))
    ensures
        rgb.0 == (hex / 0x1_0000) % 0x100,
        rgb.1 == (hex / 0x100) % 0x100,
        rgb.2 == hex % 0x100,
{
    proof {
        assert((hex >> 16u32) & 0xff == (hex / 0x1_0000) % 0x100) by (bit_vector);
        assert((hex >> 8u32) & 0xff == (hex / 0x100) % 0x100) by (bit_vector);
        assert(hex & 0xff == hex % 0x100) by (bit_vector);
    }
    (((hex >> 16) & 0xff) as u8, ((hex >> 8) & 0xff) as u8, (hex & 0xff) as u8)
}

/// `v` is the 32-bit value of the integer `n`: `i32` arithmetic that wraps
/// gives the true result modulo `2^32`.
proof fn lemma_wrapping_is_to_i32(p: i32, q: i32, n: int, m: int)
    requires
        p == to_i32(n),
        q == to_i32(m),
    ensures
        p.wrapping_add(q) == to_i32(n + m),
{
    let r = 0x1_0000_0000int;
    assert((n % r + m % r) % r == (n + m) % r) by (nonlinear_arith)
        requires r == 0x1_0000_0000int;
    assert(p as int % r == n % r) by (nonlinear_arith)
        requires r == 0x1_0000_0000int, p == to_i32(n), -0x8000_0000 <= p < 0x8000_0000;
    assert(q as int % r == m % r) by (nonlinear_arith)
        requires r == 0x1_0000_0000int, q == to_i32(m), -0x8000_0000 <= q < 0x8000_0000;
}

proof fn lemma_wrapping_mul_is_to_i32(p: i32, k: i32)
    ensures
        p.wrapping_mul(k) == to_i32(p * k),
{
}

/// The shade of a piece at `(cx, cy, cz)` with seed `s` is read from the
/// hash of the pair `(31·cx + 7·cz, 13·cy + s)`, each computed on the true
/// integers and taken as a 32-bit value: the seed is added to `13·cy`, for
/// every position and seed.
pub proof fn lemma_shade_hash_of_position(cx: i32, cy: i32, cz: i32, s: i32)
    ensures
        palette_hash(cx, cy, cz, s) == hash2_spec(to_i32(31 * cx + 7 * cz), to_i32(13 * cy + s)),
{
    lemma_wrapping_mul_is_to_i32(cx, 31);
    lemma_wrapping_mul_is_to_i32(cz, 7);
    lemma_wrapping_mul_is_to_i32(cy, 13);
    lemma_wrapping_is_to_i32(cx.wrapping_mul(31), cz.wrapping_mul(7), cx * 31, cz * 7);
    lemma_wrapping_is_to_i32(cy.wrapping_mul(13), s, cy * 13, s as int);
}

/// A piece takes the dark shade (slot 2) when its hash reads below 0.18,
/// the mid shade (slot 1) from 0.18 up to 0.55, and the light shade (slot 0)
/// from 0.55 on.
pub proof fn lemma_shade_bands(h: u32)
    ensures
        shade_slot(h) == 2 <==> 100 * h < 18 * 0x0100_0000,
        shade_slot(h) == 1 <==> 18 * 0x0100_0000 <= 100 * h < 55 * 0x0100_0000,
        shade_slot(h) == 0 <==> 55 * 0x0100_0000 <= 100 * h,
{
}

} // verus!
