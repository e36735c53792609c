use destr::elements::{
    painted_uv_flips, pick_by_two, rgb_bytes,
    sample_palette_hex, shade_index,
};
use destr::grove::root_rock_count;
use destr::mesh::rebase_indices;
use destr::stone::{
    block_color_hex, block_uv_flips, stone_hash_bits, STONE_DARK, STONE_DARK_CUT, STONE_HALF_CUT,
    STONE_LIGHT, STONE_MID, STONE_MID_CUT,
};
use destr::tex::{hash2_bits, DARK_CUT, HALF_CUT, MID_CUT};

#[test]
fn hash2_known_values() {
    assert_eq!(hash2_bits(0, 0), 32768);
    assert_eq!(hash2_bits(1, 2), 10864307);
    assert_eq!(hash2_bits(7, 3), 2161773);
    assert_eq!(hash2_bits(-5, 9), 2530309);
    assert_eq!(hash2_bits(123456, -987654), 11069078);
    assert_eq!(hash2_bits(i32::MAX, i32::MIN), 14219545);
}

#[test]
fn hash2_range_and_determinism() {
    for a in -50..50 {
        for b in -50..50 {
            let h = hash2_bits(a, b);
            assert!((0x8000..0x0100_0000).contains(&h));
            assert_eq!(h, hash2_bits(a, b));
        }
    }
}

#[test]
fn hash2_cuts_match_float_tests() {
    for h in 0u32..0x0100_0000 {
        let r = h as f32 / 16_777_216.0;
        assert_eq!(r < 0.5, h < HALF_CUT);
        assert_eq!(r < 0.18, h < DARK_CUT);
        assert_eq!(r < 0.55, h < MID_CUT);
    }
}

#[test]
fn stone_hash_known_values() {
    assert_eq!(stone_hash_bits(0, 0), 0);
    assert_eq!(stone_hash_bits(1, 2), 59290);
    assert_eq!(stone_hash_bits(31, 7), 49472);
    assert_eq!(stone_hash_bits(-3, 40), 57035);
    assert_eq!(stone_hash_bits(100000, -5), 29359);
}

#[test]
fn stone_hash_stays_below_one() {
    // The 16-bit fold of (46414, 0) is 0xffff, which would read as 1.0.
    assert_eq!(stone_hash_bits(46414, 0), 0);
    for x in -3000..3000 {
        for y in -20..20 {
            let h = stone_hash_bits(x * 31, y);
            assert!(h < 0xffff);
            assert!((h as f32 / 65535.0) < 1.0);
        }
    }
}

#[test]
fn stone_cuts_match_float_tests() {
    for h in 0u32..0xffff {
        let r = h as f32 / 65535.0;
        assert!((0.0..1.0).contains(&r));
        assert_eq!(r < 0.5, h < STONE_HALF_CUT);
        assert_eq!(r < 0.18, h < STONE_DARK_CUT);
        assert_eq!(r < 0.55, h < STONE_MID_CUT);
    }
}

#[test]
fn block_color_follows_its_hash() {
    for c in 0..2usize {
        for y in 0..10usize {
            for x in 0..12usize {
                let h = stone_hash_bits((x * 31 + c) as i32, (y * 7) as i32);
                let r = h as f32 / 65535.0;
                let want = if r < 0.18 { STONE_DARK } else if r < 0.55 { STONE_MID } else { STONE_LIGHT };
                assert_eq!(block_color_hex(c, y, x), want);
                let (fx, fy) = block_uv_flips(c, y, x);
                assert_eq!(fx, (stone_hash_bits((x * 3 + c) as i32, y as i32) as f32 / 65535.0) < 0.5);
                assert_eq!(fy, (stone_hash_bits(x as i32, (y * 5 + c) as i32) as f32 / 65535.0) < 0.5);
            }
        }
    }
    assert_eq!(block_color_hex(0, 0, 1), STONE_LIGHT);
}

#[test]
fn shade_index_bands() {
    assert_eq!(shade_index(0), 2);
    assert_eq!(shade_index(DARK_CUT - 1), 2);
    assert_eq!(shade_index(DARK_CUT), 1);
    assert_eq!(shade_index(MID_CUT - 1), 1);
    assert_eq!(shade_index(MID_CUT), 0);
    assert_eq!(shade_index(u32::MAX), 0);
}

#[test]
fn sample_palette_follows_its_hash() {
    let pal = [0xb9b5a8u32, 0x9a968a, 0x6f6b62];
    for cx in 0..12 {
        for cy in 0..10 {
            for cz in 0..2 {
                let h = hash2_bits(cx * 31 + cz * 7, cy * 13);
                let r = h as f32 / 16_777_216.0;
                let want = if r < 0.18 { pal[2] } else if r < 0.55 { pal[1] } else { pal[0] };
                assert_eq!(sample_palette_hex(pal, cx, cy, cz, 0), want);
            }
        }
    }
    let h = hash2_bits(i32::MAX.wrapping_mul(31), 5);
    assert_eq!(sample_palette_hex(pal, i32::MAX, 0, 0, 5), pal[shade_index(h)]);
}

#[test]
fn painted_flips_follow_their_hash() {
    let (fx, fy) = painted_uv_flips(3, 4, 1, 0);
    assert_eq!(fx, hash2_bits(10, 4) < HALF_CUT);
    assert_eq!(fy, hash2_bits(20, 3) < HALF_CUT);
    assert_eq!(fx, (hash2_bits(10, 4) as f32 / 16_777_216.0) < 0.5);
}

#[test]
fn pick_by_two_bands() {
    let pal = [1, 2, 3];
    assert_eq!(pick_by_two(pal, 0, 0), 3);
    assert_eq!(pick_by_two(pal, DARK_CUT, 0), 2);
    assert_eq!(pick_by_two(pal, DARK_CUT, MID_CUT), 1);
    assert_eq!(pick_by_two(pal, DARK_CUT - 1, MID_CUT), 3);
}

#[test]
fn rgb_bytes_split() {
    assert_eq!(rgb_bytes(0xb5312a), (0xb5, 0x31, 0x2a));
    assert_eq!(rgb_bytes(0x6b6b5e), (0x6b, 0x6b, 0x5e));
    assert_eq!(rgb_bytes(0xff00_0000), (0, 0, 0));
    assert_eq!(rgb_bytes(0x0000ff), (0, 0, 0xff));
}

#[test]
fn root_rocks_between_two_and_five() {
    assert_eq!(root_rock_count(0), 5);
    assert_eq!(root_rock_count(100), 2);
    assert_eq!(root_rock_count(202), 4);
    for seed in -300..300 {
        let n = root_rock_count(seed);
        assert!((2..=5).contains(&n));
        let r = hash2_bits(seed, 77) as f32 / 16_777_216.0;
        assert_eq!(n, 2 + (r * 4.0) as i32);
    }
}

#[test]
fn rebase_shifts_indices() {
    let mut out = vec![0u32, 1, 2];
    rebase_indices(&mut out, &vec![0, 2, 1], 3);
    assert_eq!(out, vec![0, 1, 2, 3, 5, 4]);
    rebase_indices(&mut out, &vec![], 6);
    assert_eq!(out.len(), 6);
}
