//! Scatter counts of the small grove: how many root stones lie at the foot
//! of each tree.

use vstd::prelude::*;
use crate::tex::{hash2_bits, hash2_spec};

verus! {

/// How many root stones lie under the tree with seed `seed`: two plus the
/// top two bits of the tree's hash, so between two and five.
pub fn root_rock_count(seed: i32) -> (n: i32)
    ensures
        n == 2 + hash2_spec(seed, 77) / 0x40_0000,
        2 <= n <= 5,
{
    let h = hash2_bits(seed, 77);
    proof {
        assert(h >> 22u32 == h / 0x40_0000) by (bit_vector);
    }
    2 + (h >> 22) as i32
}

} // verus!
