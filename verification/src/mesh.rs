//! Index bookkeeping for merging many small meshes into one: each part's
//! triangle indices are shifted past the vertices already merged.

use vstd::prelude::*;

verus! {

/// Append the indices `v` of a part whose vertices start at `base` in the
/// merged vertex list.
pub fn rebase_indices(out: &mut Vec<u32>, v: &Vec<u32>, base: u32)
    requires
        forall|i: int| 0 <= i < v@.len() ==> #[trigger] v@[i] + base <= u32::MAX,
    ensures
        final(out)@.len() == old(out)@.len() + v@.len(),
        forall|i: int| 0 <= i < old(out)@.len() ==> #[trigger] final(out)@[i] == old(out)@[i],
        forall|i: int| 0 <= i < v@.len() ==> #[trigger] final(out)@[old(out)@.len() + i] == v@[i] + base,
{
    let ghost start = out@;
    let mut k: usize = 0;
    while k < v.len()
        invariant
            k <= v@.len(),
            out@.len() == start.len() + k,
            forall|i: int| 0 <= i < v@.len() ==> #[trigger] v@[i] + base <= u32::MAX,
            forall|i: int| 0 <= i < start.len() ==> #[trigger] out@[i] == start[i],
            forall|i: int| 0 <= i < k ==> #[trigger] out@[start.len() + i] == v@[i] + base,
        decreases v@.len() - k,
    {
        out.push(v[k] + base);
        k += 1;
    }
}

} // verus!
