//! Element indices for quad rendering: each quad is drawn as two
//! triangles over four vertices, with a primitive-restart marker after.

use vstd::prelude::*;

verus! {

/// The six vertex indices of quad `i`, then the restart marker.
pub open spec fn quad_block(i: int) -> Seq<u32> {
    let n = 4 * i;
    seq![
        n as u32,
        (n + 1) as u32,
        (n + 2) as u32,
        (n + 2) as u32,
        (n + 3) as u32,
        n as u32,
        0xFFFF as u32,
    ]
}

/// Builds the element index list for `elements_count` quads: for each
/// quad, its two triangles' corner indices followed by the restart value.
#[verifier::loop_isolation(false)]
pub fn make_index(elements_count: u32) -> (x: Vec<u32>)
    requires
        4 * elements_count as int <= u32::MAX,
        7 * elements_count as int <= usize::MAX,
    ensures
        x@.len() == 7 * elements_count as int,
        forall|i: int|
            0 <= i < elements_count as int ==> x@.subrange(7 * i, 7 * i + 7) == quad_block(i),
{
    let mut n: u32 = 0;
    let mut x: Vec<u32> = Vec::new();
    let mut k: u32 = 0;
    while k < elements_count
        invariant
            0 <= k <= elements_count,
            n as int == 4 * k as int,
            x@.len() == 7 * k as int,
            forall|i: int| 0 <= i < k as int ==> x@.subrange(7 * i, 7 * i + 7) == quad_block(i),
        decreases elements_count - k,
    {
        let ghost before = x@;
        x.push(n);
        x.push(n + 1);
        x.push(n + 2);
        x.push(n + 2);
        x.push(n + 3);
        x.push(n);
        x.push(0xFFFF);
        proof {
            assert(x@.subrange(7 * (k as int), 7 * (k as int) + 7) =~= quad_block(k as int));
            assert forall|i: int|
                0 <= i < k as int implies x@.subrange(7 * i, 7 * i + 7) == quad_block(i) by {
                assert(x@.subrange(7 * i, 7 * i + 7) =~= before.subrange(7 * i, 7 * i + 7));
            }
        }
        n = n + 4;
        k = k + 1;
    }
    x
}

} // verus!
