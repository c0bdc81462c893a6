//! The erasure discipline: sensitive buffers are overwritten with zeros
//! before they are released, on success and failure paths alike.

use vstd::prelude::*;

use crate::all_zero;

verus! {

/// Overwrites every byte of the buffer with zero, keeping its length. Keys,
/// plaintexts and secrets go through here on every path out of the functions
/// that hold them.
pub fn wipe(buf: &mut Vec<u8>)
    ensures
        final(buf)@.len() == old(buf)@.len(),
        all_zero(final(buf)@),
{
    let n = buf.len();
    let mut i: usize = 0;
    while i < n
        invariant
            i <= n,
            buf@.len() == n,
            forall|j: int| 0 <= j < i ==> buf@[j] == 0u8,
        decreases n - i,
    {
        buf.set(i, 0u8);
        i += 1;
    }
}

} // verus!
