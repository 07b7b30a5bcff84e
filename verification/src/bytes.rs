//! Byte-buffer helpers shared by the plot generators.

use vstd::prelude::*;

verus! {

/// Overwrites every byte of `src` with the byte of `by` at the same index.
pub fn slice_replace(src: &mut [u8], by: &[u8])
    requires
        old(src)@.len() == by@.len(),
    ensures
        final(src)@ == by@,
{
    let n = src.len();
    let mut i: usize = 0;
    while i < n
        invariant
            n == src@.len(),
            n == by@.len(),
            i <= n,
            forall|k: int| 0 <= k < i ==> src@[k] == by@[k],
        decreases n - i,
    {
        src[i] = by[i];
        i = i + 1;
    }
    assert(src@ =~= by@);
}

/// Overwrites `dst[at .. at + by.len()]` with `by`, leaving the other bytes as they were.
pub fn replace_at(dst: &mut Vec<u8>, at: usize, by: &[u8])
    requires
        at + by@.len() <= old(dst)@.len(),
    ensures
        final(dst)@ == old(dst)@.take(at as int) + by@ + old(dst)@.skip(at + by@.len()),
{
    let ghost d0 = dst@;
    assert(d0.len() == dst.len());
    let n = by.len();
    let mut i: usize = 0;
    while i < n
        invariant
            n == by@.len(),
            at + n <= d0.len(),
            dst@.len() == d0.len(),
            d0.len() <= usize::MAX,
            i <= n,
            forall|k: int| 0 <= k < at ==> dst@[k] == d0[k],
            forall|k: int| at + n <= k < d0.len() ==> dst@[k] == d0[k],
            forall|k: int| at <= k < at + i ==> dst@[k] == by@[k - at],
        decreases n - i,
    {
        dst.set(at + i, by[i]);
        i = i + 1;
    }
    assert(dst@ =~= d0.take(at as int) + by@ + d0.skip(at + n));
}

} // verus!
