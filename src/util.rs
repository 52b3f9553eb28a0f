//! Byte-level helpers.
use vstd::prelude::*;

verus! {

/// Sets the first `n` bytes of `buf` to `c`, last byte first.
pub fn memset(buf: &mut Vec<u8>, c: u8, n: usize)
    requires
        n <= old(buf)@.len(),
    ensures
        final(buf)@.len() == old(buf)@.len(),
        forall|i: int| 0 <= i < n ==> #[trigger] final(buf)@[i] == c,
        forall|i: int| n <= i < old(buf)@.len() ==> #[trigger] final(buf)@[i] == old(buf)@[i],
{
    let mut i = n;
    while i > 0
        invariant
            i <= n,
            n <= old(buf)@.len(),
            buf@.len() == old(buf)@.len(),
            forall|j: int| i <= j < n ==> #[trigger] buf@[j] == c,
            forall|j: int| (0 <= j < i || n <= j < old(buf)@.len()) ==> #[trigger] buf@[j] == old(buf)@[j],
        decreases i,
    {
        i -= 1;
        buf.set(i, c);
    }
}

} // verus!
