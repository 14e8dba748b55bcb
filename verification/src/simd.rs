//! Counting the bytes that two slices share at their start.
use vstd::prelude::*;

verus! {

/// Returns the length of the longest common prefix of `a` and `b`.
pub fn count_same_bytes_scalar(a: &[u8], b: &[u8]) -> (r: usize)
    ensures
        r <= a@.len(),
        r <= b@.len(),
        a@.take(r as int) == b@.take(r as int),
        r < a@.len() && r < b@.len() ==> a@[r as int] != b@[r as int],
{
    let len = if a.len() < b.len() {
        a.len()
    } else {
        b.len()
    };
    let mut offset: usize = 0;
    while offset < len
        invariant
            offset <= len,
            len <= a@.len(),
            len <= b@.len(),
            len == a@.len() || len == b@.len(),
            forall|k: int| 0 <= k < offset ==> a@[k] == b@[k],
        decreases len - offset,
    {
        if a[offset] != b[offset] {
            assert(a@.take(offset as int) =~= b@.take(offset as int));
            return offset;
        }
        offset = offset + 1;
    }
    assert(a@.take(offset as int) =~= b@.take(offset as int));
    offset
}

} // verus!
