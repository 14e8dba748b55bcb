//! Copying short slices.
//!
//! Slices of 4 to 32 bytes are copied with the double copy trick: two copies of a fixed
//! size, one from the front and one from the back, that together cover the whole slice.
//! A slice of length 6 is copied as its first 4 bytes and its last 4 bytes:
//!
//! ```text
//! [1, 2, 3, 4, 5, 6]
//! [1, 2, 3, 4]
//!       [3, 4, 5, 6]
//! ```
use vstd::prelude::*;

verus! {

/// Copies `src` into `dst`, which must have the same length.
pub fn slice_copy(src: &[u8], dst: &mut [u8])
    requires
        src@.len() == old(dst)@.len(),
    ensures
        final(dst)@ == src@,
{
    let len = src.len();
    if len == 0 {
        assert(dst@ =~= src@);
        return;
    }
    if len < 4 {
        short_copy(src, dst);
        return;
    }
    if len < 8 {
        double_copy_trick(src, dst, 4);
        return;
    }
    if len <= 16 {
        double_copy_trick(src, dst, 8);
        return;
    }
    if len <= 32 {
        double_copy_trick(src, dst, 16);
        return;
    }
    copy_range(src, dst, 0, len);
    assert(dst@ =~= src@);
}

/// Copies a slice of 1 to 3 bytes.
fn short_copy(src: &[u8], dst: &mut [u8])
    requires
        src@.len() == old(dst)@.len(),
        1 <= src@.len() < 4,
    ensures
        final(dst)@ == src@,
{
    let len = src.len();
    dst[0] = src[0];
    if len >= 2 {
        double_copy_trick(src, dst, 2);
    } else {
        assert(dst@ =~= src@);
    }
}

/// Copies the first `size` and the last `size` bytes, which together are all of them.
fn double_copy_trick(src: &[u8], dst: &mut [u8], size: usize)
    requires
        src@.len() == old(dst)@.len(),
        size <= src@.len() <= 2 * size,
    ensures
        final(dst)@ == src@,
{
    let len = src.len();
    copy_range(src, dst, 0, size);
    copy_range(src, dst, len - size, size);
    assert(dst@ =~= src@);
}

/// Copies `src[start..start + n]` to `dst[start..start + n]` and leaves the rest of `dst`.
fn copy_range(src: &[u8], dst: &mut [u8], start: usize, n: usize)
    requires
        src@.len() == old(dst)@.len(),
        start + n <= src@.len(),
    ensures
        final(dst)@.len() == old(dst)@.len(),
        forall|k: int| start <= k < start + n ==> #[trigger] final(dst)@[k] == src@[k],
        forall|k: int|
            0 <= k < old(dst)@.len() && !(start <= k < start + n) ==> #[trigger] final(dst)@[k]
                == old(dst)@[k],
{
    let mut i: usize = 0;
    while i < n
        invariant
            0 <= i <= n,
            start + n <= src.len(),
            dst@.len() == old(dst)@.len(),
            src@.len() == dst@.len(),
            forall|k: int| start <= k < start + i ==> #[trigger] dst@[k] == src@[k],
            forall|k: int|
                0 <= k < dst@.len() && !(start <= k < start + i) ==> #[trigger] dst@[k]
                    == old(dst)@[k],
        decreases n - i,
    {
        dst[start + i] = src[start + i];
        i = i + 1;
    }
}

} // verus!
