//! The xxHash32 checksums of the frame format, computed by the `twox_hash` crate.
use vstd::prelude::*;
use std::hash::Hasher;
use twox_hash::XxHash32;

verus! {

/// The streaming xxHash32 hasher of `twox_hash`.
#[verifier::external_type_specification]
#[verifier::external_body]
pub struct ExXxHash32(XxHash32);

/// The seed a hasher was created with.
pub uninterp spec fn xxh32_seed(h: XxHash32) -> u32;

/// The bytes written to a hasher since it was created.
pub uninterp spec fn xxh32_written(h: XxHash32) -> Seq<u8>;

/// The xxHash32 digest of `data` with `seed`.
pub uninterp spec fn xxh32(seed: u32, data: Seq<u8>) -> u32;

/// `XxHash32::with_seed`: a hasher with the given seed that has seen no bytes.
#[verifier::external_body]
pub(crate) fn hasher_with_seed(seed: u32) -> (h: XxHash32)
    ensures
        xxh32_seed(h) == seed,
        xxh32_written(h) == Seq::<u8>::empty(),
{
    XxHash32::with_seed(seed)
}

/// `Hasher::write` of `XxHash32`: appends `data` to the bytes the hasher has seen. The hasher
/// counts the bytes in a `u64`, which must not overflow.
#[verifier::external_body]
pub(crate) fn hasher_write(h: &mut XxHash32, data: &[u8])
    requires
        xxh32_written(*old(h)).len() + data@.len() <= u64::MAX,
    ensures
        xxh32_seed(*final(h)) == xxh32_seed(*old(h)),
        xxh32_written(*final(h)) == xxh32_written(*old(h)) + data@,
{
    h.write(data)
}

/// `Hasher::finish` of `XxHash32`: the 32-bit digest of all bytes seen, in the low bits of a
/// `u64`.
#[verifier::external_body]
pub(crate) fn hasher_finish(h: &XxHash32) -> (r: u64)
    ensures
        r == xxh32(xxh32_seed(*h), xxh32_written(*h)) as u64,
{
    h.finish()
}

/// The xxHash32 digest of `data` with seed 0, as the frame format uses it.
pub fn checksum(data: &[u8]) -> (r: u32)
    ensures
        r == xxh32(0, data@),
{
    let _len = data.len();
    let mut hasher = hasher_with_seed(0);
    proof {
        assert(Seq::<u8>::empty() + data@ =~= data@);
    }
    hasher_write(&mut hasher, data);
    hasher_finish(&hasher) as u32
}

} // verus!
