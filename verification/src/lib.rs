//! LZ4 block and frame compression with verified contracts.
use vstd::prelude::*;

pub mod block;
pub mod fastcpy;
pub mod frame;
pub mod simd;
pub mod sink;

pub use block::{compress, compress_into, compress_prepend_size};
pub use block::{decompress, decompress_into, decompress_size_prepended};

verus! {
} // verus!
