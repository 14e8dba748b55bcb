//! LZ4 Frame Format
//!
//! As defined in <https://github.com/lz4/lz4/blob/dev/doc/lz4_Frame_format.md>.
//!
//! The frame header and block headers are read and written here; [`decompress::Decoder`]
//! decodes frames from bytes pushed into it, and [`compress::Encoder`] encodes frames into an
//! output buffer.
use vstd::prelude::*;
use crate::block::{CompressError, DecompressError};

pub mod checksum;
pub mod compress;
pub mod header;
pub mod raw_decompress;
pub mod read_back;

pub use header::{BlockMode, BlockSize, FrameInfo};

verus! {

/// Errors of the frame format.
#[derive(Debug, Clone, Copy, PartialEq, Eq, Structural)]
pub enum Error {
    /// Compression error.
    CompressionError(CompressError),
    /// Decompression error.
    DecompressionError(DecompressError),
    /// The bytes ended before a header or block was complete, or an output buffer is too short
    /// for what is written into it.
    UnexpectedEof,
    /// Unsupported block size.
    UnsupportedBlocksize(u8),
    /// Unsupported frame version.
    UnsupportedVersion(u8),
    /// Wrong magic number for the LZ4 frame format.
    WrongMagicNumber,
    /// Reserved bits set.
    ReservedBitsSet,
    /// Block header is malformed.
    InvalidBlockInfo,
    /// Read a block larger than specified in the Frame header.
    BlockTooBig,
    /// The Frame header checksum doesn't match.
    HeaderChecksumError,
    /// The block checksum doesn't match.
    BlockChecksumError,
    /// The content checksum doesn't match.
    ContentChecksumError,
    /// Read an skippable frame.
    /// The caller may read the specified amount of bytes from the underlying reader.
    SkippableFrame(u32),
    /// External dictionaries are not supported.
    DictionaryNotSupported,
    /// Content length differs.
    ContentLengthError { expected: u64, actual: u64 },
    /// More input is needed; at least this many bytes.
    NeedMoreInput(usize),
}

} // verus!
