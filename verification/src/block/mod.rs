//! LZ4 Block Format
//!
//! As defined in <https://github.com/lz4/lz4/blob/dev/doc/lz4_Block_format.md>.
//! The meaning of a block is given by [`format::decode_at`]; the decompressor computes
//! exactly that function and the compressors produce blocks that it maps back to their input.
use vstd::prelude::*;

pub mod compress;
pub mod compress_hc;
pub mod decompress;
pub mod dict;
pub mod format;
pub mod hashtable;
pub mod ultra;
pub mod vint;

pub use compress::{
    compress, compress_into, compress_into_with_dict, compress_into_with_table, compress_prepend_size,
    compress_prepend_size_with_dict, compress_with_dict, get_maximum_output_size, CompressTable,
};
pub use compress_hc::{
    compress_hc, compress_hc_to_vec, compress_hc_to_vec_with_table, compress_hc_with_table, CompressTableHC,
};
pub use decompress::{
    decompress, decompress_into, decompress_into_with_dict, decompress_size_prepended,
    decompress_size_prepended_with_dict, decompress_with_dict,
};
use compress::{block_keeps_rules, block_within, compresses_to, dict_window, effective_dict, fast_dict_block, lemma_rules_prefix_as_dict, max_output_size};
use ultra::{compress_into_vec, compress_one_shot, lemma_window_block_compresses, Favor, Finder};
use crate::sink::SliceSink;
use format::last_sequence_bytes;

verus! {

/// Size of the window that matches may reach back into.
pub const WINDOW_SIZE: usize = 65536;

/// The last match must start at least 12 bytes before the end of the block.
pub const MFLIMIT: usize = 12;

/// The last 5 bytes of input are always literals.
pub const LAST_LITERALS: usize = 5;

/// Matches end this many bytes before the end of the input.
pub const END_OFFSET: usize = 6;

/// Inputs shorter than this are emitted as a single literal run.
pub const LZ4_MIN_LENGTH: usize = 13;

/// Largest offset that fits the 16 bit offset field.
pub const MAX_DISTANCE: usize = 65535;

/// The minimum length of a duplicate.
pub const MINMATCH: usize = 4;

/// An error representing invalid compressed data.
#[derive(Debug, Clone, Copy, PartialEq, Eq, Structural)]
pub enum DecompressError {
    /// The provided output is too small
    OutputTooSmall {
        /// Minimum expected output size
        expected: usize,
        /// Actual size of output
        actual: usize,
    },
    /// Literal is out of bounds of the input
    LiteralOutOfBounds,
    /// Expected another byte, but none found.
    ExpectedAnotherByte,
    /// Match offset is 0
    OffsetZero,
    /// Deduplication offset out of bounds (not in buffer).
    OffsetOutOfBounds,
}

/// Errors that can happen during compression.
#[derive(Debug, Clone, Copy, PartialEq, Eq, Structural)]
pub enum CompressError {
    /// The provided output is too small.
    OutputTooSmall,
}

/// Little-endian value of four bytes.
pub open spec fn le_u32(b0: u8, b1: u8, b2: u8, b3: u8) -> nat {
    (b0 as nat) + 256 * (b1 as nat) + 65536 * (b2 as nat) + 16777216 * (b3 as nat)
}

/// Little-endian value of the eight bytes of `s` at `pos`.
pub open spec fn le_u64_at(s: Seq<u8>, pos: int) -> nat {
    le_u32(s[pos], s[pos + 1], s[pos + 2], s[pos + 3]) + 4294967296 * le_u32(
        s[pos + 4],
        s[pos + 5],
        s[pos + 6],
        s[pos + 7],
    )
}

/// Little-endian value of the four bytes of `s` at `pos`.
pub open spec fn le_u32_at(s: Seq<u8>, pos: int) -> nat {
    le_u32(s[pos], s[pos + 1], s[pos + 2], s[pos + 3])
}

/// Reads the first 4 bytes of `input` as little-endian length and returns it together with
/// the rest of the bytes.
pub fn uncompressed_size(input: &[u8]) -> (r: Result<(usize, &[u8]), DecompressError>)
    ensures
        input@.len() < 4 ==> r == Err::<(usize, &[u8]), DecompressError>(DecompressError::ExpectedAnotherByte),
        input@.len() >= 4 ==> (r matches Ok((size, rest)) && size as nat == le_u32(
            input@[0],
            input@[1],
            input@[2],
            input@[3],
        ) && rest@ == input@.skip(4)),
{
    if input.len() < 4 {
        return Err(DecompressError::ExpectedAnotherByte);
    }
    let size = read_u32_le(input, 0);
    let rest = &input[4..input.len()];
    assert(rest@ =~= input@.skip(4));
    Ok((size as usize, rest))
}

/// Reads a little-endian `u32` at `pos`.
pub fn read_u32_le(input: &[u8], pos: usize) -> (r: u32)
    requires
        pos + 4 <= input@.len(),
    ensures
        r as nat == le_u32(input@[pos as int], input@[pos + 1], input@[pos + 2], input@[pos + 3]),
{
    let b0 = input[pos] as u32;
    let b1 = input[pos + 1] as u32;
    let b2 = input[pos + 2] as u32;
    let b3 = input[pos + 3] as u32;
    b0 + 256 * b1 + 65536 * b2 + 16777216 * b3
}

/// The four little-endian bytes of `v`.
pub fn u32_to_le_bytes(v: u32) -> (r: [u8; 4])
    ensures
        le_u32(r[0], r[1], r[2], r[3]) == v as nat,
{
    let b0 = (v % 256) as u8;
    let b1 = ((v / 256) % 256) as u8;
    let b2 = ((v / 65536) % 256) as u8;
    let b3 = (v / 16777216) as u8;
    [b0, b1, b2, b3]
}

/// Selects which compressor the `compress_*_with_mode` entry points use.
///
/// [`Fast`](Self::Fast) is the default greedy/lazy compressor (exactly [`compress`]); the other two
/// are optimal-parse "ultra" engines that compress better at the cost of speed/memory.
#[derive(Debug, Clone, Copy, PartialEq, Eq, Structural)]
pub enum CompressionMode {
    /// Fast greedy/lazy compressor — identical to [`compress`]. The default.
    Fast,
    /// Optimal-parse suffix-array compressor. Best ratio and a decode-optimised stream (favours
    /// decompression speed), but the slowest and most memory-hungry.
    Ultra,
    /// Hash-chain optimal compressor (matches `lz4hc -12`): ratio close to [`Ultra`](Self::Ultra),
    /// several times faster, far less memory.
    Hc,
}

impl Default for CompressionMode {
    fn default() -> (m: Self)
        ensures
            m == CompressionMode::Fast,
    {
        CompressionMode::Fast
    }
}

impl CompressionMode {
    /// `(favor, finder)` for the optimal-parse engines; `None` for [`Fast`](Self::Fast).
    pub fn ultra_engine(self) -> (r: Option<(Favor, Finder)>)
        ensures
            self == CompressionMode::Fast <==> r is None,
            self == CompressionMode::Ultra ==> r matches Some((Favor::DecompressionSpeed, Finder::SuffixArray)),
            self == CompressionMode::Hc ==> r matches Some((Favor::Ratio, Finder::Lz4Hc)),
    {
        match self {
            CompressionMode::Fast => None,
            CompressionMode::Ultra => Some((Favor::DecompressionSpeed, Finder::SuffixArray)),
            CompressionMode::Hc => Some((Favor::Ratio, Finder::Lz4Hc)),
        }
    }
}

/// What the `*_with_mode` entry points require of their input: the sizes the fast compressor
/// handles, and for the optimal-parse engines an input below 1.75 GiB with the reachable part of
/// the dictionary.
pub open spec fn mode_input_ok(input: Seq<u8>, dict: Seq<u8>, mode: CompressionMode) -> bool {
    &&& input.len() + 2 * dict_window(dict).len() <= isize::MAX
    &&& mode != CompressionMode::Fast ==> input.len() + WINDOW_SIZE < 0x7000_0000
}

/// Compress `input` with the chosen [`CompressionMode`], optionally using `dict` for lookback
/// (pass `b""` for none). With [`CompressionMode::Fast`] this is exactly [`compress`] /
/// [`compress_with_dict`]. The result is a standard LZ4 block decodable by [`decompress`].
pub fn compress_with_mode(input: &[u8], dict: &[u8], mode: CompressionMode) -> (r: Vec<u8>)
    requires
        mode_input_ok(input@, dict@, mode),
    ensures
        r@.len() <= max_output_size(input@.len() as int),
        compresses_to(r@, dict@, input@),
        block_keeps_rules(r@, input@, dict_window(dict@).len() as int, 0),
        dict_window(dict@).len() + input@.len() <= MFLIMIT ==> r@ == last_sequence_bytes(input@),
        mode == CompressionMode::Fast ==> r@ == fast_dict_block(input@, effective_dict(dict@)),
        mode == CompressionMode::Fast ==> block_within(r@, input@, dict_window(dict@).len() as int, 0, MFLIMIT as int, END_OFFSET as int),
{
    match mode.ultra_engine() {
        None => if dict.len() == 0 {
            assert(dict@ =~= Seq::<u8>::empty());
            compress(input)
        } else {
            compress_with_dict(input, dict)
        },
        Some((favor, finder)) => compress_into_vec(input, false, dict, favor, finder),
    }
}

/// Like [`compress_with_mode`], prepending the uncompressed size as a little-endian `u32` (pairs
/// with [`decompress_size_prepended`] / [`decompress_size_prepended_with_dict`]).
pub fn compress_prepend_size_with_mode(input: &[u8], dict: &[u8], mode: CompressionMode) -> (r: Vec<u8>)
    requires
        mode_input_ok(input@, dict@, mode),
    ensures
        r@.len() >= 4,
        le_u32(r@[0], r@[1], r@[2], r@[3]) == (input@.len() as u32) as nat,
        r@.len() <= max_output_size(input@.len() as int) + 4,
        compresses_to(r@.skip(4), dict@, input@),
        block_keeps_rules(r@.skip(4), input@, dict_window(dict@).len() as int, 0),
        dict_window(dict@).len() + input@.len() <= MFLIMIT ==> r@.skip(4) == last_sequence_bytes(input@),
        mode == CompressionMode::Fast ==> r@.skip(4) == fast_dict_block(input@, effective_dict(dict@)),
        mode == CompressionMode::Fast ==> block_within(r@.skip(4), input@, dict_window(dict@).len() as int, 0, MFLIMIT as int, END_OFFSET as int),
{
    match mode.ultra_engine() {
        None => if dict.len() == 0 {
            assert(dict@ =~= Seq::<u8>::empty());
            compress_prepend_size(input)
        } else {
            compress_prepend_size_with_dict(input, dict)
        },
        Some((favor, finder)) => compress_into_vec(input, true, dict, favor, finder),
    }
}

/// Like [`compress_with_mode`], writing into the pre-allocated `output` (size it with
/// [`get_maximum_output_size`]). Returns the number of bytes written.
///
/// [`Fast`](CompressionMode::Fast) checks the room up front and writes nothing into an output
/// shorter than [`get_maximum_output_size`]; the optimal-parse engines write sequence by sequence
/// and fail on the first that does not fit.
pub fn compress_into_with_mode(input: &[u8], output: &mut [u8], dict: &[u8], mode: CompressionMode) -> (r: Result<
    usize,
    CompressError,
>)
    requires
        mode_input_ok(input@, dict@, mode),
    ensures
        final(output)@.len() == old(output)@.len(),
        match r {
            Ok(n) => n <= max_output_size(input@.len() as int) && final(output)@.skip(n as int) == old(output)@.skip(
                n as int,
            ) && compresses_to(final(output)@.take(n as int), dict@, input@) && block_keeps_rules(
                final(output)@.take(n as int),
                input@,
                dict_window(dict@).len() as int,
                0,
            ) && (dict_window(dict@).len() + input@.len() <= MFLIMIT ==> final(output)@.take(n as int)
                == last_sequence_bytes(input@)),
            Err(e) => e == CompressError::OutputTooSmall,
        },
        max_output_size(input@.len() as int) <= old(output)@.len() ==> r is Ok,
        mode == CompressionMode::Fast && max_output_size(input@.len() as int) > old(output)@.len() ==> r is Err
            && final(output)@ == old(output)@,
        mode == CompressionMode::Fast ==> (r matches Ok(n) ==> final(output)@.take(n as int) == fast_dict_block(
            input@,
            dict@,
        ) && block_within(final(output)@.take(n as int), input@, dict_window(dict@).len() as int, 0, MFLIMIT as int, END_OFFSET as int)),
{
    match mode.ultra_engine() {
        None => if dict.len() == 0 {
            assert(dict@ =~= Seq::<u8>::empty());
            compress_into(input, output)
        } else {
            compress_into_with_dict(input, output, dict)
        },
        Some((favor, finder)) => {
            let ghost o0 = output@;
            let mut sink = SliceSink::new(output, 0);
            let r = compress_one_shot(input, dict, favor, finder, &mut sink);
            proof {
                let w = dict_window(dict@);
                assert((w + input@).len() - w.len() == input@.len());
                if let Ok(n) = r {
                    let block = sink.output@.subrange(0, n as int);
                    lemma_window_block_compresses(block, dict@, input@);
                    lemma_rules_prefix_as_dict(block, w, input@);
                    assert((w + input@).skip(w.len() as int) =~= input@);
                    assert(sink.output@.take(n as int) =~= block);
                    assert(sink.output@.skip(n as int) =~= o0.skip(n as int));
                }
            }
            r
        },
    }
}

} // verus!
