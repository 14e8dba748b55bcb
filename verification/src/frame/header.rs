//! The frame header (magic number and frame descriptor) and the block headers.
//!
//! ```text
//! | MagicNb | F. Descriptor | Block | (...) | EndMark | C. Checksum |
//! | 4 bytes |  3-15 bytes   |       |       | 4 bytes | 0-4 bytes   |
//!
//! Frame Descriptor
//! | FLG     | BD      | (Content Size) | (Dictionary ID) | HC      |
//! | 1 byte  | 1 byte  |  0 - 8 bytes   |   0 - 4 bytes   | 1 byte  |
//!
//! FLG: Version (bits 7-6), B.Indep (5), B.Checksum (4), C.Size (3), C.Checksum (2),
//!      reserved (1), DictID (0)
//! BD:  reserved (7), Block MaxSize (6-4), reserved (3-0)
//!
//! Data Blocks
//! | Block Size |  data  | (Block Checksum) |
//! |  4 bytes   |        |   0 - 4 bytes    |
//! ```
use vstd::prelude::*;
use crate::block::{le_u32, read_u32_le, u32_to_le_bytes};
use crate::frame::checksum::{checksum, xxh32};
use crate::frame::Error;

verus! {

pub const FLG_RESERVED_MASK: u8 = 0b00000010;
pub const FLG_VERSION_MASK: u8 = 0b11000000;
pub const FLG_SUPPORTED_VERSION_BITS: u8 = 0b01000000;
pub const FLG_INDEPENDENT_BLOCKS: u8 = 0b00100000;
pub const FLG_BLOCK_CHECKSUMS: u8 = 0b00010000;
pub const FLG_CONTENT_SIZE: u8 = 0b00001000;
pub const FLG_CONTENT_CHECKSUM: u8 = 0b00000100;
pub const FLG_DICTIONARY_ID: u8 = 0b00000001;

pub const BD_RESERVED_MASK: u8 = 0b10001111;
pub const BD_BLOCK_SIZE_MASK: u8 = 0b01110000;
pub const BD_BLOCK_SIZE_MASK_RSHIFT: u8 = 4;

pub const BLOCK_UNCOMPRESSED_SIZE_BIT: u32 = 0x80000000;

pub const LZ4F_MAGIC_NUMBER: u32 = 0x184D2204;
pub const LZ4F_LEGACY_MAGIC_NUMBER: u32 = 0x184C2102;
/// Skippable frames have magic numbers from this one ...
pub const LZ4F_SKIPPABLE_MAGIC_FIRST: u32 = 0x184D2A50;
/// ... to this one.
pub const LZ4F_SKIPPABLE_MAGIC_LAST: u32 = 0x184D2A5F;

pub const MAGIC_NUMBER_SIZE: usize = 4;
pub const MIN_FRAME_INFO_SIZE: usize = 7;
pub const MAX_FRAME_INFO_SIZE: usize = 19;
pub const BLOCK_INFO_SIZE: usize = 4;

/// The largest size of the blocks of a frame.
#[derive(Clone, Copy, PartialEq, Eq, Debug, Structural)]
pub enum BlockSize {
    Max64KB,
    Max256KB,
    Max1MB,
    Max4MB,
}

/// Whether blocks of a frame may refer to the data of the blocks before them.
#[derive(Clone, Copy, PartialEq, Eq, Debug, Structural)]
pub enum BlockMode {
    Independent,
    Linked,
}

impl BlockSize {
    /// The number of bytes.
    pub open spec fn size_spec(self) -> nat {
        match self {
            BlockSize::Max64KB => 65536,
            BlockSize::Max256KB => 262144,
            BlockSize::Max1MB => 1048576,
            BlockSize::Max4MB => 4194304,
        }
    }

    /// The code of the size in the BD byte.
    pub open spec fn code(self) -> u8 {
        match self {
            BlockSize::Max64KB => 4,
            BlockSize::Max256KB => 5,
            BlockSize::Max1MB => 6,
            BlockSize::Max4MB => 7,
        }
    }

    /// The number of bytes.
    pub fn get_size(&self) -> (r: usize)
        ensures
            r == self.size_spec(),
    {
        match self {
            BlockSize::Max64KB => 64 * 1024,
            BlockSize::Max256KB => 256 * 1024,
            BlockSize::Max1MB => 1024 * 1024,
            BlockSize::Max4MB => 4 * 1024 * 1024,
        }
    }

    /// The code of the size in the BD byte.
    pub fn bd_code(&self) -> (r: u8)
        ensures
            r == self.code(),
    {
        match self {
            BlockSize::Max64KB => 4,
            BlockSize::Max256KB => 5,
            BlockSize::Max1MB => 6,
            BlockSize::Max4MB => 7,
        }
    }
}

/// The settings of a frame, as its header states them.
#[derive(Clone, Copy, Debug)]
pub struct FrameInfo {
    pub content_size: Option<u64>,
    pub dict_id: Option<u32>,
    pub block_size: BlockSize,
    pub block_mode: BlockMode,
    pub block_checksums: bool,
    pub content_checksum: bool,
}

/// The `n` little-endian bytes of `v`.
pub open spec fn le_bytes(v: nat, n: nat) -> Seq<u8>
    decreases n,
{
    if n == 0 {
        Seq::empty()
    } else {
        seq![(v % 256) as u8] + le_bytes(v / 256, (n - 1) as nat)
    }
}

/// The FLG byte for the given settings: version 01 and the flags that are set.
pub open spec fn flg_of(independent: bool, block_checksums: bool, content_size: bool, content_checksum: bool, dict_id: bool) -> u8 {
    let f0 = FLG_SUPPORTED_VERSION_BITS;
    let f1 = if independent {
        f0 | FLG_INDEPENDENT_BLOCKS
    } else {
        f0
    };
    let f2 = if block_checksums {
        f1 | FLG_BLOCK_CHECKSUMS
    } else {
        f1
    };
    let f3 = if content_size {
        f2 | FLG_CONTENT_SIZE
    } else {
        f2
    };
    let f4 = if content_checksum {
        f3 | FLG_CONTENT_CHECKSUM
    } else {
        f3
    };
    if dict_id {
        f4 | FLG_DICTIONARY_ID
    } else {
        f4
    }
}

/// The FLG byte of a frame.
pub open spec fn flg_spec(fi: FrameInfo) -> u8 {
    flg_of(
        fi.block_mode == BlockMode::Independent,
        fi.block_checksums,
        fi.content_size is Some,
        fi.content_checksum,
        fi.dict_id is Some,
    )
}

/// The frame descriptor without its checksum byte: FLG, BD, and the optional content size and
/// dictionary id.
pub open spec fn descriptor_bytes(fi: FrameInfo) -> Seq<u8> {
    seq![flg_spec(fi), fi.block_size.code() << BD_BLOCK_SIZE_MASK_RSHIFT] + (match fi.content_size {
        Some(size) => le_bytes(size as nat, 8),
        None => Seq::empty(),
    }) + (match fi.dict_id {
        Some(id) => le_bytes(id as nat, 4),
        None => Seq::empty(),
    })
}

/// The header checksum byte of a descriptor: the second byte of its xxHash32 digest.
pub open spec fn header_checksum(descriptor: Seq<u8>) -> u8 {
    ((xxh32(0, descriptor) as nat / 256) % 256) as u8
}

/// The frame header: magic number, descriptor and header checksum.
pub open spec fn header_bytes(fi: FrameInfo) -> Seq<u8> {
    le_bytes(LZ4F_MAGIC_NUMBER as nat, 4) + descriptor_bytes(fi) + seq![header_checksum(descriptor_bytes(fi))]
}

/// The magic number is that of a skippable frame.
pub open spec fn is_skippable_magic(magic: nat) -> bool {
    LZ4F_SKIPPABLE_MAGIC_FIRST <= magic <= LZ4F_SKIPPABLE_MAGIC_LAST
}

/// The little-endian `u32` at `pos`.
pub open spec fn u32_at(s: Seq<u8>, pos: int) -> nat {
    le_u32(s[pos], s[pos + 1], s[pos + 2], s[pos + 3])
}

/// The little-endian `u64` at `pos`.
pub open spec fn u64_at(s: Seq<u8>, pos: int) -> nat {
    u32_at(s, pos) + 0x1_0000_0000 * u32_at(s, pos + 4)
}

/// The number of header bytes a frame that starts with `input` has, as far as its first
/// seven bytes tell.
pub open spec fn read_size_spec(input: Seq<u8>) -> Result<usize, Error> {
    if input.len() < 7 {
        Ok(7)
    } else if is_skippable_magic(u32_at(input, 0)) {
        Ok(8)
    } else if u32_at(input, 0) != LZ4F_MAGIC_NUMBER {
        Err(Error::WrongMagicNumber)
    } else {
        Ok((7 + (if input[4] & FLG_CONTENT_SIZE != 0 {
            8int
        } else {
            0
        }) + (if input[4] & FLG_DICTIONARY_ID != 0 {
            4int
        } else {
            0
        })) as usize)
    }
}

/// The block size of a BD code.
pub open spec fn block_size_of(code: u8) -> BlockSize {
    if code == 4 {
        BlockSize::Max64KB
    } else if code == 5 {
        BlockSize::Max256KB
    } else if code == 6 {
        BlockSize::Max1MB
    } else {
        BlockSize::Max4MB
    }
}

/// What reading a frame header from `input` gives.
pub open spec fn parse_frame_info(input: Seq<u8>) -> Result<FrameInfo, Error> {
    if input.len() < 4 {
        Err(Error::UnexpectedEof)
    } else if is_skippable_magic(u32_at(input, 0)) {
        if input.len() < 8 {
            Err(Error::UnexpectedEof)
        } else {
            Err(Error::SkippableFrame(u32_at(input, 4) as u32))
        }
    } else if u32_at(input, 0) != LZ4F_MAGIC_NUMBER {
        Err(Error::WrongMagicNumber)
    } else if input.len() < 6 {
        Err(Error::UnexpectedEof)
    } else {
        let flg = input[4];
        let bd = input[5];
        if flg & FLG_VERSION_MASK != FLG_SUPPORTED_VERSION_BITS {
            Err(Error::UnsupportedVersion(flg & FLG_VERSION_MASK))
        } else if flg & FLG_RESERVED_MASK != 0 || bd & BD_RESERVED_MASK != 0 {
            Err(Error::ReservedBitsSet)
        } else if (bd & BD_BLOCK_SIZE_MASK) >> BD_BLOCK_SIZE_MASK_RSHIFT < 4 {
            Err(Error::UnsupportedBlocksize((bd & BD_BLOCK_SIZE_MASK) >> BD_BLOCK_SIZE_MASK_RSHIFT))
        } else {
            let cs_len: int = if flg & FLG_CONTENT_SIZE != 0 {
                8
            } else {
                0
            };
            let dict_len: int = if flg & FLG_DICTIONARY_ID != 0 {
                4
            } else {
                0
            };
            let end = 6 + cs_len + dict_len;
            if input.len() < end + 1 {
                Err(Error::UnexpectedEof)
            } else if header_checksum(input.subrange(4, end)) != input[end] {
                Err(Error::HeaderChecksumError)
            } else {
                Ok(
                    FrameInfo {
                        content_size: if cs_len == 8 {
                            Some(u64_at(input, 6) as u64)
                        } else {
                            None
                        },
                        dict_id: if dict_len == 4 {
                            Some(u32_at(input, 6 + cs_len) as u32)
                        } else {
                            None
                        },
                        block_size: block_size_of((bd & BD_BLOCK_SIZE_MASK) >> BD_BLOCK_SIZE_MASK_RSHIFT),
                        block_mode: if flg & FLG_INDEPENDENT_BLOCKS != 0 {
                            BlockMode::Independent
                        } else {
                            BlockMode::Linked
                        },
                        block_checksums: flg & FLG_BLOCK_CHECKSUMS != 0,
                        content_checksum: flg & FLG_CONTENT_CHECKSUM != 0,
                    },
                )
            }
        }
    }
}

} // verus!

verus! {

/// `le_bytes(v, n)` has `n` bytes.
pub proof fn lemma_le_bytes_len(v: nat, n: nat)
    ensures
        le_bytes(v, n).len() == n,
    decreases n,
{
    if n > 0 {
        lemma_le_bytes_len(v / 256, (n - 1) as nat);
    }
}

/// Appends the `n` little-endian bytes of `value`.
fn push_le_bytes(out: &mut Vec<u8>, value: u64, n: usize)
    requires
        n <= 8,
    ensures
        final(out)@ == old(out)@ + le_bytes(value as nat, n as nat),
{
    let ghost o = out@;
    let mut cur = value;
    let mut k: usize = 0;
    while k < n
        invariant
            k <= n <= 8,
            out@ + le_bytes(cur as nat, (n - k) as nat) == o + le_bytes(value as nat, n as nat),
        decreases n - k,
    {
        let ghost before = out@;
        out.push((cur % 256) as u8);
        proof {
            assert(le_bytes(cur as nat, (n - k) as nat) == seq![(cur % 256) as u8] + le_bytes(
                cur as nat / 256,
                (n - k - 1) as nat,
            ));
            assert(out@ + le_bytes(cur as nat / 256, (n - k - 1) as nat) =~= before + le_bytes(cur as nat, (n - k) as nat));
        }
        cur = cur / 256;
        k = k + 1;
    }
    assert(le_bytes(cur as nat, 0) =~= Seq::<u8>::empty());
    assert(out@ =~= o + le_bytes(value as nat, n as nat));
}

impl FrameInfo {
    /// The default settings: 64 KiB independent blocks, no checksums, no content size, no
    /// dictionary.
    pub fn new() -> (fi: Self)
        ensures
            fi == (FrameInfo {
                content_size: None,
                dict_id: None,
                block_size: BlockSize::Max64KB,
                block_mode: BlockMode::Independent,
                block_checksums: false,
                content_checksum: false,
            }),
    {
        FrameInfo {
            content_size: None,
            dict_id: None,
            block_size: BlockSize::Max64KB,
            block_mode: BlockMode::Independent,
            block_checksums: false,
            content_checksum: false,
        }
    }

    /// The number of header bytes a frame that starts with `input` has: 7 when fewer than 7
    /// bytes are given, 8 for a skippable frame.
    pub fn read_size(input: &[u8]) -> (r: Result<usize, Error>)
        ensures
            r == read_size_spec(input@),
    {
        let mut required: usize = 7;
        if input.len() < 7 {
            return Ok(required);
        }
        let magic_num = read_u32_le(input, 0);
        if LZ4F_SKIPPABLE_MAGIC_FIRST <= magic_num && magic_num <= LZ4F_SKIPPABLE_MAGIC_LAST {
            return Ok(8);
        }
        if magic_num != LZ4F_MAGIC_NUMBER {
            return Err(Error::WrongMagicNumber);
        }
        if input[4] & FLG_CONTENT_SIZE != 0 {
            required = required + 8;
        }
        if input[4] & FLG_DICTIONARY_ID != 0 {
            required = required + 4;
        }
        Ok(required)
    }

    /// The number of bytes of the header of this frame.
    pub fn write_size(&self) -> (r: usize)
        ensures
            r == header_bytes(*self).len(),
    {
        proof {
            lemma_le_bytes_len(LZ4F_MAGIC_NUMBER as nat, 4);
            if let Some(size) = self.content_size {
                lemma_le_bytes_len(size as nat, 8);
            }
            if let Some(id) = self.dict_id {
                lemma_le_bytes_len(id as nat, 4);
            }
        }
        let mut required: usize = 7;
        if self.content_size.is_some() {
            required = required + 8;
        }
        if self.dict_id.is_some() {
            required = required + 4;
        }
        required
    }

    /// The FLG byte of this frame.
    fn flg_byte(&self) -> (r: u8)
        ensures
            r == flg_spec(*self),
    {
        let mut flg = FLG_SUPPORTED_VERSION_BITS;
        if self.block_mode == BlockMode::Independent {
            flg = flg | FLG_INDEPENDENT_BLOCKS;
        }
        if self.block_checksums {
            flg = flg | FLG_BLOCK_CHECKSUMS;
        }
        if self.content_size.is_some() {
            flg = flg | FLG_CONTENT_SIZE;
        }
        if self.content_checksum {
            flg = flg | FLG_CONTENT_CHECKSUM;
        }
        if self.dict_id.is_some() {
            flg = flg | FLG_DICTIONARY_ID;
        }
        flg
    }

    /// Writes the frame header into the front of `output` and returns its length; fails with
    /// [`Error::UnexpectedEof`], writing nothing, when `output` is too short.
    pub fn write(&self, output: &mut [u8]) -> (r: Result<usize, Error>)
        ensures
            old(output)@.len() < header_bytes(*self).len() ==> r == Err::<usize, Error>(Error::UnexpectedEof)
                && final(output)@ == old(output)@,
            old(output)@.len() >= header_bytes(*self).len() ==> r == Ok::<usize, Error>(
                header_bytes(*self).len() as usize,
            ) && final(output)@ == header_bytes(*self) + old(output)@.skip(header_bytes(*self).len() as int),
    {
        let write_size = self.write_size();
        if output.len() < write_size {
            return Err(Error::UnexpectedEof);
        }
        let mut buffer: Vec<u8> = Vec::new();
        push_le_bytes(&mut buffer, LZ4F_MAGIC_NUMBER as u64, 4);
        buffer.push(self.flg_byte());
        buffer.push(self.block_size.bd_code() << BD_BLOCK_SIZE_MASK_RSHIFT);
        if let Some(size) = self.content_size {
            push_le_bytes(&mut buffer, size, 8);
        }
        if let Some(dict_id) = self.dict_id {
            push_le_bytes(&mut buffer, dict_id as u64, 4);
        }
        let offset = buffer.len();
        proof {
            lemma_le_bytes_len(LZ4F_MAGIC_NUMBER as nat, 4);
            assert(buffer@.subrange(4, offset as int) =~= descriptor_bytes(*self));
        }
        let descriptor = crate::block::decompress::slice_range(buffer.as_slice(), 4, offset);
        let hash = checksum(descriptor);
        buffer.push(((hash / 256) % 256) as u8);
        assert(buffer@ =~= header_bytes(*self));
        let ghost o = output@;
        let mut i: usize = 0;
        while i < write_size
            invariant
                i <= write_size,
                write_size == buffer@.len(),
                write_size <= output@.len(),
                output@.len() == o.len(),
                forall|k: int| 0 <= k < i ==> #[trigger] output@[k] == buffer@[k],
                forall|k: int| i <= k < o.len() ==> #[trigger] output@[k] == o[k],
            decreases write_size - i,
        {
            output[i] = buffer[i];
            i = i + 1;
        }
        assert(output@ =~= header_bytes(*self) + o.skip(write_size as int));
        Ok(write_size)
    }

    /// Reads a frame header from the front of `input`.
    pub fn read(input: &[u8]) -> (r: Result<FrameInfo, Error>)
        ensures
            r == parse_frame_info(input@),
    {
        if input.len() < 4 {
            return Err(Error::UnexpectedEof);
        }
        let magic_num = read_u32_le(input, 0);
        if LZ4F_SKIPPABLE_MAGIC_FIRST <= magic_num && magic_num <= LZ4F_SKIPPABLE_MAGIC_LAST {
            if input.len() < 8 {
                return Err(Error::UnexpectedEof);
            }
            let user_data_len = read_u32_le(input, 4);
            return Err(Error::SkippableFrame(user_data_len));
        }
        if magic_num != LZ4F_MAGIC_NUMBER {
            return Err(Error::WrongMagicNumber);
        }
        if input.len() < 6 {
            return Err(Error::UnexpectedEof);
        }
        let flg_byte = input[4];
        let bd_byte = input[5];
        if flg_byte & FLG_VERSION_MASK != FLG_SUPPORTED_VERSION_BITS {
            // version is always 01
            return Err(Error::UnsupportedVersion(flg_byte & FLG_VERSION_MASK));
        }
        if flg_byte & FLG_RESERVED_MASK != 0 || bd_byte & BD_RESERVED_MASK != 0 {
            return Err(Error::ReservedBitsSet);
        }
        let block_mode = if flg_byte & FLG_INDEPENDENT_BLOCKS != 0 {
            BlockMode::Independent
        } else {
            BlockMode::Linked
        };
        let content_checksum = flg_byte & FLG_CONTENT_CHECKSUM != 0;
        let block_checksums = flg_byte & FLG_BLOCK_CHECKSUMS != 0;
        let code = (bd_byte & BD_BLOCK_SIZE_MASK) >> BD_BLOCK_SIZE_MASK_RSHIFT;
        let block_size = if code < 4 {
            return Err(Error::UnsupportedBlocksize(code));
        } else if code == 4 {
            BlockSize::Max64KB
        } else if code == 5 {
            BlockSize::Max256KB
        } else if code == 6 {
            BlockSize::Max1MB
        } else {
            BlockSize::Max4MB
        };
        // var len section
        let mut offset: usize = 6;
        let mut content_size = None;
        if flg_byte & FLG_CONTENT_SIZE != 0 {
            if input.len() < offset + 8 {
                return Err(Error::UnexpectedEof);
            }
            let lo = read_u32_le(input, offset) as u64;
            let hi = read_u32_le(input, offset + 4) as u64;
            content_size = Some(lo + hi * 0x1_0000_0000);
            offset = offset + 8;
        }
        let mut dict_id = None;
        if flg_byte & FLG_DICTIONARY_ID != 0 {
            if input.len() < offset + 4 {
                return Err(Error::UnexpectedEof);
            }
            dict_id = Some(read_u32_le(input, offset));
            offset = offset + 4;
        }
        // 1 byte header checksum
        if input.len() < offset + 1 {
            return Err(Error::UnexpectedEof);
        }
        let expected_checksum = input[offset];
        let descriptor = crate::block::decompress::slice_range(input, 4, offset);
        let hash = checksum(descriptor);
        let header_hash = ((hash / 256) % 256) as u8;
        if header_hash != expected_checksum {
            return Err(Error::HeaderChecksumError);
        }
        Ok(FrameInfo { block_mode, block_size, content_size, dict_id, block_checksums, content_checksum })
    }
}

impl Default for FrameInfo {
    fn default() -> (fi: Self)
        ensures
            fi == (FrameInfo {
                content_size: None,
                dict_id: None,
                block_size: BlockSize::Max64KB,
                block_mode: BlockMode::Independent,
                block_checksums: false,
                content_checksum: false,
            }),
    {
        FrameInfo::new()
    }
}

} // verus!

verus! {

/// The header of a data block: its size and whether it is compressed, or the end mark.
#[derive(Clone, Copy, Debug, PartialEq, Eq, Structural)]
pub enum BlockInfo {
    Compressed(u32),
    Uncompressed(u32),
    EndMark,
}

/// The block header that the four bytes of a block size word stand for.
pub open spec fn block_info_of(size: nat) -> BlockInfo {
    if size == 0 {
        BlockInfo::EndMark
    } else if size >= 0x8000_0000 {
        BlockInfo::Uncompressed((size - 0x8000_0000) as u32)
    } else {
        BlockInfo::Compressed(size as u32)
    }
}

/// The size word of a block header, when it can be written.
pub open spec fn block_info_word(bi: BlockInfo) -> Option<nat> {
    match bi {
        BlockInfo::Compressed(len) => if len == 0 || len >= 0x8000_0000 {
            None
        } else {
            Some(len as nat)
        },
        BlockInfo::Uncompressed(len) => if len >= 0x8000_0000 {
            None
        } else {
            Some((len + 0x8000_0000) as nat)
        },
        BlockInfo::EndMark => Some(0),
    }
}

impl BlockInfo {
    /// Reads a block header from the front of `input`.
    pub fn read(input: &[u8]) -> (r: Result<Self, Error>)
        ensures
            input@.len() < 4 ==> r == Err::<BlockInfo, Error>(Error::UnexpectedEof),
            input@.len() >= 4 ==> r == Ok::<BlockInfo, Error>(block_info_of(u32_at(input@, 0))),
    {
        if input.len() < 4 {
            return Err(Error::UnexpectedEof);
        }
        let size = read_u32_le(input, 0);
        if size == 0 {
            Ok(BlockInfo::EndMark)
        } else if size >= BLOCK_UNCOMPRESSED_SIZE_BIT {
            Ok(BlockInfo::Uncompressed(size - BLOCK_UNCOMPRESSED_SIZE_BIT))
        } else {
            Ok(BlockInfo::Compressed(size))
        }
    }

    /// Writes the block header into the front of `output`. A compressed block of no bytes, and
    /// a size that does not fit in 31 bits, are [`Error::InvalidBlockInfo`].
    pub fn write(&self, output: &mut [u8]) -> (r: Result<usize, Error>)
        ensures
            block_info_word(*self) is None ==> r == Err::<usize, Error>(Error::InvalidBlockInfo) && final(output)@
                == old(output)@,
            block_info_word(*self) is Some && old(output)@.len() < 4 ==> r == Err::<usize, Error>(
                Error::UnexpectedEof,
            ) && final(output)@ == old(output)@,
            block_info_word(*self) is Some && old(output)@.len() >= 4 ==> r == Ok::<usize, Error>(4)
                && final(output)@.len() == old(output)@.len() && u32_at(final(output)@, 0) == block_info_word(
                *self,
            )->0 && final(output)@.skip(4) == old(output)@.skip(4),
    {
        let value = match self {
            BlockInfo::Compressed(len) => {
                if *len == 0 || *len >= BLOCK_UNCOMPRESSED_SIZE_BIT {
                    return Err(Error::InvalidBlockInfo);
                }
                *len
            },
            BlockInfo::Uncompressed(len) => {
                if *len >= BLOCK_UNCOMPRESSED_SIZE_BIT {
                    return Err(Error::InvalidBlockInfo);
                }
                *len + BLOCK_UNCOMPRESSED_SIZE_BIT
            },
            BlockInfo::EndMark => 0,
        };
        if output.len() < 4 {
            return Err(Error::UnexpectedEof);
        }
        let bytes = u32_to_le_bytes(value);
        let ghost o = output@;
        output[0] = bytes[0];
        output[1] = bytes[1];
        output[2] = bytes[2];
        output[3] = bytes[3];
        assert(output@.skip(4) =~= o.skip(4));
        Ok(4)
    }
}

/// A block header that can be written reads back as itself.
pub proof fn lemma_block_info_roundtrip(bi: BlockInfo)
    requires
        block_info_word(bi) is Some,
    ensures
        block_info_of(block_info_word(bi)->0) == bi,
{
}

/// The value of the bytes of `le_bytes(v, n)`, read back as a little-endian number.
pub open spec fn le_value(s: Seq<u8>) -> nat
    decreases s.len(),
{
    if s.len() == 0 {
        0
    } else {
        s[0] as nat + 256 * le_value(s.drop_first())
    }
}

/// `le_bytes(v, n)` reads back as `v` when `v` fits in `n` bytes.
proof fn lemma_le_bytes_value(v: nat, n: nat, bound: nat)
    requires
        v < bound,
        bound == vstd::arithmetic::power::pow(256, n),
    ensures
        le_value(le_bytes(v, n)) == v,
    decreases n,
{
    if n == 0 {
        vstd::arithmetic::power::lemma_pow0(256);
    } else {
        vstd::arithmetic::power::lemma_pow_positive(256, (n - 1) as nat);
        let b2 = vstd::arithmetic::power::pow(256, (n - 1) as nat) as nat;
        vstd::arithmetic::power::lemma_pow_adds(256, 1, (n - 1) as nat);
        vstd::arithmetic::power::lemma_pow1(256);
        assert(v / 256 < b2) by (nonlinear_arith)
            requires
                v < bound,
                bound == 256 * b2,
        ;
        lemma_le_bytes_value(v / 256, (n - 1) as nat, b2);
        let s = le_bytes(v, n);
        assert(s.drop_first() =~= le_bytes(v / 256, (n - 1) as nat));
    }
}

/// Four bytes read as `u32_at` are their `le_value`.
proof fn lemma_u32_at_value(s: Seq<u8>, pos: int)
    requires
        0 <= pos,
        pos + 4 <= s.len(),
    ensures
        u32_at(s, pos) == le_value(s.subrange(pos, pos + 4)),
{
    let w = s.subrange(pos, pos + 4);
    reveal_with_fuel(le_value, 5);
    assert(w.drop_first().drop_first().drop_first().drop_first() =~= Seq::<u8>::empty());
}

/// The bits of a FLG byte and a BD byte that the writer sets read back as set.
proof fn lemma_descriptor_bits(a: bool, b: bool, c: bool, d: bool, e: bool, code: u8)
    by (bit_vector)
    requires
        4 <= code <= 7,
    ensures
        flg_of(a, b, c, d, e) & FLG_VERSION_MASK == FLG_SUPPORTED_VERSION_BITS,
        flg_of(a, b, c, d, e) & FLG_RESERVED_MASK == 0,
        (flg_of(a, b, c, d, e) & FLG_INDEPENDENT_BLOCKS != 0) == a,
        (flg_of(a, b, c, d, e) & FLG_BLOCK_CHECKSUMS != 0) == b,
        (flg_of(a, b, c, d, e) & FLG_CONTENT_SIZE != 0) == c,
        (flg_of(a, b, c, d, e) & FLG_CONTENT_CHECKSUM != 0) == d,
        (flg_of(a, b, c, d, e) & FLG_DICTIONARY_ID != 0) == e,
        (code << BD_BLOCK_SIZE_MASK_RSHIFT) & BD_RESERVED_MASK == 0,
        ((code << BD_BLOCK_SIZE_MASK_RSHIFT) & BD_BLOCK_SIZE_MASK) >> BD_BLOCK_SIZE_MASK_RSHIFT == code,
{
}

/// The header of a frame has 7 bytes, 8 more with a content size and 4 more with a dictionary
/// id.
pub proof fn lemma_header_bytes_len(fi: FrameInfo)
    ensures
        header_bytes(fi).len() == 7 + (if fi.content_size is Some {
            8int
        } else {
            0
        }) + (if fi.dict_id is Some {
            4int
        } else {
            0
        }),
        header_bytes(fi).len() <= MAX_FRAME_INFO_SIZE,
{
    lemma_le_bytes_len(LZ4F_MAGIC_NUMBER as nat, 4);
    if let Some(size) = fi.content_size {
        lemma_le_bytes_len(size as nat, 8);
    }
    if let Some(id) = fi.dict_id {
        lemma_le_bytes_len(id as nat, 4);
    }
}

/// The first seven bytes of a frame's header tell the header's length.
pub proof fn lemma_read_size_of_header(fi: FrameInfo, rest: Seq<u8>)
    ensures
        read_size_spec((header_bytes(fi) + rest).take(7)) == Ok::<usize, Error>(header_bytes(fi).len() as usize),
        u32_at(header_bytes(fi) + rest, 0) == LZ4F_MAGIC_NUMBER,
        (header_bytes(fi) + rest).take(header_bytes(fi).len() as int) == header_bytes(fi),
{
    let h = header_bytes(fi);
    let q = h + rest;
    lemma_header_bytes_len(fi);
    lemma_le_bytes_len(LZ4F_MAGIC_NUMBER as nat, 4);
    reveal_with_fuel(le_bytes, 5);
    let magic = le_bytes(LZ4F_MAGIC_NUMBER as nat, 4);
    assert(magic =~= seq![0x04u8, 0x22u8, 0x4Du8, 0x18u8]);
    assert(q[0] == 0x04 && q[1] == 0x22 && q[2] == 0x4D && q[3] == 0x18);
    let t = q.take(7);
    assert(t[0] == 0x04 && t[1] == 0x22 && t[2] == 0x4D && t[3] == 0x18);
    assert(u32_at(t, 0) == LZ4F_MAGIC_NUMBER);
    lemma_descriptor_bits(
        fi.block_mode == BlockMode::Independent,
        fi.block_checksums,
        fi.content_size is Some,
        fi.content_checksum,
        fi.dict_id is Some,
        fi.block_size.code(),
    );
    assert(t[4] == flg_spec(fi));
    assert(q.take(h.len() as int) =~= h);
}

/// Reading the header written for a frame gives the frame's settings back.
pub proof fn lemma_frame_info_roundtrip(fi: FrameInfo)
    ensures
        parse_frame_info(header_bytes(fi)) == Ok::<FrameInfo, Error>(fi),
{
    let h = header_bytes(fi);
    let d = descriptor_bytes(fi);
    let magic = le_bytes(LZ4F_MAGIC_NUMBER as nat, 4);
    lemma_le_bytes_len(LZ4F_MAGIC_NUMBER as nat, 4);
    reveal_with_fuel(le_bytes, 5);
    assert(magic =~= seq![0x04u8, 0x22u8, 0x4Du8, 0x18u8]);
    assert(h[0] == 0x04 && h[1] == 0x22 && h[2] == 0x4D && h[3] == 0x18);
    assert(u32_at(h, 0) == LZ4F_MAGIC_NUMBER);
    lemma_descriptor_bits(
        fi.block_mode == BlockMode::Independent,
        fi.block_checksums,
        fi.content_size is Some,
        fi.content_checksum,
        fi.dict_id is Some,
        fi.block_size.code(),
    );
    assert(h[4] == flg_spec(fi));
    assert(h[5] == fi.block_size.code() << BD_BLOCK_SIZE_MASK_RSHIFT);
    let cs_len: int = if fi.content_size is Some {
        8
    } else {
        0
    };
    let dict_len: int = if fi.dict_id is Some {
        4
    } else {
        0
    };
    let cs_bytes = match fi.content_size {
        Some(size) => le_bytes(size as nat, 8),
        None => Seq::empty(),
    };
    let id_bytes = match fi.dict_id {
        Some(id) => le_bytes(id as nat, 4),
        None => Seq::empty(),
    };
    if let Some(size) = fi.content_size {
        lemma_le_bytes_len(size as nat, 8);
    }
    if let Some(id) = fi.dict_id {
        lemma_le_bytes_len(id as nat, 4);
    }
    let end = 6 + cs_len + dict_len;
    assert(d.len() == 2 + cs_len + dict_len);
    assert(h.len() == end + 1);
    assert(h.subrange(4, end) =~= d);
    assert(h[end] == header_checksum(d));
    if let Some(size) = fi.content_size {
        assert(h.subrange(6, 14) =~= cs_bytes);
        vstd::arithmetic::power::lemma_pow_adds(256, 4, 4);
        assert(vstd::arithmetic::power::pow(256, 4) == 0x1_0000_0000) by {
            reveal_with_fuel(vstd::arithmetic::power::pow, 5);
        }
        lemma_le_bytes_value(size as nat, 8, vstd::arithmetic::power::pow(256, 8) as nat);
        lemma_u32_at_value(h, 6);
        lemma_u32_at_value(h, 10);
        lemma_le_value_split(cs_bytes, 4);
        assert(cs_bytes.subrange(0, 4) =~= h.subrange(6, 10));
        assert(cs_bytes.skip(4) =~= h.subrange(10, 14));
        assert(u64_at(h, 6) == size);
    }
    if let Some(id) = fi.dict_id {
        assert(h.subrange(6 + cs_len, 10 + cs_len) =~= id_bytes);
        assert(vstd::arithmetic::power::pow(256, 4) == 0x1_0000_0000) by {
            reveal_with_fuel(vstd::arithmetic::power::pow, 5);
        }
        lemma_le_bytes_value(id as nat, 4, vstd::arithmetic::power::pow(256, 4) as nat);
        lemma_u32_at_value(h, 6 + cs_len);
        assert(u32_at(h, 6 + cs_len) == id);
    }
    assert(block_size_of(fi.block_size.code()) == fi.block_size);
}

/// The value of bytes is the value of their first `k` plus that of the rest, shifted.
proof fn lemma_le_value_split(s: Seq<u8>, k: nat)
    requires
        k <= s.len(),
    ensures
        le_value(s) == le_value(s.subrange(0, k as int)) + vstd::arithmetic::power::pow(256, k) * le_value(s.skip(k as int)),
    decreases k,
{
    if k == 0 {
        vstd::arithmetic::power::lemma_pow0(256);
        assert(s.skip(0) =~= s);
        assert(s.subrange(0, 0) =~= Seq::<u8>::empty());
    } else {
        let t = s.drop_first();
        lemma_le_value_split(t, (k - 1) as nat);
        assert(t.skip(k - 1) =~= s.skip(k as int));
        assert(s.subrange(0, k as int).drop_first() =~= t.subrange(0, k - 1));
        vstd::arithmetic::power::lemma_pow_adds(256, 1, (k - 1) as nat);
        vstd::arithmetic::power::lemma_pow1(256);
        let p = vstd::arithmetic::power::pow(256, (k - 1) as nat);
        assert(256 * (le_value(t.subrange(0, k - 1)) + p * le_value(t.skip(k - 1))) == 256 * le_value(t.subrange(0, k - 1)) + (256 * p) * le_value(t.skip(k - 1))) by (nonlinear_arith);
    }
}

} // verus!

verus! {

/// The block sizes of the frame format and their codes in the BD byte: 64 KiB with code 4,
/// 256 KiB with code 5, 1 MiB with code 6 and 4 MiB with code 7.
pub proof fn lemma_block_size_table()
    ensures
        BlockSize::Max64KB.size_spec() == 65536 && BlockSize::Max64KB.code() == 4,
        BlockSize::Max256KB.size_spec() == 262144 && BlockSize::Max256KB.code() == 5,
        BlockSize::Max1MB.size_spec() == 1048576 && BlockSize::Max1MB.code() == 6,
        BlockSize::Max4MB.size_spec() == 4194304 && BlockSize::Max4MB.code() == 7,
{
}

/// A block size and its BD code determine each other: the size is 2 to the power of
/// `8 + 2 * code`, for the codes 4 to 7, and the code reads back as the size.
pub proof fn lemma_block_size_of_code(bs: BlockSize)
    ensures
        4 <= bs.code() <= 7,
        bs.size_spec() == vstd::arithmetic::power2::pow2((8 + 2 * bs.code()) as nat),
        block_size_of(bs.code()) == bs,
{
    vstd::arithmetic::power2::lemma2_to64();
}

/// The BD byte that a header is written with holds the code of the frame's block size in its
/// bits 4 to 6: the block size is 2 to the power of `8 + 2 * (BD >> 4)`.
pub proof fn lemma_header_block_size(fi: FrameInfo)
    ensures
        header_bytes(fi).len() > 5,
        header_bytes(fi)[5] & BD_RESERVED_MASK == 0,
        fi.block_size.size_spec() == vstd::arithmetic::power2::pow2((8 + 2 * (header_bytes(fi)[5] >> 4u8)) as nat),
{
    let h = header_bytes(fi);
    lemma_header_bytes_len(fi);
    lemma_le_bytes_len(LZ4F_MAGIC_NUMBER as nat, 4);
    let code = fi.block_size.code();
    assert(h[5] == code << BD_BLOCK_SIZE_MASK_RSHIFT);
    lemma_block_size_of_code(fi.block_size);
    assert((code << 4u8) >> 4u8 == code && (code << 4u8) & BD_RESERVED_MASK == 0) by (bit_vector)
        requires
            4 <= code <= 7,
    ;
}

/// A header that is read gives the block size whose code its BD byte holds: 2 to the power of
/// `8 + 2 * code`.
pub proof fn lemma_read_block_size(input: Seq<u8>)
    requires
        parse_frame_info(input) is Ok,
    ensures
        input.len() > 5,
        parse_frame_info(input)->Ok_0.block_size.size_spec() == vstd::arithmetic::power2::pow2(
            (8 + 2 * ((input[5] & BD_BLOCK_SIZE_MASK) >> BD_BLOCK_SIZE_MASK_RSHIFT)) as nat,
        ),
{
    vstd::arithmetic::power2::lemma2_to64();
    let bd = input[5];
    assert((bd & BD_BLOCK_SIZE_MASK) >> BD_BLOCK_SIZE_MASK_RSHIFT <= 7) by (bit_vector);
}

/// The last byte of a written header is bits 8 to 15 of the xxHash32 digest, with seed 0, of
/// the descriptor between the magic number and that byte.
pub proof fn lemma_header_checksum_byte(fi: FrameInfo)
    ensures
        header_bytes(fi).len() >= 7,
        header_bytes(fi)[header_bytes(fi).len() - 1] == ((xxh32(
            0,
            header_bytes(fi).subrange(4, header_bytes(fi).len() - 1),
        ) as nat / 256) % 256) as u8,
{
    let h = header_bytes(fi);
    lemma_header_bytes_len(fi);
    lemma_le_bytes_len(LZ4F_MAGIC_NUMBER as nat, 4);
    assert(h.subrange(4, h.len() - 1) =~= descriptor_bytes(fi));
}

/// A header that starts with the frame magic number and has all of its descriptor is read
/// exactly when its checksum byte is bits 8 to 15 of the xxHash32 digest, with seed 0, of the
/// descriptor, given valid FLG and BD bytes; with such bytes and any other checksum byte it is
/// refused with `HeaderChecksumError`.
pub proof fn lemma_header_checksum_checked(input: Seq<u8>)
    requires
        input.len() >= 7,
        u32_at(input, 0) == LZ4F_MAGIC_NUMBER,
        input.len() > 6 + (if input[4] & FLG_CONTENT_SIZE != 0 {
            8int
        } else {
            0
        }) + (if input[4] & FLG_DICTIONARY_ID != 0 {
            4int
        } else {
            0
        }),
    ensures
        ({
            let end = 6 + (if input[4] & FLG_CONTENT_SIZE != 0 {
                8int
            } else {
                0
            }) + (if input[4] & FLG_DICTIONARY_ID != 0 {
                4int
            } else {
                0
            });
            let sum = ((xxh32(0, input.subrange(4, end)) as nat / 256) % 256) as u8;
            &&& parse_frame_info(input) is Ok ==> input[end] == sum
            &&& parse_frame_info(input) == Err::<FrameInfo, Error>(Error::HeaderChecksumError) ==> input[end] != sum
            &&& input[4] & FLG_VERSION_MASK == FLG_SUPPORTED_VERSION_BITS && input[4] & FLG_RESERVED_MASK == 0
                && input[5] & BD_RESERVED_MASK == 0 && (input[5] & BD_BLOCK_SIZE_MASK) >> BD_BLOCK_SIZE_MASK_RSHIFT >= 4
                ==> (parse_frame_info(input) is Ok <==> input[end] == sum) && (input[end] != sum
                ==> parse_frame_info(input) == Err::<FrameInfo, Error>(Error::HeaderChecksumError))
        }),
{
    assert(!is_skippable_magic(u32_at(input, 0)));
}

/// The four little-endian bytes of a value below 2^32 read back as the value.
pub proof fn lemma_u32_at_le_bytes(v: nat)
    requires
        v < 0x1_0000_0000,
    ensures
        le_bytes(v, 4).len() == 4,
        u32_at(le_bytes(v, 4), 0) == v,
{
    let s = le_bytes(v, 4);
    lemma_le_bytes_len(v, 4);
    assert(vstd::arithmetic::power::pow(256, 4) == 0x1_0000_0000) by {
        reveal_with_fuel(vstd::arithmetic::power::pow, 5);
    }
    lemma_le_bytes_value(v, 4, vstd::arithmetic::power::pow(256, 4) as nat);
    lemma_u32_at_value(s, 0);
    assert(s.subrange(0, 4) =~= s);
}

} // verus!

verus! {

/// The FLG bits of the frame format: version 01 in bits 7 and 6, then independent blocks
/// (bit 5), block checksums (bit 4), content size (bit 3), content checksum (bit 2) and
/// dictionary id (bit 0).
proof fn lemma_flg_value(a: bool, b: bool, c: bool, d: bool, e: bool)
    by (bit_vector)
    ensures
        flg_of(a, b, c, d, e) == 0x40u8 | (if a {
            0x20u8
        } else {
            0u8
        }) | (if b {
            0x10u8
        } else {
            0u8
        }) | (if c {
            0x08u8
        } else {
            0u8
        }) | (if d {
            0x04u8
        } else {
            0u8
        }) | (if e {
            0x01u8
        } else {
            0u8
        }),
{
}

/// A written header starts with the magic number 0x184D2204 in little-endian order, and its
/// FLG byte has version 01 in bits 7 and 6, then the bits of independent blocks (5), block
/// checksums (4), content size (3), content checksum (2) and dictionary id (0).
pub proof fn lemma_header_magic_and_flg(fi: FrameInfo)
    ensures
        header_bytes(fi).len() >= 7,
        header_bytes(fi).subrange(0, 4) == seq![0x04u8, 0x22u8, 0x4Du8, 0x18u8],
        header_bytes(fi)[4] == 0x40u8 | (if fi.block_mode == BlockMode::Independent {
            0x20u8
        } else {
            0u8
        }) | (if fi.block_checksums {
            0x10u8
        } else {
            0u8
        }) | (if fi.content_size is Some {
            0x08u8
        } else {
            0u8
        }) | (if fi.content_checksum {
            0x04u8
        } else {
            0u8
        }) | (if fi.dict_id is Some {
            0x01u8
        } else {
            0u8
        }),
{
    let h = header_bytes(fi);
    lemma_header_bytes_len(fi);
    lemma_le_bytes_len(LZ4F_MAGIC_NUMBER as nat, 4);
    reveal_with_fuel(le_bytes, 5);
    assert(le_bytes(LZ4F_MAGIC_NUMBER as nat, 4) =~= seq![0x04u8, 0x22u8, 0x4Du8, 0x18u8]);
    assert(h.subrange(0, 4) =~= seq![0x04u8, 0x22u8, 0x4Du8, 0x18u8]);
    lemma_flg_value(
        fi.block_mode == BlockMode::Independent,
        fi.block_checksums,
        fi.content_size is Some,
        fi.content_checksum,
        fi.dict_id is Some,
    );
}

/// The header of a frame with the default settings (64 KiB independent blocks, no checksums,
/// no content size, no dictionary) is `04 22 4D 18 60 40` followed by bits 8 to 15 of the
/// xxHash32 digest, with seed 0, of `60 40`.
pub proof fn lemma_default_header(fi: FrameInfo)
    requires
        fi.content_size is None,
        fi.dict_id is None,
        fi.block_size == BlockSize::Max64KB,
        fi.block_mode == BlockMode::Independent,
        !fi.block_checksums,
        !fi.content_checksum,
    ensures
        header_bytes(fi) == seq![
            0x04u8,
            0x22u8,
            0x4Du8,
            0x18u8,
            0x60u8,
            0x40u8,
            ((xxh32(0, seq![0x60u8, 0x40u8]) as nat / 256) % 256) as u8,
        ],
{
    let h = header_bytes(fi);
    lemma_header_magic_and_flg(fi);
    lemma_header_checksum_byte(fi);
    lemma_header_bytes_len(fi);
    assert(0x40u8 | 0x20u8 | 0u8 | 0u8 | 0u8 | 0u8 == 0x60u8) by (bit_vector);
    assert(4u8 << 4u8 == 0x40u8) by (bit_vector);
    assert(h[5] == 0x40u8);
    assert(h.subrange(4, 6) =~= seq![0x60u8, 0x40u8]);
    assert(h =~= seq![
        0x04u8,
        0x22u8,
        0x4Du8,
        0x18u8,
        0x60u8,
        0x40u8,
        ((xxh32(0, seq![0x60u8, 0x40u8]) as nat / 256) % 256) as u8,
    ]);
}

} // verus!

verus! {

/// The size word of a block header: zero is the end mark; otherwise the highest of its 32 bits
/// marks data stored as it is, and the other 31 bits are the number of data bytes.
pub proof fn lemma_block_word(w: nat)
    requires
        w < 0x1_0000_0000,
    ensures
        w == 0 ==> block_info_of(w) == BlockInfo::EndMark,
        w != 0 && w < 0x8000_0000 ==> block_info_of(w) == BlockInfo::Compressed(w as u32),
        w >= 0x8000_0000 ==> block_info_of(w) == BlockInfo::Uncompressed((w % 0x8000_0000) as u32),
{
}

} // verus!
