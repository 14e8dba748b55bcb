//! Compressing into the LZ4 frame format.
//!
//! An [`Encoder`] takes the bytes of a frame's content, buffers them up to the frame's block
//! size, and appends the frame's bytes to an output vector: the header when the first bytes come,
//! one block whenever a block's worth is buffered (or on [`Encoder::flush`]), and the end mark and
//! content checksum on [`Encoder::try_finish`]. Blocks of a linked frame are compressed with the
//! content before them as their history.
use vstd::prelude::*;
use crate::block::compress::{block_decodes_to, compress_internal, fast_block, get_maximum_output_size, max_output_size};
use crate::block::decompress::slice_range;
use crate::block::hashtable::{HashTable, HashTable4K};
use crate::block::{u32_to_le_bytes, CompressError, WINDOW_SIZE};
use crate::frame::checksum::{checksum, hasher_finish, hasher_with_seed, hasher_write, xxh32, xxh32_seed, xxh32_written};
use crate::frame::header::{
    block_info_of, block_info_word, header_bytes, le_bytes, u32_at, BlockInfo, BlockMode, FrameInfo,
    BLOCK_INFO_SIZE, MAX_FRAME_INFO_SIZE,
};
use crate::frame::raw_decompress::{ends_with, lemma_ends_with_push, lemma_ends_with_skip};
use crate::frame::Error;
use crate::sink::vec_sink_for_compression;
use twox_hash::XxHash32;

verus! {

/// An encoder for the LZ4 frame format that appends the frame's bytes to an output vector.
///
/// To ensure a well formed stream the encoder must be finalized by calling
/// [`Encoder::try_finish`].
pub struct Encoder {
    /// Our buffer of uncompressed bytes.
    src: Vec<u8>,
    /// Index into src: starting point of bytes not yet compressed
    src_start: usize,
    /// Index into src: end point of bytes not not yet compressed
    src_end: usize,
    /// Index into src: starting point of external dictionary (applicable in Linked block mode)
    ext_dict_offset: usize,
    /// Length of external dictionary
    ext_dict_len: usize,
    /// Counter of bytes already compressed to the compression_table
    /// _Not_ the same as `content_len` as this is reset every to 2GB.
    src_stream_offset: usize,
    /// Encoder table
    compression_table: HashTable4K,
    /// Xxhash32 used when content checksum is enabled.
    content_hasher: XxHash32,
    /// Number of bytes compressed
    content_len: u64,
    /// The compressed bytes buffer. Bytes are compressed from src (usually)
    /// to dst before being appended to the output.
    dst: Vec<u8>,
    /// Whether we have an open frame in the output.
    is_frame_open: bool,
    /// The frame information to be used in this encoder.
    frame_info: FrameInfo,
    /// The content of the open frame that is in its blocks so far.
    content: Ghost<Seq<u8>>,
}

/// The largest stream offset of the compression table before it is moved back.
pub const STREAM_OFFSET_LIMIT: usize = 0x7FFF_FFFF;

impl Encoder {
    /// The frame's settings.
    pub closed spec fn frame_info_view(&self) -> FrameInfo {
        self.frame_info
    }

    /// Whether a frame is open: its header was written and its end was not.
    pub closed spec fn frame_open(&self) -> bool {
        self.is_frame_open
    }

    /// The content of the open frame that is in its blocks so far.
    pub closed spec fn content_view(&self) -> Seq<u8> {
        self.content@
    }

    /// The bytes given to the encoder that are not yet in a block.
    pub closed spec fn pending(&self) -> Seq<u8> {
        self.src@.subrange(self.src_start as int, self.src_end as int)
    }

    /// The history the next block is compressed with that lies apart from the block's input.
    pub closed spec fn block_dict(&self) -> Seq<u8> {
        if self.ext_dict_len > 0 {
            self.src@.subrange(self.ext_dict_offset as int, self.ext_dict_offset + self.ext_dict_len)
        } else {
            Seq::empty()
        }
    }

    /// The history the next block is compressed with that lies right before the block's input.
    pub closed spec fn block_prefix(&self) -> Seq<u8> {
        self.src@.take(self.src_start as int)
    }

    /// The block that the compressor makes of the pending bytes with the table as it is.
    pub closed spec fn pending_block(&self) -> Seq<u8> {
        fast_block::<HashTable4K>(
            self.src@.take(self.src_end as int),
            self.src_start as int,
            self.block_dict(),
            self.src_stream_offset as int,
            self.compression_table.entries(),
        )
    }

    /// The block that the compressor makes of the pending bytes when the next block is written:
    /// the table's positions are first moved back, and the stream offset with them, when the
    /// offset nears the limit of the table's 32-bit entries.
    pub closed spec fn next_compressed(&self) -> Seq<u8> {
        let b = self.frame_info.block_size.size_spec();
        let e = self.compression_table.entries();
        if self.src_stream_offset + b + WINDOW_SIZE >= STREAM_OFFSET_LIMIT {
            let shift = self.src_stream_offset - self.ext_dict_len;
            fast_block::<HashTable4K>(
                self.src@.take(self.src_end as int),
                self.src_start as int,
                self.block_dict(),
                self.ext_dict_len as int,
                Seq::new(e.len(), |i: int| if e[i] >= shift { (e[i] - shift) as usize } else { 0usize }),
            )
        } else {
            self.pending_block()
        }
    }

    /// The encoder's buffers, counters and table are consistent.
    pub closed spec fn wf(&self) -> bool {
        let b = self.frame_info.block_size.size_spec();
        &&& !self.is_frame_open ==> self.src_start == self.src_end
        &&& self.src_start <= self.src_end <= self.src@.len()
        &&& self.src_end - self.src_start <= b
        &&& xxh32_seed(self.content_hasher) == 0
        &&& self.frame_info.content_checksum ==> xxh32_written(self.content_hasher) == self.content@
        &&& self.content_len == self.content@.len()
        &&& self.compression_table.wf()
        &&& forall|k: int|
            0 <= k < self.compression_table.entries().len() ==> #[trigger] self.compression_table.entries()[k] == 0
                || self.compression_table.entries()[k] < self.src_stream_offset + self.src_start
        &&& self.src_stream_offset <= STREAM_OFFSET_LIMIT + b
        &&& self.src_start + b <= 2 * b + WINDOW_SIZE
        &&& self.frame_info.block_mode == BlockMode::Independent ==> self.src_start == 0 && self.ext_dict_len == 0
        &&& self.ext_dict_len > 0 ==> {
            &&& self.ext_dict_len <= WINDOW_SIZE
            &&& self.ext_dict_len <= self.src_stream_offset
            &&& self.ext_dict_offset + self.ext_dict_len <= self.src@.len()
            &&& self.src_start + b <= self.ext_dict_offset
            &&& self.src_start + self.ext_dict_len <= WINDOW_SIZE
            &&& self.ext_dict_offset + self.ext_dict_len >= b + WINDOW_SIZE
        }
        &&& ends_with(self.content@, self.block_dict() + self.block_prefix())
        &&& self.frame_info.block_mode == BlockMode::Linked ==> (self.block_dict() + self.block_prefix()).len()
            >= WINDOW_SIZE || (self.block_dict() + self.block_prefix()).len() == self.content@.len()
    }

    /// Creates a new Encoder with the specified FrameInfo.
    pub fn with_frame_info(frame_info: FrameInfo) -> (e: Self)
        ensures
            e.wf(),
            e.frame_info_view() == frame_info,
            !e.frame_open(),
            e.content_view() == Seq::<u8>::empty(),
            e.pending() == Seq::<u8>::empty(),
    {
        let e = Encoder {
            src: Vec::new(),
            src_start: 0,
            src_end: 0,
            ext_dict_offset: 0,
            ext_dict_len: 0,
            src_stream_offset: 0,
            compression_table: HashTable4K::new(),
            content_hasher: hasher_with_seed(0),
            content_len: 0,
            dst: Vec::new(),
            is_frame_open: false,
            frame_info,
            content: Ghost(Seq::empty()),
        };
        proof {
            assert(e.block_dict() + e.block_prefix() =~= Seq::<u8>::empty());
            assert(e.content@.skip(0) =~= Seq::<u8>::empty());
            assert(e.pending() =~= Seq::<u8>::empty());
        }
        e
    }

    /// Creates a new Encoder with the default settings.
    pub fn new() -> (e: Self)
        ensures
            e.wf(),
            e.frame_info_view() == (FrameInfo {
                content_size: None,
                dict_id: None,
                block_size: crate::frame::header::BlockSize::Max64KB,
                block_mode: BlockMode::Independent,
                block_checksums: false,
                content_checksum: false,
            }),
            !e.frame_open(),
            e.content_view() == Seq::<u8>::empty(),
            e.pending() == Seq::<u8>::empty(),
    {
        Self::with_frame_info(FrameInfo::new())
    }

    /// The frame information used by this Encoder.
    pub fn frame_info(&self) -> (r: &FrameInfo)
        ensures
            *r == self.frame_info_view(),
    {
        &self.frame_info
    }

    /// Closes the frame by writing the end marker, and the content checksum when the frame has
    /// one. Fails with [`Error::ContentLengthError`], writing nothing, when the frame's header
    /// announced another content size.
    fn end_frame(&mut self, out: &mut Vec<u8>) -> (r: Result<(), Error>)
        requires
            old(self).wf(),
            old(self).is_frame_open,
            old(self).src_start == old(self).src_end,
        ensures
            final(self).wf(),
            !final(self).is_frame_open,
            final(self).content == old(self).content,
            final(self).frame_info == old(self).frame_info,
            final(self).pending() == old(self).pending(),
            content_size_differs(old(self).frame_info, old(self).content@) ==> r == Err::<(), Error>(
                Error::ContentLengthError {
                    expected: old(self).frame_info.content_size.unwrap(),
                    actual: old(self).content@.len() as u64,
                },
            ) && final(out)@ == old(out)@,
            !content_size_differs(old(self).frame_info, old(self).content@) ==> r is Ok && final(out)@ == old(out)@
                + end_bytes(old(self).frame_info, old(self).content@),
    {
        self.is_frame_open = false;
        if let Some(expected) = self.frame_info.content_size {
            if expected != self.content_len {
                return Err(Error::ContentLengthError { expected, actual: self.content_len });
            }
        }
        let ghost o = out@;
        out.push(0);
        out.push(0);
        out.push(0);
        out.push(0);
        if self.frame_info.content_checksum {
            let content_checksum = hasher_finish(&self.content_hasher) as u32;
            let bytes = u32_to_le_bytes(content_checksum);
            out.push(bytes[0]);
            out.push(bytes[1]);
            out.push(bytes[2]);
            out.push(bytes[3]);
            proof {
                lemma_le4(content_checksum as nat, seq![bytes[0], bytes[1], bytes[2], bytes[3]]);
            }
        }
        proof {
            reveal_with_fuel(le_bytes, 5);
            assert(le_bytes(0, 4) =~= seq![0u8, 0u8, 0u8, 0u8]);
            assert(out@ =~= o + end_bytes(self.frame_info, self.content@));
        }
        Ok(())
    }
}

/// The frame's header announced a content size other than the length of `content`.
pub open spec fn content_size_differs(fi: FrameInfo, content: Seq<u8>) -> bool {
    fi.content_size is Some && fi.content_size.unwrap() != content.len()
}

/// The bytes that end a frame: the end mark, then the content checksum when the frame has one.
pub open spec fn end_bytes(fi: FrameInfo, content: Seq<u8>) -> Seq<u8> {
    le_bytes(0, 4) + if fi.content_checksum {
        le_bytes(xxh32(0, content) as nat, 4)
    } else {
        Seq::empty()
    }
}

/// Four bytes whose little-endian value is `v < 2^32` are `le_bytes(v, 4)`.
proof fn lemma_le4(v: nat, s: Seq<u8>)
    requires
        s.len() == 4,
        crate::block::le_u32(s[0], s[1], s[2], s[3]) == v,
    ensures
        le_bytes(v, 4) == s,
{
    reveal_with_fuel(le_bytes, 5);
    let b0 = s[0];
    let b1 = s[1];
    let b2 = s[2];
    let b3 = s[3];
    assert(v % 256 == b0 && (v / 256) % 256 == b1 && (v / 65536) % 256 == b2 && v / 16777216 == b3) by (nonlinear_arith)
        requires
            v == b0 + 256 * b1 + 65536 * b2 + 16777216 * b3,
    ;
    assert(v / 256 / 256 == v / 65536) by (nonlinear_arith);
    assert(v / 256 / 256 / 256 == v / 16777216) by (nonlinear_arith);
    assert(le_bytes(v, 4) =~= s);
}

/// Appends `data` to `out`.
fn append(out: &mut Vec<u8>, data: &[u8])
    ensures
        final(out)@ == old(out)@ + data@,
{
    let ghost o = out@;
    let mut i: usize = 0;
    while i < data.len()
        invariant
            i <= data@.len(),
            out@ == o + data@.take(i as int),
        decreases data@.len() - i,
    {
        out.push(data[i]);
        i = i + 1;
        assert(out@ =~= o + data@.take(i as int));
    }
    assert(data@.take(data@.len() as int) =~= data@);
}

/// The bytes of a data block: its header word, the payload, and the payload's checksum when
/// the frame has block checksums.
pub open spec fn block_bytes(fi: FrameInfo, word: nat, payload: Seq<u8>) -> Seq<u8> {
    le_bytes(word, 4) + payload + if fi.block_checksums {
        le_bytes(xxh32(0, payload) as nat, 4)
    } else {
        Seq::empty()
    }
}

/// The block of a frame with settings `fi` that holds `data`, given the block `compressed` that
/// the compressor made of it: the compressed block where it is shorter than `data`, else
/// `data` stored as it is.
pub open spec fn chosen_block(fi: FrameInfo, data: Seq<u8>, compressed: Seq<u8>) -> Seq<u8> {
    if compressed.len() < data.len() {
        block_bytes(fi, compressed.len(), compressed)
    } else {
        block_bytes(fi, data.len() + 0x8000_0000, data)
    }
}

/// `bytes` is a block of a frame with settings `fi` holding `data`: stored as it is, or
/// compressed into fewer bytes that decode to `data` after `prefix`, with `dict` before it.
pub open spec fn is_block_of(bytes: Seq<u8>, fi: FrameInfo, data: Seq<u8>, dict: Seq<u8>, prefix: Seq<u8>) -> bool {
    ||| bytes == block_bytes(fi, data.len() + 0x8000_0000, data)
    ||| exists|payload: Seq<u8>|
        {
            &&& 0 < #[trigger] payload.len() < data.len()
            &&& bytes == block_bytes(fi, payload.len(), payload)
            &&& block_decodes_to(payload, dict, prefix + data, prefix.len() as int)
        }
}

/// `bytes` are blocks of the frame `fi`, one after another, for the `pieces` of content that
/// follow the content `before`, in order: each piece's block is read with a history that ends
/// the content before the piece (none in a frame of independent blocks; in a linked frame its
/// last `WINDOW_SIZE` bytes, or all of it).
pub open spec fn blocks_of(bytes: Seq<u8>, fi: FrameInfo, before: Seq<u8>, pieces: Seq<Seq<u8>>) -> bool
    decreases pieces.len(),
{
    if pieces.len() == 0 {
        bytes.len() == 0
    } else {
        let prev = pieces.drop_last();
        let content = before + prev.flatten();
        exists|k: int, dict: Seq<u8>, prefix: Seq<u8>|
            {
                &&& 0 <= k <= bytes.len()
                &&& blocks_of(bytes.take(k), fi, before, prev)
                &&& ends_with(content, dict + prefix)
                &&& fi.block_mode == BlockMode::Independent ==> dict + prefix == Seq::<u8>::empty()
                &&& fi.block_mode == BlockMode::Linked ==> (dict + prefix).len() >= WINDOW_SIZE || (dict
                    + prefix).len() == content.len()
                &&& #[trigger] is_block_of(bytes.skip(k), fi, pieces.last(), dict, prefix)
            }
    }
}

/// `bytes` are the blocks of whole blocks' worth of content that took the frame's content from
/// `before` to `after`.
pub open spec fn full_blocks_of(bytes: Seq<u8>, fi: FrameInfo, before: Seq<u8>, after: Seq<u8>) -> bool {
    exists|pieces: Seq<Seq<u8>>|
        {
            &&& #[trigger] blocks_of(bytes, fi, before, pieces)
            &&& forall|j: int| 0 <= j < pieces.len() ==> #[trigger] pieces[j].len() == fi.block_size.size_spec()
            &&& after == before + pieces.flatten()
        }
}

/// No block is written yet.
proof fn lemma_full_blocks_start(fi: FrameInfo, before: Seq<u8>)
    ensures
        full_blocks_of(Seq::empty(), fi, before, before),
{
    let pieces = Seq::<Seq<u8>>::empty();
    assert(blocks_of(Seq::empty(), fi, before, pieces));
    assert(before + pieces.flatten() =~= before);
}

/// A block of a whole block's worth of content, read with a history that ends the content so
/// far, extends the blocks written.
proof fn lemma_full_blocks_push(
    bytes: Seq<u8>,
    blk: Seq<u8>,
    fi: FrameInfo,
    before: Seq<u8>,
    after: Seq<u8>,
    piece: Seq<u8>,
    dict: Seq<u8>,
    prefix: Seq<u8>,
)
    requires
        full_blocks_of(bytes, fi, before, after),
        ends_with(after, dict + prefix),
        fi.block_mode == BlockMode::Independent ==> dict + prefix == Seq::<u8>::empty(),
        fi.block_mode == BlockMode::Linked ==> (dict + prefix).len() >= WINDOW_SIZE || (dict + prefix).len()
            == after.len(),
        is_block_of(blk, fi, piece, dict, prefix),
        piece.len() == fi.block_size.size_spec(),
    ensures
        full_blocks_of(bytes + blk, fi, before, after + piece),
{
    let pieces = choose|pieces: Seq<Seq<u8>>|
        {
            &&& #[trigger] blocks_of(bytes, fi, before, pieces)
            &&& forall|j: int| 0 <= j < pieces.len() ==> #[trigger] pieces[j].len() == fi.block_size.size_spec()
            &&& after == before + pieces.flatten()
        };
    let p2 = pieces.push(piece);
    pieces.lemma_flatten_push(piece);
    assert(p2.drop_last() =~= pieces);
    let k = bytes.len() as int;
    assert((bytes + blk).take(k) =~= bytes);
    assert((bytes + blk).skip(k) =~= blk);
    assert(p2.last() == piece);
    assert(blocks_of(bytes + blk, fi, before, p2));
    assert forall|j: int| 0 <= j < p2.len() implies #[trigger] p2[j].len() == fi.block_size.size_spec() by {
        if j < pieces.len() {
            assert(p2[j] == pieces[j]);
        }
    }
    assert(after + piece =~= before + p2.flatten());
}

impl Encoder {
    /// Begin the frame by writing the frame header.
    /// It'll also setup the encoder for compressing blocks for the the new frame.
    fn begin_frame(&mut self, out: &mut Vec<u8>) -> (r: Result<(), Error>)
        requires
            old(self).wf(),
            !old(self).is_frame_open,
        ensures
            final(self).wf(),
            final(self).is_frame_open,
            final(self).frame_info == old(self).frame_info,
            final(self).content@ == Seq::<u8>::empty(),
            final(self).pending() == Seq::<u8>::empty(),
            r is Ok,
            final(out)@ == old(out)@ + header_bytes(old(self).frame_info),
    {
        let mut frame_info_buffer: Vec<u8> = vec![0u8; MAX_FRAME_INFO_SIZE];
        proof {
            crate::frame::header::lemma_header_bytes_len(self.frame_info);
        }
        let size = match self.frame_info.write(frame_info_buffer.as_mut_slice()) {
            Ok(n) => n,
            Err(e) => return Err(e),
        };
        let written = slice_range(&frame_info_buffer, 0, size);
        assert(written@ =~= header_bytes(self.frame_info));
        append(out, written);
        self.is_frame_open = true;
        if self.content_len != 0 {
            // This is the second or later frame for this Encoder,
            // reset compressor state for the new frame.
            self.content_len = 0;
            self.src_stream_offset = 0;
            self.src.clear();
            self.src_start = 0;
            self.src_end = 0;
            self.ext_dict_len = 0;
            self.content_hasher = hasher_with_seed(0);
            self.compression_table.clear();
            self.content = Ghost(Seq::empty());
            proof {
                assert(self.block_dict() + self.block_prefix() =~= Seq::<u8>::empty());
                assert(self.content@.skip(0) =~= Seq::<u8>::empty());
            }
        } else {
            proof {
                assert(self.content@ =~= Seq::<u8>::empty());
            }
        }
        assert(self.pending() =~= Seq::<u8>::empty());
        Ok(())
    }
}

/// A block that decodes to anything has at least one byte.
proof fn lemma_block_not_empty(block: Seq<u8>, dict: Seq<u8>, input: Seq<u8>, prefix: int)
    requires
        block_decodes_to(block, dict, input, prefix),
    ensures
        block.len() > 0,
{
    assert(crate::block::format::decode_at(block, 0, input.take(prefix), dict, input.len() as int) == Ok::<
        Seq<u8>,
        crate::block::DecompressError,
    >(input));
}

impl Encoder {
    /// Moves the compression table's positions back when the stream offset nears the limit
    /// of its 32-bit entries.
    fn reposition_if_needed(&mut self)
        requires
            old(self).wf(),
        ensures
            final(self).wf(),
            final(self).src_stream_offset + final(self).frame_info.block_size.size_spec() + WINDOW_SIZE
                < STREAM_OFFSET_LIMIT,
            final(self).src == old(self).src,
            final(self).src_start == old(self).src_start,
            final(self).src_end == old(self).src_end,
            final(self).ext_dict_offset == old(self).ext_dict_offset,
            final(self).ext_dict_len == old(self).ext_dict_len,
            final(self).content == old(self).content,
            final(self).content_len == old(self).content_len,
            final(self).content_hasher == old(self).content_hasher,
            final(self).is_frame_open == old(self).is_frame_open,
            final(self).frame_info == old(self).frame_info,
            final(self).dst == old(self).dst,
            final(self).pending_block() == old(self).next_compressed(),
    {
        let max_block_size = self.frame_info.block_size.get_size();
        // Reposition the compression table if we're anywhere near an overflowing hazard
        if self.src_stream_offset + max_block_size + WINDOW_SIZE >= STREAM_OFFSET_LIMIT {
            let shift = (self.src_stream_offset - self.ext_dict_len) as u32;
            let ghost old_entries = self.compression_table.entries();
            self.compression_table.reposition(shift);
            self.src_stream_offset = self.ext_dict_len;
            assert(self.compression_table.entries() =~= Seq::new(
                old_entries.len(),
                |i: int| if old_entries[i] >= old(self).src_stream_offset - old(self).ext_dict_len {
                    (old_entries[i] - (old(self).src_stream_offset - old(self).ext_dict_len)) as usize
                } else {
                    0usize
                },
            ));
            assert forall|k: int|
                0 <= k < self.compression_table.entries().len() implies #[trigger] self.compression_table.entries()[k]
                == 0 || self.compression_table.entries()[k] < self.src_stream_offset + self.src_start by {
                assert(old_entries[k] == 0 || old_entries[k] < old(self).src_stream_offset + self.src_start);
            }
        }
    }

    /// Compresses the pending bytes into `dst`; returns the compressed length.
    fn compress_pending(&mut self) -> (r: usize)
        requires
            old(self).wf(),
            old(self).src_stream_offset + old(self).frame_info.block_size.size_spec() + WINDOW_SIZE < STREAM_OFFSET_LIMIT,
        ensures
            final(self).src == old(self).src,
            final(self).src_start == old(self).src_start,
            final(self).src_end == old(self).src_end,
            final(self).ext_dict_offset == old(self).ext_dict_offset,
            final(self).ext_dict_len == old(self).ext_dict_len,
            final(self).src_stream_offset == old(self).src_stream_offset,
            final(self).content == old(self).content,
            final(self).content_len == old(self).content_len,
            final(self).content_hasher == old(self).content_hasher,
            final(self).is_frame_open == old(self).is_frame_open,
            final(self).frame_info == old(self).frame_info,
            final(self).compression_table.wf(),
            forall|k: int|
                0 <= k < final(self).compression_table.entries().len() ==> #[trigger] final(self).compression_table.entries()[k] == 0
                    || final(self).compression_table.entries()[k] < final(self).src_stream_offset + final(self).src_end,
            0 < r <= final(self).dst@.len(),
            r <= max_output_size(old(self).pending().len() as int),
            block_decodes_to(
                final(self).dst@.take(r as int),
                old(self).block_dict(),
                old(self).block_prefix() + old(self).pending(),
                old(self).block_prefix().len() as int,
            ),
            final(self).dst@.take(r as int) == old(self).pending_block(),
    {
        let len = self.src_end - self.src_start;
        // input to the compressor, which may include a prefix when blocks are linked
        let input = slice_range(&self.src, 0, self.src_end);
        assert(input@ =~= self.block_prefix() + self.pending());
        assert(input@ =~= self.src@.take(self.src_end as int));
        let dst_required_size = get_maximum_output_size(len);
        let src_start = self.src_start;
        let ghost p = self.block_prefix();
        let compress_result = if self.ext_dict_len != 0 {
            let src_len = self.src.len();
            assert(self.ext_dict_offset + self.ext_dict_len <= src_len);
            let ext_dict = slice_range(&self.src, self.ext_dict_offset, self.ext_dict_offset + self.ext_dict_len);
            let mut sink = vec_sink_for_compression(&mut self.dst, 0, 0, dst_required_size);
            let r = compress_internal::<HashTable4K, true>(
                input,
                src_start,
                &mut sink,
                &mut self.compression_table,
                ext_dict,
                self.src_stream_offset,
            );
            proof {
                if let Ok(n) = r {
                    assert(sink.output@.subrange(0, n as int) =~= self.dst@.take(n as int));
                }
            }
            r
        } else {
            let no_dict: &[u8] = &[];
            assert(no_dict@ =~= Seq::<u8>::empty());
            let mut sink = vec_sink_for_compression(&mut self.dst, 0, 0, dst_required_size);
            let r = compress_internal::<HashTable4K, false>(
                input,
                src_start,
                &mut sink,
                &mut self.compression_table,
                no_dict,
                self.src_stream_offset,
            );
            proof {
                if let Ok(n) = r {
                    assert(sink.output@.subrange(0, n as int) =~= self.dst@.take(n as int));
                }
            }
            r
        };
        let n = compress_result.unwrap();
        proof {
            lemma_block_not_empty(self.dst@.take(n as int), old(self).block_dict(), input@, src_start as int);
        }
        n
    }
}

/// Appends the bytes of a data block: the header word of `block_info`, the payload and, with
/// `fi.block_checksums`, the payload's checksum.
fn append_block(out: &mut Vec<u8>, fi: FrameInfo, block_info: BlockInfo, payload: &[u8])
    requires
        block_info_word(block_info) is Some,
    ensures
        final(out)@ == old(out)@ + block_bytes(fi, block_info_word(block_info)->0, payload@),
{
    let ghost o = out@;
    let mut block_info_buffer: Vec<u8> = vec![0u8; BLOCK_INFO_SIZE];
    let _ = block_info.write(block_info_buffer.as_mut_slice());
    proof {
        lemma_le4(block_info_word(block_info)->0, block_info_buffer@);
    }
    append(out, block_info_buffer.as_slice());
    append(out, payload);
    if fi.block_checksums {
        let block_checksum = checksum(payload);
        let bytes = u32_to_le_bytes(block_checksum);
        out.push(bytes[0]);
        out.push(bytes[1]);
        out.push(bytes[2]);
        out.push(bytes[3]);
        proof {
            lemma_le4(block_checksum as nat, seq![bytes[0], bytes[1], bytes[2], bytes[3]]);
        }
    }
    assert(out@ =~= o + block_bytes(fi, block_info_word(block_info)->0, payload@));
}

impl Encoder {
    /// Appends the block of the pending bytes: compressed into the first `comp_len` bytes of
    /// `dst` when that is shorter, else stored.
    fn emit_block(&self, out: &mut Vec<u8>, comp_len: usize)
        requires
            self.src_start <= self.src_end <= self.src@.len(),
            self.src_end - self.src_start <= self.frame_info.block_size.size_spec(),
            0 < comp_len <= self.dst@.len(),
            block_decodes_to(
                self.dst@.take(comp_len as int),
                self.block_dict(),
                self.block_prefix() + self.pending(),
                self.block_prefix().len() as int,
            ),
        ensures
            final(out)@.take(old(out)@.len() as int) == old(out)@,
            final(out)@.len() >= old(out)@.len(),
            is_block_of(
                final(out)@.skip(old(out)@.len() as int),
                self.frame_info,
                self.pending(),
                self.block_dict(),
                self.block_prefix(),
            ),
            final(out)@.skip(old(out)@.len() as int) == chosen_block(self.frame_info, self.pending(), self.dst@.take(comp_len as int)),
    {
        let ghost o = out@;
        let len = self.src_end - self.src_start;
        if comp_len < len {
            let payload = slice_range(&self.dst, 0, comp_len);
            append_block(out, self.frame_info, BlockInfo::Compressed(comp_len as u32), payload);
            proof {
                assert(payload@ =~= self.dst@.take(comp_len as int));
                assert(out@.skip(o.len() as int) =~= block_bytes(self.frame_info, payload@.len(), payload@));
                assert(0 < payload@.len() < self.pending().len());
                assert(block_decodes_to(
                    payload@,
                    self.block_dict(),
                    self.block_prefix() + self.pending(),
                    self.block_prefix().len() as int,
                ));
            }
        } else {
            let payload = slice_range(&self.src, self.src_start, self.src_end);
            append_block(out, self.frame_info, BlockInfo::Uncompressed(len as u32), payload);
            proof {
                assert(out@.skip(o.len() as int) =~= block_bytes(self.frame_info, self.pending().len() + 0x8000_0000, self.pending()));
            }
        }
        assert(out@.take(o.len() as int) =~= o);
    }

    /// Arranges the input buffer for the next block once the block before `src_start` is out:
    /// a linked frame keeps at least `WINDOW_SIZE` bytes of history.
    fn arrange_src(&mut self, max_block_size: usize)
        requires
            max_block_size == old(self).frame_info.block_size.size_spec(),
            old(self).src_start == old(self).src_end <= old(self).src@.len(),
            old(self).src_stream_offset + max_block_size + WINDOW_SIZE < STREAM_OFFSET_LIMIT,
            old(self).src_start <= 2 * max_block_size + WINDOW_SIZE,
            old(self).frame_info.block_mode == BlockMode::Independent ==> old(self).ext_dict_len == 0,
            old(self).ext_dict_len > 0 ==> {
                &&& old(self).ext_dict_len <= WINDOW_SIZE
                &&& old(self).ext_dict_len <= old(self).src_stream_offset
                &&& old(self).ext_dict_offset + old(self).ext_dict_len <= old(self).src@.len()
                &&& old(self).src_start <= old(self).ext_dict_offset
                &&& old(self).ext_dict_offset + old(self).ext_dict_len >= max_block_size + WINDOW_SIZE
            },
            ends_with(old(self).content@, old(self).block_dict() + old(self).block_prefix()),
            old(self).frame_info.block_mode == BlockMode::Linked ==> (old(self).block_dict() + old(self).block_prefix()).len()
                >= WINDOW_SIZE || (old(self).block_dict() + old(self).block_prefix()).len() == old(self).content@.len(),
            forall|k: int|
                0 <= k < old(self).compression_table.entries().len() ==> #[trigger] old(self).compression_table.entries()[k]
                    == 0 || old(self).compression_table.entries()[k] < old(self).src_stream_offset + old(self).src_end,
        ensures
            final(self).src == old(self).src,
            final(self).content == old(self).content,
            final(self).content_len == old(self).content_len,
            final(self).content_hasher == old(self).content_hasher,
            final(self).compression_table == old(self).compression_table,
            final(self).is_frame_open == old(self).is_frame_open,
            final(self).frame_info == old(self).frame_info,
            final(self).src_start == final(self).src_end,
            final(self).src_end <= final(self).src@.len(),
            final(self).src_stream_offset <= STREAM_OFFSET_LIMIT + max_block_size,
            final(self).src_start + max_block_size <= 2 * max_block_size + WINDOW_SIZE,
            final(self).frame_info.block_mode == BlockMode::Independent ==> final(self).src_start == 0,
            final(self).frame_info.block_mode == BlockMode::Independent ==> final(self).ext_dict_len == 0,
            final(self).ext_dict_len > 0 ==> {
                &&& final(self).ext_dict_len <= WINDOW_SIZE
                &&& final(self).ext_dict_len <= final(self).src_stream_offset
                &&& final(self).ext_dict_offset + final(self).ext_dict_len <= final(self).src@.len()
                &&& final(self).src_start + max_block_size <= final(self).ext_dict_offset
                &&& final(self).src_start + final(self).ext_dict_len <= WINDOW_SIZE
                &&& final(self).ext_dict_offset + final(self).ext_dict_len >= max_block_size + WINDOW_SIZE
            },
            ends_with(final(self).content@, final(self).block_dict() + final(self).block_prefix()),
            final(self).frame_info.block_mode == BlockMode::Linked ==> (final(self).block_dict()
                + final(self).block_prefix()).len() >= WINDOW_SIZE || (final(self).block_dict()
                + final(self).block_prefix()).len() == final(self).content@.len(),
            forall|k: int|
                0 <= k < final(self).compression_table.entries().len() ==> #[trigger] final(self).compression_table.entries()[k]
                    == 0 || final(self).compression_table.entries()[k] < final(self).src_stream_offset + final(self).src_start,
    {
        let ghost h1 = self.block_dict() + self.block_prefix();
        let ghost c1 = self.content@;
        if self.frame_info.block_mode == BlockMode::Linked {
            if self.src_start >= max_block_size + WINDOW_SIZE {
                // The ext_dict will become the last WINDOW_SIZE bytes
                self.ext_dict_offset = self.src_end - WINDOW_SIZE;
                self.ext_dict_len = WINDOW_SIZE;
                // Input goes in the beginning of the buffer again.
                self.src_stream_offset = self.src_stream_offset + self.src_end;
                self.src_start = 0;
                self.src_end = 0;
                proof {
                    let k = h1.len() - WINDOW_SIZE;
                    assert(self.block_dict() + self.block_prefix() =~= h1.skip(k));
                    lemma_ends_with_skip(c1, h1, k);
                }
            } else if self.src_start + self.ext_dict_len > WINDOW_SIZE {
                // There's more than WINDOW_SIZE bytes of lookback adding the prefix and ext_dict.
                // Since we have a limited buffer we must shrink ext_dict in favor of the prefix,
                // so that we can fit up to max_block_size bytes between dst_start and ext_dict
                // start.
                let excess = self.src_start + self.ext_dict_len - WINDOW_SIZE;
                let delta = if self.ext_dict_len <= excess {
                    self.ext_dict_len
                } else {
                    excess
                };
                let src_len = self.src.len();
                proof {
                    if self.ext_dict_len > 0 {
                        assert(self.ext_dict_offset + delta <= src_len);
                    }
                }
                self.ext_dict_offset = self.ext_dict_offset + delta;
                self.ext_dict_len = self.ext_dict_len - delta;
                proof {
                    assert(self.block_dict() + self.block_prefix() =~= h1.skip(delta as int));
                    lemma_ends_with_skip(c1, h1, delta as int);
                }
            }
        } else {
            // In independent block mode we consume the entire src buffer
            // which is sized equal to the frame max_block_size.
            // Advance stream offset so we don't have to reset the match dict
            // for the next block.
            self.src_stream_offset = self.src_stream_offset + self.src_start;
            self.src_start = 0;
            self.src_end = 0;
            proof {
                assert(self.block_dict() + self.block_prefix() =~= h1.skip(h1.len() as int));
                lemma_ends_with_skip(c1, h1, h1.len() as int);
            }
        }
    }

    /// Moves the pending bytes, now in a block, into the content and arranges the buffer for
    /// the next block.
    fn advance(&mut self)
        requires
            old(self).frame_info.content_checksum ==> xxh32_written(old(self).content_hasher) == old(self).content@,
            xxh32_seed(old(self).content_hasher) == 0,
            old(self).content_len == old(self).content@.len(),
            old(self).content@.len() + old(self).pending().len() <= u64::MAX,
            old(self).is_frame_open,
            old(self).src_start <= old(self).src_end <= old(self).src@.len(),
            old(self).src_end - old(self).src_start <= old(self).frame_info.block_size.size_spec(),
            old(self).compression_table.wf(),
            forall|k: int|
                0 <= k < old(self).compression_table.entries().len() ==> #[trigger] old(self).compression_table.entries()[k]
                    == 0 || old(self).compression_table.entries()[k] < old(self).src_stream_offset + old(self).src_end,
            old(self).src_stream_offset + old(self).frame_info.block_size.size_spec() + WINDOW_SIZE < STREAM_OFFSET_LIMIT,
            old(self).src_start + old(self).frame_info.block_size.size_spec() <= 2 * old(self).frame_info.block_size.size_spec() + WINDOW_SIZE,
            old(self).frame_info.block_mode == BlockMode::Independent ==> old(self).src_start == 0 && old(self).ext_dict_len == 0,
            old(self).ext_dict_len > 0 ==> {
                &&& old(self).ext_dict_len <= WINDOW_SIZE
                &&& old(self).ext_dict_len <= old(self).src_stream_offset
                &&& old(self).ext_dict_offset + old(self).ext_dict_len <= old(self).src@.len()
                &&& old(self).src_start + old(self).frame_info.block_size.size_spec() <= old(self).ext_dict_offset
                &&& old(self).src_start + old(self).ext_dict_len <= WINDOW_SIZE
                &&& old(self).ext_dict_offset + old(self).ext_dict_len >= old(self).frame_info.block_size.size_spec() + WINDOW_SIZE
            },
            ends_with(old(self).content@, old(self).block_dict() + old(self).block_prefix()),
            old(self).frame_info.block_mode == BlockMode::Linked ==> (old(self).block_dict() + old(self).block_prefix()).len()
                >= WINDOW_SIZE || (old(self).block_dict() + old(self).block_prefix()).len() == old(self).content@.len(),
        ensures
            final(self).wf(),
            final(self).content@ == old(self).content@ + old(self).pending(),
            final(self).pending() == Seq::<u8>::empty(),
            final(self).is_frame_open,
            final(self).frame_info == old(self).frame_info,
    {
        let ghost data = self.pending();
        let ghost h0 = self.block_dict() + self.block_prefix();
        let len = self.src_end - self.src_start;
        // Content checksum, if applicable
        if self.frame_info.content_checksum {
            hasher_write(&mut self.content_hasher, slice_range(&self.src, self.src_start, self.src_end));
        }
        self.content_len = self.content_len + len as u64;
        proof {
            self.content@ = self.content@ + data;
        }
        self.src_start = self.src_start + len;
        proof {
            assert(self.block_prefix() =~= old(self).block_prefix() + data);
            assert(self.block_dict() + self.block_prefix() =~= h0 + data);
            lemma_ends_with_push(old(self).content@, h0, data);
        }
        let max_block_size = self.frame_info.block_size.get_size();
        self.arrange_src(max_block_size);
        assert(self.pending() =~= Seq::<u8>::empty());
    }
}

impl Encoder {
    /// Consumes the src contents between src_start and src_end, which shouldn't exceed the max
    /// block size, and appends their block. Fails with [`Error::ContentLengthError`], writing
    /// nothing, when the frame's content would outgrow a `u64`.
    fn write_block(&mut self, out: &mut Vec<u8>) -> (r: Result<(), Error>)
        requires
            old(self).wf(),
            old(self).is_frame_open,
        ensures
            final(self).wf(),
            final(self).is_frame_open,
            final(self).frame_info == old(self).frame_info,
            r is Ok <==> old(self).content@.len() + old(self).pending().len() <= u64::MAX,
            r is Ok ==> {
                &&& final(self).content@ == old(self).content@ + old(self).pending()
                &&& final(self).pending() == Seq::<u8>::empty()
                &&& final(out)@.len() >= old(out)@.len()
                &&& final(out)@.take(old(out)@.len() as int) == old(out)@
                &&& is_block_of(
                    final(out)@.skip(old(out)@.len() as int),
                    old(self).frame_info,
                    old(self).pending(),
                    old(self).block_dict(),
                    old(self).block_prefix(),
                )
                &&& final(out)@.skip(old(out)@.len() as int) == chosen_block(
                    old(self).frame_info,
                    old(self).pending(),
                    old(self).next_compressed(),
                )
            },
            r is Err ==> {
                &&& r == Err::<(), Error>(
                    Error::ContentLengthError { expected: u64::MAX, actual: old(self).content@.len() as u64 },
                )
                &&& final(self).content == old(self).content
                &&& final(self).pending() == old(self).pending()
                &&& final(out)@ == old(out)@
            },
    {
        let len = self.src_end - self.src_start;
        if len as u64 > u64::MAX - self.content_len {
            return Err(Error::ContentLengthError { expected: u64::MAX, actual: self.content_len });
        }
        self.reposition_if_needed();
        let comp_len = self.compress_pending();
        self.emit_block(out, comp_len);
        self.advance();
        Ok(())
    }
}

/// Copy `src` into `v` starting from the `start` index, overwriting existing data if any.
fn vec_copy_overwriting(v: &mut Vec<u8>, start: usize, src: &[u8])
    requires
        start <= old(v)@.len(),
    ensures
        final(v)@.len() == if start + src@.len() > old(v)@.len() {
            start + src@.len()
        } else {
            old(v)@.len() as int
        },
        final(v)@.take(start as int) == old(v)@.take(start as int),
        final(v)@.subrange(start as int, start + src@.len()) == src@,
        forall|i: int| start + src@.len() <= i < old(v)@.len() ==> #[trigger] final(v)@[i] == old(v)@[i],
{
    let ghost v0 = v@;
    let vlen = v.len();
    let overwrite_len = if vlen - start < src.len() {
        vlen - start
    } else {
        src.len()
    };
    let mut i: usize = 0;
    while i < src.len()
        invariant
            vlen == v0.len(),
            start <= vlen,
            overwrite_len <= src@.len(),
            start + overwrite_len <= vlen,
            i <= src@.len(),
            overwrite_len == src@.len() || start + overwrite_len == vlen,
            v@.len() == if start + i > v0.len() {
                start + i
            } else {
                v0.len() as int
            },
            forall|k: int| 0 <= k < start ==> #[trigger] v@[k] == v0[k],
            forall|k: int| start <= k < start + i ==> #[trigger] v@[k] == src@[k - start],
            forall|k: int| start + i <= k < v0.len() ==> #[trigger] v@[k] == v0[k],
        decreases src@.len() - i,
    {
        if i < overwrite_len {
            v.set(start + i, src[i]);
        } else {
            v.push(src[i]);
        }
        i = i + 1;
    }
    assert(v@.take(start as int) =~= v0.take(start as int));
    assert(v@.subrange(start as int, start + src@.len()) =~= src@);
}

impl Encoder {
    /// All bytes given to the open frame: those in its blocks, then the pending ones.
    pub open spec fn stream_view(&self) -> Seq<u8> {
        self.content_view() + self.pending()
    }

    /// Buffers `buf` as content of the open frame, opening a frame (and appending its header)
    /// first when none is open and `buf` is not empty. Appends a block whenever a block's worth of
    /// bytes is buffered. Returns `buf.len()`; fails only when the frame's content would outgrow
    /// a `u64` (see [`Error::ContentLengthError`]).
    #[verifier::rlimit(100)]
    #[verifier::spinoff_prover]
    pub fn write(&mut self, buf: &[u8], out: &mut Vec<u8>) -> (r: Result<usize, Error>)
        requires
            old(self).wf(),
        ensures
            final(self).wf(),
            final(self).frame_info_view() == old(self).frame_info_view(),
            final(out)@.len() >= old(out)@.len(),
            final(out)@.take(old(out)@.len() as int) == old(out)@,
            r is Ok ==> r == Ok::<usize, Error>(buf@.len() as usize),
            r is Err ==> r matches Err(Error::ContentLengthError { .. }),
            !old(self).frame_open() && buf@.len() > 0 ==> {
                &&& final(self).frame_open()
                &&& final(out)@.subrange(
                    old(out)@.len() as int,
                    (old(out)@.len() + header_bytes(old(self).frame_info_view()).len()) as int,
                ) == header_bytes(old(self).frame_info_view())
                &&& r is Ok ==> final(self).stream_view() == buf@
            },
            old(self).frame_open() ==> final(self).frame_open() && (r is Ok ==> final(self).stream_view()
                == old(self).stream_view() + buf@),
            !old(self).frame_open() && buf@.len() == 0 ==> r is Ok && *final(self) == *old(self) && final(out)@
                == old(out)@,
            r is Ok && buf@.len() > 0 ==> full_blocks_of(
                final(out)@.skip(
                    (old(out)@.len() + if old(self).frame_open() {
                        0
                    } else {
                        header_bytes(old(self).frame_info_view()).len()
                    }) as int,
                ),
                old(self).frame_info_view(),
                if old(self).frame_open() {
                    old(self).content_view()
                } else {
                    Seq::empty()
                },
                final(self).content_view(),
            ),
    {
        let ghost o = out@;
        if !self.is_frame_open && buf.len() != 0 {
            let _ = self.begin_frame(out);
        }
        if buf.len() == 0 {
            assert(out@.take(o.len() as int) =~= o);
            return Ok(0);
        }
        let ghost o1 = out@;
        assert(o1.take(o.len() as int) =~= o);
        let ghost stream0 = self.stream_view();
        let ghost c0 = self.content@;
        proof {
            lemma_full_blocks_start(self.frame_info, c0);
            assert(out@.skip(o1.len() as int) =~= Seq::<u8>::empty());
        }
        let max_block_size = self.frame_info.block_size.get_size();
        let mut pos: usize = 0;
        while pos < buf.len()
            invariant
                self.wf(),
                self.is_frame_open,
                self.frame_info == old(self).frame_info,
                max_block_size == self.frame_info.block_size.size_spec(),
                pos <= buf@.len(),
                self.stream_view() == stream0 + buf@.take(pos as int),
                out@.len() >= o1.len(),
                o1.len() >= o.len(),
                o1.take(o.len() as int) == o,
                out@.take(o1.len() as int) == o1,
                !old(self).is_frame_open ==> o1 == o + header_bytes(old(self).frame_info),
                o == old(out)@,
                old(self).is_frame_open ==> c0 == old(self).content@ && o1 == o,
                !old(self).is_frame_open ==> c0 == Seq::<u8>::empty(),
                full_blocks_of(out@.skip(o1.len() as int), self.frame_info, c0, self.content@),
            decreases 2 * (buf@.len() - pos) + if self.src_end - self.src_start == max_block_size {
                1int
            } else {
                0
            },
        {
            let src_filled = self.src_end - self.src_start;
            let max_fill_len = max_block_size - src_filled;
            if max_fill_len == 0 {
                // make space by writing next block
                let ghost ob = out@;
                let ghost enc0 = *self;
                if let Err(e) = self.write_block(out) {
                    assert(out@.take(o.len() as int) =~= o1.take(o.len() as int));
                    proof {
                        if !old(self).is_frame_open {
                            let h = header_bytes(old(self).frame_info);
                            assert(out@.subrange(o.len() as int, (o.len() + h.len()) as int) =~= o1.subrange(
                                o.len() as int,
                                (o.len() + h.len()) as int,
                            ));
                            assert(o1.subrange(o.len() as int, (o.len() + h.len()) as int) =~= h);
                        }
                    }
                    return Err(e);
                }
                proof {
                    assert(out@.take(o1.len() as int) =~= ob.take(o1.len() as int));
                    assert(self.stream_view() =~= stream0 + buf@.take(pos as int));
                    let blk = out@.skip(ob.len() as int);
                    assert(out@.skip(o1.len() as int) =~= ob.skip(o1.len() as int) + blk);
                    lemma_full_blocks_push(
                        ob.skip(o1.len() as int),
                        blk,
                        self.frame_info,
                        c0,
                        enc0.content@,
                        enc0.pending(),
                        enc0.block_dict(),
                        enc0.block_prefix(),
                    );
                }
                continue;
            }
            let fill_len = if max_fill_len < buf.len() - pos {
                max_fill_len
            } else {
                buf.len() - pos
            };
            let ghost p0 = self.pending();
            let ghost c_top = self.content@;
            let ghost pos_top = pos as int;
            assert(c_top + p0 == stream0 + buf@.take(pos_top));
            let ghost hist = self.block_dict() + self.block_prefix();
            let chunk = slice_range(buf, pos, pos + fill_len);
            let ghost s_old = self.src@;
            let ghost e_old = self.src_end as int;
            vec_copy_overwriting(&mut self.src, self.src_end, chunk);
            self.src_end = self.src_end + fill_len;
            pos = pos + fill_len;
            proof {
                assert forall|i: int| 0 <= i < p0.len() + chunk@.len() implies #[trigger] self.pending()[i] == (p0
                    + chunk@)[i] by {
                    if i < p0.len() {
                        assert(self.src@.take(e_old)[self.src_start + i] == s_old.take(e_old)[self.src_start + i]);
                    } else {
                        assert(self.src@.subrange(e_old, e_old + chunk@.len())[i - p0.len()] == chunk@[i - p0.len()]);
                    }
                }
                assert(self.pending() =~= p0 + chunk@);
                assert(self.block_dict() + self.block_prefix() =~= hist);
                assert(buf@.take(pos as int) =~= buf@.take(pos_top) + chunk@);
                assert(self.content@ == c_top);
                assert(self.stream_view() =~= (c_top + p0) + chunk@);
                assert(self.stream_view() =~= stream0 + buf@.take(pos as int));
            }
        }
        assert(buf@.take(buf@.len() as int) =~= buf@);
        assert(out@.take(o.len() as int) =~= o1.take(o.len() as int));
        proof {
            if !old(self).is_frame_open {
                let h = header_bytes(old(self).frame_info);
                assert(out@.subrange(o.len() as int, (o.len() + h.len()) as int) =~= o1.subrange(
                    o.len() as int,
                    (o.len() + h.len()) as int,
                ));
                assert(o1.subrange(o.len() as int, (o.len() + h.len()) as int) =~= h);
                assert(stream0 =~= Seq::<u8>::empty());
            }
        }
        Ok(buf.len())
    }
}

/// `bytes` is what flushing `data` appends to a frame: nothing when there is no data, else the
/// block holding it, compressed with history `dict` and `prefix`.
pub open spec fn flushed(bytes: Seq<u8>, fi: FrameInfo, data: Seq<u8>, dict: Seq<u8>, prefix: Seq<u8>) -> bool {
    if data.len() == 0 {
        bytes == Seq::<u8>::empty()
    } else {
        is_block_of(bytes, fi, data, dict, prefix)
    }
}

impl Encoder {
    /// Appends the block of the pending bytes, if any.
    pub fn flush(&mut self, out: &mut Vec<u8>) -> (r: Result<(), Error>)
        requires
            old(self).wf(),
        ensures
            final(self).wf(),
            final(self).frame_info_view() == old(self).frame_info_view(),
            final(self).frame_open() == old(self).frame_open(),
            r is Ok <==> old(self).stream_view().len() <= u64::MAX || old(self).pending().len() == 0,
            r is Ok ==> {
                &&& final(self).content_view() == old(self).stream_view()
                &&& final(self).pending() == Seq::<u8>::empty()
                &&& final(out)@.len() >= old(out)@.len()
                &&& final(out)@.take(old(out)@.len() as int) == old(out)@
                &&& flushed(
                    final(out)@.skip(old(out)@.len() as int),
                    old(self).frame_info_view(),
                    old(self).pending(),
                    old(self).block_dict(),
                    old(self).block_prefix(),
                )
            },
            r is Err ==> {
                &&& r == Err::<(), Error>(
                    Error::ContentLengthError { expected: u64::MAX, actual: old(self).content_view().len() as u64 },
                )
                &&& final(self).stream_view() == old(self).stream_view()
                &&& final(out)@ == old(out)@
            },
    {
        if self.src_start != self.src_end {
            self.write_block(out)
        } else {
            assert(self.pending().len() == 0);
            assert(self.content@ + self.pending() =~= self.content@);
            assert(out@.take(out@.len() as int) =~= out@);
            assert(out@.skip(out@.len() as int) =~= Seq::<u8>::empty());
            Ok(())
        }
    }

    /// Attempt to finish this output stream, flushing internal buffer and writing stream
    /// terminator.
    pub fn try_finish(&mut self, out: &mut Vec<u8>) -> (r: Result<(), Error>)
        requires
            old(self).wf(),
        ensures
            final(self).wf(),
            final(self).frame_info_view() == old(self).frame_info_view(),
            final(out)@.len() >= old(out)@.len(),
            final(out)@.take(old(out)@.len() as int) == old(out)@,
            !old(self).frame_open() ==> r is Ok && final(out)@ == old(out)@ && !final(self).frame_open(),
            old(self).frame_open() ==> match r {
                Ok(_) => {
                    &&& !final(self).frame_open()
                    &&& final(self).content_view() == old(self).stream_view()
                    &&& exists|block: Seq<u8>|
                        {
                            &&& final(out)@ == old(out)@ + block + end_bytes(
                                old(self).frame_info_view(),
                                old(self).stream_view(),
                            )
                            &&& #[trigger] flushed(
                                block,
                                old(self).frame_info_view(),
                                old(self).pending(),
                                old(self).block_dict(),
                                old(self).block_prefix(),
                            )
                        }
                },
                Err(e) => e matches Error::ContentLengthError { .. },
            },
            r is Ok <==> !old(self).frame_open() || ((old(self).stream_view().len() <= u64::MAX
                || old(self).pending().len() == 0) && !content_size_differs(
                old(self).frame_info_view(),
                old(self).stream_view(),
            )),
    {
        let ghost o = out@;
        match self.flush(out) {
            Ok(()) => {
                if self.is_frame_open {
                    let ghost o2 = out@;
                    let ghost block = o2.skip(o.len() as int);
                    let r = self.end_frame(out);
                    proof {
                        assert(o2 =~= o + block);
                        if r is Ok {
                            assert(out@ =~= o + block + end_bytes(self.frame_info, self.content@));
                        }
                        assert(out@.take(o.len() as int) =~= o);
                    }
                    r
                } else {
                    Ok(())
                }
            },
            Err(e) => Err(e),
        }
    }
}

/// The history the encoder compresses the next block with is the end of the frame's content:
/// for a linked frame at least the last `WINDOW_SIZE` bytes of it (or all of it), for a frame of
/// independent blocks none.
pub proof fn lemma_encoder_history(e: &Encoder)
    requires
        e.wf(),
    ensures
        ends_with(e.content_view(), e.block_dict() + e.block_prefix()),
        e.frame_info_view().block_mode == BlockMode::Linked ==> (e.block_dict() + e.block_prefix()).len()
            >= WINDOW_SIZE || (e.block_dict() + e.block_prefix()).len() == e.content_view().len(),
        e.frame_info_view().block_mode == BlockMode::Independent ==> e.block_dict() == Seq::<u8>::empty()
            && e.block_prefix() == Seq::<u8>::empty(),
{
    if e.frame_info.block_mode == BlockMode::Independent {
        assert(e.block_prefix() =~= Seq::<u8>::empty());
    }
}

} // verus!

verus! {

/// With content checksums, a frame ends with the end mark, a zero word, and then the
/// little-endian xxHash32 digest, with seed 0, of the frame's whole content: what
/// [`checksum`] returns on it.
pub proof fn lemma_end_bytes_content_checksum(fi: FrameInfo, content: Seq<u8>)
    requires
        fi.content_checksum,
    ensures
        end_bytes(fi, content).len() == 8,
        u32_at(end_bytes(fi, content), 0) == 0,
        u32_at(end_bytes(fi, content), 4) == xxh32(0, content),
{
    let e = end_bytes(fi, content);
    crate::frame::header::lemma_u32_at_le_bytes(0);
    crate::frame::header::lemma_u32_at_le_bytes(xxh32(0, content) as nat);
    let a = le_bytes(0, 4);
    let b = le_bytes(xxh32(0, content) as nat, 4);
    assert(e.subrange(0, 4) =~= a);
    assert(e.subrange(4, 8) =~= b);
    assert(u32_at(e, 0) == u32_at(a, 0));
    assert(u32_at(e, 4) == u32_at(b, 0));
}

/// Without content checksums, a frame ends with the end mark alone.
pub proof fn lemma_end_bytes_plain(fi: FrameInfo, content: Seq<u8>)
    requires
        !fi.content_checksum,
    ensures
        end_bytes(fi, content).len() == 4,
        u32_at(end_bytes(fi, content), 0) == 0,
{
    crate::frame::header::lemma_u32_at_le_bytes(0);
    assert(end_bytes(fi, content) =~= le_bytes(0, 4));
}

/// With block checksums, a data block is its header word, its data, and then the
/// little-endian xxHash32 digest, with seed 0, of the data: what [`checksum`] returns on it.
pub proof fn lemma_block_bytes_checksum(fi: FrameInfo, word: nat, payload: Seq<u8>)
    requires
        fi.block_checksums,
        word < 0x1_0000_0000,
    ensures
        block_bytes(fi, word, payload).len() == payload.len() + 8,
        u32_at(block_bytes(fi, word, payload), 0) == word,
        block_bytes(fi, word, payload).subrange(4, 4 + payload.len() as int) == payload,
        u32_at(block_bytes(fi, word, payload), 4 + payload.len() as int) == xxh32(0, payload),
{
    let b = block_bytes(fi, word, payload);
    let n = payload.len() as int;
    crate::frame::header::lemma_u32_at_le_bytes(word);
    crate::frame::header::lemma_u32_at_le_bytes(xxh32(0, payload) as nat);
    let w = le_bytes(word, 4);
    let c = le_bytes(xxh32(0, payload) as nat, 4);
    assert(b.subrange(0, 4) =~= w);
    assert(b.subrange(4, 4 + n) =~= payload);
    assert(b.subrange(4 + n, 8 + n) =~= c);
    assert(u32_at(b, 0) == u32_at(w, 0));
    assert(u32_at(b, 4 + n) == u32_at(c, 0));
}

} // verus!
