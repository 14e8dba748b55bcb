//! Decompressing the LZ4 frame format from bytes pushed into a decoder.
//!
//! The decoder keeps the bytes it was given in a queue and takes from its front: a frame header,
//! then one block per call of [`Decoder::next_block`], which returns the block's decompressed
//! bytes. Blocks of a linked frame are decoded with the bytes decompressed before them as their
//! history.
use vstd::prelude::*;
use std::collections::VecDeque;
use crate::block::decompress::{decompress_internal, slice_range};
use crate::block::format::{decode_at, lemma_decode_extends};
use crate::block::{read_u32_le, DecompressError, WINDOW_SIZE};
use crate::frame::checksum::{checksum, hasher_finish, hasher_with_seed, hasher_write, xxh32, xxh32_seed, xxh32_written};
use crate::frame::header::{
    block_info_of, parse_frame_info, BlockSize, read_size_spec, u32_at, BlockInfo, BlockMode, FrameInfo, LZ4F_LEGACY_MAGIC_NUMBER, MAGIC_NUMBER_SIZE,
    MAX_FRAME_INFO_SIZE, MIN_FRAME_INFO_SIZE,
};
use crate::frame::Error;
use crate::sink::{vec_sink_for_decompression, SliceSink};
use twox_hash::XxHash32;

verus! {

/// A struct for decompressing the LZ4 frame format given pushed byte data.
pub struct Decoder {
    /// The bytes we have been given so far
    raw: VecDeque<u8>,
    /// The FrameInfo of the frame currently being decoded.
    /// It starts as `None` and is filled with the FrameInfo is read from the input.
    /// It's reset to `None` once the frame EndMarker is read from the input.
    current_frame_info: Option<FrameInfo>,
    /// Xxhash32 used when content checksum is enabled.
    content_hasher: XxHash32,
    /// Total length of decompressed output for the current frame.
    content_len: u64,
    /// The compressed bytes buffer.
    src: Vec<u8>,
    /// The decompressed bytes buffer. Bytes are decompressed from src to dst
    /// before being passed back to the caller.
    dst: Vec<u8>,
    /// The size that `dst` was reserved with for the current frame.
    dst_capacity: usize,
    /// Index into dst and length: starting point of bytes previously output
    /// that are still part of the decompressor window.
    ext_dict_offset: usize,
    ext_dict_len: usize,
    /// Index into dst: starting point of bytes not yet read by caller.
    dst_start: usize,
    /// Index into dst: ending point of bytes not yet read by caller.
    dst_end: usize,
    /// The decompressed content of the current frame so far.
    content: Ghost<Seq<u8>>,
}

/// Reads `end - start` bytes from the front of `raw` into `buffer[start..end]`, or fails with
/// [`Error::NeedMoreInput`] and the number of missing bytes, taking nothing.
fn read_exact(raw: &mut VecDeque<u8>, buffer: &mut Vec<u8>, start: usize, end: usize) -> (r: Result<(), Error>)
    requires
        start <= end <= old(buffer)@.len(),
    ensures
        old(raw)@.len() < end - start ==> r == Err::<(), Error>(Error::NeedMoreInput((end - start - old(raw)@.len()) as usize))
            && final(raw)@ == old(raw)@ && final(buffer)@ == old(buffer)@,
        old(raw)@.len() >= end - start ==> r is Ok && final(raw)@ == old(raw)@.skip(end - start) && final(buffer)@
            == old(buffer)@.take(start as int) + old(raw)@.take(end - start) + old(buffer)@.skip(end as int),
{
    if raw.len() < end - start {
        return Err(Error::NeedMoreInput(end - start - raw.len()));
    }
    let ghost r0 = raw@;
    let ghost b0 = buffer@;
    let mut i = start;
    while i < end
        invariant
            start <= i <= end <= b0.len(),
            buffer@.len() == b0.len(),
            r0.len() >= end - start,
            raw@ == r0.skip(i - start),
            forall|k: int| 0 <= k < start ==> #[trigger] buffer@[k] == b0[k],
            forall|k: int| start <= k < i ==> #[trigger] buffer@[k] == r0[k - start],
            forall|k: int| i <= k < b0.len() ==> #[trigger] buffer@[k] == b0[k],
        decreases end - i,
    {
        let b = raw.pop_front();
        match b {
            Some(x) => {
                buffer.set(i, x);
            },
            None => {},
        }
        assert(raw@ =~= r0.skip(i + 1 - start));
        i = i + 1;
    }
    assert(buffer@ =~= b0.take(start as int) + r0.take(end - start) + b0.skip(end as int));
    Ok(())
}

/// Copies the first `end` bytes of `raw` into `buffer[..end]`, taking nothing.
fn peek_front(raw: &VecDeque<u8>, buffer: &mut Vec<u8>, end: usize)
    requires
        end <= raw@.len(),
        end <= old(buffer)@.len(),
    ensures
        final(buffer)@.len() == old(buffer)@.len(),
        final(buffer)@.take(end as int) == raw@.take(end as int),
{
    let mut i: usize = 0;
    while i < end
        invariant
            i <= end <= raw@.len(),
            end <= buffer@.len(),
            buffer@.len() == old(buffer)@.len(),
            forall|k: int| 0 <= k < i ==> #[trigger] buffer@[k] == raw@[k],
        decreases end - i,
    {
        let b = raw[i];
        buffer.set(i, b);
        i = i + 1;
    }
    assert(buffer@.take(end as int) =~= raw@.take(end as int));
}

/// Resizes `v` to at least `end` bytes (new bytes are zero).
fn vec_resize(v: &mut Vec<u8>, end: usize)
    ensures
        final(v)@.len() == if end > old(v)@.len() {
            end as nat
        } else {
            old(v)@.len()
        },
        final(v)@.take(old(v)@.len() as int) == old(v)@,
        forall|i: int| old(v)@.len() <= i < final(v)@.len() ==> #[trigger] final(v)@[i] == 0,
{
    let ghost v0 = v@;
    if end > v.len() {
        v.resize(end, 0);
        proof {
            assert forall|i: int| v0.len() <= i < v@.len() implies #[trigger] v@[i] == 0 by {
                assert(cloned::<u8>(0, v@[i]));
            }
        }
    } else {
        assert(v@.take(v0.len() as int) =~= v0);
    }
}

impl Decoder {
    /// The bytes pushed and not yet taken.
    pub closed spec fn raw_view(&self) -> Seq<u8> {
        self.raw@
    }

    /// The settings of the frame being decoded, if any.
    pub closed spec fn frame_view(&self) -> Option<FrameInfo> {
        self.current_frame_info
    }

    /// The decompressed content of the current frame so far.
    pub closed spec fn content_view(&self) -> Seq<u8> {
        self.content@
    }

    /// The decoder's buffers and counters are consistent, and every decompressed byte was
    /// handed out.
    pub closed spec fn wf(&self) -> bool {
        &&& self.inv()
        &&& self.dst_start == self.dst_end
    }

    /// The decoder's buffers and counters are consistent.
    pub closed spec fn inv(&self) -> bool {
        &&& self.dst_start <= self.dst_end <= self.dst@.len()
        &&& xxh32_seed(self.content_hasher) == 0
        &&& self.content_len == self.content@.len()
        &&& match self.current_frame_info {
            Some(fi) => {
                &&& fi.content_checksum ==> xxh32_written(self.content_hasher) == self.content@
                &&& self.dst_capacity == if fi.block_mode == BlockMode::Linked {
                    2 * fi.block_size.size_spec() + WINDOW_SIZE
                } else {
                    fi.block_size.size_spec() as int
                }
                &&& self.dst_end <= self.dst_capacity
                &&& fi.block_mode == BlockMode::Independent ==> self.ext_dict_len == 0
                &&& self.ext_dict_len > 0 ==> {
                    &&& self.ext_dict_len <= WINDOW_SIZE
                    &&& self.ext_dict_offset + self.ext_dict_len <= self.dst@.len()
                    &&& self.ext_dict_offset + self.ext_dict_len >= fi.block_size.size_spec() + WINDOW_SIZE
                    &&& self.ext_dict_offset + self.ext_dict_len <= self.dst_capacity
                    &&& self.dst_end <= self.ext_dict_offset
                }
                &&& ends_with(self.content@, self.history())
                &&& fi.block_mode == BlockMode::Linked ==> self.history().len() >= WINDOW_SIZE
                    || self.history().len() == self.content@.len()
            },
            None => true,
        }
    }

    /// The decoded bytes still held: the dictionary part, then the output area up to its end.
    closed spec fn history(&self) -> Seq<u8> {
        self.ext_dict() + self.dst@.take(self.dst_end as int)
    }

    /// The history kept in the buffer apart from the output area.
    closed spec fn ext_dict(&self) -> Seq<u8> {
        if self.ext_dict_len > 0 {
            self.dst@.subrange(self.ext_dict_offset as int, self.ext_dict_offset + self.ext_dict_len)
        } else {
            Seq::empty()
        }
    }

    /// The decompressed bytes that are not yet handed out.
    pub closed spec fn pending(&self) -> Seq<u8> {
        self.dst@.subrange(self.dst_start as int, self.dst_end as int)
    }

    /// Creates a new Decoder.
    pub fn new() -> (d: Decoder)
        ensures
            d.wf(),
            d.raw_view() == Seq::<u8>::empty(),
            d.frame_view() is None,
            d.pending() == Seq::<u8>::empty(),
    {
        let d = Decoder {
            raw: VecDeque::new(),
            current_frame_info: None,
            content_hasher: hasher_with_seed(0),
            content_len: 0,
            src: Vec::new(),
            dst: Vec::new(),
            dst_capacity: 0,
            ext_dict_offset: 0,
            ext_dict_len: 0,
            dst_start: 0,
            dst_end: 0,
            content: Ghost(Seq::empty()),
        };
        assert(d.dst@.subrange(0, 0) =~= Seq::<u8>::empty());
        d
    }

    /// The settings of the frame being decoded, once its header was read.
    pub fn frame_info(&self) -> (r: Option<&FrameInfo>)
        ensures
            r matches Some(fi) ==> self.frame_view() == Some(*fi),
            r is None <==> self.frame_view() is None,
    {
        match &self.current_frame_info {
            Some(fi) => Some(fi),
            None => None,
        }
    }

    /// The number of pushed bytes not yet taken.
    pub fn input_len(&self) -> (r: usize)
        ensures
            r == self.raw_view().len(),
    {
        self.raw.len()
    }

    /// Provide compressed data to decompress
    pub fn push(&mut self, bytes: &[u8])
        requires
            old(self).wf(),
        ensures
            final(self).wf(),
            final(self).raw_view() == old(self).raw_view() + bytes@,
            final(self).frame_view() == old(self).frame_view(),
            final(self).pending() == old(self).pending(),
            final(self).content_view() == old(self).content_view(),
    {
        let ghost r0 = self.raw@;
        let mut i: usize = 0;
        while i < bytes.len()
            invariant
                i <= bytes@.len(),
                self.raw@ == r0 + bytes@.take(i as int),
                self.wf(),
                self.current_frame_info == old(self).current_frame_info,
                self.dst == old(self).dst,
                self.dst_start == old(self).dst_start,
                self.dst_end == old(self).dst_end,
                self.content == old(self).content,
            decreases bytes@.len() - i,
        {
            self.raw.push_back(bytes[i]);
            i = i + 1;
            assert(self.raw@ =~= r0 + bytes@.take(i as int));
        }
        assert(bytes@.take(bytes@.len() as int) =~= bytes@);
    }
}

impl Decoder {
    /// Reads the frame header from the front of the input and sets the decoder up for the
    /// frame's blocks. Returns the header's length.
    fn read_frame_info(&mut self) -> (r: Result<usize, Error>)
        requires
            old(self).wf(),
            old(self).current_frame_info is None,
        ensures
            final(self).wf(),
            final(self).raw@ == header_step(old(self).raw@).1,
            (match header_step(old(self).raw@).0 {
                Ok(fi) => {
                    &&& r matches Ok(n) && n > 0
                    &&& final(self).current_frame_info == Some(fi)
                    &&& final(self).content@ == Seq::<u8>::empty()
                    &&& final(self).dst@.len() == 0
                    &&& final(self).dst_end == 0
                    &&& final(self).ext_dict_len == 0
                },
                Err(e) => {
                    &&& r == Err::<usize, Error>(e)
                    &&& final(self).current_frame_info is None
                    &&& e is NeedMoreInput ==> *final(self) == *old(self)
                },
            }),
            final(self).dst_start == final(self).dst_end,
    {
        let ghost q = self.raw@;
        let avail = self.raw.len();
        if avail < MAGIC_NUMBER_SIZE {
            return Err(Error::NeedMoreInput(MAGIC_NUMBER_SIZE - avail));
        }
        let mut buffer: Vec<u8> = vec![0u8; MAX_FRAME_INFO_SIZE];
        peek_front(&self.raw, &mut buffer, MAGIC_NUMBER_SIZE);
        assert(buffer@[0] == q[0] && buffer@[1] == q[1] && buffer@[2] == q[2] && buffer@[3] == q[3]) by {
            assert(buffer@.take(4)[0] == q.take(4)[0] && buffer@.take(4)[1] == q.take(4)[1]);
            assert(buffer@.take(4)[2] == q.take(4)[2] && buffer@.take(4)[3] == q.take(4)[3]);
        }
        if read_u32_le(&buffer, 0) == LZ4F_LEGACY_MAGIC_NUMBER {
            let _ = read_exact(&mut self.raw, &mut buffer, 0, MAGIC_NUMBER_SIZE);
            return Err(Error::WrongMagicNumber);
        }
        if avail < MIN_FRAME_INFO_SIZE {
            return Err(Error::NeedMoreInput(MIN_FRAME_INFO_SIZE - avail));
        }
        peek_front(&self.raw, &mut buffer, MIN_FRAME_INFO_SIZE);
        assert(buffer@.take(7) =~= q.take(7));
        let required = match FrameInfo::read_size(slice_range(&buffer, 0, MIN_FRAME_INFO_SIZE)) {
            Ok(n) => n,
            Err(e) => {
                let _ = read_exact(&mut self.raw, &mut buffer, 0, MIN_FRAME_INFO_SIZE);
                return Err(e);
            },
        };
        assert(7 <= required <= MAX_FRAME_INFO_SIZE);
        if avail < required {
            return Err(Error::NeedMoreInput(required - avail));
        }
        if let Err(e) = read_exact(&mut self.raw, &mut buffer, 0, required) {
            return Err(e);
        }
        assert(buffer@.take(required as int) =~= q.take(required as int));
        let frame_info = match FrameInfo::read(slice_range(&buffer, 0, required)) {
            Ok(fi) => fi,
            Err(e) => return Err(e),
        };
        if frame_info.dict_id.is_some() {
            // Unsupported right now so it must be None
            return Err(Error::DictionaryNotSupported);
        }
        let max_block_size = frame_info.block_size.get_size();
        let dst_size = if frame_info.block_mode == BlockMode::Linked {
            // In linked mode we consume the output (bumping dst_start) but leave the
            // beginning of dst to be used as a prefix in subsequent blocks.
            // That is at least until we have at least `max_block_size + WINDOW_SIZE`
            // bytes in dst, then we setup an ext_dict with the last WINDOW_SIZE bytes
            // and the output goes to the beginning of dst again.
            // Since we always want to be able to write a full block (up to max_block_size)
            // we need a buffer with at least `max_block_size * 2 + WINDOW_SIZE` bytes.
            max_block_size * 2 + WINDOW_SIZE
        } else {
            max_block_size
        };
        self.src.clear();
        self.dst.clear();
        self.dst_capacity = dst_size;
        self.current_frame_info = Some(frame_info);
        self.content_hasher = hasher_with_seed(0);
        self.content_len = 0;
        self.ext_dict_len = 0;
        self.dst_start = 0;
        self.dst_end = 0;
        self.content = Ghost(Seq::empty());
        proof {
            assert(self.history() =~= Seq::<u8>::empty());
            assert(self.content@.skip(0) =~= Seq::<u8>::empty());
        }
        Ok(required)
    }

    /// Reads a little-endian `u32` checksum from the front of the input.
    fn read_checksum(&mut self) -> (r: Result<u32, Error>)
        requires
            old(self).inv(),
        ensures
            final(self).inv(),
            final(self).current_frame_info == old(self).current_frame_info,
            final(self).dst == old(self).dst,
            final(self).dst_start == old(self).dst_start,
            final(self).dst_end == old(self).dst_end,
            final(self).content == old(self).content,
            final(self).content_len == old(self).content_len,
            final(self).content_hasher == old(self).content_hasher,
            final(self).ext_dict_offset == old(self).ext_dict_offset,
            final(self).ext_dict_len == old(self).ext_dict_len,
            final(self).dst_capacity == old(self).dst_capacity,
            old(self).raw@.len() >= 4 ==> r == Ok::<u32, Error>(u32_at(old(self).raw@, 0) as u32) && final(self).raw@
                == old(self).raw@.skip(4),
            old(self).raw@.len() < 4 ==> r == Err::<u32, Error>(Error::NeedMoreInput((4 - old(self).raw@.len()) as usize))
                && final(self).raw@ == old(self).raw@,
    {
        let mut checksum_buffer: Vec<u8> = vec![0u8; 4];
        if let Err(e) = read_exact(&mut self.raw, &mut checksum_buffer, 0, 4) {
            return Err(e);
        }
        Ok(read_u32_le(&checksum_buffer, 0))
    }

    /// Fails with [`Error::BlockChecksumError`] unless `expected_checksum` is the checksum of
    /// `data`.
    fn check_block_checksum(data: &[u8], expected_checksum: u32) -> (r: Result<(), Error>)
        ensures
            r == if xxh32(0, data@) == expected_checksum {
                Ok::<(), Error>(())
            } else {
                Err::<(), Error>(Error::BlockChecksumError)
            },
    {
        let calc_checksum = checksum(data);
        if calc_checksum != expected_checksum {
            return Err(Error::BlockChecksumError);
        }
        Ok(())
    }
}


/// What reading a frame header from the front of `q` gives: the settings of the frame or the
/// error, and the input left after it. Where the input ends before the header does, nothing is
/// taken and the error says how many bytes are missing.
pub open spec fn header_step(q: Seq<u8>) -> (Result<FrameInfo, Error>, Seq<u8>) {
    if q.len() < 4 {
        (Err(Error::NeedMoreInput((4 - q.len()) as usize)), q)
    } else if u32_at(q, 0) == LZ4F_LEGACY_MAGIC_NUMBER {
        (Err(Error::WrongMagicNumber), q.skip(4))
    } else if q.len() < 7 {
        (Err(Error::NeedMoreInput((7 - q.len()) as usize)), q)
    } else {
        match read_size_spec(q.take(7)) {
            Err(e) => (Err(e), q.skip(7)),
            Ok(n) => if q.len() < n {
                (Err(Error::NeedMoreInput((n - q.len()) as usize)), q)
            } else {
                match parse_frame_info(q.take(n as int)) {
                    Err(e) => (Err(e), q.skip(n as int)),
                    Ok(fi) => if fi.dict_id is Some {
                        (Err(Error::DictionaryNotSupported), q.skip(n as int))
                    } else {
                        (Ok(fi), q.skip(n as int))
                    },
                }
            },
        }
    }
}

/// The bytes a compressed block adds to the output, decoded after `prefix` (history in the
/// output buffer, which has room for `room` bytes in all) and `dict` (history before it).
pub open spec fn decoded_block(data: Seq<u8>, dict: Seq<u8>, prefix: Seq<u8>, room: int) -> Result<Seq<u8>, DecompressError> {
    match decode_at(data, 0, prefix, dict, room) {
        Ok(full) => Ok(full.skip(prefix.len() as int)),
        Err(e) => Err(e),
    }
}

/// What reading the end mark of a frame gives: `body` is the input after the mark.
pub open spec fn end_mark_step(fi: FrameInfo, content: Seq<u8>, body: Seq<u8>) -> (Result<Seq<u8>, Error>, Seq<u8>) {
    if fi.content_size is Some && content.len() != fi.content_size.unwrap() {
        (Err(Error::ContentLengthError { expected: fi.content_size.unwrap(), actual: content.len() as u64 }), body)
    } else if fi.content_checksum {
        if body.len() < 4 {
            (Err(Error::NeedMoreInput((4 - body.len()) as usize)), body)
        } else if u32_at(body, 0) != xxh32(0, content) as nat {
            (Err(Error::ContentChecksumError), body.skip(4))
        } else {
            (Ok(Seq::empty()), body.skip(4))
        }
    } else {
        (Ok(Seq::empty()), body)
    }
}

/// What reading a data block of `len` bytes gives: `body` is the input after its header.
pub open spec fn data_block_step(
    fi: FrameInfo,
    content: Seq<u8>,
    body: Seq<u8>,
    len: nat,
    compressed: bool,
    dict: Seq<u8>,
    prefix: Seq<u8>,
    room: int,
) -> (Result<Seq<u8>, Error>, Seq<u8>) {
    if len > fi.block_size.size_spec() {
        (Err(Error::BlockTooBig), body)
    } else {
        let (read, rest) = checked_read(body, len, fi.block_checksums);
        match read {
            Err(e) => (Err(e), rest),
            Ok(_) => {
                let data = body.take(len as int);
                let out = if compressed {
                    decoded_block(data, dict, prefix, room)
                } else {
                    Ok(data)
                };
                match out {
                    Err(e) => (Err(Error::DecompressionError(e)), rest),
                    Ok(o) => if content.len() + o.len() > u64::MAX {
                        (Err(Error::ContentLengthError { expected: u64::MAX, actual: content.len() as u64 }), rest)
                    } else {
                        (Ok(o), rest)
                    },
                }
            },
        }
    }
}

/// The number of bytes missing at the front of `q` before the next block of the frame `fi`
/// can be read whole: its header, its data and their checksum, or the content checksum after
/// the end mark; 0 when nothing is missing, or when the block is refused before any of it is
/// read. `content` is the frame's content so far.
pub open spec fn block_shortfall(fi: FrameInfo, content: Seq<u8>, q: Seq<u8>) -> nat {
    if q.len() < 4 {
        (4 - q.len()) as nat
    } else {
        let avail = q.len() - 4;
        match block_info_of(u32_at(q, 0)) {
            BlockInfo::EndMark => if fi.content_checksum && !(fi.content_size is Some && content.len()
                != fi.content_size.unwrap()) && avail < 4 {
                (4 - avail) as nat
            } else {
                0
            },
            BlockInfo::Uncompressed(len) => data_shortfall(fi, avail, len as nat),
            BlockInfo::Compressed(len) => data_shortfall(fi, avail, len as nat),
        }
    }
}

/// The number of bytes missing from `avail` for a data block of `len` bytes of the frame `fi`
/// and its checksum; 0 for a block too big for the frame, which is refused unread.
pub open spec fn data_shortfall(fi: FrameInfo, avail: int, len: nat) -> nat {
    if len > fi.block_size.size_spec() {
        0
    } else if avail < len {
        (len - avail) as nat
    } else if fi.block_checksums && avail < len + 4 {
        (len + 4 - avail) as nat
    } else {
        0
    }
}

/// What reading the next block of a frame gives: the decompressed bytes or the error, and the
/// input left after it. `content` is the frame's content so far, `dict`, `prefix` and `room`
/// the history and output room the block is decoded with, `q` the input. Where the input ends
/// before the block does, nothing is taken and the error says how many bytes are missing.
pub open spec fn block_step(
    fi: FrameInfo,
    content: Seq<u8>,
    dict: Seq<u8>,
    prefix: Seq<u8>,
    room: int,
    q: Seq<u8>,
) -> (Result<Seq<u8>, Error>, Seq<u8>) {
    if block_shortfall(fi, content, q) > 0 {
        (Err(Error::NeedMoreInput(block_shortfall(fi, content, q) as usize)), q)
    } else {
        let body = q.skip(4);
        match block_info_of(u32_at(q, 0)) {
            BlockInfo::EndMark => end_mark_step(fi, content, body),
            BlockInfo::Uncompressed(len) => data_block_step(fi, content, body, len as nat, false, dict, prefix, room),
            BlockInfo::Compressed(len) => data_block_step(fi, content, body, len as nat, true, dict, prefix, room),
        }
    }
}

/// A block that is all in the input is read without asking for more.
pub proof fn lemma_whole_block_is_read(
    fi: FrameInfo,
    content: Seq<u8>,
    dict: Seq<u8>,
    prefix: Seq<u8>,
    room: int,
    q: Seq<u8>,
)
    requires
        block_shortfall(fi, content, q) == 0,
    ensures
        !(block_step(fi, content, dict, prefix, room, q).0 matches Err(Error::NeedMoreInput(_))),
{
    let body = q.skip(4);
    match block_info_of(u32_at(q, 0)) {
        BlockInfo::EndMark => {},
        BlockInfo::Uncompressed(len) => {
            if len <= fi.block_size.size_spec() {
                assert(body.skip(len as int).len() == body.len() - len);
            }
        },
        BlockInfo::Compressed(len) => {
            if len <= fi.block_size.size_spec() {
                assert(body.skip(len as int).len() == body.len() - len);
            }
        },
    }
}

/// Whether the block at the front of `q` is the end mark.
pub open spec fn is_end_mark(q: Seq<u8>) -> bool {
    q.len() >= 4 && u32_at(q, 0) == 0
}

/// `h` is a suffix of `c`.
pub open spec fn ends_with(c: Seq<u8>, h: Seq<u8>) -> bool {
    h.len() <= c.len() && c.skip(c.len() - h.len()) == h
}

impl Decoder {
    /// The buffer offsets once the buffer is arranged for the next block: the offset and
    /// length of the history kept outside the output area, and the start of the output.
    closed spec fn arranged(&self) -> (int, int, int) {
        match self.current_frame_info {
            Some(fi) => if fi.block_mode == BlockMode::Linked {
                if self.dst_start + fi.block_size.size_spec() > self.dst_capacity {
                    (self.dst_start - WINDOW_SIZE, WINDOW_SIZE as int, 0)
                } else if self.dst_start + self.ext_dict_len > WINDOW_SIZE {
                    let delta = if self.ext_dict_len <= self.dst_start + self.ext_dict_len - WINDOW_SIZE {
                        self.ext_dict_len as int
                    } else {
                        self.dst_start + self.ext_dict_len - WINDOW_SIZE
                    };
                    (self.ext_dict_offset + delta, self.ext_dict_len - delta, self.dst_start as int)
                } else {
                    (self.ext_dict_offset as int, self.ext_dict_len as int, self.dst_start as int)
                }
            } else {
                (self.ext_dict_offset as int, self.ext_dict_len as int, 0)
            },
            None => (0, 0, 0),
        }
    }

    /// The history the next block may refer to that lies before the output area.
    pub closed spec fn next_dict(&self) -> Seq<u8> {
        let (o, l, s) = self.arranged();
        if l > 0 {
            self.dst@.subrange(o, o + l)
        } else {
            Seq::empty()
        }
    }

    /// The history the next block may refer to that lies in the output area, before the
    /// block's own bytes.
    pub closed spec fn next_prefix(&self) -> Seq<u8> {
        let (o, l, s) = self.arranged();
        self.dst@.take(s)
    }

    /// The size of the output area the next block is decoded into, its prefix included.
    pub closed spec fn next_room(&self) -> int {
        let (o, l, s) = self.arranged();
        match self.current_frame_info {
            Some(fi) => if l > 0 {
                o
            } else {
                s + fi.block_size.size_spec()
            },
            None => 0,
        }
    }
}

/// The bytes decoded so far and the input left after one call of [`Decoder::next_block`] on
/// a frame with settings `fi`: `r` is the call's result, `q` the input it started with,
/// `content` and the history the frame's content before it.
pub open spec fn block_outcome(
    r: Result<Seq<u8>, Error>,
    fi: FrameInfo,
    content: Seq<u8>,
    dict: Seq<u8>,
    prefix: Seq<u8>,
    room: int,
    q: Seq<u8>,
    raw2: Seq<u8>,
    frame2: Option<FrameInfo>,
    content2: Seq<u8>,
) -> bool {
    let (res, rest) = block_step(fi, content, dict, prefix, room, q);
    &&& r == res
    &&& raw2 == rest
    &&& if res is Ok && is_end_mark(q) {
        frame2 is None
    } else {
        &&& frame2 == Some(fi)
        &&& content2 == if res is Ok {
            content + res->Ok_0
        } else {
            content
        }
    }
}

/// A suffix of a suffix of `c` is a suffix of `c`.
pub(crate) proof fn lemma_ends_with_skip(c: Seq<u8>, h: Seq<u8>, k: int)
    requires
        ends_with(c, h),
        0 <= k <= h.len(),
    ensures
        ends_with(c, h.skip(k)),
{
    assert(c.skip(c.len() - h.skip(k).len()) =~= h.skip(k));
}

/// Appending to both keeps a suffix.
pub(crate) proof fn lemma_ends_with_push(c: Seq<u8>, h: Seq<u8>, o: Seq<u8>)
    requires
        ends_with(c, h),
    ensures
        ends_with(c + o, h + o),
{
    assert((c + o).skip((c + o).len() - (h + o).len()) =~= h + o);
}

impl Decoder {
    /// Arranges the output buffer for the next block of the frame `fi`.
    fn arrange(&mut self, fi: FrameInfo, max_block_size: usize)
        requires
            old(self).wf(),
            old(self).current_frame_info == Some(fi),
            max_block_size == fi.block_size.size_spec(),
        ensures
            final(self).inv(),
            final(self).dst_start == final(self).dst_end,
            final(self).ext_dict_offset == old(self).arranged().0 || final(self).ext_dict_len == 0,
            final(self).ext_dict_len == old(self).arranged().1,
            final(self).dst_start == old(self).arranged().2,
            final(self).ext_dict() == old(self).next_dict(),
            final(self).dst@.take(final(self).dst_start as int) == old(self).next_prefix(),
            final(self).dst == old(self).dst,
            final(self).raw == old(self).raw,
            final(self).src == old(self).src,
            final(self).current_frame_info == old(self).current_frame_info,
            final(self).content == old(self).content,
            final(self).content_len == old(self).content_len,
            final(self).content_hasher == old(self).content_hasher,
            final(self).dst_capacity == old(self).dst_capacity,
            final(self).dst_start + max_block_size <= final(self).dst_capacity,
            final(self).ext_dict_len > 0 ==> final(self).dst_start + max_block_size <= final(self).ext_dict_offset,
            old(self).next_room() == if final(self).ext_dict_len > 0 {
                final(self).ext_dict_offset as int
            } else {
                final(self).dst_start + max_block_size
            },
    {
        let ghost h0 = self.history();
        if fi.block_mode == BlockMode::Linked {
            if self.dst_start + max_block_size > self.dst_capacity {
                // Output might not fit in the buffer.
                // The ext_dict will become the last WINDOW_SIZE bytes
                self.ext_dict_offset = self.dst_start - WINDOW_SIZE;
                self.ext_dict_len = WINDOW_SIZE;
                // Output goes in the beginning of the buffer again.
                self.dst_start = 0;
                self.dst_end = 0;
                proof {
                    let k = h0.len() - WINDOW_SIZE;
                    assert(self.history() =~= h0.skip(k));
                    lemma_ends_with_skip(self.content@, h0, k);
                }
            } else if self.dst_start + self.ext_dict_len > WINDOW_SIZE {
                // There's more than WINDOW_SIZE bytes of lookback adding the prefix and ext_dict.
                // Since we have a limited buffer we must shrink ext_dict in favor of the prefix,
                // so that we can fit up to max_block_size bytes between dst_start and ext_dict
                // start.
                let excess = self.dst_start + self.ext_dict_len - WINDOW_SIZE;
                let delta = if self.ext_dict_len <= excess {
                    self.ext_dict_len
                } else {
                    excess
                };
                self.ext_dict_offset = self.ext_dict_offset + delta;
                self.ext_dict_len = self.ext_dict_len - delta;
                proof {
                    assert(self.history() =~= h0.skip(delta as int));
                    lemma_ends_with_skip(self.content@, h0, delta as int);
                }
            }
        } else {
            self.dst_start = 0;
            self.dst_end = 0;
            proof {
                assert(self.history() =~= h0.skip(h0.len() as int));
                lemma_ends_with_skip(self.content@, h0, h0.len() as int);
            }
        }
    }
}

/// Decodes the compressed block `data` into `dst` at `start`. With `ext_len > 0` the block may
/// refer to `dst[ext_off..ext_off + ext_len]` and its output ends before `ext_off`; otherwise
/// the output area is resized to end `max_block_size` bytes after `start`.
fn decode_into(
    dst: &mut Vec<u8>,
    data: &[u8],
    ext_off: usize,
    ext_len: usize,
    start: usize,
    max_block_size: usize,
) -> (r: Result<usize, DecompressError>)
    requires
        start <= old(dst)@.len(),
        start + max_block_size <= usize::MAX,
        ext_len > 0 ==> start + max_block_size <= ext_off && ext_off + ext_len <= old(dst)@.len(),
    ensures
        final(dst)@.take(start as int) == old(dst)@.take(start as int),
        start <= final(dst)@.len(),
        ext_len > 0 ==> final(dst)@.len() == old(dst)@.len() && final(dst)@.subrange(ext_off as int, ext_off + ext_len)
            == old(dst)@.subrange(ext_off as int, ext_off + ext_len),
        match decoded_block(
            data@,
            if ext_len > 0 {
                old(dst)@.subrange(ext_off as int, ext_off + ext_len)
            } else {
                Seq::<u8>::empty()
            },
            old(dst)@.take(start as int),
            if ext_len > 0 {
                ext_off as int
            } else {
                start + max_block_size
            },
        ) {
            Ok(o) => {
                &&& r == Ok::<usize, DecompressError>(o.len() as usize)
                &&& start + o.len() <= final(dst)@.len()
                &&& final(dst)@.subrange(start as int, start + o.len()) == o
                &&& ext_len > 0 ==> start + o.len() <= ext_off
                &&& ext_len == 0 ==> start + o.len() <= start + max_block_size
            },
            Err(e) => r == Err::<usize, DecompressError>(e),
        },
{
    let ghost d0 = dst@;
    if ext_len > 0 {
        let (head, tail) = dst.as_mut_slice().split_at_mut(ext_off);
        let ext_dict = slice_range(tail, 0, ext_len);
        assert(ext_dict@ =~= d0.subrange(ext_off as int, ext_off + ext_len));
        let mut sink = SliceSink::new(head, start);
        assert(sink.filled() =~= d0.take(start as int));
        let r = decompress_internal(data, &mut sink, ext_dict);
        proof {
            lemma_decode_extends(data@, 0, d0.take(start as int), ext_dict@, ext_off as int);
            if let Ok(full) = decode_at(data@, 0, d0.take(start as int), ext_dict@, ext_off as int) {
                assert(full.skip(start as int) =~= sink.output@.subrange(start as int, full.len() as int));
            }
        }
        r
    } else {
        let no_dict: &[u8] = &[];
        assert(no_dict@ =~= Seq::<u8>::empty());
        let mut sink = vec_sink_for_decompression(dst, 0, start, start + max_block_size);
        assert(sink.filled() =~= d0.take(start as int));
        let r = decompress_internal(data, &mut sink, no_dict);
        proof {
            lemma_decode_extends(data@, 0, d0.take(start as int), no_dict@, (start + max_block_size) as int);
            if let Ok(full) = decode_at(data@, 0, d0.take(start as int), no_dict@, (start + max_block_size) as int) {
                assert(full.skip(start as int) =~= sink.output@.subrange(start as int, full.len() as int));
            }
        }
        r
    }
}

impl Decoder {
    /// The output room of the arranged buffer.
    closed spec fn room(&self, max_block_size: int) -> int {
        if self.ext_dict_len > 0 {
            self.ext_dict_offset as int
        } else {
            self.dst_start + max_block_size
        }
    }

    /// The buffer is arranged for the next block of the frame `fi`.
    closed spec fn arranged_for(&self, fi: FrameInfo) -> bool {
        &&& self.inv()
        &&& self.current_frame_info == Some(fi)
        &&& self.dst_start == self.dst_end
        &&& self.dst_start + fi.block_size.size_spec() <= self.dst_capacity
        &&& self.ext_dict_len > 0 ==> self.dst_start + fi.block_size.size_spec() <= self.ext_dict_offset
    }

    /// Reads a stored block of `len <= max_block_size` bytes, whose header was taken from the
    /// input, into the output area after `dst_start`.
    fn fill_stored(&mut self, fi: FrameInfo, max_block_size: usize, len: usize) -> (r: Result<(), Error>)
        requires
            old(self).arranged_for(fi),
            max_block_size == fi.block_size.size_spec(),
            len <= max_block_size,
        ensures
            final(self).arranged_for(fi),
            final(self).history() == old(self).history(),
            final(self).ext_dict() == old(self).ext_dict(),
            final(self).dst@.take(final(self).dst_start as int) == old(self).dst@.take(old(self).dst_start as int),
            final(self).dst_start == old(self).dst_start,
            final(self).ext_dict_offset == old(self).ext_dict_offset,
            final(self).ext_dict_len == old(self).ext_dict_len,
            final(self).dst_capacity == old(self).dst_capacity,
            final(self).content == old(self).content,
            final(self).content_len == old(self).content_len,
            final(self).content_hasher == old(self).content_hasher,
            final(self).raw@ == checked_read(old(self).raw@, len as nat, fi.block_checksums).1,
            r == checked_read(old(self).raw@, len as nat, fi.block_checksums).0,
            r is Ok ==> final(self).dst@.subrange(final(self).dst_start as int, final(self).dst_start + len)
                == old(self).raw@.take(len as int) && final(self).dst_start + len <= final(self).dst@.len(),
    {
        let ghost h0 = self.history();
        let ghost ext0 = self.ext_dict();
        let ghost d0 = self.dst@;
        let start = self.dst_start;
        let read = read_checked(&mut self.raw, &mut self.dst, start, len, fi.block_checksums);
        proof {
            if self.ext_dict_len > 0 {
                assert(self.ext_dict() =~= ext0);
            }
            assert(self.dst@.take(self.dst_end as int) =~= d0.take(self.dst_end as int));
            assert(self.history() =~= h0);
        }
        read
    }

    /// Reads a compressed block of `len <= max_block_size` bytes, whose header was taken from
    /// the input, and decodes it into the output area after `dst_start`; returns the number of
    /// decoded bytes.
    fn fill_decoded(&mut self, fi: FrameInfo, max_block_size: usize, len: usize) -> (r: Result<usize, Error>)
        requires
            old(self).arranged_for(fi),
            max_block_size == fi.block_size.size_spec(),
            len <= max_block_size,
        ensures
            final(self).arranged_for(fi),
            final(self).history() == old(self).history(),
            final(self).ext_dict() == old(self).ext_dict(),
            final(self).dst@.take(final(self).dst_start as int) == old(self).dst@.take(old(self).dst_start as int),
            final(self).dst_start == old(self).dst_start,
            final(self).ext_dict_offset == old(self).ext_dict_offset,
            final(self).ext_dict_len == old(self).ext_dict_len,
            final(self).dst_capacity == old(self).dst_capacity,
            final(self).content == old(self).content,
            final(self).content_len == old(self).content_len,
            final(self).content_hasher == old(self).content_hasher,
            final(self).raw@ == checked_read(old(self).raw@, len as nat, fi.block_checksums).1,
            checked_read(old(self).raw@, len as nat, fi.block_checksums).0 matches Err(e) ==> r == Err::<usize, Error>(e),
            checked_read(old(self).raw@, len as nat, fi.block_checksums).0 is Ok ==> match decoded_block(
                old(self).raw@.take(len as int),
                old(self).ext_dict(),
                old(self).dst@.take(old(self).dst_start as int),
                old(self).room(max_block_size as int),
            ) {
                Ok(o) => {
                    &&& r == Ok::<usize, Error>(o.len() as usize)
                    &&& final(self).dst_start + o.len() <= final(self).dst@.len()
                    &&& final(self).dst_start + o.len() <= final(self).room(max_block_size as int)
                    &&& final(self).dst@.subrange(final(self).dst_start as int, final(self).dst_start + o.len()) == o
                },
                Err(e) => r == Err::<usize, Error>(Error::DecompressionError(e)),
            },
    {
        let ghost h0 = self.history();
        let ghost ext0 = self.ext_dict();
        let ghost d0 = self.dst@;
        let start = self.dst_start;
        let read = read_checked(&mut self.raw, &mut self.src, 0, len, fi.block_checksums);
        if let Err(e) = read {
            return Err(e);
        }
        let data = slice_range(&self.src, 0, len);
        let decompressed = decode_into(&mut self.dst, data, self.ext_dict_offset, self.ext_dict_len, start, max_block_size);
        proof {
            if self.ext_dict_len > 0 {
                assert(self.ext_dict() =~= ext0);
            }
            assert(self.dst@.take(self.dst_end as int) =~= d0.take(self.dst_end as int));
            assert(self.history() =~= h0);
        }
        match decompressed {
            Ok(n) => Ok(n),
            Err(e) => Err(Error::DecompressionError(e)),
        }
    }

    /// Reads a data block of `len` bytes, whose header was taken from the input, and decodes
    /// it into the output area after `dst_start`; returns the number of decoded bytes.
    fn fill_block(&mut self, fi: FrameInfo, max_block_size: usize, len: usize, compressed: bool) -> (r: Result<usize, Error>)
        requires
            old(self).arranged_for(fi),
            max_block_size == fi.block_size.size_spec(),
        ensures
            final(self).arranged_for(fi),
            final(self).history() == old(self).history(),
            final(self).ext_dict() == old(self).ext_dict(),
            final(self).dst@.take(final(self).dst_start as int) == old(self).dst@.take(old(self).dst_start as int),
            final(self).dst_start == old(self).dst_start,
            final(self).ext_dict_offset == old(self).ext_dict_offset,
            final(self).ext_dict_len == old(self).ext_dict_len,
            final(self).dst_capacity == old(self).dst_capacity,
            final(self).content == old(self).content,
            final(self).content_len == old(self).content_len,
            final(self).content_hasher == old(self).content_hasher,
            ({
                let (res, rest) = data_block_step(
                    fi,
                    old(self).content@,
                    old(self).raw@,
                    len as nat,
                    compressed,
                    old(self).ext_dict(),
                    old(self).dst@.take(old(self).dst_start as int),
                    old(self).room(max_block_size as int),
                );
                &&& final(self).raw@ == rest
                &&& match r {
                    Ok(n) => {
                        &&& final(self).dst_start + n <= final(self).dst@.len()
                        &&& final(self).dst_start + n <= final(self).dst_capacity
                        &&& final(self).ext_dict_len > 0 ==> final(self).dst_start + n <= final(self).ext_dict_offset
                        &&& res == Ok::<Seq<u8>, Error>(
                            final(self).dst@.subrange(final(self).dst_start as int, final(self).dst_start + n),
                        )
                    },
                    Err(e) => res == Err::<Seq<u8>, Error>(e),
                }
            }),
    {
        if len > max_block_size {
            return Err(Error::BlockTooBig);
        }
        let decompressed_len = if !compressed {
            if let Err(e) = self.fill_stored(fi, max_block_size, len) {
                return Err(e);
            }
            len
        } else {
            match self.fill_decoded(fi, max_block_size, len) {
                Ok(n) => n,
                Err(e) => return Err(e),
            }
        };
        if decompressed_len as u64 > u64::MAX - self.content_len {
            return Err(Error::ContentLengthError { expected: u64::MAX, actual: self.content_len });
        }
        Ok(decompressed_len)
    }

    /// Reads a data block of `len` bytes, whose header was taken from the input, into the
    /// output area.
    #[verifier::rlimit(100)]
    #[verifier::spinoff_prover]
    fn read_data_block(&mut self, fi: FrameInfo, max_block_size: usize, len: usize, compressed: bool) -> (r: Result<(), Error>)
        requires
            old(self).arranged_for(fi),
            max_block_size == fi.block_size.size_spec(),
        ensures
            final(self).inv(),
            final(self).current_frame_info == old(self).current_frame_info,
            ({
                let (res, rest) = data_block_step(
                    fi,
                    old(self).content@,
                    old(self).raw@,
                    len as nat,
                    compressed,
                    old(self).ext_dict(),
                    old(self).dst@.take(old(self).dst_start as int),
                    old(self).room(max_block_size as int),
                );
                &&& final(self).raw@ == rest
                &&& match r {
                    Ok(_) => res == Ok::<Seq<u8>, Error>(final(self).pending()) && final(self).content@ == old(
                        self,
                    ).content@ + final(self).pending(),
                    Err(e) => res == Err::<Seq<u8>, Error>(e) && final(self).content@ == old(self).content@
                        && final(self).dst_start == final(self).dst_end,
                }
            }),
    {
        let n = match self.fill_block(fi, max_block_size, len, compressed) {
            Ok(n) => n,
            Err(e) => return Err(e),
        };
        let ghost h0 = self.history();
        let ghost c0 = self.content@;
        let ghost prefix = self.dst@.take(self.dst_start as int);
        self.dst_end = self.dst_start + n;
        self.content_len = self.content_len + n as u64;
        let ghost out = self.pending();
        proof {
            self.content@ = self.content@ + out;
            assert(self.dst@.take(self.dst_end as int) =~= prefix + out);
            assert(self.history() =~= h0 + out);
            lemma_ends_with_push(c0, h0, out);
        }
        // Content checksum, if applicable
        if fi.content_checksum {
            hasher_write(&mut self.content_hasher, slice_range(&self.dst, self.dst_start, self.dst_end));
        }
        Ok(())
    }
}

/// The number of bytes missing from `avail` for a data block of `len` bytes of the frame `fi`
/// and its checksum (see [`data_shortfall`]).
fn data_shortfall_of(fi: FrameInfo, max_block_size: usize, avail: usize, len: usize) -> (r: usize)
    requires
        max_block_size == fi.block_size.size_spec(),
    ensures
        r == data_shortfall(fi, avail as int, len as nat),
{
    if len > max_block_size {
        0
    } else if avail < len {
        len - avail
    } else if fi.block_checksums && avail - len < 4 {
        len + 4 - avail
    } else {
        0
    }
}

/// What reading `len` data bytes, and their checksum when `checksums` is set, from the front
/// of `q` gives, and the input left.
pub open spec fn checked_read(q: Seq<u8>, len: nat, checksums: bool) -> (Result<(), Error>, Seq<u8>) {
    if q.len() < len {
        (Err(Error::NeedMoreInput((len - q.len()) as usize)), q)
    } else {
        let after = q.skip(len as int);
        if checksums && after.len() < 4 {
            (Err(Error::NeedMoreInput((4 - after.len()) as usize)), after)
        } else if checksums && u32_at(after, 0) != xxh32(0, q.take(len as int)) as nat {
            (Err(Error::BlockChecksumError), after.skip(4))
        } else if checksums {
            (Ok(()), after.skip(4))
        } else {
            (Ok(()), after)
        }
    }
}

/// Reads `len` bytes from the front of `raw` into `buf[start..start + len]` (growing `buf` as
/// needed), then, with `checksums`, their checksum, which must match.
fn read_checked(raw: &mut VecDeque<u8>, buf: &mut Vec<u8>, start: usize, len: usize, checksums: bool) -> (r: Result<(), Error>)
    requires
        start <= old(buf)@.len(),
        start + len <= usize::MAX,
    ensures
        final(buf)@.len() == if start + len > old(buf)@.len() {
            (start + len) as nat
        } else {
            old(buf)@.len()
        },
        final(buf)@.take(start as int) == old(buf)@.take(start as int),
        forall|i: int| start + len <= i < old(buf)@.len() ==> #[trigger] final(buf)@[i] == old(buf)@[i],
        final(raw)@ == checked_read(old(raw)@, len as nat, checksums).1,
        r == checked_read(old(raw)@, len as nat, checksums).0,
        r is Ok ==> final(buf)@.subrange(start as int, start + len) == old(raw)@.take(len as int),
{
    let ghost q = raw@;
    let ghost b0 = buf@;
    vec_resize(buf, start + len);
    let ghost b1 = buf@;
    if let Err(e) = read_exact(raw, buf, start, start + len) {
        assert(buf@.take(start as int) =~= b0.take(start as int));
        return Err(e);
    }
    assert(buf@.subrange(start as int, start + len) =~= q.take(len as int));
    assert(buf@.take(start as int) =~= b0.take(start as int));
    assert forall|i: int| start + len <= i < b0.len() implies #[trigger] buf@[i] == b0[i] by {
        assert(buf@[i] == b1.skip(start + len)[i - start - len]);
    }
    if checksums {
        let mut checksum_buffer: Vec<u8> = vec![0u8; 4];
        if let Err(e) = read_exact(raw, &mut checksum_buffer, 0, 4) {
            return Err(e);
        }
        let expected_checksum = read_u32_le(&checksum_buffer, 0);
        assert(checksum_buffer@ =~= q.skip(len as int).take(4));
        let block = slice_range(buf, start, start + len);
        return Decoder::check_block_checksum(block, expected_checksum);
    }
    Ok(())
}

impl Decoder {
    /// Reads the end of the frame `fi`, whose end mark was taken from the input: checks the
    /// content size and, when the frame has one, the content checksum.
    fn read_end_mark(&mut self, fi: FrameInfo) -> (r: Result<(), Error>)
        requires
            old(self).inv(),
            old(self).current_frame_info == Some(fi),
            old(self).dst_start == old(self).dst_end,
        ensures
            final(self).inv(),
            final(self).dst_start == final(self).dst_end,
            final(self).content == old(self).content,
            final(self).raw@ == end_mark_step(fi, old(self).content@, old(self).raw@).1,
            r is Ok ==> end_mark_step(fi, old(self).content@, old(self).raw@).0 == Ok::<Seq<u8>, Error>(Seq::empty())
                && final(self).current_frame_info is None,
            r matches Err(e) ==> end_mark_step(fi, old(self).content@, old(self).raw@).0 == Err::<Seq<u8>, Error>(e)
                && final(self).current_frame_info == old(self).current_frame_info,
    {
        if let Some(expected) = fi.content_size {
            if self.content_len != expected {
                return Err(Error::ContentLengthError { expected, actual: self.content_len });
            }
        }
        if fi.content_checksum {
            let ghost q = self.raw@;
            let expected_checksum = match self.read_checksum() {
                Ok(c) => c,
                Err(e) => return Err(e),
            };
            let calc_checksum = hasher_finish(&self.content_hasher) as u32;
            if calc_checksum != expected_checksum {
                return Err(Error::ContentChecksumError);
            }
        }
        self.current_frame_info = None;
        Ok(())
    }

    /// The number of bytes missing at the front of the input before the next block of the
    /// frame `fi` can be read whole (see [`block_shortfall`]).
    fn block_shortfall_of(&self, fi: FrameInfo, max_block_size: usize) -> (r: usize)
        requires
            self.inv(),
            self.current_frame_info == Some(fi),
            max_block_size == fi.block_size.size_spec(),
        ensures
            r == block_shortfall(fi, self.content@, self.raw@),
    {
        let avail = self.raw.len();
        if avail < 4 {
            return 4 - avail;
        }
        let mut header: Vec<u8> = vec![0u8; 4];
        peek_front(&self.raw, &mut header, 4);
        assert(header@ =~= self.raw@.take(4));
        assert(u32_at(header@, 0) == u32_at(self.raw@, 0));
        let rest = avail - 4;
        match BlockInfo::read(&header) {
            Ok(BlockInfo::EndMark) => {
                let size_differs = match fi.content_size {
                    Some(expected) => self.content_len != expected,
                    None => false,
                };
                if fi.content_checksum && !size_differs && rest < 4 {
                    4 - rest
                } else {
                    0
                }
            },
            Ok(BlockInfo::Uncompressed(len)) => data_shortfall_of(fi, max_block_size, rest, len as usize),
            Ok(BlockInfo::Compressed(len)) => data_shortfall_of(fi, max_block_size, rest, len as usize),
            Err(_) => 0,
        }
    }

    /// Reads the next block of the frame `fi`, which is all in the input, into the arranged
    /// output area.
    #[verifier::rlimit(100)]
    #[verifier::spinoff_prover]
    fn read_arranged_block(&mut self, fi: FrameInfo, max_block_size: usize) -> (r: Result<(), Error>)
        requires
            old(self).arranged_for(fi),
            max_block_size == fi.block_size.size_spec(),
            block_shortfall(fi, old(self).content@, old(self).raw@) == 0,
        ensures
            final(self).inv(),
            block_outcome(
                match r {
                    Ok(_) => Ok(final(self).pending()),
                    Err(e) => Err(e),
                },
                fi,
                old(self).content@,
                old(self).ext_dict(),
                old(self).dst@.take(old(self).dst_start as int),
                old(self).room(max_block_size as int),
                old(self).raw@,
                final(self).raw@,
                final(self).current_frame_info,
                final(self).content@,
            ),
            r is Err ==> final(self).dst_start == final(self).dst_end,
    {
        let ghost q = self.raw@;
        let mut header: Vec<u8> = vec![0u8; 4];
        if let Err(err) = read_exact(&mut self.raw, &mut header, 0, 4) {
            return Err(err);
        }
        assert(header@ =~= q.take(4));
        let block_info = match BlockInfo::read(&header) {
            Ok(b) => b,
            Err(e) => return Err(e),
        };
        match block_info {
            BlockInfo::Uncompressed(len) => self.read_data_block(fi, max_block_size, len as usize, false),
            BlockInfo::Compressed(len) => self.read_data_block(fi, max_block_size, len as usize, true),
            BlockInfo::EndMark => {
                let r = self.read_end_mark(fi);
                assert(self.pending() =~= Seq::<u8>::empty());
                r
            },
        }
    }

    /// Reads the next block of the current frame and decodes it into the output area. Where
    /// the input ends before the block does, nothing changes.
    #[verifier::rlimit(50)]
    #[verifier::spinoff_prover]
    fn read_block(&mut self) -> (r: Result<(), Error>)
        requires
            old(self).wf(),
            old(self).current_frame_info is Some,
        ensures
            final(self).inv(),
            block_outcome(
                match r {
                    Ok(_) => Ok(final(self).pending()),
                    Err(e) => Err(e),
                },
                old(self).current_frame_info.unwrap(),
                old(self).content@,
                old(self).next_dict(),
                old(self).next_prefix(),
                old(self).next_room(),
                old(self).raw@,
                final(self).raw@,
                final(self).current_frame_info,
                final(self).content@,
            ),
            r is Err ==> final(self).dst_start == final(self).dst_end,
            r matches Err(e) && e is NeedMoreInput ==> *final(self) == *old(self),
    {
        let frame_info = match self.current_frame_info {
            Some(fi) => fi,
            None => return Ok(()),
        };
        let max_block_size = frame_info.block_size.get_size();
        let missing = self.block_shortfall_of(frame_info, max_block_size);
        if missing > 0 {
            return Err(Error::NeedMoreInput(missing));
        }
        // Adjust dst buffer offsets to decompress the next block
        self.arrange(frame_info, max_block_size);
        let r = self.read_arranged_block(frame_info, max_block_size);
        proof {
            lemma_whole_block_is_read(
                frame_info,
                old(self).content@,
                old(self).next_dict(),
                old(self).next_prefix(),
                old(self).next_room(),
                old(self).raw@,
            );
        }
        r
    }

    /// Read the next block of decompressed data.
    ///
    /// When using this function, unless it is known that all data has already
    /// been pushed, the user should check for an `Error::NeedMoreInput` to see
    /// if more data is needed: it takes nothing from the input, so the call can be
    /// made again once more bytes are pushed. Once every frame pushed has been read,
    /// it is `Error::NeedMoreInput` too.
    pub fn next_block(&mut self) -> (r: Result<&[u8], Error>)
        requires
            old(self).wf(),
        ensures
            final(self).wf(),
            old(self).frame_view() is Some ==> block_outcome(
                match r {
                    Ok(b) => Ok(b@),
                    Err(e) => Err(e),
                },
                old(self).frame_view().unwrap(),
                old(self).content_view(),
                old(self).next_dict(),
                old(self).next_prefix(),
                old(self).next_room(),
                old(self).raw_view(),
                final(self).raw_view(),
                final(self).frame_view(),
                final(self).content_view(),
            ),
            old(self).frame_view() is None ==> match header_step(old(self).raw_view()).0 {
                Ok(fi) => block_outcome(
                    match r {
                        Ok(b) => Ok(b@),
                        Err(e) => Err(e),
                    },
                    fi,
                    Seq::empty(),
                    Seq::empty(),
                    Seq::empty(),
                    fi.block_size.size_spec() as int,
                    header_step(old(self).raw_view()).1,
                    final(self).raw_view(),
                    final(self).frame_view(),
                    final(self).content_view(),
                ),
                Err(e) => r matches Err(e2) && e2 == e && final(self).frame_view() is None
                    && final(self).raw_view() == header_step(old(self).raw_view()).1,
            },
            r matches Err(e) && e is NeedMoreInput && (old(self).frame_view() is Some || header_step(
                old(self).raw_view(),
            ).0 is Err) ==> *final(self) == *old(self),
    {
        if self.current_frame_info.is_none() {
            if let Err(e) = self.read_frame_info() {
                return Err(e);
            }
            proof {
                assert(self.next_dict() =~= Seq::<u8>::empty());
                assert(self.next_prefix() =~= Seq::<u8>::empty());
            }
        }
        let r = self.read_block();
        if let Err(e) = r {
            return Err(e);
        }
        let start = self.dst_start;
        let end = self.dst_end;
        self.dst_start = end;
        Ok(slice_range(&self.dst, start, end))
    }
}

/// The history the next block of a frame is decoded with is the end of the frame's content
/// decoded so far: for a linked frame at least the last `WINDOW_SIZE` bytes of it (or all of
/// it, when there are fewer), for a frame of independent blocks none. The output area has room
/// for a block of the frame's largest size after the history in it.
pub proof fn lemma_next_block_history(d: &Decoder)
    requires
        d.wf(),
        d.frame_view() is Some,
    ensures
        ends_with(d.content_view(), d.next_dict() + d.next_prefix()),
        d.frame_view().unwrap().block_mode == BlockMode::Linked ==> (d.next_dict() + d.next_prefix()).len()
            >= WINDOW_SIZE || (d.next_dict() + d.next_prefix()).len() == d.content_view().len(),
        d.frame_view().unwrap().block_mode == BlockMode::Independent ==> d.next_dict() == Seq::<u8>::empty()
            && d.next_prefix() == Seq::<u8>::empty(),
        d.next_room() - d.next_prefix().len() >= d.frame_view().unwrap().block_size.size_spec(),
{
    let fi = d.current_frame_info.unwrap();
    let b = fi.block_size.size_spec();
    let h0 = d.history();
    let (o, l, st) = d.arranged();
    let h = d.next_dict() + d.next_prefix();
    if fi.block_mode == BlockMode::Linked {
        if d.dst_start + b > d.dst_capacity {
            assert(h =~= h0.skip(h0.len() - WINDOW_SIZE));
            lemma_ends_with_skip(d.content@, h0, h0.len() - WINDOW_SIZE);
        } else if d.dst_start + d.ext_dict_len > WINDOW_SIZE {
            let delta = o - d.ext_dict_offset;
            assert(h =~= h0.skip(delta));
            lemma_ends_with_skip(d.content@, h0, delta);
        } else {
            assert(h =~= h0);
        }
    } else {
        assert(h =~= h0.skip(h0.len() as int));
        lemma_ends_with_skip(d.content@, h0, h0.len() as int);
    }
}

} // verus!

verus! {

/// The little-endian word at `pos` reads the same after more bytes are appended.
proof fn lemma_u32_at_append(q: Seq<u8>, extra: Seq<u8>, pos: int)
    requires
        0 <= pos,
        pos + 4 <= q.len(),
    ensures
        u32_at(q + extra, pos) == u32_at(q, pos),
{
    assert((q + extra)[pos] == q[pos]);
    assert((q + extra)[pos + 1] == q[pos + 1]);
    assert((q + extra)[pos + 2] == q[pos + 2]);
    assert((q + extra)[pos + 3] == q[pos + 3]);
}

/// Reading data that is all in `q` reads the same with more input after it.
proof fn lemma_checked_read_append(q: Seq<u8>, extra: Seq<u8>, len: nat, checksums: bool)
    requires
        !(checked_read(q, len, checksums).0 matches Err(Error::NeedMoreInput(_))),
    ensures
        checked_read(q + extra, len, checksums) == (checked_read(q, len, checksums).0, checked_read(q, len, checksums).1
            + extra),
{
    assert(q.len() >= len);
    let after = q.skip(len as int);
    assert((q + extra).skip(len as int) =~= after + extra);
    assert((q + extra).take(len as int) =~= q.take(len as int));
    if checksums {
        assert(after.len() >= 4);
        lemma_u32_at_append(after, extra, 0);
        assert((after + extra).skip(4) =~= after.skip(4) + extra);
    }
}

/// A frame header that is all at the front of the input reads the same, with the same input
/// left after it, when more input is pushed first: pushing the bytes in pieces and asking again
/// after [`Error::NeedMoreInput`] reads what pushing them at once reads.
pub proof fn lemma_header_step_append(q: Seq<u8>, extra: Seq<u8>)
    requires
        !(header_step(q).0 matches Err(Error::NeedMoreInput(_))),
    ensures
        header_step(q + extra) == (header_step(q).0, header_step(q).1 + extra),
{
    let q2 = q + extra;
    assert(q.len() >= 4);
    lemma_u32_at_append(q, extra, 0);
    assert(q2.skip(4) =~= q.skip(4) + extra);
    if u32_at(q, 0) != LZ4F_LEGACY_MAGIC_NUMBER {
        assert(q.len() >= 7);
        assert(q2.take(7) =~= q.take(7));
        assert(q2.skip(7) =~= q.skip(7) + extra);
        if let Ok(n) = read_size_spec(q.take(7)) {
            assert(q.len() >= n);
            assert(q2.take(n as int) =~= q.take(n as int));
            assert(q2.skip(n as int) =~= q.skip(n as int) + extra);
        }
    }
}

/// A block that is all at the front of the input reads the same, with the same input left
/// after it, when more input is pushed first: pushing the bytes in pieces and asking again
/// after [`Error::NeedMoreInput`] reads what pushing them at once reads.
pub proof fn lemma_block_step_append(
    fi: FrameInfo,
    content: Seq<u8>,
    dict: Seq<u8>,
    prefix: Seq<u8>,
    room: int,
    q: Seq<u8>,
    extra: Seq<u8>,
)
    requires
        !(block_step(fi, content, dict, prefix, room, q).0 matches Err(Error::NeedMoreInput(_))),
    ensures
        block_step(fi, content, dict, prefix, room, q + extra) == (
            block_step(fi, content, dict, prefix, room, q).0,
            block_step(fi, content, dict, prefix, room, q).1 + extra,
        ),
{
    let q2 = q + extra;
    assert(block_shortfall(fi, content, q) == 0);
    assert(q.len() >= 4);
    lemma_u32_at_append(q, extra, 0);
    let body = q.skip(4);
    assert(q2.skip(4) =~= body + extra);
    match block_info_of(u32_at(q, 0)) {
        BlockInfo::EndMark => {
            if fi.content_checksum && !(fi.content_size is Some && content.len() != fi.content_size.unwrap()) {
                assert(body.len() >= 4);
                lemma_u32_at_append(body, extra, 0);
                assert((body + extra).skip(4) =~= body.skip(4) + extra);
            }
        },
        BlockInfo::Uncompressed(len) => {
            if len <= fi.block_size.size_spec() {
                lemma_checked_read_append(body, extra, len as nat, fi.block_checksums);
                assert((body + extra).take(len as int) =~= body.take(len as int));
            }
        },
        BlockInfo::Compressed(len) => {
            if len <= fi.block_size.size_spec() {
                lemma_checked_read_append(body, extra, len as nat, fi.block_checksums);
                assert((body + extra).take(len as int) =~= body.take(len as int));
            }
        },
    }
}

} // verus!

verus! {

/// With content checksums, the end of a frame is accepted exactly when the word after the end
/// mark is the xxHash32 digest, with seed 0, of the frame's content, and is refused with
/// [`Error::ContentChecksumError`] otherwise.
pub proof fn lemma_end_mark_checks_content(fi: FrameInfo, content: Seq<u8>, body: Seq<u8>)
    requires
        fi.content_checksum,
        !(fi.content_size is Some && content.len() != fi.content_size.unwrap()),
        body.len() >= 4,
    ensures
        end_mark_step(fi, content, body).0 is Ok <==> u32_at(body, 0) == xxh32(0, content),
        !(end_mark_step(fi, content, body).0 is Ok) ==> end_mark_step(fi, content, body).0 == Err::<Seq<u8>, Error>(
            Error::ContentChecksumError,
        ),
        end_mark_step(fi, content, body).1 == body.skip(4),
{
}

/// With block checksums, data of `len` bytes at the front of `q`, with four bytes after them,
/// are read exactly when those four bytes are the little-endian xxHash32 digest, with seed 0,
/// of the data, and are refused with [`Error::BlockChecksumError`] otherwise.
pub proof fn lemma_checked_read_block_checksum(q: Seq<u8>, len: nat)
    requires
        q.len() >= len + 4,
    ensures
        checked_read(q, len, true).0 is Ok <==> u32_at(q, len as int) == xxh32(0, q.take(len as int)),
        !(checked_read(q, len, true).0 is Ok) ==> checked_read(q, len, true).0 == Err::<(), Error>(
            Error::BlockChecksumError,
        ),
        checked_read(q, len, true).1 == q.skip(len as int + 4),
{
    let after = q.skip(len as int);
    assert(u32_at(after, 0) == u32_at(q, len as int));
    assert(after.skip(4) =~= q.skip(len as int + 4));
}

/// A data block of a frame is refused as too big exactly when it holds more bytes than the
/// frame's block size allows: 64 KiB, 256 KiB, 1 MiB or 4 MiB.
pub proof fn lemma_block_too_big(
    fi: FrameInfo,
    content: Seq<u8>,
    body: Seq<u8>,
    len: nat,
    compressed: bool,
    dict: Seq<u8>,
    prefix: Seq<u8>,
    room: int,
)
    ensures
        data_block_step(fi, content, body, len, compressed, dict, prefix, room).0 == Err::<Seq<u8>, Error>(
            Error::BlockTooBig,
        ) <==> len > match fi.block_size {
            BlockSize::Max64KB => 65536nat,
            BlockSize::Max256KB => 262144nat,
            BlockSize::Max1MB => 1048576nat,
            BlockSize::Max4MB => 4194304nat,
        },
{
}

} // verus!
