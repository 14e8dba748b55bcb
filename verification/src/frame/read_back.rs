//! What the decoder reads from the bytes the encoder writes: the frame's settings from its
//! header, each block's data from its block, and the end of the frame from its end mark.
use vstd::prelude::*;
use crate::block::le_u32;
use crate::frame::compress::{block_bytes, content_size_differs, end_bytes, is_block_of};
use crate::frame::header::{
    block_info_of, header_bytes, lemma_frame_info_roundtrip, lemma_header_bytes_len, lemma_read_size_of_header,
    le_bytes, u32_at, BlockInfo, BlockMode, FrameInfo, LZ4F_LEGACY_MAGIC_NUMBER,
};
use crate::block::format::{lemma_decode_same_window, window_agree};
use crate::block::WINDOW_SIZE;
use crate::frame::compress::{lemma_encoder_history, Encoder};
use crate::frame::raw_decompress::{
    ends_with,
    block_step, checked_read, data_block_step, decoded_block, end_mark_step, header_step, is_end_mark,
    lemma_next_block_history, Decoder,
};
use crate::frame::Error;

verus! {

/// The four little-endian bytes of `v < 2^32` read back as `v`.
pub proof fn lemma_u32_at_le_bytes(v: nat, rest: Seq<u8>)
    requires
        v < 0x1_0000_0000,
    ensures
        u32_at(le_bytes(v, 4) + rest, 0) == v,
        (le_bytes(v, 4) + rest).skip(4) == rest,
{
    reveal_with_fuel(le_bytes, 5);
    let s = le_bytes(v, 4);
    let q = s + rest;
    assert(s.len() == 4);
    let b0 = (v % 256) as u8;
    let b1 = ((v / 256) % 256) as u8;
    let b2 = ((v / 256 / 256) % 256) as u8;
    let b3 = ((v / 256 / 256 / 256) % 256) as u8;
    assert(q[0] == b0 && q[1] == b1 && q[2] == b2 && q[3] == b3);
    assert(le_u32(b0, b1, b2, b3) == v) by (nonlinear_arith)
        requires
            v < 0x1_0000_0000,
            b0 == v % 256,
            b1 == (v / 256) % 256,
            b2 == (v / 256 / 256) % 256,
            b3 == (v / 256 / 256 / 256) % 256,
    ;
    assert(q.skip(4) =~= rest);
}

/// Reading the header the encoder writes for a frame without a dictionary id gives the frame's
/// settings.
pub proof fn lemma_header_read_back(fi: FrameInfo, rest: Seq<u8>)
    requires
        fi.dict_id is None,
    ensures
        header_step(header_bytes(fi) + rest) == (Ok::<FrameInfo, Error>(fi), rest),
{
    let h = header_bytes(fi);
    let q = h + rest;
    lemma_header_bytes_len(fi);
    lemma_read_size_of_header(fi, rest);
    lemma_frame_info_roundtrip(fi);
    assert(q.skip(h.len() as int) =~= rest);
}

/// The payload of a block, its checksum when the frame has block checksums, then `rest`.
pub open spec fn payload_and_rest(fi: FrameInfo, payload: Seq<u8>, rest: Seq<u8>) -> Seq<u8> {
    payload + (if fi.block_checksums {
        le_bytes(crate::frame::checksum::xxh32(0, payload) as nat, 4)
    } else {
        Seq::empty()
    }) + rest
}

/// The header word of a block reads back, and the block's payload follows it.
proof fn lemma_block_header_read_back(fi: FrameInfo, word: nat, payload: Seq<u8>, rest: Seq<u8>)
    requires
        word < 0x1_0000_0000,
    ensures
        u32_at(block_bytes(fi, word, payload) + rest, 0) == word,
        (block_bytes(fi, word, payload) + rest).len() >= 4,
        (block_bytes(fi, word, payload) + rest).skip(4) == payload_and_rest(fi, payload, rest),
{
    let tail = payload_and_rest(fi, payload, rest);
    assert(block_bytes(fi, word, payload) + rest =~= le_bytes(word, 4) + tail);
    lemma_u32_at_le_bytes(word, tail);
    crate::frame::header::lemma_le_bytes_len(word, 4);
}

/// Reading the payload and its checksum succeeds and leaves `rest`.
proof fn lemma_payload_read_back(fi: FrameInfo, payload: Seq<u8>, rest: Seq<u8>)
    ensures
        checked_read(payload_and_rest(fi, payload, rest), payload.len(), fi.block_checksums) == (Ok::<(), Error>(
            (),
        ), rest),
        payload_and_rest(fi, payload, rest).take(payload.len() as int) == payload,
{
    let body = payload_and_rest(fi, payload, rest);
    assert(body.take(payload.len() as int) =~= payload);
    if fi.block_checksums {
        let c = crate::frame::checksum::xxh32(0, payload) as nat;
        lemma_u32_at_le_bytes(c, rest);
        crate::frame::header::lemma_le_bytes_len(c, 4);
        assert(body.skip(payload.len() as int) =~= le_bytes(c, 4) + rest);
    } else {
        assert(body.skip(payload.len() as int) =~= rest);
    }
}

/// A stored block read back gives its data.
proof fn lemma_stored_block_read_back(fi: FrameInfo, content: Seq<u8>, data: Seq<u8>, dict: Seq<u8>, prefix: Seq<u8>, room: int, rest: Seq<u8>)
    requires
        data.len() <= fi.block_size.size_spec(),
        content.len() + data.len() <= u64::MAX,
    ensures
        block_step(fi, content, dict, prefix, room, block_bytes(fi, data.len() + 0x8000_0000, data) + rest) == (Ok::<
            Seq<u8>,
            Error,
        >(data), rest),
        !is_end_mark(block_bytes(fi, data.len() + 0x8000_0000, data) + rest),
{
    let word = (data.len() + 0x8000_0000) as nat;
    lemma_block_header_read_back(fi, word, data, rest);
    lemma_payload_read_back(fi, data, rest);
    assert(block_info_of(word) == BlockInfo::Uncompressed(data.len() as u32));
}

/// A compressed block read back with its history gives its data.
proof fn lemma_compressed_block_read_back(
    fi: FrameInfo,
    content: Seq<u8>,
    data: Seq<u8>,
    dict: Seq<u8>,
    prefix: Seq<u8>,
    payload: Seq<u8>,
    room: int,
    rest: Seq<u8>,
)
    requires
        0 < payload.len() < data.len() <= fi.block_size.size_spec(),
        decoded_block(payload, dict, prefix, room) == Ok::<Seq<u8>, crate::block::DecompressError>(data),
        content.len() + data.len() <= u64::MAX,
    ensures
        block_step(fi, content, dict, prefix, room, block_bytes(fi, payload.len(), payload) + rest) == (Ok::<
            Seq<u8>,
            Error,
        >(data), rest),
        !is_end_mark(block_bytes(fi, payload.len(), payload) + rest),
{
    let word = payload.len();
    lemma_block_header_read_back(fi, word, payload, rest);
    lemma_payload_read_back(fi, payload, rest);
    assert(block_info_of(word) == BlockInfo::Compressed(payload.len() as u32));
}

/// A block that decodes to `data` after `prefix`, with `dict` before it, gives `data` in an
/// output area with room for it.
proof fn lemma_decoded_with_own_history(
    payload: Seq<u8>,
    data: Seq<u8>,
    dict: Seq<u8>,
    prefix: Seq<u8>,
    room: int,
)
    requires
        crate::block::compress::block_decodes_to(payload, dict, prefix + data, prefix.len() as int),
        room >= prefix.len() + data.len(),
    ensures
        decoded_block(payload, dict, prefix, room) == Ok::<Seq<u8>, crate::block::DecompressError>(data),
{
    let whole = prefix + data;
    assert(whole.take(prefix.len() as int) =~= prefix);
    assert(crate::block::format::decode_at(payload, 0, whole.take(prefix.len() as int), dict, room) == Ok::<
        Seq<u8>,
        crate::block::DecompressError,
    >(whole));
    assert(whole.skip(prefix.len() as int) =~= data);
}

/// A block the encoder writes for `data`, read with the history it was compressed with (and
/// room for the data after it), gives `data` back; it is no end mark.
pub proof fn lemma_block_read_back(
    fi: FrameInfo,
    content: Seq<u8>,
    data: Seq<u8>,
    dict: Seq<u8>,
    prefix: Seq<u8>,
    bytes: Seq<u8>,
    room: int,
    rest: Seq<u8>,
)
    requires
        is_block_of(bytes, fi, data, dict, prefix),
        data.len() <= fi.block_size.size_spec(),
        content.len() + data.len() <= u64::MAX,
        room >= prefix.len() + data.len(),
    ensures
        block_step(fi, content, dict, prefix, room, bytes + rest) == (Ok::<Seq<u8>, Error>(data), rest),
        !is_end_mark(bytes + rest),
{
    if bytes == block_bytes(fi, data.len() + 0x8000_0000, data) {
        lemma_stored_block_read_back(fi, content, data, dict, prefix, room, rest);
    } else {
        let payload = choose|payload: Seq<u8>|
            {
                &&& 0 < #[trigger] payload.len() < data.len()
                &&& bytes == block_bytes(fi, payload.len(), payload)
                &&& crate::block::compress::block_decodes_to(payload, dict, prefix + data, prefix.len() as int)
            };
        lemma_decoded_with_own_history(payload, data, dict, prefix, room);
        lemma_compressed_block_read_back(fi, content, data, dict, prefix, payload, room, rest);
    }
}

/// The end of a frame the encoder writes ends the frame for the decoder, without an error when
/// the content has the size the header announced.
pub proof fn lemma_end_read_back(
    fi: FrameInfo,
    content: Seq<u8>,
    dict: Seq<u8>,
    prefix: Seq<u8>,
    room: int,
    rest: Seq<u8>,
)
    requires
        !content_size_differs(fi, content),
    ensures
        block_step(fi, content, dict, prefix, room, end_bytes(fi, content) + rest) == (Ok::<Seq<u8>, Error>(
            Seq::empty(),
        ), rest),
        is_end_mark(end_bytes(fi, content) + rest),
{
    let c = crate::frame::checksum::xxh32(0, content) as nat;
    reveal_with_fuel(le_bytes, 5);
    let tail = (if fi.content_checksum {
        le_bytes(c, 4)
    } else {
        Seq::empty()
    }) + rest;
    let q = end_bytes(fi, content) + rest;
    assert(q =~= le_bytes(0, 4) + tail);
    lemma_u32_at_le_bytes(0, tail);
    assert(u32_at(q, 0) == 0);
    assert(q.skip(4) =~= tail);
    assert(block_info_of(0) == BlockInfo::EndMark);
    if fi.content_checksum {
        lemma_u32_at_le_bytes(c, rest);
        assert(tail.skip(4) =~= rest);
    } else {
        assert(tail =~= rest);
    }
    assert(end_mark_step(fi, content, tail) == (Ok::<Seq<u8>, Error>(Seq::empty()), rest));
}

/// A decoder in a frame of independent blocks reads a block the encoder wrote for `data` as
/// `data`, whatever it decoded before.
pub proof fn lemma_decoder_reads_independent_block(d: &Decoder, data: Seq<u8>, bytes: Seq<u8>, rest: Seq<u8>)
    requires
        d.wf(),
        d.frame_view() is Some,
        d.frame_view().unwrap().block_mode == BlockMode::Independent,
        is_block_of(bytes, d.frame_view().unwrap(), data, Seq::empty(), Seq::empty()),
        data.len() <= d.frame_view().unwrap().block_size.size_spec(),
        d.content_view().len() + data.len() <= u64::MAX,
        d.raw_view() == bytes + rest,
    ensures
        block_step(
            d.frame_view().unwrap(),
            d.content_view(),
            d.next_dict(),
            d.next_prefix(),
            d.next_room(),
            d.raw_view(),
        ) == (Ok::<Seq<u8>, Error>(data), rest),
        !is_end_mark(d.raw_view()),
{
    lemma_next_block_history(d);
    lemma_block_read_back(
        d.frame_view().unwrap(),
        d.content_view(),
        data,
        d.next_dict(),
        d.next_prefix(),
        bytes,
        d.next_room(),
        rest,
    );
}

/// Two histories that are both suffixes of `content`, each at least `WINDOW_SIZE` long or all
/// of it, agree on every byte a match can reach.
proof fn lemma_suffixes_agree(content: Seq<u8>, h1: Seq<u8>, h2: Seq<u8>)
    requires
        ends_with(content, h1),
        ends_with(content, h2),
        h1.len() >= WINDOW_SIZE || h1.len() == content.len(),
        h2.len() >= WINDOW_SIZE || h2.len() == content.len(),
    ensures
        window_agree(h1, h2),
{
    let k = if h1.len() <= h2.len() {
        h1.len()
    } else {
        h2.len()
    };
    assert(h1.skip(h1.len() - k) =~= content.skip(content.len() - k)) by {
        assert forall|i: int| 0 <= i < k implies #[trigger] h1.skip(h1.len() - k)[i] == content.skip(content.len() - k)[i] by {
            assert(content.skip(content.len() - h1.len())[h1.len() - k + i] == h1[h1.len() - k + i]);
        }
    }
    assert(h2.skip(h2.len() - k) =~= content.skip(content.len() - k)) by {
        assert forall|i: int| 0 <= i < k implies #[trigger] h2.skip(h2.len() - k)[i] == content.skip(content.len() - k)[i] by {
            assert(content.skip(content.len() - h2.len())[h2.len() - k + i] == h2[h2.len() - k + i]);
        }
    }
}

/// A decoder in a linked frame reads a block that an encoder of the same frame, at the same
/// content, wrote for `data` as `data`: the two keep different parts of the content as history,
/// but both keep every byte a match can reach.
pub proof fn lemma_decoder_reads_linked_block(
    d: &Decoder,
    e: &Encoder,
    data: Seq<u8>,
    bytes: Seq<u8>,
    rest: Seq<u8>,
)
    requires
        d.wf(),
        e.wf(),
        d.frame_view() == Some(e.frame_info_view()),
        e.frame_info_view().block_mode == BlockMode::Linked,
        d.content_view() == e.content_view(),
        is_block_of(bytes, e.frame_info_view(), data, e.block_dict(), e.block_prefix()),
        data.len() <= e.frame_info_view().block_size.size_spec(),
        d.content_view().len() + data.len() <= u64::MAX,
        d.raw_view() == bytes + rest,
    ensures
        block_step(
            e.frame_info_view(),
            d.content_view(),
            d.next_dict(),
            d.next_prefix(),
            d.next_room(),
            d.raw_view(),
        ) == (Ok::<Seq<u8>, Error>(data), rest),
        !is_end_mark(d.raw_view()),
{
    let fi = e.frame_info_view();
    let c = d.content_view();
    lemma_next_block_history(d);
    lemma_encoder_history(e);
    if bytes == block_bytes(fi, data.len() + 0x8000_0000, data) {
        lemma_stored_block_read_back(fi, c, data, d.next_dict(), d.next_prefix(), d.next_room(), rest);
    } else {
        let payload = choose|payload: Seq<u8>|
            {
                &&& 0 < #[trigger] payload.len() < data.len()
                &&& bytes == block_bytes(fi, payload.len(), payload)
                &&& crate::block::compress::block_decodes_to(payload, e.block_dict(), e.block_prefix() + data, e.block_prefix().len() as int)
            };
        let ed = e.block_dict();
        let ep = e.block_prefix();
        let dd = d.next_dict();
        let dp = d.next_prefix();
        lemma_decoded_with_own_history(payload, data, ed, ep, (ep.len() + data.len()) as int);
        lemma_suffixes_agree(c, ed + ep, dd + dp);
        let cap1: int = (ep.len() + data.len()) as int;
        let whole = ep + data;
        assert(crate::block::format::decode_at(payload, 0, ep, ed, cap1) == Ok::<Seq<u8>, crate::block::DecompressError>(
            ep + data,
        )) by {
            assert(whole.take(ep.len() as int) =~= ep);
        }
        assert(ep + Seq::<u8>::empty() =~= ep);
        assert(dp + Seq::<u8>::empty() =~= dp);
        lemma_decode_same_window(payload, 0, ed, ep, dd, dp, Seq::empty(), cap1, d.next_room(), data);
        assert((dp + data).skip(dp.len() as int) =~= data);
        lemma_compressed_block_read_back(fi, c, data, dd, dp, payload, d.next_room(), rest);
    }
}

} // verus!
