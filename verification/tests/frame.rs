use lz4_flex::frame::checksum::checksum;
use lz4_flex::frame::compress::Encoder;
use lz4_flex::frame::header::BlockInfo;
use lz4_flex::frame::raw_decompress::Decoder;
use lz4_flex::frame::{BlockMode, BlockSize, Error, FrameInfo};

fn sample(len: usize) -> Vec<u8> {
    let mut out = Vec::with_capacity(len);
    let mut state: u32 = 7;
    let mut i = 0usize;
    while out.len() < len {
        state = state.wrapping_mul(1103515245).wrapping_add(12345);
        if (state >> 16) % 4 == 0 {
            out.push((state >> 8) as u8);
        } else {
            out.extend_from_slice(format!("record {} value {};", i % 97, i % 13).as_bytes());
        }
        i += 1;
    }
    out.truncate(len);
    out
}

fn encode(fi: FrameInfo, data: &[u8], chunk: usize) -> Vec<u8> {
    let mut enc = Encoder::with_frame_info(fi);
    let mut out = Vec::new();
    for piece in data.chunks(chunk.max(1)) {
        assert_eq!(enc.write(piece, &mut out).unwrap(), piece.len());
    }
    enc.try_finish(&mut out).unwrap();
    out
}

/// Decodes all frames in `bytes`, pushed in pieces of `chunk` bytes whenever the decoder asks
/// for more input.
fn decode(bytes: &[u8], chunk: usize) -> Result<Vec<u8>, Error> {
    let mut dec = Decoder::new();
    let mut out = Vec::new();
    let mut pieces = bytes.chunks(chunk.max(1));
    loop {
        match dec.next_block() {
            Ok(block) => out.extend_from_slice(block),
            Err(Error::NeedMoreInput(n)) => match pieces.next() {
                Some(p) => dec.push(p),
                None => {
                    if dec.frame_info().is_none() && dec.input_len() == 0 {
                        return Ok(out);
                    }
                    return Err(Error::NeedMoreInput(n));
                }
            },
            Err(e) => return Err(e),
        }
    }
}

fn frame_infos() -> Vec<FrameInfo> {
    let mut out = Vec::new();
    for &mode in &[BlockMode::Independent, BlockMode::Linked] {
        for &checksums in &[false, true] {
            for &size in &[BlockSize::Max64KB, BlockSize::Max256KB] {
                let mut fi = FrameInfo::new();
                fi.block_mode = mode;
                fi.block_checksums = checksums;
                fi.content_checksum = checksums;
                fi.block_size = size;
                out.push(fi);
            }
        }
    }
    out
}

#[test]
fn frame_roundtrip_all_settings() {
    let data = sample(300_000);
    for fi in frame_infos() {
        let bytes = encode(fi, &data, 10_000);
        assert_eq!(decode(&bytes, bytes.len()).unwrap(), data);
    }
}

#[test]
fn frame_roundtrip_with_content_size() {
    let data = sample(150_000);
    let mut fi = FrameInfo::new();
    fi.content_size = Some(data.len() as u64);
    fi.block_mode = BlockMode::Linked;
    let bytes = encode(fi, &data, 4096);
    assert_eq!(decode(&bytes, bytes.len()).unwrap(), data);
}

#[test]
fn frame_linked_window_crosses_wrap() {
    // Enough linked 64 KiB blocks for the decoder's buffer to wrap around several times.
    let data = sample(1_000_000);
    let mut fi = FrameInfo::new();
    fi.block_mode = BlockMode::Linked;
    let bytes = encode(fi, &data, 70_000);
    assert_eq!(decode(&bytes, bytes.len()).unwrap(), data);
}

#[test]
fn frame_linked_compresses_better_than_independent() {
    let unit = sample(20_000);
    let mut data = Vec::new();
    for _ in 0..8 {
        data.extend_from_slice(&unit);
    }
    let mut linked = FrameInfo::new();
    linked.block_mode = BlockMode::Linked;
    let independent = FrameInfo::new();
    let a = encode(linked, &data, data.len());
    let b = encode(independent, &data, data.len());
    assert!(a.len() < b.len());
}

#[test]
fn frame_two_frames_in_a_row() {
    let first = sample(70_000);
    let second = b"second frame".to_vec();
    let mut enc = Encoder::new();
    let mut out = Vec::new();
    enc.write(&first, &mut out).unwrap();
    enc.try_finish(&mut out).unwrap();
    enc.write(&second, &mut out).unwrap();
    enc.try_finish(&mut out).unwrap();
    let mut all = first.clone();
    all.extend_from_slice(&second);
    assert_eq!(decode(&out, out.len()).unwrap(), all);
}

#[test]
fn frame_empty_write_writes_nothing() {
    let mut enc = Encoder::new();
    let mut out = Vec::new();
    assert_eq!(enc.write(b"", &mut out).unwrap(), 0);
    enc.try_finish(&mut out).unwrap();
    assert!(out.is_empty());
}

#[test]
fn frame_header_bytes() {
    let mut enc = Encoder::new();
    let mut out = Vec::new();
    enc.write(b"a", &mut out).unwrap();
    // magic number, FLG (version 01, independent blocks), BD (64 KiB), header checksum
    assert_eq!(&out[..4], &[0x04, 0x22, 0x4D, 0x18]);
    assert_eq!(out[4], 0x60);
    assert_eq!(out[5], 0x40);
    assert_eq!(out.len(), 7);
    enc.try_finish(&mut out).unwrap();
    // one stored block of one byte, then the end mark
    assert_eq!(&out[7..11], &[1, 0, 0, 0x80]);
    assert_eq!(out[11], b'a');
    assert_eq!(&out[12..], &[0, 0, 0, 0]);
}

#[test]
fn frame_info_write_read() {
    for mut fi in frame_infos() {
        fi.content_size = Some(123456789);
        let mut buf = [0u8; 19];
        let n = fi.write(&mut buf).unwrap();
        assert_eq!(n, 15);
        let back = FrameInfo::read(&buf[..n]).unwrap();
        assert_eq!(back.content_size, Some(123456789));
        assert_eq!(back.block_mode, fi.block_mode);
        assert_eq!(back.block_size, fi.block_size);
        assert_eq!(back.block_checksums, fi.block_checksums);
        assert_eq!(back.content_checksum, fi.content_checksum);
    }
}

#[test]
fn block_info_write_read() {
    for bi in [BlockInfo::Compressed(1234), BlockInfo::Uncompressed(77), BlockInfo::EndMark] {
        let mut buf = [0u8; 4];
        assert_eq!(bi.write(&mut buf).unwrap(), 4);
        assert_eq!(BlockInfo::read(&buf).unwrap(), bi);
    }
    let mut buf = [0u8; 4];
    assert_eq!(BlockInfo::Compressed(0).write(&mut buf), Err(Error::InvalidBlockInfo));
}

#[test]
fn decoder_wrong_magic() {
    let mut dec = Decoder::new();
    dec.push(&[1, 2, 3, 4, 5, 6, 7, 8]);
    assert_eq!(dec.next_block(), Err(Error::WrongMagicNumber));
}

#[test]
fn decoder_legacy_magic() {
    let mut dec = Decoder::new();
    dec.push(&[0x02, 0x21, 0x4C, 0x18, 0, 0, 0, 0]);
    assert_eq!(dec.next_block(), Err(Error::WrongMagicNumber));
}

#[test]
fn decoder_skippable_frame() {
    let mut dec = Decoder::new();
    dec.push(&[0x50, 0x2A, 0x4D, 0x18, 9, 0, 0, 0, 1, 2, 3]);
    assert_eq!(dec.next_block(), Err(Error::SkippableFrame(9)));
}

#[test]
fn decoder_short_header_needs_more() {
    let data = sample(1000);
    let bytes = encode(FrameInfo::new(), &data, 1000);
    let mut dec = Decoder::new();
    dec.push(&bytes[..2]);
    assert_eq!(dec.next_block(), Err(Error::NeedMoreInput(2)));
    // Nothing left to read is asked for as more input too.
    let mut dec = Decoder::new();
    assert_eq!(dec.next_block(), Err(Error::NeedMoreInput(4)));
    assert_eq!(dec.input_len(), 0);
}

#[test]
fn decoder_block_checksum_error() {
    let data = sample(5000);
    let mut fi = FrameInfo::new();
    fi.block_checksums = true;
    let mut bytes = encode(fi, &data, 5000);
    // corrupt the first byte of the first block's payload
    bytes[11] ^= 0xFF;
    let mut dec = Decoder::new();
    dec.push(&bytes);
    assert_eq!(dec.next_block(), Err(Error::BlockChecksumError));
}

#[test]
fn decoder_content_checksum_error() {
    let data = sample(5000);
    let mut fi = FrameInfo::new();
    fi.content_checksum = true;
    let mut bytes = encode(fi, &data, 5000);
    let last = bytes.len() - 1;
    bytes[last] ^= 0xFF;
    let mut dec = Decoder::new();
    dec.push(&bytes);
    let block = dec.next_block().unwrap().to_vec();
    assert_eq!(block, data);
    assert_eq!(dec.next_block(), Err(Error::ContentChecksumError));
}

#[test]
fn decoder_content_length_error() {
    let data = sample(5000);
    let mut fi = FrameInfo::new();
    fi.content_size = Some(4000);
    let mut enc = Encoder::with_frame_info(fi);
    let mut out = Vec::new();
    enc.write(&data, &mut out).unwrap();
    assert_eq!(
        enc.try_finish(&mut out),
        Err(Error::ContentLengthError { expected: 4000, actual: 5000 })
    );
    // Hand-made end mark after the block: the decoder checks the size too.
    out.extend_from_slice(&[0, 0, 0, 0]);
    let mut dec = Decoder::new();
    dec.push(&out);
    assert_eq!(dec.next_block().unwrap(), &data[..]);
    assert_eq!(dec.next_block(), Err(Error::ContentLengthError { expected: 4000, actual: 5000 }));
}

#[test]
fn decoder_block_too_big() {
    let mut dec = Decoder::new();
    let header = encode(FrameInfo::new(), b"", 1);
    assert!(header.is_empty());
    let mut enc = Encoder::new();
    let mut out = Vec::new();
    enc.write(b"x", &mut out).unwrap();
    // header only, then a stored block announcing more than 64 KiB
    let mut bytes = out[..7].to_vec();
    bytes.extend_from_slice(&(0x8000_0000u32 + 70_000).to_le_bytes());
    dec.push(&bytes);
    assert_eq!(dec.next_block(), Err(Error::BlockTooBig));
}

#[test]
fn decoder_pushed_in_pieces() {
    let data = sample(200_000);
    let mut fi = FrameInfo::new();
    fi.block_mode = BlockMode::Linked;
    fi.block_checksums = true;
    fi.content_checksum = true;
    let bytes = encode(fi, &data, 50_000);
    // A header pushed a byte at a time is asked for until it is whole, and nothing is taken.
    let mut dec = Decoder::new();
    for b in &bytes[..3] {
        dec.push(&[*b]);
    }
    assert_eq!(dec.next_block(), Err(Error::NeedMoreInput(1)));
    assert_eq!(dec.input_len(), 3);
    // Whatever the pieces, a retry after each push reads the same frame.
    for &chunk in &[1usize, 7, 1000, 65_536, bytes.len()] {
        assert_eq!(decode(&bytes, chunk).unwrap(), data);
    }
}

#[test]
fn decoder_short_block_keeps_input() {
    let data = sample(5000);
    let bytes = encode(FrameInfo::new(), &data, 5000);
    let mut dec = Decoder::new();
    // the header and half of the first block
    let cut = 7 + (bytes.len() - 7) / 2;
    dec.push(&bytes[..cut]);
    match dec.next_block() {
        Err(Error::NeedMoreInput(n)) => assert!(n > 0),
        other => panic!("expected NeedMoreInput, got {:?}", other),
    }
    assert_eq!(dec.input_len(), cut - 7);
    let first = dec.next_block().map(|b| b.to_vec());
    let again = dec.next_block().map(|b| b.to_vec());
    assert_eq!(first, again);
    assert_eq!(dec.input_len(), cut - 7);
    dec.push(&bytes[cut..]);
    assert_eq!(dec.next_block().unwrap(), &data[..]);
    assert_eq!(dec.next_block().unwrap(), &[] as &[u8]);
    assert!(dec.frame_info().is_none());
    assert_eq!(dec.next_block(), Err(Error::NeedMoreInput(4)));
}

#[test]
fn checksum_is_xxh32_with_seed_zero() {
    assert_eq!(checksum(b""), 0x02CC_5D05);
    assert_eq!(checksum(b"a"), 0x550D_7456);
    assert_eq!(checksum(b"abc"), 0x32D1_53FF);
}

#[test]
fn frame_pieces_decode_like_the_whole() {
    let data = sample(5_000);
    for fi in frame_infos() {
        let bytes = encode(fi, &data, 777);
        let whole = decode(&bytes, bytes.len()).unwrap();
        assert_eq!(whole, data);
        for chunk in [1usize, 3, 13, 4096] {
            assert_eq!(decode(&bytes, chunk).unwrap(), whole);
        }
    }
}
