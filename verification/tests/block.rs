use lz4_flex::block::compress::count_same_bytes;
use lz4_flex::block::decompress::{decompress_internal, does_token_fit};
use lz4_flex::block::{
    compress, compress_into, compress_into_with_dict, compress_into_with_table, compress_prepend_size,
    compress_prepend_size_with_dict, compress_with_dict, decompress, decompress_into, decompress_into_with_dict,
    decompress_size_prepended, decompress_size_prepended_with_dict, decompress_with_dict, get_maximum_output_size,
    uncompressed_size, CompressError, CompressTable, DecompressError, END_OFFSET,
};
use lz4_flex::sink::{Sink, SliceSink};

#[test]
fn test_count_same_bytes() {
    // 8byte aligned block, zeros and ones are added because the end/offset
    let first: &[u8] = &[
        1, 2, 3, 4, 1, 2, 3, 4, 1, 2, 3, 4, 1, 2, 3, 4, 0, 0, 0, 0, 0, 0, 0, 0, 0, 0, 0, 0,
    ];
    let second: &[u8] = &[
        1, 2, 3, 4, 1, 2, 3, 4, 1, 2, 3, 4, 1, 2, 3, 4, 1, 1, 1, 1, 1, 1, 1, 1, 1, 1, 1, 1,
    ];
    assert_eq!(count_same_bytes(first, &mut 0, second, 0, first.len() - END_OFFSET), 16);

    // 4byte aligned block
    let first: &[u8] = &[
        1, 2, 3, 4, 1, 2, 3, 4, 1, 2, 3, 4, 1, 2, 3, 4, 1, 2, 3, 4, 0, 0, 0, 0, 0, 0, 0, 0, 0, 0, 0, 0,
    ];
    let second: &[u8] = &[
        1, 2, 3, 4, 1, 2, 3, 4, 1, 2, 3, 4, 1, 2, 3, 4, 1, 2, 3, 4, 1, 1, 1, 1, 1, 1, 1, 1, 1, 1, 1, 1,
    ];
    assert_eq!(count_same_bytes(first, &mut 0, second, 0, first.len() - END_OFFSET), 20);

    // 2byte aligned block
    let first: &[u8] = &[
        1, 2, 3, 4, 1, 2, 3, 4, 1, 2, 3, 4, 1, 2, 3, 4, 1, 2, 3, 4, 3, 4, 0, 0, 0, 0, 0, 0, 0, 0, 0, 0, 0, 0,
    ];
    let second: &[u8] = &[
        1, 2, 3, 4, 1, 2, 3, 4, 1, 2, 3, 4, 1, 2, 3, 4, 1, 2, 3, 4, 3, 4, 1, 1, 1, 1, 1, 1, 1, 1, 1, 1, 1, 1,
    ];
    assert_eq!(count_same_bytes(first, &mut 0, second, 0, first.len() - END_OFFSET), 22);

    // 1byte aligned block
    let first: &[u8] = &[
        1, 2, 3, 4, 1, 2, 3, 4, 1, 2, 3, 4, 1, 2, 3, 4, 1, 2, 3, 4, 3, 4, 5, 0, 0, 0, 0, 0, 0, 0, 0, 0, 0, 0,
        0,
    ];
    let second: &[u8] = &[
        1, 2, 3, 4, 1, 2, 3, 4, 1, 2, 3, 4, 1, 2, 3, 4, 1, 2, 3, 4, 3, 4, 5, 1, 1, 1, 1, 1, 1, 1, 1, 1, 1, 1,
        1,
    ];
    assert_eq!(count_same_bytes(first, &mut 0, second, 0, first.len() - END_OFFSET), 23);

    // 1byte aligned block - last byte different
    let first: &[u8] = &[
        1, 2, 3, 4, 1, 2, 3, 4, 1, 2, 3, 4, 1, 2, 3, 4, 1, 2, 3, 4, 3, 4, 5, 0, 0, 0, 0, 0, 0, 0, 0, 0, 0, 0,
        0,
    ];
    let second: &[u8] = &[
        1, 2, 3, 4, 1, 2, 3, 4, 1, 2, 3, 4, 1, 2, 3, 4, 1, 2, 3, 4, 3, 4, 6, 1, 1, 1, 1, 1, 1, 1, 1, 1, 1, 1,
        1,
    ];
    assert_eq!(count_same_bytes(first, &mut 0, second, 0, first.len() - END_OFFSET), 22);

    // 1byte aligned block
    let first: &[u8] = &[
        1, 2, 3, 4, 1, 2, 3, 4, 1, 2, 3, 4, 1, 2, 3, 4, 1, 2, 3, 4, 3, 9, 5, 0, 0, 0, 0, 0, 0, 0, 0, 0, 0, 0,
        0,
    ];
    let second: &[u8] = &[
        1, 2, 3, 4, 1, 2, 3, 4, 1, 2, 3, 4, 1, 2, 3, 4, 1, 2, 3, 4, 3, 4, 6, 1, 1, 1, 1, 1, 1, 1, 1, 1, 1, 1,
        1,
    ];
    assert_eq!(count_same_bytes(first, &mut 0, second, 0, first.len() - END_OFFSET), 21);

    for diff_idx in 8..100 {
        let first: Vec<u8> = (0u8..255).cycle().take(100 + 12).collect();
        let mut second = first.clone();
        second[diff_idx] = 255;
        for start in 0..=diff_idx {
            let same_bytes = count_same_bytes(&first, &mut start.clone(), &second, start, first.len() - END_OFFSET);
            assert_eq!(same_bytes, diff_idx - start);
        }
    }
}

#[test]
fn compress_test_bug() {
    let input: &[u8] = &[
        10, 12, 14, 16, 18, 10, 12, 14, 16, 18, 10, 12, 14, 16, 18, 10, 12, 14, 16, 18,
    ];
    let _out = compress(input);
}

#[test]
fn test_dict() {
    let input: &[u8] = &[
        10, 12, 14, 16, 18, 10, 12, 14, 16, 18, 10, 12, 14, 16, 18, 10, 12, 14, 16, 18,
    ];
    let dict = input;
    let compressed = compress_with_dict(input, dict);
    assert!(compressed.len() < compress(input).len());

    assert!(compressed.len() < compress(input).len());
    let mut uncompressed = vec![0u8; input.len()];
    let uncomp_size = decompress_into_with_dict(&compressed, &mut uncompressed, dict).unwrap();
    uncompressed.truncate(uncomp_size);
    assert_eq!(input, uncompressed);
}

#[test]
fn test_dict_no_panic() {
    let input: &[u8] = &[
        10, 12, 14, 16, 18, 10, 12, 14, 16, 18, 10, 12, 14, 16, 18, 10, 12, 14, 16, 18,
    ];
    let dict = &[10, 12, 14];
    let _compressed = compress_with_dict(input, dict);
}

#[test]
fn test_dict_match_crossing() {
    let input: &[u8] = &[
        10, 12, 14, 16, 18, 10, 12, 14, 16, 18, 10, 12, 14, 16, 18, 10, 12, 14, 16, 18,
    ];
    let dict = input;
    let compressed = compress_with_dict(input, dict);
    assert!(compressed.len() < compress(input).len());

    let mut uncompressed = vec![0u8; input.len() * 2];
    // copy first half of the input into output
    let dict_cutoff = dict.len() / 2;
    let output_start = dict.len() - dict_cutoff;
    uncompressed[..output_start].copy_from_slice(&dict[dict_cutoff..]);
    let uncomp_len = {
        let mut sink = SliceSink::new(&mut uncompressed[..], output_start);
        decompress_internal(&compressed, &mut sink, &dict[..dict_cutoff]).unwrap()
    };
    assert_eq!(input.len(), uncomp_len);
    assert_eq!(input, &uncompressed[output_start..output_start + uncomp_len]);
}

#[test]
fn test_conformant_last_block() {
    // From the spec:
    // The last match must start at least 12 bytes before the end of block.
    // The last match is part of the penultimate sequence. It is followed by the last sequence,
    // which contains only literals. Note that, as a consequence, an independent block <
    // 13 bytes cannot be compressed, because the match must copy "something",
    // so it needs at least one prior byte.
    // When a block can reference data from another block, it can start immediately with a match
    // and no literal, so a block of 12 bytes can be compressed.
    let aaas: &[u8] = b"aaaaaaaaaaaaaaa";

    // incompressible
    let out = compress(&aaas[..12]);
    assert!(out.len() > 12);
    // compressible
    let out = compress(&aaas[..13]);
    assert!(out.len() <= 13);
    let out = compress(&aaas[..14]);
    assert!(out.len() <= 14);
    let out = compress(&aaas[..15]);
    assert!(out.len() <= 15);

    // dict incompressible
    let out = compress_with_dict(&aaas[..11], aaas);
    assert!(out.len() > 11);
    // compressible
    let out = compress_with_dict(&aaas[..12], aaas);
    // According to the spec this _could_ compress, but it doesn't in this lib
    // as it aborts compression for any input len < LZ4_MIN_LENGTH
    assert!(out.len() > 12);
    let out = compress_with_dict(&aaas[..13], aaas);
    assert!(out.len() <= 13);
    let out = compress_with_dict(&aaas[..14], aaas);
    assert!(out.len() <= 14);
    let out = compress_with_dict(&aaas[..15], aaas);
    assert!(out.len() <= 15);
}

#[test]
fn test_dict_size() {
    let dict = vec![b'a'; 1024 * 1024];
    let input = &b"aaaaaaaaaaaaaaaaaaaaaaaaaaaaa"[..];
    let compressed = compress_prepend_size_with_dict(input, &dict);
    let decompressed = decompress_size_prepended_with_dict(&compressed, &dict).unwrap();
    assert_eq!(decompressed, input);
}

#[test]
fn decompress_check_token() {
    assert!(!does_token_fit(15));
    assert!(does_token_fit(14));
    assert!(does_token_fit(114));
    assert!(!does_token_fit(0b11110000));
    assert!(does_token_fit(0b10110000));
}

#[test]
fn decompress_all_literal() {
    assert_eq!(decompress(&[0x30, b'a', b'4', b'9'], 3).unwrap(), b"a49");
}

#[test]
fn decompress_offset_oob() {
    decompress(&[0x10, b'a', 2, 0], 4).unwrap_err();
    decompress(&[0x40, b'a', 1, 0], 4).unwrap_err();
}

#[test]
fn decompress_safe_check_token() {
    assert!(!does_token_fit(15));
    assert!(does_token_fit(14));
    assert!(does_token_fit(114));
    assert!(!does_token_fit(0b11110000));
    assert!(does_token_fit(0b10110000));
}

#[test]
fn decompress_safe_all_literal() {
    assert_eq!(decompress(&[0x30, b'a', b'4', b'9'], 3).unwrap(), b"a49");
}

#[test]
fn decompress_safe_offset_oob() {
    decompress(&[0x10, b'a', 2, 0], 4).unwrap_err();
    decompress(&[0x40, b'a', 1, 0], 4).unwrap_err();
}

#[test]
fn test_sink_slice() {
    let mut data = vec![0; 5];
    let sink = SliceSink::new(&mut data, 1);
    assert_eq!(sink.pos(), 1);
    assert_eq!(sink.capacity(), 5);
}

// Further scenarios of the block API.

#[test]
fn block_roundtrip_prepend_size() {
    let input: &[u8] = b"Hello people, what's up?";
    let compressed = compress_prepend_size(input);
    let uncompressed = decompress_size_prepended(&compressed).unwrap();
    assert_eq!(input, uncompressed);
}

fn sample_inputs() -> Vec<Vec<u8>> {
    let mut inputs: Vec<Vec<u8>> = vec![
        Vec::new(),
        b"a".to_vec(),
        b"aaaaaaaaaaaaaaaaaaaaaaaaaaaaaaaaaaaaaaaaaaaaaaaaaaaaaaaaaaaaaaaaaaaaaaaaa".to_vec(),
        b"The quick brown fox jumps over the lazy dog. The quick brown fox jumps over the lazy dog.".to_vec(),
    ];
    let mut pseudo = Vec::new();
    let mut x: u32 = 12345;
    for _ in 0..100_000 {
        x = x.wrapping_mul(1103515245).wrapping_add(12345);
        pseudo.push(((x >> 16) % 7) as u8 + b'a');
    }
    inputs.push(pseudo);
    let mut long_literals = Vec::new();
    for i in 0..2000u32 {
        long_literals.push((i.wrapping_mul(2654435761) >> 13) as u8);
    }
    inputs.push(long_literals);
    inputs
}

#[test]
fn block_roundtrip_samples() {
    for input in sample_inputs() {
        let c = compress(&input);
        assert!(c.len() <= get_maximum_output_size(input.len()));
        assert_eq!(decompress(&c, input.len()).unwrap(), input);
        // a larger output buffer gives the same result
        assert_eq!(decompress(&c, input.len() + 100).unwrap(), input);
        let cd = compress_with_dict(&input, b"The quick brown fox");
        assert_eq!(decompress_with_dict(&cd, input.len(), b"The quick brown fox").unwrap(), input);
    }
}

#[test]
fn block_compress_into_output_too_small() {
    let input = b"aaaaaaaaaaaaaaaaaaaaaaaaaaaaaaaaaaaaaaaaaaaaaaa";
    let mut out = vec![7u8; get_maximum_output_size(input.len()) - 1];
    assert!(matches!(compress_into(input, &mut out), Err(CompressError::OutputTooSmall)));
    assert!(out.iter().all(|b| *b == 7));
    let mut out = vec![7u8; get_maximum_output_size(input.len())];
    let n = compress_into(input, &mut out).unwrap();
    assert!(out[n..].iter().all(|b| *b == 7));
    let mut back = vec![0u8; input.len()];
    assert_eq!(decompress_into(&out[..n], &mut back).unwrap(), input.len());
    assert_eq!(&back[..], &input[..]);
}

#[test]
fn block_compress_into_with_dict_roundtrip() {
    let dict = b"0123456789abcdef0123456789abcdef";
    let input = b"abcdef0123456789abcdef0123456789";
    let mut out = vec![0u8; get_maximum_output_size(input.len())];
    let n = compress_into_with_dict(input, &mut out, dict).unwrap();
    let mut back = vec![0u8; input.len()];
    assert_eq!(decompress_into_with_dict(&out[..n], &mut back, dict).unwrap(), input.len());
    assert_eq!(&back[..], &input[..]);
}

#[test]
fn block_compress_with_table_upgrades() {
    let mut table = CompressTable::default();
    let input: Vec<u8> = (0..70_000u32).map(|i| (i % 251) as u8).collect();
    let mut out = vec![0u8; get_maximum_output_size(input.len())];
    let n = compress_into_with_table(&input, &mut out, &mut table).unwrap();
    assert!(matches!(table, CompressTable::Large(_)));
    assert_eq!(decompress(&out[..n], input.len()).unwrap(), input);
    let mut small = CompressTable::small();
    let n = compress_into_with_table(b"hello hello hello hello", &mut out, &mut small).unwrap();
    assert!(matches!(small, CompressTable::Small(_)));
    assert_eq!(decompress(&out[..n], 23).unwrap(), b"hello hello hello hello");
    let mut large = CompressTable::large();
    let n = compress_into_with_table(b"hello hello hello hello", &mut out, &mut large).unwrap();
    assert_eq!(decompress(&out[..n], 23).unwrap(), b"hello hello hello hello");
}

#[test]
fn block_maximum_output_size_values() {
    assert_eq!(get_maximum_output_size(0), 20);
    assert_eq!(get_maximum_output_size(100), 130);
    assert_eq!(get_maximum_output_size(1000), 1120);
}

#[test]
fn block_decompress_errors() {
    // empty input
    assert!(matches!(decompress(&[], 10), Err(DecompressError::ExpectedAnotherByte)));
    // literal length beyond the input
    assert!(matches!(decompress(&[0x30, b'a'], 10), Err(DecompressError::LiteralOutOfBounds)));
    // output too small for the literals
    assert!(matches!(
        decompress(&[0x30, b'a', b'b', b'c'], 2),
        Err(DecompressError::OutputTooSmall { expected: 3, actual: 2 })
    ));
    // offset zero
    assert!(matches!(decompress(&[0x10, b'a', 0, 0], 10), Err(DecompressError::OffsetZero)));
    // offset before the start of the output
    assert!(matches!(decompress(&[0x10, b'a', 2, 0], 10), Err(DecompressError::OffsetOutOfBounds)));
    // missing offset byte
    assert!(matches!(decompress(&[0x10, b'a', 1], 10), Err(DecompressError::ExpectedAnotherByte)));
    // size prefix too short
    assert!(matches!(decompress_size_prepended(&[1, 0]), Err(DecompressError::ExpectedAnotherByte)));
    assert!(matches!(uncompressed_size(&[1, 2]), Err(DecompressError::ExpectedAnotherByte)));
    let (size, rest) = uncompressed_size(&[1, 2, 0, 0, 9]).unwrap();
    assert_eq!(size, 513);
    assert_eq!(rest, &[9]);
}

#[test]
fn block_overlapping_match_decodes() {
    // literal 'a' then a match of length 8 at offset 1, then the last literal run
    let input = [0x14, b'a', 1, 0, 0x10, b'b'];
    assert_eq!(decompress(&input, 20).unwrap(), b"aaaaaaaaab");
}

#[test]
fn compress_write_test_bug() {
    let input: &[u8] = &[10, 12, 14, 16, 18, 10, 12, 14, 16, 18, 10, 12, 14, 16, 18, 10, 12, 14, 16, 18];
    let out = compress(&input);
    assert_eq!(decompress(&out, input.len()).unwrap(), input);
}
