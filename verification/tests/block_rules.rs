use lz4_flex::block::{
    compress_into_with_mode, compress_with_dict,
    compress, compress_hc_to_vec, compress_hc_to_vec_with_table, compress_into, compress_into_with_table,
    compress_prepend_size, compress_with_mode, decompress, get_maximum_output_size, CompressTable, CompressTableHC,
    CompressionMode,
};

/// The sequences of a block: (literal count, match offset, match length), the last with no match.
fn sequences(block: &[u8]) -> Vec<(usize, usize, usize)> {
    let mut out = Vec::new();
    let mut i = 0;
    while i < block.len() {
        let token = block[i];
        i += 1;
        let mut lits = (token >> 4) as usize;
        if lits == 15 {
            loop {
                let b = block[i];
                i += 1;
                lits += b as usize;
                if b != 255 {
                    break;
                }
            }
        }
        i += lits;
        if i == block.len() {
            out.push((lits, 0, 0));
            break;
        }
        let offset = block[i] as usize | (block[i + 1] as usize) << 8;
        i += 2;
        let mut len = (token & 15) as usize;
        if len == 15 {
            loop {
                let b = block[i];
                i += 1;
                len += b as usize;
                if b != 255 {
                    break;
                }
            }
        }
        out.push((lits, offset, len + 4));
    }
    out
}

/// Checks the rules of the block format on `block`, a block of `n` bytes with no dictionary.
fn assert_rules(block: &[u8], n: usize) {
    let mut pos = 0;
    let seqs = sequences(block);
    for (k, &(lits, offset, len)) in seqs.iter().enumerate() {
        pos += lits;
        if k + 1 == seqs.len() {
            assert_eq!(len, 0);
            assert_eq!(pos, n);
        } else {
            assert!(len >= 4);
            assert!(1 <= offset && offset <= 65535 && offset <= pos);
            assert!(pos + len + 5 <= n, "a match reaches into the last literals");
            pos += len;
        }
    }
}

fn sample(len: usize) -> Vec<u8> {
    let mut state: u32 = 17;
    (0..len)
        .map(|i| {
            state = state.wrapping_mul(1_103_515_245).wrapping_add(12_345);
            if i % 7 < 4 {
                b"abcdefgh"[(state >> 16) as usize % 8]
            } else {
                (state >> 24) as u8
            }
        })
        .collect()
}

#[test]
fn short_inputs_are_literals_only() {
    for n in 0..13 {
        let input = vec![b'a'; n];
        let mut expected = vec![(n as u8) << 4];
        expected.extend_from_slice(&input);
        assert_eq!(compress(&input), expected);
        for level in [0u8, 3, 9, 10, 12] {
            assert_eq!(compress_hc_to_vec(&input, level), expected);
        }
    }
}

#[test]
fn twenty_equal_bytes_per_engine() {
    let input = [0x61u8; 20];
    let opt = compress_hc_to_vec(&input, 10);
    assert_eq!(opt, vec![0x1A, 0x61, 0x01, 0x00, 0x50, 0x61, 0x61, 0x61, 0x61, 0x61]);
    let mid = compress_hc_to_vec(&input, 1);
    assert_eq!(mid, vec![0x19, 0x61, 0x01, 0x00, 0x60, 0x61, 0x61, 0x61, 0x61, 0x61, 0x61]);
    let hc = compress_with_mode(&input, b"", CompressionMode::Hc);
    assert_eq!(hc, vec![0x1A, 0x61, 0x01, 0x00, 0x50, 0x61, 0x61, 0x61, 0x61, 0x61]);
    for block in [&opt, &mid, &hc] {
        assert_eq!(decompress(block, 20).unwrap(), input.to_vec());
    }
}

#[test]
fn every_engine_keeps_the_block_rules() {
    for &len in &[13usize, 64, 1000, 70_000] {
        let input = sample(len);
        assert_rules(&compress(&input), len);
        for level in [0u8, 2, 3, 9, 10, 12] {
            assert_rules(&compress_hc_to_vec(&input, level), len);
        }
        for mode in [CompressionMode::Hc, CompressionMode::Ultra] {
            assert_rules(&compress_with_mode(&input, b"", mode), len);
        }
    }
}

#[test]
fn compressors_are_deterministic_and_agree() {
    let input = sample(50_000);
    let fast = compress(&input);
    assert_eq!(compress(&input), fast);
    assert_eq!(compress_with_mode(&input, b"", CompressionMode::Fast), fast);
    let prepended = compress_prepend_size(&input);
    assert_eq!(&prepended[..4], &(input.len() as u32).to_le_bytes());
    assert_eq!(&prepended[4..], &fast[..]);

    let mut out = vec![0u8; get_maximum_output_size(input.len())];
    let n = compress_into(&input, &mut out).unwrap();
    assert_eq!(&out[..n], &fast[..]);
    let mut table = CompressTable::default();
    for _ in 0..2 {
        let mut again = vec![0u8; get_maximum_output_size(input.len())];
        let m = compress_into_with_table(&input, &mut again, &mut table).unwrap();
        assert_eq!(&again[..m], &fast[..]);
    }

    let twelve = compress_hc_to_vec(&input, 12);
    for level in [13u8, 20, 255] {
        assert_eq!(compress_hc_to_vec(&input, level), twelve);
    }
    let mut hc_table = CompressTableHC::new();
    for level in [9u8, 1, 12, 9] {
        assert_eq!(compress_hc_to_vec_with_table(&input, level, &mut hc_table), compress_hc_to_vec(&input, level));
    }
}

#[test]
fn higher_levels_compress_repetitive_input_well() {
    let input = vec![7u8; 5000];
    assert!(compress(&input).len() < 500);
    let nine = compress_hc_to_vec(&input, 9);
    let twelve = compress_hc_to_vec(&input, 12);
    assert!(twelve.len() <= nine.len());
}

/// Checks that every match of `block`, a block of `n` bytes, starts at least 12 bytes and ends
/// at least 6 bytes before the end.
fn assert_margins(block: &[u8], n: usize) {
    let mut pos = 0;
    let seqs = sequences(block);
    for (k, &(lits, _offset, len)) in seqs.iter().enumerate() {
        pos += lits;
        if k + 1 < seqs.len() {
            assert!(pos + 12 <= n, "a match starts within the last 12 bytes");
            assert!(pos + len + 6 <= n, "a match ends within the last 6 bytes");
            pos += len;
        }
    }
}

#[test]
fn fast_and_mid_matches_keep_their_margins() {
    for &len in &[13usize, 20, 64, 1000, 70_000] {
        let input = sample(len);
        assert_margins(&compress(&input), len);
        assert_margins(&compress_hc_to_vec(&input, 1), len);
        let equal = vec![b'z'; len];
        assert_margins(&compress(&equal), len);
        assert_margins(&compress_hc_to_vec(&equal, 2), len);
    }
    // 20 equal bytes: the fast match stops 6 bytes before the end.
    let twenty = [0x61u8; 20];
    assert_eq!(sequences(&compress(&twenty)), vec![(1, 1, 13), (6, 0, 0)]);
}

#[test]
fn small_dictionaries_are_not_used() {
    let input = sample(300);
    let plain = compress(&input);
    for dict in [&b""[..], &b"a"[..], &b"abc"[..]] {
        assert_eq!(compress_with_dict(&input, dict), plain);
        assert_eq!(compress_with_mode(&input, dict, CompressionMode::Fast), plain);
    }
}

#[test]
fn optimal_engines_fill_a_tight_output() {
    for mode in [CompressionMode::Hc, CompressionMode::Ultra] {
        let mut out = [0u8; 8];
        assert_eq!(compress_into_with_mode(b"abc", &mut out, b"", mode), Ok(4));
        assert_eq!(&out[..4], &[0x30, b'a', b'b', b'c']);
        let mut tiny = [0u8; 3];
        assert!(compress_into_with_mode(b"abc", &mut tiny, b"", mode).is_err());
    }
}
