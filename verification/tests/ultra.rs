use lz4_flex::block::ultra::sais::build_suffix_array;
use lz4_flex::block::ultra::suffix_order::{check_suffix_array, suffix_array_by_selection, suffix_less};
use lz4_flex::block::{
    compress_into_with_mode, compress_prepend_size_with_mode, compress_with_mode, decompress, decompress_size_prepended,
    decompress_with_dict, get_maximum_output_size, CompressError, CompressionMode,
};

/// Reference O(n^2 log n) suffix array for cross-checking.
fn naive_suffix_array(input: &[u8]) -> Vec<i32> {
    let mut sa: Vec<i32> = (0..input.len() as i32).collect();
    sa.sort_by(|&a, &b| input[a as usize..].cmp(&input[b as usize..]));
    sa
}

/// The bytes as the symbols the suffix order compares.
fn symbols(input: &[u8]) -> Vec<u32> {
    input.iter().map(|&b| b as u32).collect()
}

fn check(input: &[u8]) {
    let got = build_suffix_array(input);
    let want = naive_suffix_array(input);
    assert_eq!(got, want, "suffix array mismatch for input {input:?}");
}

#[test]
fn empty() {
    assert!(build_suffix_array(b"").is_empty());
}

#[test]
fn single() {
    check(b"a");
    check(&[0u8]);
    check(&[255u8]);
}

#[test]
fn classic_strings() {
    check(b"banana");
    check(b"mississippi");
    check(b"abracadabra");
    check(b"aaaaaa");
    check(b"the quick brown fox jumps over the lazy dog");
}

#[test]
fn with_zero_bytes() {
    check(&[0, 1, 0, 2, 0, 0, 1, 0]);
    check(&[0, 0, 0, 0, 0]);
    check(&[5, 0, 5, 0, 5]);
}

#[test]
fn pseudo_random() {
    // Deterministic xorshift so the test is reproducible without rand.
    let mut state: u64 = 0x9E3779B97F4A7C15;
    let mut next = || {
        state ^= state << 13;
        state ^= state >> 7;
        state ^= state << 17;
        state
    };
    for &len in &[2usize, 3, 7, 16, 31, 64, 100, 257, 1000, 4096] {
        for alphabet in &[2u8, 4, 16, 255] {
            let data: Vec<u8> = (0..len).map(|_| (next() % *alphabet as u64) as u8).collect();
            check(&data);
        }
    }
}

fn samples() -> Vec<Vec<u8>> {
    let mut out: Vec<Vec<u8>> = vec![
        Vec::new(),
        b"a".to_vec(),
        b"aaaaaaaaaaaaaaaaaaaaaaaaaaaaaaaaaaaaaaaa".to_vec(),
        b"The quick brown fox jumps over the lazy dog. The quick brown fox jumps over the lazy dog.".to_vec(),
        b"abcabcabcabcabcabcabcabcabcabcabcabcabcabcabcabcabc".to_vec(),
    ];
    let mut text = Vec::new();
    for i in 0..3000u32 {
        text.extend_from_slice(format!("line {} of the sample, value {}\n", i, i * 7 % 13).as_bytes());
    }
    out.push(text);
    let mut state: u32 = 12345;
    let mut noise = Vec::new();
    for _ in 0..5000 {
        state = state.wrapping_mul(1103515245).wrapping_add(12345);
        noise.push((state >> 16) as u8);
    }
    out.push(noise);
    out
}

#[test]
fn ultra_modes_roundtrip() {
    for input in samples() {
        for mode in [CompressionMode::Fast, CompressionMode::Ultra, CompressionMode::Hc] {
            let compressed = compress_with_mode(&input, b"", mode);
            assert!(compressed.len() <= get_maximum_output_size(input.len()));
            assert_eq!(decompress(&compressed, input.len()).unwrap(), input);
            let prepended = compress_prepend_size_with_mode(&input, b"", mode);
            assert_eq!(decompress_size_prepended(&prepended).unwrap(), input);
        }
    }
}

#[test]
fn ultra_modes_with_dict_roundtrip() {
    let dict = b"The quick brown fox jumps over the lazy dog. line 1 of the sample, value 7\n".repeat(2000);
    for input in samples() {
        for mode in [CompressionMode::Fast, CompressionMode::Ultra, CompressionMode::Hc] {
            let compressed = compress_with_mode(&input, &dict, mode);
            assert_eq!(decompress_with_dict(&compressed, input.len(), &dict).unwrap(), input);
        }
    }
}

#[test]
fn ultra_beats_fast_on_text() {
    let input = &samples()[5];
    let fast = compress_with_mode(input, b"", CompressionMode::Fast);
    let ultra = compress_with_mode(input, b"", CompressionMode::Ultra);
    let hc = compress_with_mode(input, b"", CompressionMode::Hc);
    assert!(ultra.len() < fast.len());
    assert!(hc.len() < fast.len());
}

#[test]
fn ultra_compress_into_too_small() {
    let input = &samples()[6];
    let mut small = vec![0u8; 100];
    for mode in [CompressionMode::Fast, CompressionMode::Ultra, CompressionMode::Hc] {
        assert_eq!(compress_into_with_mode(input, &mut small, b"", mode), Err(CompressError::OutputTooSmall));
    }
    let mut big = vec![0u8; get_maximum_output_size(input.len())];
    for mode in [CompressionMode::Fast, CompressionMode::Ultra, CompressionMode::Hc] {
        let n = compress_into_with_mode(input, &mut big, b"", mode).unwrap();
        assert_eq!(decompress(&big[..n], input.len()).unwrap(), *input);
    }
}

#[test]
fn compression_mode_default_is_fast() {
    assert_eq!(CompressionMode::default(), CompressionMode::Fast);
}

#[test]
fn suffix_check_accepts_built_arrays_and_rejects_others() {
    for input in [&b"banana"[..], b"mississippi", b"aaaaaaa", b"abcabcabx", b"\x00\x00\x01"] {
        let sa = build_suffix_array(input);
        assert!(check_suffix_array(&symbols(input), &sa));
        let mut swapped = sa.clone();
        swapped.swap(0, 1);
        assert!(!check_suffix_array(&symbols(input), &swapped));
        let mut repeated = sa.clone();
        repeated[1] = repeated[0];
        assert!(!check_suffix_array(&symbols(input), &repeated));
        assert!(!check_suffix_array(&symbols(input), &sa[1..].to_vec()));
    }
    let mut out_of_range = build_suffix_array(b"banana");
    out_of_range[2] = 6;
    assert!(!check_suffix_array(&symbols(b"banana"), &out_of_range));
}

#[test]
fn selection_suffix_array_matches_induced_sort() {
    for input in [&b""[..], b"a", b"banana", b"mississippi", b"aaaaaaa", b"abracadabra\x00abra"] {
        assert_eq!(suffix_array_by_selection(&symbols(input)), build_suffix_array(input));
        assert_eq!(suffix_array_by_selection(&symbols(input)), naive_suffix_array(input));
    }
}

#[test]
fn suffix_order_puts_prefixes_first() {
    let s = &symbols(b"abab");
    assert!(suffix_less(s, 2, 0)); // "ab" < "abab"
    assert!(!suffix_less(s, 0, 2));
    assert!(suffix_less(s, 4, 3)); // the empty suffix is the smallest
    assert!(!suffix_less(s, 1, 1));
    assert!(suffix_less(s, 0, 1)); // "abab" < "bab"
    // symbols beyond the byte range compare as numbers
    let wide = [300u32, 2, 300, 1];
    assert!(suffix_less(&wide, 1, 0));
    assert!(suffix_less(&wide, 2, 0)); // [300, 1] < [300, 2, 300, 1]
    assert_eq!(suffix_array_by_selection(&wide), vec![3, 1, 2, 0]);
}
