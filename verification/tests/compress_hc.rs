use lz4_flex::block::{compress_hc, decompress};
use lz4_flex::sink::SliceSink;
use lz4_flex::block::compress_hc::{compress_hc_linked, hc_level_params, CompressTableHC};
use lz4_flex::block::{decompress_with_dict, CompressError};

fn hc_compressed_size(input: &[u8], level: u8) -> usize {
    let mut output = vec![0u8; input.len() * 2 + 100];
    let mut sink = SliceSink::new(&mut output, 0);
    compress_hc(input, &mut sink, level).unwrap()
}

#[test]
fn tests_test_compress_hc_basic() {
    let input = b"Hello, this is a test string that should be compressed!";
    let mut output = vec![0u8; input.len() * 2]; // Ensure enough space
    let mut sink = SliceSink::new(&mut output, 0);

    let result = compress_hc(input, &mut sink, 17);
    assert!(result.is_ok());

    let compressed_size = result.unwrap();
    assert!(compressed_size > 0);
    let result = decompress(&output[..compressed_size], input.len());
    assert!(result.is_ok());
    assert_eq!(&input[..], &result.unwrap()[..])
}

#[test]
fn tests_test_compress_hc_small_input() {
    let input = b"Hi"; // Too small to compress
    let mut output = vec![0u8; 100];
    let mut sink = SliceSink::new(&mut output, 0);

    let result = compress_hc(input, &mut sink, 17);
    assert!(result.is_ok());

    let compressed_size = result.unwrap();
    assert!(compressed_size > 0);
    let result = decompress(&output[..compressed_size], input.len());
    assert!(result.is_ok());
    assert_eq!(&input[..], &result.unwrap()[..])
}

#[test]
fn tests_test_compress_hc_repeated_pattern() {
    let input = b"AAAAAAAAAAABBBBBAAABBBBBBBAAAAAAA"; // Highly compressible
    let mut output = vec![0u8; input.len() * 2];
    let mut sink = SliceSink::new(&mut output, 0);

    let result = compress_hc(input, &mut sink, 17);
    assert!(result.is_ok());

    let compressed_size = result.unwrap();
    assert!(compressed_size > 0);
    let result = decompress(&output[..compressed_size], input.len() * 8);
    assert!(result.is_ok());
    assert_eq!(&input[..], &result.unwrap()[..])
}

#[test]
fn tests_test_compress_hc_level_10() {
    // Level 10 uses optimal parsing
    let input = b"Hello, this is a test string that should be compressed!";
    let mut output = vec![0u8; input.len() * 2];
    let mut sink = SliceSink::new(&mut output, 0);

    let result = compress_hc(input, &mut sink, 10);
    assert!(result.is_ok());

    let compressed_size = result.unwrap();
    assert!(compressed_size > 0);
    let result = decompress(&output[..compressed_size], input.len());
    assert!(result.is_ok());
    assert_eq!(&input[..], &result.unwrap()[..])
}

#[test]
fn tests_test_compress_hc_level_10_small_input() {
    let input = b"Hi"; // Too small to compress
    let mut output = vec![0u8; 100];
    let mut sink = SliceSink::new(&mut output, 0);

    let result = compress_hc(input, &mut sink, 10);
    assert!(result.is_ok());

    let compressed_size = result.unwrap();
    assert!(compressed_size > 0);
    let result = decompress(&output[..compressed_size], input.len());
    assert!(result.is_ok());
    assert_eq!(&input[..], &result.unwrap()[..])
}

#[test]
fn tests_test_compress_hc_level_10_repeated_pattern() {
    let input = b"AAAAAAAAAAABBBBBAAABBBBBBBAAAAAAA"; // Highly compressible
    let mut output = vec![0u8; input.len() * 2];
    let mut sink = SliceSink::new(&mut output, 0);

    let result = compress_hc(input, &mut sink, 10);
    assert!(result.is_ok());

    let compressed_size = result.unwrap();
    assert!(compressed_size > 0);
    let result = decompress(&output[..compressed_size], input.len() * 8);
    assert!(result.is_ok());
    assert_eq!(&input[..], &result.unwrap()[..])
}

#[test]
fn tests_test_compress_hc_level_11() {
    let input = b"The quick brown fox jumps over the lazy dog. The quick brown fox jumps over the lazy dog.";
    let mut output = vec![0u8; input.len() * 2];
    let mut sink = SliceSink::new(&mut output, 0);

    let result = compress_hc(input, &mut sink, 11);
    assert!(result.is_ok());

    let compressed_size = result.unwrap();
    assert!(compressed_size > 0);
    let result = decompress(&output[..compressed_size], input.len());
    assert!(result.is_ok());
    assert_eq!(&input[..], &result.unwrap()[..])
}

#[test]
fn tests_test_compress_hc_level_12() {
    let input = b"The quick brown fox jumps over the lazy dog. The quick brown fox jumps over the lazy dog.";
    let mut output = vec![0u8; input.len() * 2];
    let mut sink = SliceSink::new(&mut output, 0);

    let result = compress_hc(input, &mut sink, 12);
    assert!(result.is_ok());

    let compressed_size = result.unwrap();
    assert!(compressed_size > 0);
    let result = decompress(&output[..compressed_size], input.len());
    assert!(result.is_ok());
    assert_eq!(&input[..], &result.unwrap()[..])
}

#[test]
fn tests_test_compress_hc_level_12_better_than_level_9() {
    // Level 12 (optimal) should produce same or smaller output than level 9 (HC)
    let input: Vec<u8> = (0..1000)
        .map(|i| {
            let patterns = [b"ABCD", b"EFGH", b"IJKL", b"MNOP"];
            patterns[(i / 50) % 4][i % 4]
        })
        .collect();

    let mut output_hc = vec![0u8; input.len() * 2];
    let mut sink_hc = SliceSink::new(&mut output_hc, 0);
    let hc_size = compress_hc(&input, &mut sink_hc, 9).unwrap();

    let mut output_opt = vec![0u8; input.len() * 2];
    let mut sink_opt = SliceSink::new(&mut output_opt, 0);
    let opt_size = compress_hc(&input, &mut sink_opt, 12).unwrap();

    // Optimal should produce same or smaller output
    assert!(
        opt_size <= hc_size,
        "Level 12 ({}) should be <= Level 9 ({})",
        opt_size,
        hc_size
    );

    // Both should decompress correctly
    let result_hc = decompress(&output_hc[..hc_size], input.len());
    assert!(result_hc.is_ok());
    assert_eq!(&input[..], &result_hc.unwrap()[..]);

    let result_opt = decompress(&output_opt[..opt_size], input.len());
    assert!(result_opt.is_ok());
    assert_eq!(&input[..], &result_opt.unwrap()[..]);
}

#[test]
fn tests_test_compress_hc_level_10_large_input() {
    // Test with a larger input to exercise the optimal algorithm
    let input: Vec<u8> = (0..10000).map(|i| ((i * 7 + 13) % 256) as u8).collect();

    let mut output = vec![0u8; input.len() * 2];
    let mut sink = SliceSink::new(&mut output, 0);

    let result = compress_hc(&input, &mut sink, 10);
    assert!(result.is_ok());

    let compressed_size = result.unwrap();
    assert!(compressed_size > 0);
    let result = decompress(&output[..compressed_size], input.len());
    assert!(result.is_ok());
    assert_eq!(&input[..], &result.unwrap()[..])
}

#[test]
fn tests_test_compress_hc_level_10_all_same() {
    // Test with all same bytes - highly compressible
    let input = vec![0x42u8; 5000];
    let mut output = vec![0u8; input.len() * 2];
    let mut sink = SliceSink::new(&mut output, 0);

    let result = compress_hc(&input, &mut sink, 10);
    assert!(result.is_ok());

    let compressed_size = result.unwrap();
    assert!(compressed_size > 0);
    // Should compress very well
    assert!(
        compressed_size < input.len() / 10,
        "Should compress very well"
    );

    let result = decompress(&output[..compressed_size], input.len());
    assert!(result.is_ok());
    assert_eq!(&input[..], &result.unwrap()[..])
}

/// Exact compressed sizes for larger structured inputs. These inputs separate
/// the different HC strategies much better than tiny toy strings, so they are
/// useful as a regression net for compression ratio changes.
#[test]
fn test_compressed_sizes_exact() {
    let html_like: Vec<u8> = (0..10_000)
        .flat_map(|i| match i % 7 {
            0 => b"<div class=\"item\">".to_vec(),
            1 => format!("content {i} here ").into_bytes(),
            2 => b"</div>\n".to_vec(),
            3 => b"<span style=\"color:red\">".to_vec(),
            4 => format!("value={i} ").into_bytes(),
            5 => b"</span>".to_vec(),
            _ => b"<br/>\n".to_vec(),
        })
        .collect();

    let json_like: Vec<u8> = (0..2_000)
        .flat_map(|i| {
            format!(
                "{{\"id\":{i},\"name\":\"user_{}\",\"score\":{},\"active\":true}},\n",
                i % 100,
                i * 7 % 1000,
            )
            .into_bytes()
        })
        .collect();

    let code_like: Vec<u8> = (0..3_000)
        .flat_map(|i| match i % 5 {
            0 => format!("    let value_{} = compute(input[{}]);\n", i % 50, i).into_bytes(),
            1 => b"    if value > threshold {\n".to_vec(),
            2 => format!("        result += value_{} * weight;\n", i % 50).into_bytes(),
            3 => b"    }\n".to_vec(),
            _ => format!("    // step {i}\n").into_bytes(),
        })
        .collect();

    // (level, html_like, json_like, code_like)
    let expected: &[(u8, usize, usize, usize)] = &[
        (1, 16_350, 16_183, 6_246),
        (4, 15_620, 16_198, 6_071),
        (9, 15_509, 15_698, 5_985),
        (10, 15_153, 15_102, 5_990),
        (12, 15_100, 15_083, 5_979),
    ];

    for &(level, expected_html_like, expected_json_like, expected_code_like) in expected {
        assert_eq!(
            hc_compressed_size(&html_like, level),
            expected_html_like,
            "html_like @ level {level}"
        );
        assert_eq!(
            hc_compressed_size(&json_like, level),
            expected_json_like,
            "json_like @ level {level}"
        );
        assert_eq!(
            hc_compressed_size(&code_like, level),
            expected_code_like,
            "code_like @ level {level}"
        );
    }
}

#[test]
fn tests_test_compress_hc_level_clamping() {
    // Test that levels are clamped correctly
    let input = b"The quick brown fox jumps over the lazy dog. The quick brown fox.";

    // Level 0 should be clamped to 1
    let mut output = vec![0u8; input.len() * 2];
    let mut sink = SliceSink::new(&mut output, 0);
    let result = compress_hc(input, &mut sink, 0);
    assert!(result.is_ok());
    let size_level_0 = result.unwrap();
    let decompressed = decompress(&output[..size_level_0], input.len()).unwrap();
    assert_eq!(&input[..], &decompressed[..]);

    // Level 20 should be clamped to 12
    let mut output = vec![0u8; input.len() * 2];
    let mut sink = SliceSink::new(&mut output, 0);
    let result = compress_hc(input, &mut sink, 20);
    assert!(result.is_ok());
    let size_level_20 = result.unwrap();
    let decompressed = decompress(&output[..size_level_20], input.len()).unwrap();
    assert_eq!(&input[..], &decompressed[..]);
}
#[test]
fn compress_hc_test_compress_hc_basic() {
    let input = b"Hello, this is a test string that should be compressed!";
    let mut output = vec![0u8; input.len() * 2]; // Ensure enough space
    let mut sink = SliceSink::new(&mut output, 0);

    let result = compress_hc(input, &mut sink, 17);
    assert!(result.is_ok());

    let compressed_size = result.unwrap();
    assert!(compressed_size > 0);
    let result = decompress(&output[..compressed_size], input.len());
    assert!(result.is_ok());
    assert_eq!(&input[..], &result.unwrap()[..])
}

#[test]
fn compress_hc_test_compress_hc_small_input() {
    let input = b"Hi"; // Too small to compress
    let mut output = vec![0u8; 100];
    let mut sink = SliceSink::new(&mut output, 0);

    let result = compress_hc(input, &mut sink, 17);
    assert!(result.is_ok());

    let compressed_size = result.unwrap();
    assert!(compressed_size > 0);
    let result = decompress(&output[..compressed_size], input.len());
    assert!(result.is_ok());
    assert_eq!(&input[..], &result.unwrap()[..])
}

#[test]
fn compress_hc_test_compress_hc_repeated_pattern() {
    let input = b"AAAAAAAAAAABBBBBAAABBBBBBBAAAAAAA"; // Highly compressible
    let mut output = vec![0u8; input.len() * 2];
    let mut sink = SliceSink::new(&mut output, 0);

    let result = compress_hc(input, &mut sink, 17);
    assert!(result.is_ok());

    let compressed_size = result.unwrap();
    assert!(compressed_size > 0);
    let result = decompress(&output[..compressed_size], input.len() * 8);
    assert!(result.is_ok());
    assert_eq!(&input[..], &result.unwrap()[..])
}

#[test]
fn compress_hc_test_compress_hc_level_10() {
    // Level 10 uses optimal parsing
    let input = b"Hello, this is a test string that should be compressed!";
    let mut output = vec![0u8; input.len() * 2];
    let mut sink = SliceSink::new(&mut output, 0);

    let result = compress_hc(input, &mut sink, 10);
    assert!(result.is_ok());

    let compressed_size = result.unwrap();
    assert!(compressed_size > 0);
    let result = decompress(&output[..compressed_size], input.len());
    assert!(result.is_ok());
    assert_eq!(&input[..], &result.unwrap()[..])
}

#[test]
fn compress_hc_test_compress_hc_level_10_small_input() {
    let input = b"Hi"; // Too small to compress
    let mut output = vec![0u8; 100];
    let mut sink = SliceSink::new(&mut output, 0);

    let result = compress_hc(input, &mut sink, 10);
    assert!(result.is_ok());

    let compressed_size = result.unwrap();
    assert!(compressed_size > 0);
    let result = decompress(&output[..compressed_size], input.len());
    assert!(result.is_ok());
    assert_eq!(&input[..], &result.unwrap()[..])
}

#[test]
fn compress_hc_test_compress_hc_level_10_repeated_pattern() {
    let input = b"AAAAAAAAAAABBBBBAAABBBBBBBAAAAAAA"; // Highly compressible
    let mut output = vec![0u8; input.len() * 2];
    let mut sink = SliceSink::new(&mut output, 0);

    let result = compress_hc(input, &mut sink, 10);
    assert!(result.is_ok());

    let compressed_size = result.unwrap();
    assert!(compressed_size > 0);
    let result = decompress(&output[..compressed_size], input.len() * 8);
    assert!(result.is_ok());
    assert_eq!(&input[..], &result.unwrap()[..])
}

#[test]
fn compress_hc_test_compress_hc_level_11() {
    let input = b"The quick brown fox jumps over the lazy dog. The quick brown fox jumps over the lazy dog.";
    let mut output = vec![0u8; input.len() * 2];
    let mut sink = SliceSink::new(&mut output, 0);

    let result = compress_hc(input, &mut sink, 11);
    assert!(result.is_ok());

    let compressed_size = result.unwrap();
    assert!(compressed_size > 0);
    let result = decompress(&output[..compressed_size], input.len());
    assert!(result.is_ok());
    assert_eq!(&input[..], &result.unwrap()[..])
}

#[test]
fn compress_hc_test_compress_hc_level_12() {
    let input = b"The quick brown fox jumps over the lazy dog. The quick brown fox jumps over the lazy dog.";
    let mut output = vec![0u8; input.len() * 2];
    let mut sink = SliceSink::new(&mut output, 0);

    let result = compress_hc(input, &mut sink, 12);
    assert!(result.is_ok());

    let compressed_size = result.unwrap();
    assert!(compressed_size > 0);
    let result = decompress(&output[..compressed_size], input.len());
    assert!(result.is_ok());
    assert_eq!(&input[..], &result.unwrap()[..])
}

#[test]
fn compress_hc_test_compress_hc_level_12_better_than_level_9() {
    // Level 12 (optimal) should produce same or smaller output than level 9 (HC)
    let input: Vec<u8> = (0..1000)
        .map(|i| {
            let patterns = [b"ABCD", b"EFGH", b"IJKL", b"MNOP"];
            patterns[(i / 50) % 4][i % 4]
        })
        .collect();

    let mut output_hc = vec![0u8; input.len() * 2];
    let mut sink_hc = SliceSink::new(&mut output_hc, 0);
    let hc_size = compress_hc(&input, &mut sink_hc, 9).unwrap();

    let mut output_opt = vec![0u8; input.len() * 2];
    let mut sink_opt = SliceSink::new(&mut output_opt, 0);
    let opt_size = compress_hc(&input, &mut sink_opt, 12).unwrap();

    // Optimal should produce same or smaller output
    assert!(
        opt_size <= hc_size,
        "Level 12 ({}) should be <= Level 9 ({})",
        opt_size,
        hc_size
    );

    // Both should decompress correctly
    let result_hc = decompress(&output_hc[..hc_size], input.len());
    assert!(result_hc.is_ok());
    assert_eq!(&input[..], &result_hc.unwrap()[..]);

    let result_opt = decompress(&output_opt[..opt_size], input.len());
    assert!(result_opt.is_ok());
    assert_eq!(&input[..], &result_opt.unwrap()[..]);
}

#[test]
fn compress_hc_test_compress_hc_level_10_large_input() {
    // Test with a larger input to exercise the optimal algorithm
    let input: Vec<u8> = (0..10000).map(|i| ((i * 7 + 13) % 256) as u8).collect();

    let mut output = vec![0u8; input.len() * 2];
    let mut sink = SliceSink::new(&mut output, 0);

    let result = compress_hc(&input, &mut sink, 10);
    assert!(result.is_ok());

    let compressed_size = result.unwrap();
    assert!(compressed_size > 0);
    let result = decompress(&output[..compressed_size], input.len());
    assert!(result.is_ok());
    assert_eq!(&input[..], &result.unwrap()[..])
}

#[test]
fn compress_hc_test_compress_hc_level_10_all_same() {
    // Test with all same bytes - highly compressible
    let input = vec![0x42u8; 5000];
    let mut output = vec![0u8; input.len() * 2];
    let mut sink = SliceSink::new(&mut output, 0);

    let result = compress_hc(&input, &mut sink, 10);
    assert!(result.is_ok());

    let compressed_size = result.unwrap();
    assert!(compressed_size > 0);
    // Should compress very well
    assert!(
        compressed_size < input.len() / 10,
        "Should compress very well"
    );

    let result = decompress(&output[..compressed_size], input.len());
    assert!(result.is_ok());
    assert_eq!(&input[..], &result.unwrap()[..])
}

#[test]
fn compress_hc_test_compress_hc_level_clamping() {
    // Test that levels are clamped correctly
    let input = b"The quick brown fox jumps over the lazy dog. The quick brown fox.";

    // Level 0 should be clamped to 1
    let mut output = vec![0u8; input.len() * 2];
    let mut sink = SliceSink::new(&mut output, 0);
    let result = compress_hc(input, &mut sink, 0);
    assert!(result.is_ok());
    let size_level_0 = result.unwrap();
    let decompressed = decompress(&output[..size_level_0], input.len()).unwrap();
    assert_eq!(&input[..], &decompressed[..]);

    // Level 20 should be clamped to 12
    let mut output = vec![0u8; input.len() * 2];
    let mut sink = SliceSink::new(&mut output, 0);
    let result = compress_hc(input, &mut sink, 20);
    assert!(result.is_ok());
    let size_level_20 = result.unwrap();
    let decompressed = decompress(&output[..size_level_20], input.len()).unwrap();
    assert_eq!(&input[..], &decompressed[..]);
}

#[test]
fn linked_hc_blocks_decode_against_previous_block() {

    let first: Vec<u8> = (0..2000u32).map(|i| (i * 7 % 251) as u8).collect();
    let mut second = first.clone();
    second[10] ^= 0x55;
    let mut input = first.clone();
    input.extend_from_slice(&second);

    for level in [1u8, 6, 11] {
        let params = hc_level_params(level);
        let mut table = CompressTableHC::new();
        table.prepare_linked_block(params, 0);
        let mut out1 = vec![0u8; 4096];
        let mut sink = SliceSink::new(&mut out1, 0);
        let n1 = compress_hc_linked(&first, 0, &mut sink, params, &mut table, &[], 0).unwrap();
        assert_eq!(decompress(&out1[..n1], first.len()).unwrap(), first);

        table.prepare_linked_block(params, first.len());
        let mut out2 = vec![0u8; 4096];
        let mut sink = SliceSink::new(&mut out2, 0);
        let n2 = compress_hc_linked(&input, first.len(), &mut sink, params, &mut table, &[], 0)
            .unwrap();
        // The second block refers back into the first, so it is far smaller.
        assert!(n2 < n1);
        let decoded = decompress_with_dict(&out2[..n2], second.len(), &first).unwrap();
        assert_eq!(decoded, second);
    }
}

#[test]
fn linked_hc_block_reports_small_output() {

    let input = vec![3u8; 1000];
    let params = hc_level_params(9);
    let mut table = CompressTableHC::new();
    table.prepare_linked_block(params, 0);
    let mut out = vec![0u8; 8];
    let mut sink = SliceSink::new(&mut out, 0);
    let r = compress_hc_linked(&input, 0, &mut sink, params, &mut table, &[], 0);
    assert!(matches!(r, Err(CompressError::OutputTooSmall)));
}
