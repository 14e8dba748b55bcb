# lz4_flex

LZ4 block and frame compression in Rust, written in Verus: every function of the library
carries a contract, and Verus proves each body against it.

The central guarantee is the round trip. Each compressor states that what it writes is a block
that decodes to its input (`compresses_to`), and each decompressor states that it returns
exactly what the block format's decoding (`decode_block`) gives, or the error that decoding
reports. Every compressor also states that its block keeps the rules of the format
(`block_keeps_rules`): each match reaches between 1 and 65535 bytes back, never before the
data it may refer to, and the last 5 bytes are literals. The fast compressor and the mid
levels (0 to 2) also state the exact block they write (`fast_dict_block`, `mid_compressed`),
as the parse of their search over the hash tables, and that every match starts at least 12
and ends at least 6 bytes before the end (`block_within`). The frame encoder and decoder are stated over the byte layout of frames, and the
proofs in `frame::read_back` show that the decoder reads back what the encoder wrote.

## Layout

- `src/block/format.rs`: the block format as a specification (`decode_block`) and its lemmas.
- `src/block/compress.rs`, `decompress.rs`, `dict.rs`, `hashtable.rs`: the fast compressor and
  the decompressor, with and without an external dictionary.
- `src/block/compress_hc/`: the high-compression levels (mid, hash chain, optimal parsing).
- `src/block/ultra/`: the optimal-parse compressors, with a suffix-array match finder whose
  suffix array is checked against the definition of suffix order, and the optimal parse stated
  step by step over its price model.
- `src/block/vint.rs`: variable-length integers.
- `src/frame/`: frame headers, the xxHash32 checksums (computed by `twox-hash`), the frame
  encoder and decoder, and the read-back proofs.
- `src/sink.rs`, `src/fastcpy.rs`, `src/simd.rs`: output buffers and byte-copy helpers.
- `app/`: `std::io` adapters (`FrameEncoder`, `FrameDecoder`) and error types with `Display`.
- `tests/`: tests run against the compiled library.
