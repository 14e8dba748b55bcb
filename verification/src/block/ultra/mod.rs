//! Optimal-parse "ultra" LZ4 block compressor.
//!
//! Produces standard LZ4 blocks, identical in format to those written by
//! [`crate::block::compress`], but uses an optimal parser instead of the fast greedy/lazy one for a
//! better compression ratio.
//!
//! - [`lz4hc`]: a hash-chain match finder with chain-swapping plus a price-based optimal parser.
use vstd::prelude::*;
use crate::block::format::last_sequence_bytes;
use crate::block::compress::{
    block_decodes_to, block_keeps_rules, compresses_to, dict_window, ext_len, get_maximum_output_size, lemma_compresses_with_dict,
    lemma_rules_prefix_as_dict,
    max_output_size,
};
use crate::block::format::lemma_decode_prefix_as_dict;
use crate::block::{u32_to_le_bytes, le_u32, CompressError, LAST_LITERALS, MAX_DISTANCE, MFLIMIT, WINDOW_SIZE};
use crate::sink::{splice, SliceSink};
use lz4hc::HcCompressor;
use matchfinder::MatchFinder;

pub mod lz4hc;
pub mod matchfinder;
pub mod optimize;
pub mod sais;
pub mod suffix_order;

verus! {

/// The shortest match.
pub const MIN_MATCH_SIZE: i32 = 4;

/// Literal-length run value that triggers variable-length encoding (token nibble max).
pub const LITERALS_RUN_LEN: i32 = 15;

/// Match-length run value that triggers variable-length encoding (token nibble max).
pub const MATCH_RUN_LEN: i32 = 15;

/// What compressing `window` after its first `prefix` bytes into a sink leaves behind: the sink had
/// `old_out` with write position `old_pos` and has `new_out` with `new_pos`, and the call returned
/// `r`.
///
/// Only the bytes from `old_pos` on were written. On success the call returns the number of
/// bytes written, at most [`max_output_size`] of the compressed part, and they form a block that
/// decodes, after `window[..prefix]`, to `window`. The only error is
/// [`CompressError::OutputTooSmall`], and it does not come when the sink had room for
/// [`max_output_size`] bytes.
pub open spec fn window_compressed(
    old_out: Seq<u8>,
    old_pos: int,
    new_out: Seq<u8>,
    new_pos: int,
    r: Result<usize, CompressError>,
    window: Seq<u8>,
    prefix: int,
) -> bool {
    &&& new_out.len() == old_out.len()
    &&& old_pos <= new_pos <= new_out.len()
    &&& new_out == splice(old_out, old_pos, new_out.subrange(old_pos, new_pos))
    &&& r matches Ok(n) ==> new_pos == old_pos + n && n <= max_output_size(window.len() - prefix)
        && block_decodes_to(new_out.subrange(old_pos, new_pos), Seq::empty(), window, prefix)
        && block_keeps_rules(new_out.subrange(old_pos, new_pos), window, 0, prefix) && (window.len() <= MFLIMIT
        ==> new_out.subrange(old_pos, new_pos) == last_sequence_bytes(window.skip(prefix)))
    &&& r is Err ==> r == Err::<usize, CompressError>(CompressError::OutputTooSmall)
    &&& max_output_size(window.len() - prefix) <= old_out.len() - old_pos ==> r is Ok
}

/// Number of extra variable-length-encoding bytes an encoded length needs. The token's 4-bit nibble
/// holds up to the run value (15); anything larger spills into `(len - 15) / 255` continuation bytes
/// of `0xFF` plus one final byte.
pub fn varlen_extra_bytes(encoded_len: usize) -> (r: usize)
    ensures
        r == ext_len(encoded_len as nat),
{
    if encoded_len >= LITERALS_RUN_LEN as usize {
        (encoded_len - LITERALS_RUN_LEN as usize) / 255 + 1
    } else {
        0
    }
}

/// One match candidate: `length` of `0` means "emit a literal here" once the parse is chosen, and
/// `-1` is the join marker used by the command-count optimiser. `offset` is the back-distance.
#[derive(Clone, Copy)]
pub struct Match {
    pub length: i32,
    pub offset: u32,
}

/// A match at position `i` of a window of `n` bytes lies inside it: it starts at most
/// [`MAX_DISTANCE`] bytes back, no later than [`MFLIMIT`] bytes before the end, and ends before
/// the last literals.
pub open spec fn match_in_window(m: Match, i: int, n: int) -> bool {
    m.length >= MIN_MATCH_SIZE ==> {
        &&& i + MFLIMIT <= n
        &&& m.length <= n - LAST_LITERALS - i
        &&& 1 <= m.offset <= i
        &&& m.offset <= MAX_DISTANCE
    }
}

/// Whether the optimal parser should favour ratio or decompression speed when costs tie.
#[derive(Clone, Copy)]
pub enum Favor {
    /// Best compression ratio.
    Ratio,
    /// Trade a little ratio for faster decompression.
    DecompressionSpeed,
}

/// Which compression strategy to use.
#[derive(Clone, Copy, PartialEq, Eq)]
pub enum Finder {
    /// Suffix-array match finder + optimal-parse DP: always finds the true longest match at every
    /// position. Robust and near-optimal, but slower and more memory-hungry.
    SuffixArray,
    /// Hash-chain match finder with chain-swapping plus a price-based optimal parser. Same ratio as
    /// the suffix array on real data, several times faster.
    Lz4Hc,
}

/// Reusable optimal-parse compressor context. Owns the per-block scratch buffers so that callers
/// compressing many blocks (e.g. the frame encoder) don't reallocate each time.
pub struct UltraCompressor {
    sa_finder: MatchFinder,
    // Lazily created on first use: its fixed 256 KB hash+chain arrays shouldn't be allocated for
    // callers that only ever use the default suffix-array path.
    hc: Option<HcCompressor>,
    matches: Vec<Match>,
    cost: Vec<i64>,
    score: Vec<i64>,
}

impl UltraCompressor {
    /// The hash-chain compressor, once created, is consistent.
    pub closed spec fn wf(&self) -> bool {
        self.hc matches Some(h) ==> h.wf()
    }

    pub fn new() -> (c: Self)
        ensures
            c.wf(),
    {
        UltraCompressor { sa_finder: MatchFinder::new(), hc: None, matches: Vec::new(), cost: Vec::new(), score: Vec::new() }
    }

    /// Optimally compress `window[prefix_len..]` into `out`, using `window[..prefix_len]` as
    /// already-emitted lookback (a prefix and/or external dictionary). Returns the number of bytes
    /// written. Offsets in the produced block are distances within `window`.
    pub fn compress_block(&mut self, window: &[u8], prefix_len: usize, favor: Favor, finder: Finder, out: &mut SliceSink) -> (r:
        Result<usize, CompressError>)
        requires
            old(self).wf(),
            old(out).wf(),
            prefix_len <= window@.len() < 0x7000_0000,
        ensures
            final(self).wf(),
            final(out).wf(),
            final(final(out).output)@ == final(old(out).output)@,
            window_compressed(
                old(out).output@,
                old(out).pos as int,
                final(out).output@,
                final(out).pos as int,
                r,
                window@,
                prefix_len as int,
            ),
    {
        if let Finder::Lz4Hc = finder {
            let favor_dec_speed = match favor {
                Favor::DecompressionSpeed => true,
                Favor::Ratio => false,
            };
            let mut hc = match self.hc.take() {
                Some(h) => h,
                None => HcCompressor::new(),
            };
            let r = hc.compress(window, prefix_len, favor_dec_speed, out);
            self.hc = Some(hc);
            return r;
        }
        let n = window.len();
        if n == 0 {
            let no_matches: Vec<Match> = Vec::new();
            return optimize::write_block(window, 0, 0, &no_matches, out);
        }
        let zero = Match { length: 0, offset: 0 };
        self.matches.clear();
        self.matches.resize(n, zero);
        self.cost.clear();
        self.cost.resize(n, 0);
        self.score.clear();
        self.score.resize(n, 0);
        self.sa_finder.find_all_matches(window, prefix_len, &mut self.matches);
        if prefix_len < n {
            let ghost found = self.matches@;
            assert forall|i: int| prefix_len <= i < n - 1 implies #[trigger] optimize::fits_parse(found[i], i, n as int) by {
                assert(match_in_window(found[i], i, n as int));
            }
            optimize::optimize_matches(prefix_len, n, &mut self.matches, &mut self.cost, &mut self.score, favor);
            assert forall|i: int| prefix_len <= i < n implies #[trigger] match_in_window(self.matches@[i], i, n as int) by {
                assert(match_in_window(found[i], i, n as int));
            }
        }
        optimize::optimize_command_count(window, prefix_len, n, &mut self.matches);
        optimize::write_block(window, prefix_len, n, &self.matches, out)
    }
}

/// A block that decodes to `dict_window(dict) + input` after its first part decodes to `input`
/// after the whole dictionary.
pub proof fn lemma_window_block_compresses(block: Seq<u8>, dict: Seq<u8>, input: Seq<u8>)
    requires
        block_decodes_to(block, Seq::empty(), dict_window(dict) + input, dict_window(dict).len() as int),
    ensures
        compresses_to(block, dict, input),
{
    let w = dict_window(dict);
    let whole = w + input;
    assert(whole.take(w.len() as int) =~= w);
    assert(w + Seq::<u8>::empty() =~= w);
    assert(input.take(0) =~= Seq::<u8>::empty());
    assert forall|cap: int| cap >= input.len() implies #[trigger] crate::block::format::decode_at(
        block,
        0,
        input.take(0),
        w,
        cap,
    ) == Ok::<Seq<u8>, crate::block::DecompressError>(input) by {
        assert(crate::block::format::decode_at(block, 0, w + Seq::<u8>::empty(), Seq::empty(), cap + w.len()) == Ok::<
            Seq<u8>,
            crate::block::DecompressError,
        >(whole));
        lemma_decode_prefix_as_dict(block, 0, w, Seq::empty(), cap, whole);
        assert(whole.skip(w.len() as int) =~= input);
    }
    assert(block_decodes_to(block, w, input, 0));
    assert(w =~= dict.skip(dict.len() - w.len()));
    lemma_compresses_with_dict(block, w, dict, input);
}

/// Optimally compress `input` (with optional `ext_dict` lookback) into `out` using the given
/// engine. Shared by the block `compress_*_with_mode` entry points and the frame encoder.
pub fn compress_one_shot(input: &[u8], ext_dict: &[u8], favor: Favor, finder: Finder, out: &mut SliceSink) -> (r: Result<
    usize,
    CompressError,
>)
    requires
        old(out).wf(),
        input@.len() + WINDOW_SIZE < 0x7000_0000,
    ensures
        final(out).wf(),
        final(final(out).output)@ == final(old(out).output)@,
        window_compressed(
            old(out).output@,
            old(out).pos as int,
            final(out).output@,
            final(out).pos as int,
            r,
            dict_window(ext_dict@) + input@,
            dict_window(ext_dict@).len() as int,
        ),
{
    let mut comp = UltraCompressor::new();
    // Only the last WINDOW_SIZE bytes of the dictionary are reachable (offsets are capped at 64 KiB);
    // dropping the rest doesn't change the output and bounds the suffix-array size.
    let skip = if ext_dict.len() > WINDOW_SIZE {
        ext_dict.len() - WINDOW_SIZE
    } else {
        0
    };
    let dict = crate::block::decompress::slice_range(ext_dict, skip, ext_dict.len());
    assert(dict@ =~= dict_window(ext_dict@));
    if dict.len() == 0 {
        assert(dict@ + input@ =~= input@);
        comp.compress_block(input, 0, favor, finder, out)
    } else {
        let mut window: Vec<u8> = Vec::with_capacity(dict.len() + input.len());
        window.extend_from_slice(dict);
        window.extend_from_slice(input);
        assert(window@ =~= dict@ + input@);
        comp.compress_block(window.as_slice(), dict.len(), favor, finder, out)
    }
}

/// Optimally compress `input` into a freshly allocated `Vec` (optionally prepending the uncompressed
/// size as a little-endian `u32`, and optionally with an external dictionary).
pub fn compress_into_vec(input: &[u8], prepend_size: bool, ext_dict: &[u8], favor: Favor, finder: Finder) -> (r: Vec<u8>)
    requires
        input@.len() + WINDOW_SIZE < 0x7000_0000,
    ensures
        prepend_size ==> r@.len() >= 4 && le_u32(r@[0], r@[1], r@[2], r@[3]) == input@.len() && r@.len()
            <= max_output_size(input@.len() as int) + 4 && compresses_to(r@.skip(4), ext_dict@, input@)
            && block_keeps_rules(r@.skip(4), input@, dict_window(ext_dict@).len() as int, 0) && (dict_window(
            ext_dict@,
        ).len() + input@.len() <= MFLIMIT ==> r@.skip(4) == last_sequence_bytes(input@)),
        !prepend_size ==> r@.len() <= max_output_size(input@.len() as int) && compresses_to(r@, ext_dict@, input@)
            && block_keeps_rules(r@, input@, dict_window(ext_dict@).len() as int, 0) && (dict_window(ext_dict@).len()
            + input@.len() <= MFLIMIT ==> r@ == last_sequence_bytes(input@)),
{
    let prepend: usize = if prepend_size {
        4
    } else {
        0
    };
    let max = get_maximum_output_size(input.len()) + prepend;
    let mut buf: Vec<u8> = vec![0u8; max];
    if prepend_size {
        let size = u32_to_le_bytes(input.len() as u32);
        buf.set(0, size[0]);
        buf.set(1, size[1]);
        buf.set(2, size[2]);
        buf.set(3, size[3]);
    }
    let ghost head = buf@.take(prepend as int);
    let ghost w = dict_window(ext_dict@);
    let mut sink = SliceSink::new(buf.as_mut_slice(), prepend);
    // The buffer is sized to `get_maximum_output_size`, which an optimal parse can never exceed
    // (it never does worse than emitting all literals), so this cannot fail.
    let res = compress_one_shot(input, ext_dict, favor, finder, &mut sink);
    proof {
        assert((w + input@).len() - w.len() == input@.len());
    }
    let written = res.unwrap();
    let ghost block = sink.output@.subrange(prepend as int, (prepend + written) as int);
    proof {
        lemma_window_block_compresses(block, ext_dict@, input@);
        lemma_rules_prefix_as_dict(block, w, input@);
        assert((w + input@).skip(w.len() as int) =~= input@);
    }
    buf.truncate(prepend + written);
    proof {
        assert(buf@.skip(prepend as int) =~= block);
        if prepend_size {
            assert(buf@.take(4) =~= head);
        } else {
            assert(buf@ =~= block);
        }
    }
    buf
}

} // verus!
