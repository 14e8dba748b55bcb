//! High compression algorithm implementation.
//!
//! It includes three compression strategies behind one entry point, [`compress_hc`]:
//! - `Mid`: intermediate compression for levels 0-2
//! - `HashChain`: hash chain search with lazy matching for levels 3-9
//! - `Optimal`: optimal parsing for levels 10-12
use vstd::prelude::*;
use crate::block::compress::{
    block_decodes_to, block_keeps_rules, block_within, short_block, compresses_to, get_maximum_output_size, lemma_compresses_with_dict,
    max_output_size,
};
use crate::block::{CompressError, END_OFFSET, MFLIMIT};
use crate::sink::{splice, SliceSink};
use hash_chain::{compress_hash_chain_internal, HashTableHCU32};
use mid::{compress_mid_internal, mid_compressed, HashTableMid};
use optimal::compress_opt_internal;

pub mod hash_chain;
pub mod mid;
pub mod optimal;

verus! {

/// Size of the hash tables of the mid strategy.
pub const LZ4MID_HASHTABLE_SIZE: usize = 32768;

/// `idx` and `dist` place a candidate of `src` at `dist` bytes before `cur` in the data formed
/// by `dict` followed by `input`: `src` is either `input` or `dict`.
pub open spec fn candidate_ok(src: Seq<u8>, idx: int, dist: int, cur: int, input: Seq<u8>, dict: Seq<u8>) -> bool {
    ||| src == input && idx + dist == cur
    ||| src == dict && idx + dist == dict.len() + cur
}

/// A byte of a placed candidate is the byte `dist` positions before the matching input byte.
pub proof fn lemma_candidate_bytes(src: Seq<u8>, idx: int, dist: int, cur: int, input: Seq<u8>, dict: Seq<u8>, k: int)
    requires
        candidate_ok(src, idx, dist, cur, input, dict),
        0 <= idx + k < src.len(),
        0 <= cur + k < input.len(),
    ensures
        (dict + input)[dict.len() + cur + k - dist] == src[idx + k],
        (dict + input)[dict.len() + cur + k] == input[cur + k],
{
}

} // verus!

verus! {

/// Size of the hash table of the hash chain strategies.
pub const HASHTABLE_SIZE_HC: usize = 32768;

/// Largest size of the chain table.
pub const MAX_DISTANCE_HC: usize = 65536;

/// Matches up to this length are trimmed when they overlap the following match.
pub const OPTIMAL_MATCH_LENGTH: usize = 32;

/// Start distances below this are resolved by trimming.
pub const MATCH_LENGTH_MASK: usize = 31;

} // verus!

verus! {

/// Size of the optimal parsing buffer.
pub const LZ4_OPT_NUM: usize = 4096;

/// Number of trailing literals to consider after last match.
pub const TRAILING_LITERALS: usize = 3;

/// Run mask for literal/match length encoding.
pub const RUN_MASK: usize = 15;

/// Which high-compression strategy applies for a given level (after clamping to 12).
#[derive(Clone, Copy, PartialEq, Eq, Debug, Structural)]
pub enum HcCompressionStrategy {
    /// Levels 0–2: intermediate compressor.
    Mid,
    /// Levels 3–9: hash-chain HC.
    HashChain,
    /// Levels 10–12: optimal parsing.
    Optimal,
}

/// Resolved parameters for HC compression (mid, hash-chain, or optimal).
#[derive(Clone, Copy, Debug)]
pub struct HcLevelParams {
    pub strategy: HcCompressionStrategy,
    /// Hash-chain search budget for the hash-chain and optimal strategies; zero for mid.
    pub max_attempts: usize,
    /// Only for the optimal strategy: encode immediately when the first match is at least this long.
    pub sufficient_match_len: usize,
    /// Only for the optimal strategy: exhaustive refinement (level 12).
    pub full_optimal_update: bool,
}

/// The parameters of a compression level.
pub open spec fn level_params(level: u8) -> HcLevelParams {
    if level <= 2 {
        HcLevelParams {
            strategy: HcCompressionStrategy::Mid,
            max_attempts: 0,
            sufficient_match_len: 0,
            full_optimal_update: false,
        }
    } else if level <= 9 {
        HcLevelParams {
            strategy: HcCompressionStrategy::HashChain,
            max_attempts: 1usize << ((level - 1) as usize),
            sufficient_match_len: 0,
            full_optimal_update: false,
        }
    } else if level == 10 {
        HcLevelParams {
            strategy: HcCompressionStrategy::Optimal,
            max_attempts: 96,
            sufficient_match_len: 64,
            full_optimal_update: false,
        }
    } else if level == 11 {
        HcLevelParams {
            strategy: HcCompressionStrategy::Optimal,
            max_attempts: 512,
            sufficient_match_len: 128,
            full_optimal_update: false,
        }
    } else {
        HcLevelParams {
            strategy: HcCompressionStrategy::Optimal,
            max_attempts: 16384,
            sufficient_match_len: LZ4_OPT_NUM,
            full_optimal_update: true,
        }
    }
}

/// Map a compression level to strategy and parameters. Levels above 12 get the parameters of
/// level 12.
pub fn hc_level_params(level: u8) -> (r: HcLevelParams)
    ensures
        r == level_params(level),
{
    if level <= 2 {
        HcLevelParams {
            strategy: HcCompressionStrategy::Mid,
            max_attempts: 0,
            sufficient_match_len: 0,
            full_optimal_update: false,
        }
    } else if level <= 9 {
        HcLevelParams {
            strategy: HcCompressionStrategy::HashChain,
            max_attempts: 1usize << ((level - 1) as usize),
            sufficient_match_len: 0,
            full_optimal_update: false,
        }
    } else if level == 10 {
        HcLevelParams {
            strategy: HcCompressionStrategy::Optimal,
            max_attempts: 96,
            sufficient_match_len: 64,
            full_optimal_update: false,
        }
    } else if level == 11 {
        HcLevelParams {
            strategy: HcCompressionStrategy::Optimal,
            max_attempts: 512,
            sufficient_match_len: 128,
            full_optimal_update: false,
        }
    } else {
        HcLevelParams {
            strategy: HcCompressionStrategy::Optimal,
            max_attempts: 16384,
            sufficient_match_len: LZ4_OPT_NUM,
            full_optimal_update: true,
        }
    }
}

} // verus!

verus! {

/// What a compression into a sink leaves behind: the sink had `old_out` with write position
/// `old_pos` and has `new_out` with `new_pos`, and the call returned `r`.
///
/// When the free room after `old_pos` is smaller than [`max_output_size`] of `input`, the call
/// fails with [`CompressError::OutputTooSmall`] and writes nothing. Otherwise it writes a block
/// of at most that size at `old_pos`, leaves every other byte as it was, returns the block's
/// length, and the block decompresses (after `dict`) to `input`.
pub open spec fn sink_compressed(
    old_out: Seq<u8>,
    old_pos: int,
    new_out: Seq<u8>,
    new_pos: int,
    r: Result<usize, CompressError>,
    dict: Seq<u8>,
    input: Seq<u8>,
) -> bool {
    &&& new_out.len() == old_out.len()
    &&& new_pos <= new_out.len()
    &&& max_output_size(input.len() as int) > old_out.len() - old_pos ==> r == Err::<usize, CompressError>(
        CompressError::OutputTooSmall,
    ) && new_out == old_out && new_pos == old_pos
    &&& max_output_size(input.len() as int) <= old_out.len() - old_pos ==> (r matches Ok(n) && n <= max_output_size(
        input.len() as int,
    ) && new_pos == old_pos + n && new_out == splice(old_out, old_pos, new_out.subrange(old_pos, new_pos))
        && compresses_to(new_out.subrange(old_pos, new_pos), dict, input) && block_keeps_rules(
        new_out.subrange(old_pos, new_pos),
        input,
        dict.len() as int,
        0,
    ) && short_block(new_out.subrange(old_pos, new_pos), input, 0))
}

/// Reusable state for HC compression, avoiding re-allocating hash tables on every call.
///
/// This is useful when compressing many inputs in a loop (e.g. frame blocks).
/// Create one table and pass it to [`compress_hc_with_table`] repeatedly.
///
/// The table automatically selects the right internal variant (mid vs HC)
/// based on the compression level, upgrading transparently when needed.
pub struct CompressTableHC {
    inner: CompressTableHCInner,
}

enum CompressTableHCInner {
    Mid(HashTableMid),
    HC(HashTableHCU32),
}

impl CompressTableHC {
    /// The table inside has its full size.
    pub closed spec fn wf(&self) -> bool {
        match self.inner {
            CompressTableHCInner::Mid(t) => t.wf(),
            CompressTableHCInner::HC(t) => t.wf(),
        }
    }

    /// Create a new table. The internal variant is chosen on first use.
    pub fn new() -> (t: Self)
        ensures
            t.wf(),
    {
        CompressTableHC { inner: CompressTableHCInner::Mid(HashTableMid::new()) }
    }

    /// Turn the table into a zeroed mid table, for a fresh block.
    fn reset_mid(&mut self)
        requires
            old(self).wf(),
        ensures
            final(self).wf(),
            final(self).inner matches CompressTableHCInner::Mid(t) && t.is_zeroed() && t.table4_view()
                == mid::zero_mid_table() && t.table8_view() == mid::zero_mid_table(),
    {
        match &mut self.inner {
            CompressTableHCInner::Mid(mid) => {
                mid.reset();
            },
            CompressTableHCInner::HC(_) => {
                self.inner = CompressTableHCInner::Mid(HashTableMid::new());
            },
        }
    }

    /// Turn the table into a zeroed hash chain table searching `max_attempts` links, for a
    /// fresh block of `input_len` bytes.
    fn reset_hc(&mut self, max_attempts: usize, input_len: usize)
        requires
            old(self).wf(),
        ensures
            final(self).wf(),
            final(self).inner is HC,
    {
        match &mut self.inner {
            CompressTableHCInner::HC(ht) => {
                ht.reset(max_attempts, input_len);
            },
            CompressTableHCInner::Mid(_) => {
                self.inner = CompressTableHCInner::HC(HashTableHCU32::new(max_attempts, input_len));
            },
        }
    }
}

impl CompressTableHC {
    /// The table holds the variant that the strategy of `params` compresses with.
    pub closed spec fn ready_for(&self, params: HcLevelParams) -> bool {
        match params.strategy {
            HcCompressionStrategy::Mid => self.inner is Mid,
            _ => self.inner is HC,
        }
    }

    /// Prepare the table for a new linked block without clearing existing entries.
    ///
    /// `params` must be [`hc_level_params`] with the same clamped level used for the following
    /// [`compress_hc_linked`] call.
    pub fn prepare_linked_block(&mut self, params: HcLevelParams, block_start: usize)
        requires
            old(self).wf(),
        ensures
            final(self).wf(),
            final(self).ready_for(params),
    {
        match params.strategy {
            HcCompressionStrategy::Mid => match &mut self.inner {
                CompressTableHCInner::Mid(mid) => {
                    mid.prepare_linked_block();
                },
                CompressTableHCInner::HC(_) => {
                    self.inner = CompressTableHCInner::Mid(HashTableMid::new());
                },
            },
            HcCompressionStrategy::HashChain | HcCompressionStrategy::Optimal => {
                let max_attempts = params.max_attempts;
                match &mut self.inner {
                    CompressTableHCInner::HC(ht) => {
                        ht.prepare_linked_block(max_attempts, block_start);
                    },
                    CompressTableHCInner::Mid(_) => {
                        let mut ht = HashTableHCU32::new(max_attempts, MAX_DISTANCE_HC);
                        ht.prepare_linked_block(max_attempts, block_start);
                        self.inner = CompressTableHCInner::HC(ht);
                    },
                }
            },
        }
    }

    /// The table is `prev` with `delta` subtracted from every position it stores (positions
    /// below `delta` become 0), of the same variant and otherwise unchanged.
    pub closed spec fn shifted_from(&self, prev: &Self, delta: usize) -> bool {
        match (prev.inner, self.inner) {
            (CompressTableHCInner::HC(a), CompressTableHCInner::HC(b)) => {
                &&& b.chain_view() == a.chain_view()
                &&& b.attempts_view() == a.attempts_view()
                &&& forall|k: int| 0 <= k < HASHTABLE_SIZE_HC ==> #[trigger] b.dict_view()[k] == if a.dict_view()[k] >= (delta as u32) {
                    (a.dict_view()[k] - (delta as u32)) as u32
                } else {
                    0u32
                }
                &&& b.next_update_view() == if a.next_update_view() >= delta {
                    (a.next_update_view() - delta) as usize
                } else {
                    0usize
                }
            },
            (CompressTableHCInner::Mid(a), CompressTableHCInner::Mid(b)) => forall|k: int|
                0 <= k < LZ4MID_HASHTABLE_SIZE ==> {
                    &&& #[trigger] b.table4_view()[k] == if a.table4_view()[k] >= (delta as u32) {
                        (a.table4_view()[k] - (delta as u32)) as u32
                    } else {
                        0u32
                    }
                    &&& b.table8_view()[k] == if a.table8_view()[k] >= (delta as u32) {
                        (a.table8_view()[k] - (delta as u32)) as u32
                    } else {
                        0u32
                    }
                },
            _ => false,
        }
    }

    /// Subtract `delta` from all stored positions to prevent overflow.
    pub fn reposition(&mut self, delta: usize)
        requires
            old(self).wf(),
        ensures
            final(self).wf(),
            final(self).shifted_from(old(self), delta),
            forall|p: HcLevelParams| old(self).ready_for(p) ==> #[trigger] final(self).ready_for(p),
    {
        match &mut self.inner {
            CompressTableHCInner::HC(ht) => ht.reposition(delta),
            CompressTableHCInner::Mid(mid) => mid.reposition(delta),
        }
    }
}

/// What compressing `input[input_pos..]`, with `input[..input_pos]` and `ext_dict` before it,
/// into a sink leaves behind: the sink had `old_out` with write position `old_pos` and has
/// `new_out` with `new_pos`, and the call returned `r`.
///
/// When the free room after `old_pos` is smaller than [`max_output_size`] of the compressed
/// part, the call fails with [`CompressError::OutputTooSmall`] and writes nothing. Otherwise it
/// writes a block of at most that size at `old_pos`, leaves every other byte as it was, returns
/// the block's length, and the block decodes, after `input[..input_pos]` with `ext_dict` before
/// it, to `input`.
pub open spec fn linked_block_compressed(
    old_out: Seq<u8>,
    old_pos: int,
    new_out: Seq<u8>,
    new_pos: int,
    r: Result<usize, CompressError>,
    ext_dict: Seq<u8>,
    input: Seq<u8>,
    input_pos: int,
) -> bool {
    &&& new_out.len() == old_out.len()
    &&& max_output_size(input.len() - input_pos) > old_out.len() - old_pos ==> r == Err::<usize, CompressError>(
        CompressError::OutputTooSmall,
    ) && new_out == old_out && new_pos == old_pos
    &&& max_output_size(input.len() - input_pos) <= old_out.len() - old_pos ==> (r matches Ok(n) && n
        <= max_output_size(input.len() - input_pos) && new_pos == old_pos + n && new_out == splice(
        old_out,
        old_pos,
        new_out.subrange(old_pos, new_pos),
    ) && block_decodes_to(new_out.subrange(old_pos, new_pos), ext_dict, input, input_pos) && block_keeps_rules(
        new_out.subrange(old_pos, new_pos),
        input,
        ext_dict.len() as int,
        input_pos,
    ) && short_block(new_out.subrange(old_pos, new_pos), input, input_pos))
}

/// Compress with HC using linked-block mode, for a frame encoder.
/// `input` includes the prefix at `[0..input_pos]`, current block at `[input_pos..]`.
/// `table` must have been prepared via [`CompressTableHC::prepare_linked_block`] with the same
/// `params`.
pub fn compress_hc_linked(
    input: &[u8],
    input_pos: usize,
    output: &mut SliceSink,
    params: HcLevelParams,
    table: &mut CompressTableHC,
    ext_dict: &[u8],
    stream_offset: usize,
) -> (r: Result<usize, CompressError>)
    requires
        old(table).wf(),
        old(table).ready_for(params),
        old(output).wf(),
        input_pos <= input@.len(),
        ext_dict@.len() <= stream_offset,
        input@.len() <= u32::MAX,
        stream_offset + input@.len() + input@.len() / 8 + 16 <= usize::MAX,
    ensures
        final(table).wf(),
        final(output).wf(),
        final(final(output).output)@ == final(old(output).output)@,
        linked_block_compressed(
            old(output).output@,
            old(output).pos as int,
            final(output).output@,
            final(output).pos as int,
            r,
            ext_dict@,
            input@,
            input_pos as int,
        ),
{
    match params.strategy {
        HcCompressionStrategy::Mid => match &mut table.inner {
            CompressTableHCInner::Mid(mid_table) => compress_mid_internal(
                input,
                input_pos,
                output,
                mid_table,
                ext_dict,
                stream_offset,
            ),
            CompressTableHCInner::HC(_) => Err(CompressError::OutputTooSmall),
        },
        HcCompressionStrategy::HashChain => match &mut table.inner {
            CompressTableHCInner::HC(hash_table) => compress_hash_chain_internal(
                input,
                input_pos,
                output,
                hash_table,
                ext_dict,
                stream_offset,
            ),
            CompressTableHCInner::Mid(_) => Err(CompressError::OutputTooSmall),
        },
        HcCompressionStrategy::Optimal => match &mut table.inner {
            CompressTableHCInner::HC(hash_table) => compress_opt_internal(
                input,
                input_pos,
                output,
                params,
                hash_table,
                ext_dict,
                stream_offset,
            ),
            CompressTableHCInner::Mid(_) => Err(CompressError::OutputTooSmall),
        },
    }
}

impl Default for CompressTableHC {
    fn default() -> (t: Self)
        ensures
            t.wf(),
    {
        Self::new()
    }
}

/// Compress input data using the LZ4 high compression algorithm.
///
/// Allocates a fresh internal table on every call. For repeated compression
/// (e.g. compressing many blocks in a loop), prefer [`compress_hc_with_table`]
/// with a reusable [`CompressTableHC`] to avoid repeated allocation.
///
/// # Compression levels
/// - **Levels 0-2**: lz4mid intermediate algorithm
/// - **Levels 3-9**: HC hash chain algorithm with increasing search depth
/// - **Levels 10-12**: Optimal parsing (dynamic programming) for maximum compression
///
/// Levels above 12 compress as level 12.
pub fn compress_hc(input: &[u8], output: &mut SliceSink, level: u8) -> (r: Result<usize, CompressError>)
    requires
        old(output).wf(),
        input@.len() <= u32::MAX,
        input@.len() <= isize::MAX,
    ensures
        sink_compressed(
            old(output).output@,
            old(output).pos as int,
            final(output).output@,
            final(output).pos as int,
            r,
            Seq::empty(),
            input@,
        ),
        final(final(output).output)@ == final(old(output).output)@,
        level <= 2 ==> (r matches Ok(n) ==> final(output).output@.subrange(old(output).pos as int, final(output).pos as int)
            == mid_compressed(input@) && block_within(
            final(output).output@.subrange(old(output).pos as int, final(output).pos as int),
            input@,
            0,
            0,
            MFLIMIT as int,
            END_OFFSET as int,
        )),
{
    let level = if level < 12 {
        level
    } else {
        12
    };
    let params = hc_level_params(level);
    let no_dict: &[u8] = &[];
    assert(no_dict@ =~= Seq::<u8>::empty());
    let ghost old_out = output.output@;
    let ghost p0 = output.pos as int;
    let r = match params.strategy {
        HcCompressionStrategy::Optimal => {
            let mut hash_table = HashTableHCU32::new(params.max_attempts, input.len());
            compress_opt_internal(input, 0, output, params, &mut hash_table, no_dict, 0)
        },
        HcCompressionStrategy::HashChain => {
            let mut hash_table = HashTableHCU32::new(params.max_attempts, input.len());
            compress_hash_chain_internal(input, 0, output, &mut hash_table, no_dict, 0)
        },
        HcCompressionStrategy::Mid => {
            let mut mid_table = HashTableMid::new();
            compress_mid_internal(input, 0, output, &mut mid_table, no_dict, 0)
        },
    };
    proof {
        assert(input@.len() - 0 == input@.len());
        if let Ok(n) = r {
            if max_output_size(input@.len() as int) <= old_out.len() - p0 {
                let block = output.output@.subrange(p0, output.pos as int);
                assert(Seq::<u8>::empty() =~= Seq::<u8>::empty().skip(0));
                lemma_compresses_with_dict(block, Seq::empty(), Seq::empty(), input@);
            }
        }
    }
    r
}

/// Compress input data using the LZ4 high compression algorithm, reusing a
/// [`CompressTableHC`] to avoid re-allocating internal hash tables.
///
/// The table is reset before each call. If the level changes between calls (e.g. mid vs HC),
/// the table is transparently upgraded.
///
/// See [`compress_hc`] for compression level details.
pub fn compress_hc_with_table(
    input: &[u8],
    output: &mut SliceSink,
    level: u8,
    table: &mut CompressTableHC,
) -> (r: Result<usize, CompressError>)
    requires
        old(output).wf(),
        old(table).wf(),
        input@.len() <= u32::MAX,
        input@.len() <= isize::MAX,
    ensures
        final(table).wf(),
        sink_compressed(
            old(output).output@,
            old(output).pos as int,
            final(output).output@,
            final(output).pos as int,
            r,
            Seq::empty(),
            input@,
        ),
        final(final(output).output)@ == final(old(output).output)@,
        level <= 2 ==> (r matches Ok(n) ==> final(output).output@.subrange(old(output).pos as int, final(output).pos as int)
            == mid_compressed(input@) && block_within(
            final(output).output@.subrange(old(output).pos as int, final(output).pos as int),
            input@,
            0,
            0,
            MFLIMIT as int,
            END_OFFSET as int,
        )),
{
    let level = if level < 12 {
        level
    } else {
        12
    };
    let params = hc_level_params(level);
    let no_dict: &[u8] = &[];
    assert(no_dict@ =~= Seq::<u8>::empty());
    let ghost old_out = output.output@;
    let ghost p0 = output.pos as int;
    let r = match params.strategy {
        HcCompressionStrategy::Mid => {
            table.reset_mid();
            match &mut table.inner {
                CompressTableHCInner::Mid(mid_table) => compress_mid_internal(input, 0, output, mid_table, no_dict, 0),
                CompressTableHCInner::HC(_) => {
                    assert(false);
                    Err(CompressError::OutputTooSmall)
                },
            }
        },
        HcCompressionStrategy::HashChain => {
            table.reset_hc(params.max_attempts, input.len());
            match &mut table.inner {
                CompressTableHCInner::HC(hash_table) => compress_hash_chain_internal(
                    input,
                    0,
                    output,
                    hash_table,
                    no_dict,
                    0,
                ),
                CompressTableHCInner::Mid(_) => {
                    assert(false);
                    Err(CompressError::OutputTooSmall)
                },
            }
        },
        HcCompressionStrategy::Optimal => {
            table.reset_hc(params.max_attempts, input.len());
            match &mut table.inner {
                CompressTableHCInner::HC(hash_table) => compress_opt_internal(
                    input,
                    0,
                    output,
                    params,
                    hash_table,
                    no_dict,
                    0,
                ),
                CompressTableHCInner::Mid(_) => {
                    assert(false);
                    Err(CompressError::OutputTooSmall)
                },
            }
        },
    };
    proof {
        assert(input@.len() - 0 == input@.len());
        if let Ok(n) = r {
            if max_output_size(input@.len() as int) <= old_out.len() - p0 {
                let block = output.output@.subrange(p0, output.pos as int);
                assert(Seq::<u8>::empty() =~= Seq::<u8>::empty().skip(0));
                lemma_compresses_with_dict(block, Seq::empty(), Seq::empty(), input@);
            }
        }
    }
    r
}

/// Compress input data using the LZ4 high compression algorithm, returning a Vec.
///
/// This is a convenience function that allocates the output buffer internally.
/// See [`compress_hc`] for details on the compression algorithm and levels.
pub fn compress_hc_to_vec(input: &[u8], level: u8) -> (r: Vec<u8>)
    requires
        input@.len() <= u32::MAX,
        input@.len() <= isize::MAX,
    ensures
        r@.len() <= max_output_size(input@.len() as int),
        compresses_to(r@, Seq::empty(), input@),
        block_keeps_rules(r@, input@, 0, 0),
        short_block(r@, input@, 0),
        level <= 2 ==> r@ == mid_compressed(input@),
        level <= 2 ==> block_within(r@, input@, 0, 0, MFLIMIT as int, END_OFFSET as int),
{
    let max_size = get_maximum_output_size(input.len());
    let mut output: Vec<u8> = vec![0u8; max_size];
    let mut sink = SliceSink::new(output.as_mut_slice(), 0);
    let res = compress_hc(input, &mut sink, level);
    let compressed_size = res.unwrap();
    let ghost block = sink.output@.subrange(0, compressed_size as int);
    output.truncate(compressed_size);
    assert(output@ =~= block);
    output
}

/// Compress input data using the LZ4 high compression algorithm, returning a Vec
/// and reusing a [`CompressTableHC`].
///
/// This is the reusable-table variant of [`compress_hc_to_vec`]. See
/// [`compress_hc_with_table`] for details on table reuse.
pub fn compress_hc_to_vec_with_table(input: &[u8], level: u8, table: &mut CompressTableHC) -> (r: Vec<u8>)
    requires
        old(table).wf(),
        input@.len() <= u32::MAX,
        input@.len() <= isize::MAX,
    ensures
        final(table).wf(),
        r@.len() <= max_output_size(input@.len() as int),
        compresses_to(r@, Seq::empty(), input@),
        block_keeps_rules(r@, input@, 0, 0),
        short_block(r@, input@, 0),
        level <= 2 ==> r@ == mid_compressed(input@),
        level <= 2 ==> block_within(r@, input@, 0, 0, MFLIMIT as int, END_OFFSET as int),
{
    let max_size = get_maximum_output_size(input.len());
    let mut output: Vec<u8> = vec![0u8; max_size];
    let mut sink = SliceSink::new(output.as_mut_slice(), 0);
    let res = compress_hc_with_table(input, &mut sink, level, table);
    let compressed_size = res.unwrap();
    let ghost block = sink.output@.subrange(0, compressed_size as int);
    output.truncate(compressed_size);
    assert(output@ =~= block);
    output
}

} // verus!
