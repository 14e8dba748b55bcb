//! Intermediate compression (levels 0-2).
//!
//! Uses two hash tables (4-byte and 8-byte) for better compression than the fast algorithm
//! while being faster than HC.
use vstd::prelude::*;
use crate::block::format::{last_sequence_bytes, sequence_bytes};
use crate::block::compress::{
    compare_window, back_len, lemma_back_len, search_fuel, block_within, ruled_prefix_within, lemma_within_start,
    lemma_within_push, lemma_within_last,
    backtrack_match, count_same_bytes, emit_last_literals, emit_sequence, encoder_state, fits_output, get_batch,
    get_batch_arch, lemma_encoder_start, max_output_size, repeats, block_decodes_to, block_keeps_rules, short_block,
};
use crate::block::{CompressError, END_OFFSET, LZ4_MIN_LENGTH, MAX_DISTANCE, MFLIMIT, MINMATCH};
use crate::block::compress_hc::{candidate_ok, lemma_candidate_bytes, LZ4MID_HASHTABLE_SIZE};
use crate::sink::{splice, SliceSink};

verus! {

/// Hash table for the mid algorithm: two tables keyed by 4-byte and 8-byte input sequences.
pub struct HashTableMid {
    table_4byte: Vec<u32>,
    table_8byte: Vec<u32>,
}

impl HashTableMid {
    /// Both tables have their full size.
    pub closed spec fn wf(&self) -> bool {
        &&& self.table_4byte@.len() == LZ4MID_HASHTABLE_SIZE
        &&& self.table_8byte@.len() == LZ4MID_HASHTABLE_SIZE
    }

    /// Prepare the table for a new linked block without clearing entries.
    pub fn prepare_linked_block(&mut self)
        ensures
            *final(self) == *old(self),
    {
        // Hash tables persist; no action needed since entries are absolute positions.
    }

    /// The 4-byte hash table's entries.
    pub closed spec fn table4_view(&self) -> Seq<u32> {
        self.table_4byte@
    }

    /// The 8-byte hash table's entries.
    pub closed spec fn table8_view(&self) -> Seq<u32> {
        self.table_8byte@
    }

    /// Subtract `delta` from every absolute position stored in both hash tables.
    #[verifier::spinoff_prover]
    pub fn reposition(&mut self, delta: usize)
        requires
            old(self).wf(),
        ensures
            final(self).wf(),
            forall|k: int|
                0 <= k < LZ4MID_HASHTABLE_SIZE ==> {
                    &&& #[trigger] final(self).table4_view()[k] == if old(self).table4_view()[k] >= (delta as u32) {
                        (old(self).table4_view()[k] - (delta as u32)) as u32
                    } else {
                        0u32
                    }
                    &&& final(self).table8_view()[k] == if old(self).table8_view()[k] >= (delta as u32) {
                        (old(self).table8_view()[k] - (delta as u32)) as u32
                    } else {
                        0u32
                    }
                },
    {
        let delta32 = delta as u32;
        let mut i: usize = 0;
        while i < LZ4MID_HASHTABLE_SIZE
            invariant
                i <= LZ4MID_HASHTABLE_SIZE,
                delta32 == delta as u32,
                self.table_4byte@.len() == LZ4MID_HASHTABLE_SIZE,
                self.table_8byte@.len() == LZ4MID_HASHTABLE_SIZE,
                old(self).wf(),
                forall|k: int|
                    0 <= k < i ==> {
                        &&& #[trigger] self.table_4byte@[k] == if old(self).table_4byte@[k] >= delta32 {
                            (old(self).table_4byte@[k] - delta32) as u32
                        } else {
                            0u32
                        }
                        &&& self.table_8byte@[k] == if old(self).table_8byte@[k] >= delta32 {
                            (old(self).table_8byte@[k] - delta32) as u32
                        } else {
                            0u32
                        }
                    },
                forall|k: int| i <= k < LZ4MID_HASHTABLE_SIZE ==> #[trigger] self.table_4byte@[k] == old(self).table_4byte@[k],
                forall|k: int| i <= k < LZ4MID_HASHTABLE_SIZE ==> #[trigger] self.table_8byte@[k] == old(self).table_8byte@[k],
            decreases LZ4MID_HASHTABLE_SIZE - i,
        {
            let a = self.table_4byte[i];
            self.table_4byte.set(i, a.saturating_sub(delta32));
            let b = self.table_8byte[i];
            self.table_8byte.set(i, b.saturating_sub(delta32));
            i = i + 1;
        }
    }

    /// Every slot holds zero.
    pub closed spec fn is_zeroed(&self) -> bool {
        forall|i: int| 0 <= i < LZ4MID_HASHTABLE_SIZE ==> #[trigger] self.table_4byte@[i] == 0 && self.table_8byte@[i] == 0
    }

    /// Creates zeroed tables.
    pub fn new() -> (t: Self)
        ensures
            t.wf(),
            t.is_zeroed(),
            t.table4_view() == zero_mid_table(),
            t.table8_view() == zero_mid_table(),
    {
        let t = HashTableMid {
            table_4byte: vec![0u32; LZ4MID_HASHTABLE_SIZE],
            table_8byte: vec![0u32; LZ4MID_HASHTABLE_SIZE],
        };
        assert(t.table4_view() =~= zero_mid_table());
        assert(t.table8_view() =~= zero_mid_table());
        t
    }

    /// Reset the table for reuse by zeroing both hash tables.
    pub fn reset(&mut self)
        requires
            old(self).wf(),
        ensures
            final(self).wf(),
            final(self).is_zeroed(),
            final(self).table4_view() == zero_mid_table(),
            final(self).table8_view() == zero_mid_table(),
    {
        let mut i: usize = 0;
        while i < LZ4MID_HASHTABLE_SIZE
            invariant
                self.wf(),
                forall|k: int| 0 <= k < i ==> #[trigger] self.table_4byte@[k] == 0 && self.table_8byte@[k] == 0,
            decreases LZ4MID_HASHTABLE_SIZE - i,
        {
            self.table_4byte[i] = 0;
            self.table_8byte[i] = 0;
            i = i + 1;
        }
        assert(self.table4_view() =~= zero_mid_table());
        assert(self.table8_view() =~= zero_mid_table());
    }

    fn insert_4byte_hash(&mut self, input: &[u8], pos: usize, stream_offset: usize)
        requires
            old(self).wf(),
            pos + 4 <= input@.len(),
            pos + stream_offset <= usize::MAX,
        ensures
            final(self).wf(),
            final(self).table_4byte@ == old(self).table_4byte@.update(mid_hash4(input@, pos as int), (pos + stream_offset) as u32),
            final(self).table_8byte@ == old(self).table_8byte@,
    {
        let hash = get_hash4_mid(input, pos);
        self.table_4byte[hash] = (pos + stream_offset) as u32;
    }

    fn insert_8byte_hash(&mut self, input: &[u8], pos: usize, stream_offset: usize)
        requires
            old(self).wf(),
            pos + 8 <= input@.len(),
            pos + stream_offset <= usize::MAX,
        ensures
            final(self).wf(),
            final(self).table_8byte@ == old(self).table_8byte@.update(mid_hash8(input@, pos as int), (pos + stream_offset) as u32),
            final(self).table_4byte@ == old(self).table_4byte@,
    {
        let hash = get_hash8_mid(input, pos);
        self.table_8byte[hash] = (pos + stream_offset) as u32;
    }

    /// Insert hashes near both ends of a just-encoded match so future searches can
    /// find overlapping sequences.
    fn insert_match_hashes(
        &mut self,
        input: &[u8],
        match_start: usize,
        match_end: usize,
        input_end: usize,
        stream_offset: usize,
    )
        requires
            old(self).wf(),
            match_start + MINMATCH <= match_end,
            match_end <= input_end,
            input_end == input@.len(),
            input_end + stream_offset + 8 <= usize::MAX,
        ensures
            final(self).wf(),
            final(self).table_8byte@ == match_hashes8(
                old(self).table_8byte@,
                input@,
                match_start as int,
                match_end as int,
                stream_offset as int,
            ),
            final(self).table_4byte@ == match_hashes4(
                old(self).table_4byte@,
                input@,
                match_start as int,
                match_end as int,
                stream_offset as int,
            ),
    {
        // The furthest read is an 8-byte hash at match_end - 2, needing match_end + 6 <= input_end.
        // Since match_start <= match_end - MINMATCH, all match_start positions are also safe.
        if match_end + 6 > input_end {
            return;
        }
        // Near match start
        self.insert_8byte_hash(input, match_start + 1, stream_offset);
        self.insert_8byte_hash(input, match_start + 2, stream_offset);
        self.insert_4byte_hash(input, match_start + 1, stream_offset);
        // Near match end
        if match_end >= 5 {
            self.insert_8byte_hash(input, match_end - 5, stream_offset);
        }
        self.insert_8byte_hash(input, match_end - 3, stream_offset);
        self.insert_8byte_hash(input, match_end - 2, stream_offset);
        self.insert_4byte_hash(input, match_end - 2, stream_offset);
        self.insert_4byte_hash(input, match_end - 1, stream_offset);
    }
}

/// The 8-byte table after the hashes around a match from `ms` to `me` were stored: two
/// positions after its start and three before its end, when eight bytes can be read there.
pub open spec fn match_hashes8(t8: Seq<u32>, input: Seq<u8>, ms: int, me: int, so: int) -> Seq<u32> {
    if me + 6 > input.len() {
        t8
    } else {
        let a8 = t8.update(mid_hash8(input, ms + 1), (ms + 1 + so) as u32).update(
            mid_hash8(input, ms + 2),
            (ms + 2 + so) as u32,
        );
        let b8 = if me >= 5 {
            a8.update(mid_hash8(input, me - 5), (me - 5 + so) as u32)
        } else {
            a8
        };
        b8.update(mid_hash8(input, me - 3), (me - 3 + so) as u32).update(mid_hash8(input, me - 2), (me - 2 + so) as u32)
    }
}

/// The 4-byte table after the hashes around a match from `ms` to `me` were stored: one
/// position after its start and two before its end.
pub open spec fn match_hashes4(t4: Seq<u32>, input: Seq<u8>, ms: int, me: int, so: int) -> Seq<u32> {
    if me + 6 > input.len() {
        t4
    } else {
        t4.update(mid_hash4(input, ms + 1), (ms + 1 + so) as u32).update(mid_hash4(input, me - 2), (me - 2 + so) as u32)
            .update(mid_hash4(input, me - 1), (me - 1 + so) as u32)
    }
}

/// Where the stream position `candidate` lies, seen from `cur`, for an input whose first byte
/// is at stream position `so` after `ext_dict`: the bytes it lies in, its index there and its
/// distance; none when it is not before `cur`, too far back, or before the data there is.
pub open spec fn mid_resolve(input: Seq<u8>, ext_dict: Seq<u8>, so: int, candidate: int, cur: int) -> Option<
    (Seq<u8>, int, int),
> {
    let cur_absolute = cur + so;
    let xbase = so - ext_dict.len();
    if candidate >= cur_absolute || cur_absolute - candidate > MAX_DISTANCE {
        None
    } else if candidate >= so {
        Some((input, candidate - so, cur_absolute - candidate))
    } else if ext_dict.len() != 0 && candidate >= xbase {
        Some((ext_dict, candidate - xbase, cur_absolute - candidate))
    } else {
        None
    }
}

/// The match that probing `candidate` at `cur` finds: its bytes, index, length (counted up to
/// [`END_OFFSET`] bytes before the end) and distance; none when the candidate does not resolve
/// or matches fewer than [`MINMATCH`] bytes.
pub open spec fn mid_probe(input: Seq<u8>, ext_dict: Seq<u8>, so: int, cur: int, candidate: int) -> Option<
    (Seq<u8>, int, int, int),
> {
    match mid_resolve(input, ext_dict, so, candidate, cur) {
        None => None,
        Some((src, idx, dist)) => {
            let len = common_len(
                input,
                cur,
                src,
                idx,
                compare_window(cur, input.len() - END_OFFSET, src.len() as int, idx),
            );
            if len < MINMATCH {
                None
            } else {
                Some((src, idx, len, dist))
            }
        },
    }
}

/// The bytes that the mid compressor writes from the probe at `cur` onwards, with the pending
/// literals starting at `lit` and its tables holding `t4` and `t8`. A probe looks in the 8-byte
/// table, then in the 4-byte table (each storing `cur`); a 4-byte match gives way to a longer
/// 8-byte match one byte later. Without a match the probe moves on by one byte more for every
/// 512 pending literals. Once a probe would start less than [`MFLIMIT`] bytes before the end,
/// the rest is written as literals.
#[verifier::opaque]
pub open spec fn mid_rest(
    input: Seq<u8>,
    ext_dict: Seq<u8>,
    so: int,
    t4: Seq<u32>,
    t8: Seq<u32>,
    lit: int,
    cur: int,
) -> Seq<u8>
    decreases (if lit <= input.len() { input.len() - lit } else { 0 }), search_fuel(input.len() as int, cur) + 1,
{
    if !(0 <= lit <= cur && LZ4_MIN_LENGTH <= input.len()) {
        Seq::empty()
    } else if cur > input.len() - MFLIMIT {
        last_sequence_bytes(input.skip(lit))
    } else {
        let h8 = mid_hash8(input, cur);
        let t8b = t8.update(h8, (cur + so) as u32);
        match mid_probe(input, ext_dict, so, cur, t8[h8] as int) {
            Some((src, idx, len, dist)) => mid_match(input, ext_dict, so, t4, t8b, lit, cur, src, idx, dist),
            None => {
                let h4 = mid_hash4(input, cur);
                let t4b = t4.update(h4, (cur + so) as u32);
                match mid_probe(input, ext_dict, so, cur, t4[h4] as int) {
                    Some((src, idx, len, dist)) => {
                        let hn = mid_hash8(input, cur + 1);
                        match mid_probe(input, ext_dict, so, cur + 1, t8b[hn] as int) {
                            Some((s2, i2, l2, d2)) => if cur < input.len() - MFLIMIT && l2 > len {
                                mid_match(
                                    input,
                                    ext_dict,
                                    so,
                                    t4b,
                                    t8b.update(hn, (cur + 1 + so) as u32),
                                    lit,
                                    cur + 1,
                                    s2,
                                    i2,
                                    d2,
                                )
                            } else {
                                mid_match(input, ext_dict, so, t4b, t8b, lit, cur, src, idx, dist)
                            },
                            None => mid_match(input, ext_dict, so, t4b, t8b, lit, cur, src, idx, dist),
                        }
                    },
                    None => mid_rest(input, ext_dict, so, t4b, t8b, lit, cur + 1 + (cur - lit) / 512),
                }
            },
        }
    }
}

/// The bytes that the mid compressor writes once it takes the match at `mcur` with the bytes
/// at `idx` in `src`, `dist` bytes back: the match is extended backwards over the pending
/// literals and counted again from its new start, the hashes around it are stored, the
/// sequence is written, and the search goes on after the match.
#[verifier::opaque]
pub open spec fn mid_match(
    input: Seq<u8>,
    ext_dict: Seq<u8>,
    so: int,
    t4: Seq<u32>,
    t8: Seq<u32>,
    lit: int,
    mcur: int,
    src: Seq<u8>,
    idx: int,
    dist: int,
) -> Seq<u8>
    decreases (if lit <= input.len() { input.len() - lit } else { 0 }), 0int,
{
    let b = back_len(input, lit, src, mcur, idx);
    let ms = mcur - b;
    let cs = idx - b;
    let len = common_len(input, ms, src, cs, compare_window(ms, input.len() - END_OFFSET, src.len() as int, cs));
    let me = ms + len;
    if !(0 <= lit <= ms && MINMATCH <= len && me <= input.len()) {
        Seq::empty()
    } else {
        sequence_bytes(input.subrange(lit, ms), dist as nat, (len - MINMATCH) as nat) + mid_rest(
            input,
            ext_dict,
            so,
            match_hashes4(t4, input, ms, me, so),
            match_hashes8(t8, input, ms, me, so),
            me,
            me,
        )
    }
}

/// The slots of a new table of the mid compressor.
pub open spec fn zero_mid_table() -> Seq<u32> {
    Seq::new(LZ4MID_HASHTABLE_SIZE as nat, |i: int| 0u32)
}

/// The block that the mid compressor writes for `input` with new tables and nothing before it.
pub open spec fn mid_compressed(input: Seq<u8>) -> Seq<u8> {
    mid_block(input, 0, Seq::empty(), 0, zero_mid_table(), zero_mid_table())
}

/// The block that the mid compressor writes for `input[prefix..]`, with `ext_dict` before
/// `input`, `input[0]` at stream position `so`, and its tables holding `t4` and `t8`.
pub open spec fn mid_block(input: Seq<u8>, prefix: int, ext_dict: Seq<u8>, so: int, t4: Seq<u32>, t8: Seq<u32>) -> Seq<u8> {
    if input.len() - prefix < LZ4_MIN_LENGTH {
        last_sequence_bytes(input.skip(prefix))
    } else {
        mid_rest(input, ext_dict, so, t4, t8, prefix, prefix)
    }
}

/// The mid algorithm's hash of the four bytes at `pos`.
pub open spec fn mid_hash4(input: Seq<u8>, pos: int) -> int {
    ((crate::block::le_u32_at(input, pos) as u32).wrapping_mul(2654435761u32) >> 17u32) as int
}

/// The mid algorithm's hash of the eight bytes at `pos` (their lower 56 bits).
pub open spec fn mid_hash8(input: Seq<u8>, pos: int) -> int {
    (((crate::block::le_u64_at(input, pos) as u64) << 8u64).wrapping_mul(58295818150454627u64) >> 49u64) as int
}

/// 4-byte hash for the mid algorithm (same multiplier as the fast algorithm).
fn get_hash4_mid(input: &[u8], pos: usize) -> (r: usize)
    requires
        pos + 4 <= input@.len(),
    ensures
        r < LZ4MID_HASHTABLE_SIZE,
        r == mid_hash4(input@, pos as int),
{
    let sequence = get_batch(input, pos);
    let w = sequence.wrapping_mul(2654435761u32);
    assert(w >> 17u32 < 32768u32) by (bit_vector);
    (w >> 17u32) as usize
}

/// Read 8 bytes as a little-endian `u64`.
fn read_u64_little_endian(input: &[u8], pos: usize) -> (r: u64)
    requires
        pos + 8 <= input@.len(),
    ensures
        r as nat == crate::block::le_u64_at(input@, pos as int),
{
    get_batch_arch(input, pos)
}

/// 8-byte hash for the mid algorithm (hashes the lower 56 bits of a little-endian 8-byte read).
fn get_hash8_mid(input: &[u8], pos: usize) -> (r: usize)
    requires
        pos + 8 <= input@.len(),
    ensures
        r < LZ4MID_HASHTABLE_SIZE,
        r == mid_hash8(input@, pos as int),
{
    let sequence = read_u64_little_endian(input, pos);
    let lower_56_bits = sequence << 8u64;
    let w = lower_56_bits.wrapping_mul(58295818150454627u64);
    assert(w >> 49u64 < 32768u64) by (bit_vector);
    (w >> 49u64) as usize
}

/// The number of equal bytes at the start of `a[i..]` and `b[j..]`, at most `w`.
pub open spec fn common_len(a: Seq<u8>, i: int, b: Seq<u8>, j: int, w: int) -> int
    decreases w,
{
    if w <= 0 || a[i] != b[j] {
        0
    } else {
        1 + common_len(a, i + 1, b, j + 1, w - 1)
    }
}

/// A count of equal bytes that stops at the first difference or at `w` is [`common_len`].
pub(crate) proof fn lemma_common_len(a: Seq<u8>, i: int, b: Seq<u8>, j: int, w: int, n: int)
    requires
        0 <= n <= w,
        forall|k: int| 0 <= k < n ==> #[trigger] a[i + k] == b[j + k],
        n < w ==> a[i + n] != b[j + n],
    ensures
        common_len(a, i, b, j, w) == n,
    decreases n,
{
    if n > 0 {
        assert(a[i + 0] == b[j + 0]);
        assert forall|k: int| 0 <= k < n - 1 implies #[trigger] a[(i + 1) + k] == b[(j + 1) + k] by {
            assert(a[i + (k + 1)] == b[j + (k + 1)]);
        }
        lemma_common_len(a, i + 1, b, j + 1, w - 1, n - 1);
    }
}

/// A match found by probing a hash table: `match_length` bytes at `cur` equal the bytes at
/// `candidate` in `source`, `offset` bytes back.
pub struct MatchCandidate<'a> {
    pub cur: usize,
    pub source: &'a [u8],
    pub candidate: usize,
    pub match_length: usize,
    pub offset: u16,
}

/// A match extended backwards and forwards, ready to be encoded.
pub struct FinalizedMatch {
    pub match_start: usize,
    pub match_end: usize,
    pub match_length: usize,
    pub offset: u16,
}

/// Match search over one block, with the data that precedes it.
pub struct MidMatchFinder<'a> {
    pub input: &'a [u8],
    pub ext_dict: &'a [u8],
    pub stream_offset: usize,
    pub ext_dict_stream_offset: usize,
    pub end_pos_check: usize,
    pub match_limit: usize,
    pub input_end: usize,
}

impl<'a> MidMatchFinder<'a> {
    /// The positions fit the input, which is long enough to hold a match.
    pub open spec fn wf(&self) -> bool {
        &&& self.input_end == self.input@.len()
        &&& self.input_end >= LZ4_MIN_LENGTH
        &&& self.end_pos_check == self.input_end - MFLIMIT
        &&& self.match_limit == self.input_end - END_OFFSET
        &&& self.ext_dict@.len() <= self.stream_offset
        &&& self.ext_dict_stream_offset == self.stream_offset - self.ext_dict@.len()
        &&& self.stream_offset + self.input_end + self.input_end / 256 + 16 <= usize::MAX
    }

    /// `mc` is a match of at least [`MINMATCH`] bytes that ends before the match limit.
    pub open spec fn valid_candidate(&self, mc: MatchCandidate<'a>) -> bool {
        &&& mc.match_length >= MINMATCH
        &&& mc.cur + mc.match_length <= self.match_limit
        &&& 0 < mc.offset <= MAX_DISTANCE
        &&& mc.candidate + mc.match_length <= mc.source@.len()
        &&& candidate_ok(mc.source@, mc.candidate as int, mc.offset as int, mc.cur as int, self.input@, self.ext_dict@)
        &&& forall|k: int| 0 <= k < mc.match_length ==> #[trigger] self.input@[mc.cur + k] == mc.source@[mc.candidate + k]
    }

    pub fn new(
        input: &'a [u8],
        ext_dict: &'a [u8],
        stream_offset: usize,
        end_pos_check: usize,
        match_limit: usize,
        input_end: usize,
    ) -> (f: Self)
        requires
            ext_dict@.len() <= stream_offset,
        ensures
            f.input == input,
            f.ext_dict == ext_dict,
            f.stream_offset == stream_offset,
            f.ext_dict_stream_offset == stream_offset - ext_dict@.len(),
            f.end_pos_check == end_pos_check,
            f.match_limit == match_limit,
            f.input_end == input_end,
    {
        MidMatchFinder {
            input,
            ext_dict,
            stream_offset,
            ext_dict_stream_offset: stream_offset - ext_dict.len(),
            end_pos_check,
            match_limit,
            input_end,
        }
    }

    /// Where the stream position `candidate` lies, seen from `cur`: the bytes it lies in, its
    /// index there and its distance; none when it is not before `cur`, too far back, or before
    /// the data the finder has.
    pub open spec fn resolve_spec(&self, candidate: int, cur: int) -> Option<(Seq<u8>, int, int)> {
        mid_resolve(self.input@, self.ext_dict@, self.stream_offset as int, candidate, cur)
    }

    /// The match that probing `candidate` at `cur` finds: its bytes, index, length and
    /// distance; none when the candidate does not resolve or matches fewer than
    /// [`MINMATCH`] bytes.
    pub open spec fn probe_spec(&self, cur: int, candidate: int) -> Option<(Seq<u8>, int, int, int)> {
        mid_probe(self.input@, self.ext_dict@, self.stream_offset as int, cur, candidate)
    }

    /// `r` is what [`Self::probe_spec`] gives for `candidate` at `cur`.
    pub open spec fn probed(&self, cur: int, candidate: int, r: Option<MatchCandidate<'a>>) -> bool {
        match self.probe_spec(cur, candidate) {
            None => r is None,
            Some((src, idx, len, dist)) => r matches Some(mc) && mc.cur == cur && mc.source@ == src && mc.candidate
                == idx && mc.match_length == len && mc.offset == dist,
        }
    }

    fn cur_absolute(&self, cur: usize) -> (r: usize)
        requires
            self.wf(),
            cur <= self.input_end,
        ensures
            r == cur + self.stream_offset,
    {
        cur + self.stream_offset
    }

    /// Resolve an absolute hash table position to a source slice and local index.
    /// Returns `None` if the candidate is out of range or unreachable.
    /// Returns `(source, local_index, distance)` on success.
    fn resolve_candidate(&self, candidate: usize, cur: usize) -> (r: Option<(&'a [u8], usize, usize)>)
        requires
            self.wf(),
            cur <= self.input_end,
        ensures
            match self.resolve_spec(candidate as int, cur as int) {
                None => r is None,
                Some((s, i, d)) => r matches Some((src, idx, dist)) && src@ == s && idx == i && dist == d,
            },
            r matches Some((src, idx, dist)) ==> 0 < dist <= MAX_DISTANCE && idx < src@.len() && candidate_ok(
                src@,
                idx as int,
                dist as int,
                cur as int,
                self.input@,
                self.ext_dict@,
            ),
    {
        // A candidate at or after the cursor is no match (it cannot come from this stream).
        let cur_absolute = self.cur_absolute(cur);
        if candidate >= cur_absolute {
            return None;
        }
        let distance = cur_absolute - candidate;
        if distance > MAX_DISTANCE {
            return None;
        }
        if candidate >= self.stream_offset {
            Some((self.input, candidate - self.stream_offset, distance))
        } else if self.ext_dict.len() != 0 && candidate >= self.ext_dict_stream_offset {
            Some((self.ext_dict, candidate - self.ext_dict_stream_offset, distance))
        } else {
            None
        }
    }

    fn probe_candidate(&self, cur: usize, candidate: usize) -> (r: Option<MatchCandidate<'a>>)
        requires
            self.wf(),
            cur <= self.input_end,
        ensures
            self.probed(cur as int, candidate as int, r),
            r matches Some(mc) ==> mc.cur == cur && self.valid_candidate(mc),
    {
        let ghost cand0 = candidate as int;
        let (source, candidate, distance) = match self.resolve_candidate(candidate, cur) {
            Some(t) => t,
            None => {
                return None;
            },
        };
        let mut match_end = cur;
        let match_length = count_same_bytes(self.input, &mut match_end, source, candidate, self.match_limit);
        proof {
            lemma_common_len(
                self.input@,
                cur as int,
                source@,
                candidate as int,
                compare_window(cur as int, self.match_limit as int, source@.len() as int, candidate as int),
                match_length as int,
            );
        }
        if match_length < MINMATCH {
            return None;
        }
        Some(MatchCandidate { cur, source, candidate, match_length, offset: distance as u16 })
    }

    fn probe_8byte(&self, table: &mut HashTableMid, cur: usize) -> (r: Option<MatchCandidate<'a>>)
        requires
            self.wf(),
            old(table).wf(),
            cur <= self.end_pos_check,
        ensures
            final(table).wf(),
            r matches Some(mc) ==> mc.cur == cur && self.valid_candidate(mc),
            self.probed(cur as int, old(table).table_8byte@[mid_hash8(self.input@, cur as int)] as int, r),
            final(table).table_8byte@ == old(table).table_8byte@.update(mid_hash8(self.input@, cur as int), (cur + self.stream_offset) as u32),
            final(table).table_4byte@ == old(table).table_4byte@,
    {
        let hash = get_hash8_mid(self.input, cur);
        let candidate = table.table_8byte[hash] as usize;
        let cur_absolute = self.cur_absolute(cur);
        table.table_8byte[hash] = cur_absolute as u32;
        self.probe_candidate(cur, candidate)
    }

    fn probe_4byte(&self, table: &mut HashTableMid, cur: usize) -> (r: Option<MatchCandidate<'a>>)
        requires
            self.wf(),
            old(table).wf(),
            cur <= self.end_pos_check,
        ensures
            final(table).wf(),
            r matches Some(mc) ==> mc.cur == cur && self.valid_candidate(mc),
            self.probed(cur as int, old(table).table_4byte@[mid_hash4(self.input@, cur as int)] as int, r),
            final(table).table_4byte@ == old(table).table_4byte@.update(mid_hash4(self.input@, cur as int), (cur + self.stream_offset) as u32),
            final(table).table_8byte@ == old(table).table_8byte@,
    {
        let hash = get_hash4_mid(self.input, cur);
        let candidate = table.table_4byte[hash] as usize;
        let cur_absolute = self.cur_absolute(cur);
        table.table_4byte[hash] = cur_absolute as u32;
        self.probe_candidate(cur, candidate)
    }

    /// Replaces `match_candidate` by a longer match that starts one byte later, if the 8-byte
    /// table knows one.
    fn upgrade_with_8byte_lookahead(&self, table: &mut HashTableMid, cur: usize, match_candidate: &mut MatchCandidate<'a>)
        requires
            self.wf(),
            old(table).wf(),
            cur <= self.end_pos_check,
            old(match_candidate).cur == cur,
            self.valid_candidate(*old(match_candidate)),
        ensures
            final(table).wf(),
            self.valid_candidate(*final(match_candidate)),
            final(match_candidate).cur == cur || final(match_candidate).cur == cur + 1,
            final(match_candidate).cur <= self.end_pos_check,
            ({
                let la = self.probe_spec(cur + 1, old(table).table_8byte@[mid_hash8(self.input@, cur + 1)] as int);
                let unchanged = *final(match_candidate) == *old(match_candidate) && *final(table) == *old(table);
                if cur >= self.end_pos_check {
                    unchanged
                } else {
                    match la {
                        None => unchanged,
                        Some((src, idx, len, dist)) => if len <= old(match_candidate).match_length {
                            unchanged
                        } else {
                            &&& final(match_candidate).cur == cur + 1
                            &&& final(match_candidate).source@ == src
                            &&& final(match_candidate).candidate == idx
                            &&& final(match_candidate).match_length == len
                            &&& final(match_candidate).offset == dist
                            &&& final(table).table_8byte@ == old(table).table_8byte@.update(
                                mid_hash8(self.input@, cur + 1),
                                (cur + 1 + self.stream_offset) as u32,
                            )
                            &&& final(table).table_4byte@ == old(table).table_4byte@
                        },
                    }
                }
            }),
    {
        if cur >= self.end_pos_check {
            return;
        }
        let lookahead_cur = cur + 1;
        let lookahead_hash = get_hash8_mid(self.input, lookahead_cur);
        let lookahead_candidate = table.table_8byte[lookahead_hash] as usize;
        let lookahead_match = match self.probe_candidate(lookahead_cur, lookahead_candidate) {
            Some(m) => m,
            None => {
                return;
            },
        };
        if lookahead_match.match_length <= match_candidate.match_length {
            return;
        }
        let lookahead_absolute = self.cur_absolute(lookahead_cur);
        table.table_8byte[lookahead_hash] = lookahead_absolute as u32;
        *match_candidate = lookahead_match;
    }

    /// Extends the match backwards down to `literal_start`, and counts it again from its new
    /// start.
    fn finalize_match(&self, literal_start: usize, match_candidate: MatchCandidate<'a>) -> (m: FinalizedMatch)
        requires
            self.wf(),
            self.valid_candidate(match_candidate),
            literal_start <= match_candidate.cur,
        ensures
            literal_start <= m.match_start <= match_candidate.cur,
            m.match_length >= MINMATCH,
            m.match_end == m.match_start + m.match_length,
            match_candidate.cur + match_candidate.match_length <= m.match_end <= self.match_limit,
            m.offset == match_candidate.offset,
            0 < m.offset <= MAX_DISTANCE,
            m.offset <= self.ext_dict@.len() + m.match_start,
            repeats(
                self.ext_dict@ + self.input@,
                self.ext_dict@.len() + m.match_start,
                m.offset as int,
                m.match_length as int,
            ),
            m.match_start == match_candidate.cur - back_len(
                self.input@,
                literal_start as int,
                match_candidate.source@,
                match_candidate.cur as int,
                match_candidate.candidate as int,
            ),
            m.match_length == common_len(
                self.input@,
                m.match_start as int,
                match_candidate.source@,
                match_candidate.candidate - (match_candidate.cur - m.match_start),
                compare_window(
                    m.match_start as int,
                    self.input@.len() - END_OFFSET,
                    match_candidate.source@.len() as int,
                    match_candidate.candidate - (match_candidate.cur - m.match_start),
                ),
            ),
    {
        let ghost src = match_candidate.source@;
        let ghost c0 = match_candidate.cur as int;
        let ghost k0 = match_candidate.candidate as int;
        let ghost n0 = match_candidate.match_length as int;
        let mut match_start = match_candidate.cur;
        let mut candidate = match_candidate.candidate;
        backtrack_match(self.input, &mut match_start, literal_start, match_candidate.source, &mut candidate);
        let ghost ms = match_start as int;
        let ghost cs = candidate as int;
        let mut match_end = match_start;
        let match_length = count_same_bytes(self.input, &mut match_end, match_candidate.source, candidate, self.match_limit);
        proof {
            lemma_back_len(self.input@, literal_start as int, src, c0, k0, ms, cs);
            lemma_common_len(
                self.input@,
                ms,
                src,
                cs,
                compare_window(ms, self.match_limit as int, src.len() as int, cs),
                match_length as int,
            );
            // Every byte of [match_start, cur + match_length) is known to match.
            assert forall|k: int| 0 <= k < c0 + n0 - ms implies #[trigger] self.input@[ms + k] == src[cs + k] by {
                if ms + k < c0 {
                    assert(self.input@[ms + k] == src[ms + k - c0 + k0]);
                } else {
                    let k2 = ms + k - c0;
                    assert(self.input@[c0 + k2] == src[k0 + k2]);
                }
            }
            if (match_length as int) < c0 + n0 - ms {
                assert(self.input@[ms + match_length] == src[cs + match_length]);
            }
            let d = self.ext_dict@ + self.input@;
            assert forall|k: int| 0 <= k < match_length implies #[trigger] d[self.ext_dict@.len() + ms + k] == d[self.ext_dict@.len() + ms + k - match_candidate.offset] by {
                assert(self.input@[ms + k] == src[cs + k]);
                lemma_candidate_bytes(src, cs, match_candidate.offset as int, ms, self.input@, self.ext_dict@, k);
            }
        }
        FinalizedMatch { match_start, match_end, match_length, offset: match_candidate.offset }
    }

    /// Encodes the finalized match and returns the position after it.
    #[verifier::rlimit(100)]
    #[verifier::spinoff_prover]
    fn encode_match(
        &self,
        table: &mut HashTableMid,
        output: &mut SliceSink,
        literal_start: usize,
        match_candidate: MatchCandidate<'a>,
        Ghost(buf0): Ghost<Seq<u8>>,
        Ghost(p0): Ghost<int>,
        Ghost(prefix): Ghost<int>,
    ) -> (end: usize)
        requires
            self.wf(),
            old(table).wf(),
            old(output).wf(),
            self.valid_candidate(match_candidate),
            literal_start <= match_candidate.cur,
            match_candidate.cur <= self.end_pos_check,
            ruled_prefix_within(
                old(output).output@.subrange(p0, old(output).pos as int),
                self.input@,
                self.ext_dict@.len() as int,
                prefix,
                literal_start as int,
                MFLIMIT as int,
                END_OFFSET as int,
            ),
            encoder_state(
                old(output).output@,
                old(output).pos as int,
                buf0,
                p0,
                self.input@,
                prefix,
                literal_start as int,
                self.ext_dict@,
            ),
        ensures
            final(table).wf(),
            final(output).wf(),
            match_candidate.cur + MINMATCH <= end <= self.match_limit,
            encoder_state(
                final(output).output@,
                final(output).pos as int,
                buf0,
                p0,
                self.input@,
                prefix,
                end as int,
                self.ext_dict@,
            ),
            final(final(output).output)@ == final(old(output).output)@,
            ruled_prefix_within(
                final(output).output@.subrange(p0, final(output).pos as int),
                self.input@,
                self.ext_dict@.len() as int,
                prefix,
                end as int,
                MFLIMIT as int,
                END_OFFSET as int,
            ),
            final(output).output@.subrange(p0, final(output).pos as int) + mid_rest(
                self.input@,
                self.ext_dict@,
                self.stream_offset as int,
                final(table).table4_view(),
                final(table).table8_view(),
                end as int,
                end as int,
            ) == old(output).output@.subrange(p0, old(output).pos as int) + mid_match(
                self.input@,
                self.ext_dict@,
                self.stream_offset as int,
                old(table).table4_view(),
                old(table).table8_view(),
                literal_start as int,
                match_candidate.cur as int,
                match_candidate.source@,
                match_candidate.candidate as int,
                match_candidate.offset as int,
            ),
    {
        let ghost e0 = output.output@.subrange(p0, output.pos as int);
        let finalized_match = self.finalize_match(literal_start, match_candidate);
        table.insert_match_hashes(
            self.input,
            finalized_match.match_start,
            finalized_match.match_end,
            self.input_end,
            self.stream_offset,
        );
        emit_sequence(
            self.input,
            output,
            literal_start,
            finalized_match.match_start,
            finalized_match.offset,
            finalized_match.match_length,
            Ghost(buf0),
            Ghost(p0),
            Ghost(prefix),
            Ghost(self.ext_dict@),
        );
        proof {
            let ms = finalized_match.match_start as int;
            let me = finalized_match.match_end as int;
            let sb = sequence_bytes(
                self.input@.subrange(literal_start as int, ms),
                finalized_match.offset as nat,
                (finalized_match.match_length - MINMATCH) as nat,
            );
            let rest = mid_rest(
                self.input@,
                self.ext_dict@,
                self.stream_offset as int,
                table.table4_view(),
                table.table8_view(),
                me,
                me,
            );
            assert(mid_match(
                self.input@,
                self.ext_dict@,
                self.stream_offset as int,
                old(table).table4_view(),
                old(table).table8_view(),
                literal_start as int,
                match_candidate.cur as int,
                match_candidate.source@,
                match_candidate.candidate as int,
                match_candidate.offset as int,
            ) == sb + rest) by {
                let b = back_len(self.input@, literal_start as int, match_candidate.source@, match_candidate.cur as int, match_candidate.candidate as int);
                assert(ms == match_candidate.cur - b);
                assert(finalized_match.match_length as int == common_len(
                    self.input@,
                    ms,
                    match_candidate.source@,
                    match_candidate.candidate - b,
                    compare_window(ms, self.input@.len() - END_OFFSET, match_candidate.source@.len() as int, match_candidate.candidate - b),
                ));
                assert(me == ms + finalized_match.match_length);
                assert(table.table4_view() == match_hashes4(old(table).table4_view(), self.input@, ms, me, self.stream_offset as int));
                assert(table.table8_view() == match_hashes8(old(table).table8_view(), self.input@, ms, me, self.stream_offset as int));
                reveal_with_fuel(mid_match, 1);
            }
            assert(e0 + sb + rest =~= e0 + (sb + rest));
            lemma_within_push(
                e0,
                self.input@,
                self.ext_dict@.len() as int,
                prefix,
                literal_start as int,
                ms,
                finalized_match.offset as int,
                finalized_match.match_length as int,
                MFLIMIT as int,
                END_OFFSET as int,
            );
        }
        finalized_match.match_end
    }
}

/// Internal mid compression.
/// `input_pos` is where the current block starts (positions before it are prefix).
/// `ext_dict` and `stream_offset` support linked block mode.
///
/// Returns [`CompressError::OutputTooSmall`], writing nothing, when the output has fewer free
/// bytes than [`max_output_size`] of the block.
#[verifier::rlimit(100)]
#[verifier::spinoff_prover]
pub fn compress_mid_internal(
    input: &[u8],
    input_pos: usize,
    output: &mut SliceSink,
    table: &mut HashTableMid,
    ext_dict: &[u8],
    stream_offset: usize,
) -> (r: Result<usize, CompressError>)
    requires
        input_pos <= input@.len(),
        old(output).wf(),
        old(table).wf(),
        ext_dict@.len() <= stream_offset,
        stream_offset + input@.len() + input@.len() / 256 + 16 <= usize::MAX,
    ensures
        final(table).wf(),
        final(output).wf(),
        final(output).output@.len() == old(output).output@.len(),
        final(final(output).output)@ == final(old(output).output)@,
        max_output_size(input@.len() - input_pos) > old(output).output@.len() - old(output).pos ==> r
            == Err::<usize, CompressError>(CompressError::OutputTooSmall) && final(output).output@
            == old(output).output@ && final(output).pos == old(output).pos,
        max_output_size(input@.len() - input_pos) <= old(output).output@.len() - old(output).pos ==> (
        r matches Ok(n) && n <= max_output_size(input@.len() - input_pos) && final(output).pos == old(output).pos
            + n && final(output).output@ == splice(
            old(output).output@,
            old(output).pos as int,
            final(output).output@.subrange(old(output).pos as int, final(output).pos as int),
        ) && block_decodes_to(
            final(output).output@.subrange(old(output).pos as int, final(output).pos as int),
            ext_dict@,
            input@,
            input_pos as int,
        ) && block_keeps_rules(
            final(output).output@.subrange(old(output).pos as int, final(output).pos as int),
            input@,
            ext_dict@.len() as int,
            input_pos as int,
        ) && short_block(
            final(output).output@.subrange(old(output).pos as int, final(output).pos as int),
            input@,
            input_pos as int,
        )),
        max_output_size(input@.len() - input_pos) <= old(output).output@.len() - old(output).pos ==> final(output).output@.subrange(
            old(output).pos as int,
            final(output).pos as int,
        ) == mid_block(
            input@,
            input_pos as int,
            ext_dict@,
            stream_offset as int,
            old(table).table4_view(),
            old(table).table8_view(),
        ),
        max_output_size(input@.len() - input_pos) <= old(output).output@.len() - old(output).pos ==> block_within(
            final(output).output@.subrange(old(output).pos as int, final(output).pos as int),
            input@,
            ext_dict@.len() as int,
            input_pos as int,
            MFLIMIT as int,
            END_OFFSET as int,
        ),
{
    let ghost so = stream_offset as int;
    let ghost total = mid_block(input@, input_pos as int, ext_dict@, so, old(table).table4_view(), old(table).table8_view());
    let output_start = output.pos;
    if !fits_output(input.len() - input_pos, output.output.len() - output.pos) {
        return Err(CompressError::OutputTooSmall);
    }
    let ghost buf0 = output.output@;
    let ghost p0 = output_start as int;
    let ghost prefix = input_pos as int;
    proof {
        lemma_encoder_start(buf0, p0, input@, prefix, ext_dict@);
        lemma_within_start(input@, ext_dict@.len() as int, prefix, MFLIMIT as int, END_OFFSET as int);
        assert(output.output@.subrange(p0, p0) =~= Seq::<u8>::empty());
    }
    if input.len() - input_pos < LZ4_MIN_LENGTH {
        assert(output.output@.subrange(p0, p0) =~= Seq::<u8>::empty());
        let n = emit_last_literals(input, output, input_pos, output_start, Ghost(buf0), Ghost(prefix), Ghost(ext_dict@));
        proof {
            lemma_within_last(Seq::empty(), input@, ext_dict@.len() as int, prefix, prefix, MFLIMIT as int, END_OFFSET as int);
        }
        assert(Seq::<u8>::empty() + last_sequence_bytes(input@.skip(input_pos as int)) =~= last_sequence_bytes(input@.skip(input_pos as int)));
        return Ok(n);
    }
    let mut cur = input_pos;
    let mut literal_start = input_pos;
    let input_end = input.len();
    // Inclusive max main-loop `cur`: at least `MFLIMIT` bytes remain from `cur` to `input_end`.
    let end_pos_check = input_end - MFLIMIT;
    // Exclusive end for extending matches: last `END_OFFSET` bytes are handled as literals/trailer.
    let match_limit = input_end - END_OFFSET;
    let match_finder = MidMatchFinder::new(input, ext_dict, stream_offset, end_pos_check, match_limit, input_end);
    assert(output.output@.subrange(p0, output.pos as int) + mid_rest(input@, ext_dict@, so, table.table4_view(), table.table8_view(), literal_start as int, cur as int) =~= total);
    while cur <= end_pos_check
        invariant
            so == stream_offset,
            ruled_prefix_within(
                output.output@.subrange(p0, output.pos as int),
                input@,
                ext_dict@.len() as int,
                prefix,
                literal_start as int,
                MFLIMIT as int,
                END_OFFSET as int,
            ),
            match_finder.stream_offset == stream_offset,
            output.output@.subrange(p0, output.pos as int) + mid_rest(
                input@,
                ext_dict@,
                so,
                table.table4_view(),
                table.table8_view(),
                literal_start as int,
                cur as int,
            ) == total,
            match_finder.wf(),
            match_finder.input == input,
            match_finder.ext_dict == ext_dict,
            match_finder.end_pos_check == end_pos_check,
            match_finder.match_limit == match_limit,
            input_end == input@.len(),
            table.wf(),
            output.wf(),
            literal_start <= cur,
            literal_start <= match_limit,
            cur <= input_end + input_end / 512 + 1,
            encoder_state(output.output@, output.pos as int, buf0, p0, input@, prefix, literal_start as int, ext_dict@),
            buf0 == old(output).output@,
            p0 == old(output).pos,
            p0 == output_start,
            prefix == input_pos,
            final(output.output)@ == final(old(output).output)@,
        decreases input_end + input_end / 512 + 2 - cur,
    {
        let ghost t4 = table.table4_view();
        let ghost t8 = table.table8_view();
        let r8 = match_finder.probe_8byte(table, cur);
        if let Some(match_candidate) = r8 {
            proof {
                assert(mid_rest(input@, ext_dict@, so, t4, t8, literal_start as int, cur as int) == mid_match(
                    input@,
                    ext_dict@,
                    so,
                    table.table4_view(),
                    table.table8_view(),
                    literal_start as int,
                    cur as int,
                    match_candidate.source@,
                    match_candidate.candidate as int,
                    match_candidate.offset as int,
                )) by {
                    reveal_with_fuel(mid_rest, 1);
                    reveal_with_fuel(mid_match, 1);
                }
            }
            cur = match_finder.encode_match(table, output, literal_start, match_candidate, Ghost(buf0), Ghost(p0), Ghost(prefix));
            literal_start = cur;
            continue;
        }
        // Try 4-byte hash, then look one byte ahead in the 8-byte table for a better match.
        let r4 = match_finder.probe_4byte(table, cur);
        if let Some(mut match_candidate) = r4 {
            let ghost mc0 = match_candidate;
            let ghost t4b = table.table4_view();
            let ghost t8b = table.table8_view();
            match_finder.upgrade_with_8byte_lookahead(table, cur, &mut match_candidate);
            proof {
                assert(mid_rest(input@, ext_dict@, so, t4, t8, literal_start as int, cur as int) == mid_match(
                    input@,
                    ext_dict@,
                    so,
                    table.table4_view(),
                    table.table8_view(),
                    literal_start as int,
                    match_candidate.cur as int,
                    match_candidate.source@,
                    match_candidate.candidate as int,
                    match_candidate.offset as int,
                )) by {
                    reveal_with_fuel(mid_rest, 1);
                    reveal_with_fuel(mid_match, 1);
                }
            }
            cur = match_finder.encode_match(table, output, literal_start, match_candidate, Ghost(buf0), Ghost(p0), Ghost(prefix));
            literal_start = cur;
            continue;
        }
        // No match - skip with acceleration
        let gap = cur - literal_start;
        assert(gap >> 9usize == gap / 512) by (bit_vector);
        let ghost cur0 = cur as int;
        cur = cur + 1 + (gap >> 9usize);
        proof {
            assert(mid_rest(input@, ext_dict@, so, t4, t8, literal_start as int, cur0) == mid_rest(
                input@,
                ext_dict@,
                so,
                table.table4_view(),
                table.table8_view(),
                literal_start as int,
                cur as int,
            )) by {
                reveal_with_fuel(mid_rest, 1);
            }
        }
    }
    proof {
        lemma_within_last(
            output.output@.subrange(p0, output.pos as int),
            input@,
            ext_dict@.len() as int,
            prefix,
            literal_start as int,
            MFLIMIT as int,
            END_OFFSET as int,
        );
        assert(mid_rest(input@, ext_dict@, so, table.table4_view(), table.table8_view(), literal_start as int, cur as int)
            == last_sequence_bytes(input@.skip(literal_start as int))) by {
            reveal_with_fuel(mid_rest, 1);
        }
    }
    let n = emit_last_literals(input, output, literal_start, output_start, Ghost(buf0), Ghost(prefix), Ghost(ext_dict@));
    Ok(n)
}

} // verus!
