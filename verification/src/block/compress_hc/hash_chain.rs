//! Hash chain match search and the lazy-matching compressor of levels 3-9.
//!
//! A candidate found through the tables is only used after its bytes were compared with the
//! bytes at the cursor, so the table contents steer the search but never its correctness.
use vstd::prelude::*;
use crate::block::format::last_sequence_bytes;
use crate::block::compress::{
    block_decodes_to, block_keeps_rules, short_block, compare_window, count_same_bytes, emit_last_literals, emit_sequence, encoder_state, fits_output, get_batch,
    lemma_encoder_start, max_output_size, repeats,
};
use crate::block::{
    le_u32, le_u32_at, CompressError, LAST_LITERALS, LZ4_MIN_LENGTH, MFLIMIT, MINMATCH,
};
use crate::block::compress_hc::{
    HASHTABLE_SIZE_HC, MATCH_LENGTH_MASK, MAX_DISTANCE_HC, OPTIMAL_MATCH_LENGTH,
};
use crate::block::compress_hc::mid::{common_len, lemma_common_len};
use crate::sink::{splice, SliceSink};

verus! {

/// Hash table with chain for LZ4 high compression.
///
/// Uses a two-level structure: `dictionary` maps each hash to the most recent input
/// position, and `chain_table` links older positions with the same hash via
/// stored deltas, forming an implicit linked list per hash bucket.
pub struct HashTableHCU32 {
    /// Maps a 15-bit hash of each 4-byte sequence to the most recent position where it was seen.
    dictionary: Vec<u32>,
    /// Backward delta at each position (indexed by `pos & chain_mask()`) to the previous
    /// position with the same hash.
    chain_table: Vec<u16>,
    /// Next input position to be inserted into the hash/chain tables.
    next_to_update: usize,
    /// Maximum number of chain links to follow per search.
    max_attempts: usize,
}

/// Bytes of the little-endian `u32` that holds one byte four times.
pub open spec fn is_byte_pattern(pattern: u32) -> bool {
    pattern == (pattern % 256) * 0x01010101
}

/// The number of bytes equal to `b` from `pos` on, at most `w`.
pub open spec fn byte_run(s: Seq<u8>, pos: int, w: int, b: u8) -> int
    decreases w,
{
    if w <= 0 || s[pos] != b {
        0
    } else {
        1 + byte_run(s, pos + 1, w - 1, b)
    }
}

/// The number of bytes equal to `b` just before `pos`, at most `w`.
pub open spec fn byte_run_back(s: Seq<u8>, pos: int, w: int, b: u8) -> int
    decreases w,
{
    if w <= 0 || s[pos - 1] != b {
        0
    } else {
        1 + byte_run_back(s, pos - 1, w - 1, b)
    }
}

proof fn lemma_byte_run(s: Seq<u8>, pos: int, w: int, b: u8, n: int)
    requires
        0 <= n,
        n <= w || n == 0,
        forall|k: int| 0 <= k < n ==> #[trigger] s[pos + k] == b,
        n < w ==> s[pos + n] != b,
    ensures
        byte_run(s, pos, w, b) == n,
    decreases n,
{
    if n > 0 {
        assert(s[pos + 0] == b);
        assert forall|k: int| 0 <= k < n - 1 implies #[trigger] s[(pos + 1) + k] == b by {
            assert(s[pos + (k + 1)] == b);
        }
        lemma_byte_run(s, pos + 1, w - 1, b, n - 1);
    }
}

proof fn lemma_byte_run_back(s: Seq<u8>, pos: int, w: int, b: u8, n: int)
    requires
        0 <= n <= w,
        forall|k: int| 0 <= k < n ==> #[trigger] s[pos - 1 - k] == b,
        n < w ==> s[pos - 1 - n] != b,
    ensures
        byte_run_back(s, pos, w, b) == n,
    decreases n,
{
    if n > 0 {
        assert(s[pos - 1 - 0] == b);
        assert forall|k: int| 0 <= k < n - 1 implies #[trigger] s[(pos - 1) - 1 - k] == b by {
            assert(s[pos - 1 - (k + 1)] == b);
        }
        lemma_byte_run_back(s, pos - 1, w - 1, b, n - 1);
    }
}

/// Count how many consecutive bytes starting at `pos`, before `limit`, equal the byte that
/// `pattern` repeats four times.
fn count_pattern(input: &[u8], pos: usize, limit: usize, pattern: u32) -> (r: usize)
    requires
        pos <= input@.len(),
        is_byte_pattern(pattern),
    ensures
        forall|k: int| 0 <= k < r ==> #[trigger] input@[pos + k] == pattern % 256,
        pos + r <= input@.len(),
        pos + r <= limit || r == 0,
        pos + r < limit && pos + r < input@.len() ==> input@[pos + r] != pattern % 256,
        r == byte_run(input@, pos as int, (if limit < input@.len() { limit as int } else { input@.len() as int }) - pos, (pattern % 256) as u8),
{
    let limit = if limit < input.len() {
        limit
    } else {
        input.len()
    };
    let byte_val = (pattern & 0xFF) as u8;
    assert(pattern & 0xFF == pattern % 256) by (bit_vector);
    let mut cur = pos;
    while cur < limit && input[cur] == byte_val
        invariant
            pos <= cur,
            cur <= limit || cur == pos,
            limit <= input@.len(),
            byte_val == pattern % 256,
            forall|k: int| pos <= k < cur ==> #[trigger] input@[k] == byte_val,
        decreases limit - cur,
    {
        cur = cur + 1;
    }
    proof {
        assert forall|k: int| 0 <= k < cur - pos implies #[trigger] input@[pos + k] == pattern % 256 by {
            assert(input@[pos + k] == byte_val);
        }
        lemma_byte_run(input@, pos as int, limit - pos, byte_val, cur - pos);
    }
    cur - pos
}

/// Like [`count_pattern`], but walks backward from `pos` down to `low_limit`.
fn reverse_count_pattern(input: &[u8], pos: usize, low_limit: usize, pattern: u32) -> (r: usize)
    requires
        low_limit <= pos <= input@.len(),
        is_byte_pattern(pattern),
    ensures
        r <= pos - low_limit,
        forall|k: int| 0 <= k < r ==> #[trigger] input@[pos - 1 - k] == pattern % 256,
        r < pos - low_limit ==> input@[pos - 1 - r] != pattern % 256,
        r == byte_run_back(input@, pos as int, pos - low_limit, (pattern % 256) as u8),
{
    let byte_val = (pattern & 0xFF) as u8;
    assert(pattern & 0xFF == pattern % 256) by (bit_vector);
    let mut cur = pos;
    while cur > low_limit && input[cur - 1] == byte_val
        invariant
            low_limit <= cur <= pos,
            pos <= input@.len(),
            byte_val == pattern % 256,
            forall|k: int| cur <= k < pos ==> #[trigger] input@[k] == byte_val,
        decreases cur,
    {
        cur = cur - 1;
    }
    proof {
        assert forall|k: int| 0 <= k < pos - cur implies #[trigger] input@[pos - 1 - k] == pattern % 256 by {
            assert(input@[pos - 1 - k] == byte_val);
        }
        lemma_byte_run_back(input@, pos as int, pos - low_limit, byte_val, pos - cur);
    }
    pos - cur
}

/// Read a u32 from a position that may span the boundary between `primary` and `secondary`.
/// When `pos + 4 > primary.len()`, the remaining bytes are read from `secondary[0..]`.
fn read_u32_from_two_slices(primary: &[u8], pos: usize, secondary: &[u8]) -> (r: u32)
    requires
        pos < primary@.len(),
        pos + 4 <= primary@.len() + secondary@.len(),
        primary@.len() + secondary@.len() + 8 <= usize::MAX,
    ensures
        r as nat == le_u32_at(primary@ + secondary@, pos as int),
{
    let ghost both = primary@ + secondary@;
    let plen = primary.len();
    let b0 = if pos < plen { primary[pos] } else { secondary[pos - plen] };
    let b1 = if pos + 1 < plen { primary[pos + 1] } else { secondary[pos + 1 - plen] };
    let b2 = if pos + 2 < plen { primary[pos + 2] } else { secondary[pos + 2 - plen] };
    let b3 = if pos + 3 < plen { primary[pos + 3] } else { secondary[pos + 3 - plen] };
    assert(b0 == both[pos as int] && b1 == both[pos + 1] && b2 == both[pos + 2] && b3 == both[pos + 3]);
    (b0 as u32) + 256 * (b1 as u32) + 65536 * (b2 as u32) + 16777216 * (b3 as u32)
}

/// Four bytes are equal exactly when their little-endian values are.
proof fn lemma_batch_eq(s: Seq<u8>, p: int, t: Seq<u8>, q: int)
    requires
        0 <= p,
        p + 4 <= s.len(),
        0 <= q,
        q + 4 <= t.len(),
    ensures
        (le_u32_at(s, p) == le_u32_at(t, q)) == (forall|k: int| 0 <= k < 4 ==> #[trigger] s[p + k] == t[q + k]),
{
    if le_u32_at(s, p) == le_u32_at(t, q) {
        crate::block::compress::lemma_le_u32_injective(s[p], s[p + 1], s[p + 2], s[p + 3], t[q], t[q + 1], t[q + 2], t[q + 3]);
        assert forall|k: int| 0 <= k < 4 implies #[trigger] s[p + k] == t[q + k] by {
            if k == 0 {
            } else if k == 1 {
            } else if k == 2 {
            } else {
            }
        }
    }
    if forall|k: int| 0 <= k < 4 ==> #[trigger] s[p + k] == t[q + k] {
        assert(s[p + 0] == t[q + 0]);
        assert(s[p + 1] == t[q + 1]);
        assert(s[p + 2] == t[q + 2]);
        assert(s[p + 3] == t[q + 3]);
    }
}

/// Check if two 4-byte sequences starting at the given positions are equal.
fn read_min_match_equals(input: &[u8], pos1: usize, pos2: usize) -> (r: bool)
    requires
        pos1 + 4 <= input@.len(),
        pos2 + 4 <= input@.len(),
    ensures
        r == (forall|k: int| 0 <= k < 4 ==> #[trigger] input@[pos1 + k] == input@[pos2 + k]),
{
    proof {
        lemma_batch_eq(input@, pos1 as int, input@, pos2 as int);
    }
    get_batch(input, pos1) == get_batch(input, pos2)
}

/// Check whether the last two bytes of two spans of `length` starting at `pos1` and `pos2` match.
fn end_bytes_match(input: &[u8], pos1: usize, pos2: usize, length: usize) -> (r: bool)
    requires
        length >= 1,
        pos1 + length < input@.len(),
        pos2 + length < input@.len(),
    ensures
        r == (input@[pos1 + length - 1] == input@[pos2 + length - 1] && input@[pos1 + length as int] == input@[pos2
            + length as int]),
{
    let _len = input.len();
    let tail = length - 1;
    input[pos1 + tail] == input[pos2 + tail] && input[pos1 + tail + 1] == input[pos2 + tail + 1]
}

/// Count matching bytes forward with the reference starting in `ext_dict` and
/// potentially continuing into `input[0..]` (the prefix) when ext_dict is exhausted.
/// `candidate` is a position in the data formed by `ext_dict` followed by `input`.
fn count_forward_ext_dict(input: &[u8], cur: usize, ext_dict: &[u8], candidate: usize, match_limit: usize) -> (r: usize)
    requires
        cur <= input@.len(),
        match_limit <= input@.len(),
        candidate <= ext_dict@.len() + input@.len(),
    ensures
        cur + r <= match_limit || r == 0,
        forall|k: int| 0 <= k < r ==> #[trigger] input@[cur + k] == (ext_dict@ + input@)[candidate + k],
        r <= compare_window(cur as int, match_limit as int, (ext_dict@.len() + input@.len()) as int, candidate as int),
        r < compare_window(cur as int, match_limit as int, (ext_dict@.len() + input@.len()) as int, candidate as int)
            ==> input@[cur + r] != (ext_dict@ + input@)[candidate + r],
{
    let ghost d = ext_dict@ + input@;
    let mut cur = cur;
    let ghost c0 = cur as int;
    if candidate >= ext_dict.len() {
        let prefix_pos = candidate - ext_dict.len();
        let n = count_same_bytes(input, &mut cur, input, prefix_pos, match_limit);
        proof {
            assert forall|k: int| 0 <= k < n implies #[trigger] input@[c0 + k] == d[candidate + k] by {
                assert(input@[c0 + k] == input@[prefix_pos + k]);
            }
        }
        return n;
    }
    let ext_dict_match_len = count_same_bytes(input, &mut cur, ext_dict, candidate, match_limit);
    if candidate + ext_dict_match_len >= ext_dict.len() && cur < match_limit {
        let c1 = cur;
        let more = count_same_bytes(input, &mut cur, input, 0, match_limit);
        proof {
            assert forall|k: int| 0 <= k < ext_dict_match_len + more implies #[trigger] input@[c0 + k] == d[candidate + k] by {
                if k < ext_dict_match_len {
                    assert(input@[c0 + k] == ext_dict@[candidate + k]);
                } else {
                    let k2 = k - ext_dict_match_len;
                    assert(input@[c1 + k2] == input@[0 + k2]);
                }
            }
        }
        ext_dict_match_len + more
    } else {
        proof {
            assert forall|k: int| 0 <= k < ext_dict_match_len implies #[trigger] input@[c0 + k] == d[candidate + k] by {
                assert(input@[c0 + k] == ext_dict@[candidate + k]);
            }
        }
        ext_dict_match_len
    }
}

/// Try to match at a candidate position in `ext_dict`.
/// Returns the total match length (>= MINMATCH) if the first 4 bytes match, or 0.
/// Handles boundary-crossing reads when the candidate is near the end of `ext_dict`.
fn try_ext_dict_match(input: &[u8], cur: usize, match_limit: usize, ext_dict: &[u8], candidate: usize) -> (r: usize)
    requires
        cur + MINMATCH <= match_limit,
        match_limit <= input@.len(),
        candidate < ext_dict@.len(),
        ext_dict@.len() + input@.len() + 8 <= usize::MAX,
    ensures
        r == 0 || (r >= MINMATCH && cur + r <= match_limit),
        forall|k: int| 0 <= k < r ==> #[trigger] input@[cur + k] == (ext_dict@ + input@)[candidate + k],
        r == 0 <==> !(forall|k: int| 0 <= k < MINMATCH ==> #[trigger] input@[cur + k] == (ext_dict@ + input@)[candidate + k]),
        r > 0 && r < compare_window(cur as int, match_limit as int, (ext_dict@.len() + input@.len()) as int, candidate as int)
            ==> input@[cur + r] != (ext_dict@ + input@)[candidate + r],
{
    let ghost d = ext_dict@ + input@;
    let curr = get_batch(input, cur);
    let min_match_ok = if candidate + 4 <= ext_dict.len() {
        let c = get_batch(ext_dict, candidate);
        proof {
            lemma_batch_eq(ext_dict@, candidate as int, input@, cur as int);
            if c == curr {
                assert forall|k: int| 0 <= k < 4 implies #[trigger] input@[cur + k] == d[candidate + k] by {
                    assert(ext_dict@[candidate + k] == input@[cur + k]);
                }
            }
        }
        c == curr
    } else {
        let c = read_u32_from_two_slices(ext_dict, candidate, input);
        proof {
            lemma_batch_eq(d, candidate as int, input@, cur as int);
        }
        c == curr
    };
    if !min_match_ok {
        return 0;
    }
    let n = count_forward_ext_dict(input, cur + MINMATCH, ext_dict, candidate + MINMATCH, match_limit);
    proof {
        assert forall|k: int| 0 <= k < MINMATCH + n implies #[trigger] input@[cur + k] == d[candidate + k] by {
            if k >= 4 {
                let k2 = k - 4;
                assert(input@[cur + 4 + k2] == d[candidate + 4 + k2]);
            }
        }
    }
    MINMATCH + n
}

/// The hash of four bytes read as the little-endian `batch`.
pub open spec fn hc_hash_of(batch: u32) -> u32 {
    batch.wrapping_mul(2654435761u32) >> 17u32
}

/// Hash function for high compression.
pub(crate) fn hash_hc(batch: u32) -> (r: u32)
    ensures
        r < HASHTABLE_SIZE_HC,
        r == hc_hash_of(batch),
{
    let w = batch.wrapping_mul(2654435761u32);
    assert(w >> 17u32 < 32768u32) by (bit_vector);
    w >> 17u32
}

fn get_hash_at(input: &[u8], pos: usize) -> (r: usize)
    requires
        pos + 4 <= input@.len(),
    ensures
        r < HASHTABLE_SIZE_HC,
        r == hc_hash_of(le_u32_at(input@, pos as int) as u32),
{
    hash_hc(get_batch(input, pos)) as usize
}

/// The first of `p`, `2p`, `4p`, ... that is at least `c`.
pub open spec fn pow2_reaching(p: nat, c: nat) -> nat
    decreases c - p,
{
    if p == 0 || p >= c {
        p
    } else if 2 * p >= c {
        2 * p
    } else {
        pow2_reaching(2 * p, c)
    }
}

/// The chain table slot of the absolute position `pos` in a table of `chain.len()` slots.
pub open spec fn hc_slot(chain: Seq<u16>, pos: int) -> int {
    ((pos as usize) & ((chain.len() - 1) as usize)) as int
}

/// The tables after adding the absolute position `pos` with hash `hash`: `pos` becomes the
/// head of its chain, linked to the previous head by their distance, capped to the chain
/// table's reach (0 when the previous head lies ahead of `pos`).
pub open spec fn hc_added(dict: Seq<u32>, chain: Seq<u16>, hash: int, pos: int) -> (Seq<u32>, Seq<u16>) {
    let prev = dict[hash];
    let delta = if pos < prev {
        0int
    } else if pos - prev > chain.len() - 1 {
        chain.len() - 1
    } else {
        pos - prev
    };
    (dict.update(hash, pos as u32), chain.update(hc_slot(chain, pos), delta as u16))
}

/// The tables after adding the absolute positions `from..to` one after the other, each hashed
/// from the bytes of `input` at its local position (`stream_offset` before it).
pub open spec fn hc_inserted(
    dict: Seq<u32>,
    chain: Seq<u16>,
    input: Seq<u8>,
    stream_offset: int,
    from: int,
    to: int,
) -> (Seq<u32>, Seq<u16>)
    decreases to - from,
{
    if from >= to {
        (dict, chain)
    } else {
        let t = hc_added(dict, chain, hc_hash_of(le_u32_at(input, from - stream_offset) as u32) as int, from);
        hc_inserted(t.0, t.1, input, stream_offset, from + 1, to)
    }
}

/// `chain` with the slots of the absolute positions `from..to` set to `delta`.
pub open spec fn hc_chain_filled(chain: Seq<u16>, from: int, to: int, delta: u16) -> Seq<u16>
    decreases to - from,
{
    if from >= to {
        chain
    } else {
        hc_chain_filled(chain.update(hc_slot(chain, from), delta), from + 1, to, delta)
    }
}

/// The tables after making each absolute position of `from..to` the head of its chain, linked
/// `delta` back.
pub open spec fn hc_heads_set(
    dict: Seq<u32>,
    chain: Seq<u16>,
    input: Seq<u8>,
    stream_offset: int,
    from: int,
    to: int,
    delta: u16,
) -> (Seq<u32>, Seq<u16>)
    decreases to - from,
{
    if from >= to {
        (dict, chain)
    } else {
        hc_heads_set(
            dict.update(hc_hash_of(le_u32_at(input, from - stream_offset) as u32) as int, from as u32),
            chain.update(hc_slot(chain, from), delta),
            input,
            stream_offset,
            from + 1,
            to,
            delta,
        )
    }
}

/// The position after `pos` on its chain: `pos` itself when the stored delta leads before the
/// start of the stream.
pub open spec fn hc_next(chain: Seq<u16>, pos: int) -> int {
    let delta = chain[hc_slot(chain, pos)];
    if delta > pos {
        pos
    } else {
        pos - delta
    }
}

/// `candidate` lies before `cur_absolute` and within the chain table's reach of it.
pub open spec fn hc_in_range(chain: Seq<u16>, candidate: int, cur_absolute: int) -> bool {
    candidate < cur_absolute && cur_absolute - candidate <= chain.len() - 1
}

/// The size of the chain table for an input of `input_len` bytes.
pub open spec fn chain_size_spec(input_len: usize) -> nat {
    let clamped: nat = if input_len < 256 {
        256
    } else if input_len > MAX_DISTANCE_HC {
        MAX_DISTANCE_HC as nat
    } else {
        input_len as nat
    };
    pow2_reaching(256, clamped)
}

/// The size of the chain table for an input of `input_len` bytes: the input length, clamped
/// to `256..=MAX_DISTANCE_HC`, rounded up to a power of two.
fn chain_table_size(input_len: usize) -> (r: usize)
    ensures
        r == chain_size_spec(input_len),
        256 <= r <= MAX_DISTANCE_HC,
        r >= input_len || r == MAX_DISTANCE_HC,
        r == 256 || r < 2 * input_len,
{
    let clamped = if input_len < 256 {
        256
    } else if input_len > MAX_DISTANCE_HC {
        MAX_DISTANCE_HC
    } else {
        input_len
    };
    let mut p: usize = 256;
    while p < clamped
        invariant
            256 <= p <= MAX_DISTANCE_HC,
            256 <= clamped <= MAX_DISTANCE_HC,
            p == 256 || p < 2 * clamped,
            pow2_reaching(p as nat, clamped as nat) == chain_size_spec(input_len),
            p == 256 || p == 512 || p == 1024 || p == 2048 || p == 4096 || p == 8192 || p == 16384 || p == 32768
                || p == 65536,
        decreases MAX_DISTANCE_HC - p,
    {
        p = p * 2;
    }
    p
}

fn candidate_position_for_distance(start_position: usize, distance: usize) -> (r: u32)
    ensures
        r == (start_position as u32).wrapping_sub(distance as u32),
{
    (start_position as u32).wrapping_sub(distance as u32)
}

/// Count matching bytes forward from `pos2` against `pos1`, before `limit`.
fn count_common_bytes(input: &[u8], pos1: usize, pos2: usize, limit: usize) -> (r: usize)
    requires
        pos1 <= input@.len(),
        pos2 <= input@.len(),
    ensures
        pos2 + r <= limit || r == 0,
        pos1 + r <= input@.len(),
        pos2 + r <= input@.len(),
        forall|k: int| 0 <= k < r ==> #[trigger] input@[pos2 + k] == input@[pos1 + k],
        r <= compare_window(pos2 as int, if input@.len() < limit { input@.len() as int } else { limit as int }, input@.len() as int, pos1 as int),
        r < compare_window(pos2 as int, if input@.len() < limit { input@.len() as int } else { limit as int }, input@.len() as int, pos1 as int)
            ==> input@[pos2 + r] != input@[pos1 + r],
{
    let mut cur = pos2;
    let lim = if input.len() < limit {
        input.len()
    } else {
        limit
    };
    count_same_bytes(input, &mut cur, input, pos1, lim)
}

/// The number of equal bytes just before `i` and just before `j` in `a`, at most `w`.
pub open spec fn common_back(a: Seq<u8>, i: int, j: int, w: int) -> int
    decreases w,
{
    if w <= 0 || a[i - 1] != a[j - 1] {
        0
    } else {
        1 + common_back(a, i - 1, j - 1, w - 1)
    }
}

/// A backward count of equal bytes that stops at the first difference or at `w` is
/// [`common_back`].
proof fn lemma_common_back(a: Seq<u8>, i: int, j: int, w: int, n: int)
    requires
        0 <= n <= w,
        forall|k: int| 0 <= k < n ==> #[trigger] a[i - 1 - k] == a[j - 1 - k],
        n < w ==> a[i - 1 - n] != a[j - 1 - n],
    ensures
        common_back(a, i, j, w) == n,
    decreases n,
{
    if n > 0 {
        assert(a[i - 1 - 0] == a[j - 1 - 0]);
        assert forall|k: int| 0 <= k < n - 1 implies #[trigger] a[(i - 1) - 1 - k] == a[(j - 1) - 1 - k] by {
            assert(a[i - 1 - (k + 1)] == a[j - 1 - (k + 1)]);
        }
        lemma_common_back(a, i - 1, j - 1, w - 1, n - 1);
    }
}

/// Find the number of common bytes backward from two positions.
fn count_common_bytes_backward(input: &[u8], pos1: usize, pos2: usize, limit1: usize, limit2: usize) -> (r: usize)
    requires
        limit1 <= pos1 <= input@.len(),
        limit2 <= pos2 <= input@.len(),
    ensures
        r <= pos1 - limit1,
        r <= pos2 - limit2,
        forall|k: int| 0 <= k < r ==> #[trigger] input@[pos1 - 1 - k] == input@[pos2 - 1 - k],
        r < pos1 - limit1 && r < pos2 - limit2 ==> input@[pos1 - 1 - r] != input@[pos2 - 1 - r],
{
    let max_back = if pos1 - limit1 < pos2 - limit2 {
        pos1 - limit1
    } else {
        pos2 - limit2
    };
    let mut len: usize = 0;
    while len < max_back && input[pos1 - 1 - len] == input[pos2 - 1 - len]
        invariant
            len <= max_back,
            max_back <= pos1 - limit1,
            max_back <= pos2 - limit2,
            pos1 <= input@.len(),
            pos2 <= input@.len(),
            forall|k: int| 0 <= k < len ==> #[trigger] input@[pos1 - 1 - k] == input@[pos2 - 1 - k],
        decreases max_back - len,
    {
        len = len + 1;
    }
    len
}

impl HashTableHCU32 {
    /// The tables have their sizes: the dictionary covers all hashes and the chain table has
    /// at most [`MAX_DISTANCE_HC`] slots.
    pub closed spec fn wf(&self) -> bool {
        &&& self.dictionary@.len() == HASHTABLE_SIZE_HC
        &&& 1 <= self.chain_table@.len() <= MAX_DISTANCE_HC
    }

    /// The hash table's entries.
    pub closed spec fn dict_view(&self) -> Seq<u32> {
        self.dictionary@
    }

    /// The chain table's entries.
    pub closed spec fn chain_view(&self) -> Seq<u16> {
        self.chain_table@
    }

    /// The next position to insert.
    pub closed spec fn next_update_view(&self) -> usize {
        self.next_to_update
    }

    /// The number of chain links a search follows at most.
    pub closed spec fn attempts_view(&self) -> usize {
        self.max_attempts
    }

    /// Prepare the table for a new linked block without clearing existing entries.
    /// Ensures the chain table is `MAX_DISTANCE_HC` so cross-block chain links work,
    /// and advances `next_to_update` past the positions now in `ext_dict`.
    pub fn prepare_linked_block(&mut self, max_attempts: usize, block_start: usize)
        requires
            old(self).wf(),
        ensures
            final(self).wf(),
            final(self).chain_view().len() == MAX_DISTANCE_HC,
            final(self).dict_view() == old(self).dict_view(),
            final(self).chain_view().take(old(self).chain_view().len() as int) == old(self).chain_view(),
            final(self).next_update_view() == block_start,
            final(self).attempts_view() == max_attempts,
    {
        if self.chain_table.len() < MAX_DISTANCE_HC {
            let old_len = self.chain_table.len();
            let ghost c0 = self.chain_table@;
            let mut new_chain: Vec<u16> = vec![0u16; MAX_DISTANCE_HC];
            let mut i: usize = 0;
            while i < old_len
                invariant
                    i <= old_len == c0.len() < MAX_DISTANCE_HC,
                    c0 == self.chain_table@,
                    new_chain@.len() == MAX_DISTANCE_HC,
                    forall|k: int| 0 <= k < i ==> #[trigger] new_chain@[k] == c0[k],
                decreases old_len - i,
            {
                new_chain.set(i, self.chain_table[i]);
                i = i + 1;
            }
            self.chain_table = new_chain;
            assert(self.chain_table@.take(old_len as int) =~= c0);
        } else {
            assert(self.chain_table@.take(self.chain_table@.len() as int) =~= self.chain_table@);
        }
        self.next_to_update = block_start;
        self.max_attempts = max_attempts;
    }

    /// Subtract `delta` from every absolute position stored in the hash table.
    /// Used when `stream_offset` approaches `u32::MAX / 2` to prevent overflow.
    pub fn reposition(&mut self, delta: usize)
        requires
            old(self).wf(),
        ensures
            final(self).wf(),
            final(self).chain_view() == old(self).chain_view(),
            final(self).attempts_view() == old(self).attempts_view(),
            forall|k: int|
                0 <= k < HASHTABLE_SIZE_HC ==> #[trigger] final(self).dict_view()[k] == if old(self).dict_view()[k]
                    >= (delta as u32) {
                    (old(self).dict_view()[k] - (delta as u32)) as u32
                } else {
                    0u32
                },
            final(self).next_update_view() == if old(self).next_update_view() >= delta {
                (old(self).next_update_view() - delta) as usize
            } else {
                0usize
            },
    {
        let delta32 = delta as u32;
        let mut i: usize = 0;
        while i < HASHTABLE_SIZE_HC
            invariant
                i <= HASHTABLE_SIZE_HC,
                delta32 == delta as u32,
                self.dictionary@.len() == HASHTABLE_SIZE_HC,
                self.chain_table == old(self).chain_table,
                self.max_attempts == old(self).max_attempts,
                self.next_to_update == old(self).next_to_update,
                old(self).wf(),
                forall|k: int|
                    0 <= k < i ==> #[trigger] self.dictionary@[k] == if old(self).dictionary@[k] >= delta32 {
                        (old(self).dictionary@[k] - delta32) as u32
                    } else {
                        0u32
                    },
                forall|k: int| i <= k < HASHTABLE_SIZE_HC ==> #[trigger] self.dictionary@[k] == old(self).dictionary@[k],
            decreases HASHTABLE_SIZE_HC - i,
        {
            let v = self.dictionary[i];
            self.dictionary.set(i, v.saturating_sub(delta32));
            i = i + 1;
        }
        self.next_to_update = self.next_to_update.saturating_sub(delta);
    }

    /// Creates zeroed tables that search up to `max_attempts` chain links.
    pub fn new(max_attempts: usize, input_len: usize) -> (t: Self)
        ensures
            t.wf(),
    {
        let chain_size = chain_table_size(input_len);
        Self {
            dictionary: vec![0u32; HASHTABLE_SIZE_HC],
            chain_table: vec![0u16; chain_size],
            next_to_update: 0,
            max_attempts,
        }
    }

    /// Reset the table for reuse, re-zeroing both tables.
    /// Avoids reallocation if the existing chain table is large enough.
    pub fn reset(&mut self, max_attempts: usize, input_len: usize)
        requires
            old(self).wf(),
        ensures
            final(self).wf(),
            final(self).attempts_view() == max_attempts,
            final(self).next_update_view() == 0,
            forall|h: int| 0 <= h < HASHTABLE_SIZE_HC ==> #[trigger] final(self).dict_view()[h] == 0,
            final(self).chain_view().len() == if old(self).chain_view().len() >= chain_size_spec(input_len) {
                old(self).chain_view().len()
            } else {
                chain_size_spec(input_len) as nat
            },
            forall|i: int| 0 <= i < chain_size_spec(input_len) ==> #[trigger] final(self).chain_view()[i] == 0,
            forall|i: int|
                chain_size_spec(input_len) <= i < final(self).chain_view().len() ==> #[trigger] final(self).chain_view()[i]
                    == old(self).chain_view()[i],
    {
        let needed_chain_size = chain_table_size(input_len);
        let mut i: usize = 0;
        while i < HASHTABLE_SIZE_HC
            invariant
                self.dictionary@.len() == HASHTABLE_SIZE_HC,
                self.chain_table@ == old(self).chain_table@,
                i <= HASHTABLE_SIZE_HC,
                forall|h: int| 0 <= h < i ==> #[trigger] self.dictionary@[h] == 0,
            decreases HASHTABLE_SIZE_HC - i,
        {
            self.dictionary[i] = 0;
            i = i + 1;
        }
        // Reuse chain table if big enough, otherwise reallocate
        if self.chain_table.len() >= needed_chain_size {
            let mut j: usize = 0;
            while j < needed_chain_size
                invariant
                    self.dictionary@.len() == HASHTABLE_SIZE_HC,
                    forall|h: int| 0 <= h < HASHTABLE_SIZE_HC ==> #[trigger] self.dictionary@[h] == 0,
                    self.chain_table@.len() == old(self).chain_table@.len(),
                    needed_chain_size <= self.chain_table@.len(),
                    j <= needed_chain_size,
                    forall|i: int| 0 <= i < j ==> #[trigger] self.chain_table@[i] == 0,
                    forall|i: int| needed_chain_size <= i < self.chain_table@.len() ==> #[trigger] self.chain_table@[i]
                        == old(self).chain_table@[i],
                decreases needed_chain_size - j,
            {
                self.chain_table[j] = 0;
                j = j + 1;
            }
        } else {
            self.chain_table = vec![0u16; needed_chain_size];
        }
        self.next_to_update = 0;
        self.max_attempts = max_attempts;
    }

    /// The chain table slot of the absolute position `pos`.
    pub closed spec fn chain_index(&self, pos: usize) -> int {
        (pos & ((self.chain_table@.len() - 1) as usize)) as int
    }

    /// The chain's next position after `pos`: `pos` itself when the stored delta leads before
    /// the start of the stream.
    pub closed spec fn next_spec(&self, pos: usize) -> usize {
        hc_next(self.chain_table@, pos as int) as usize
    }

    /// `candidate` lies before `cur_absolute` and within the chain table's reach of it.
    pub closed spec fn in_range_spec(&self, candidate: usize, cur_absolute: usize) -> bool {
        hc_in_range(self.chain_table@, candidate as int, cur_absolute as int)
    }

    /// Mask for chain table indexing (table size is always power of 2)
    fn chain_mask(&self) -> (r: usize)
        requires
            self.wf(),
        ensures
            r == self.chain_table@.len() - 1,
            r < MAX_DISTANCE_HC,
    {
        self.chain_table.len() - 1
    }

    /// Check if a candidate is within reachable range
    fn in_range(&self, candidate: usize, cur_absolute: usize) -> (r: bool)
        requires
            self.wf(),
        ensures
            r == self.in_range_spec(candidate, cur_absolute),
            r ==> candidate < cur_absolute && cur_absolute - candidate < MAX_DISTANCE_HC,
    {
        candidate < cur_absolute && cur_absolute - candidate <= self.chain_mask()
    }

    /// Advance to next candidate in chain, returning None if exhausted
    fn advance(&self, candidate: usize, cur_absolute: usize) -> (r: Option<usize>)
        requires
            self.wf(),
        ensures
            r == (if self.next_spec(candidate) == candidate || !self.in_range_spec(self.next_spec(candidate), cur_absolute) {
                None
            } else {
                Some(self.next_spec(candidate))
            }),
            r matches Some(n) ==> n < cur_absolute && cur_absolute - n < MAX_DISTANCE_HC,
    {
        let next = self.next(candidate);
        if next == candidate || !self.in_range(next, cur_absolute) {
            None
        } else {
            Some(next)
        }
    }

    /// Get the next position in the chain for a given offset. A delta that would lead before
    /// the start of the stream ends the chain.
    fn next(&self, pos: usize) -> (r: usize)
        requires
            self.wf(),
        ensures
            r <= pos,
            r == self.next_spec(pos),
    {
        let delta = self.chain_delta(pos) as usize;
        if delta > pos {
            pos
        } else {
            pos - delta
        }
    }

    /// Get the raw chain delta at a position (equivalent to C's DELTANEXTU16)
    fn chain_delta(&self, pos: usize) -> (r: u16)
        requires
            self.wf(),
        ensures
            r == self.chain_table@[self.chain_index(pos)],
    {
        let mask = self.chain_mask();
        assert(pos & mask <= mask) by (bit_vector);
        let chain_index = pos & mask;
        self.chain_table[chain_index]
    }

    fn add_hash(&mut self, hash: usize, pos: usize)
        requires
            old(self).wf(),
            hash < HASHTABLE_SIZE_HC,
        ensures
            final(self).wf(),
            final(self).next_to_update == old(self).next_to_update,
            final(self).max_attempts == old(self).max_attempts,
            final(self).dictionary@ == old(self).dictionary@.update(hash as int, pos as u32),
            final(self).chain_table@ == old(self).chain_table@.update(
                old(self).chain_index(pos),
                (if pos < old(self).dictionary@[hash as int] {
                    0int
                } else if pos - old(self).dictionary@[hash as int] > old(self).chain_table@.len() - 1 {
                    old(self).chain_table@.len() - 1
                } else {
                    pos - old(self).dictionary@[hash as int]
                }) as u16,
            ),
    {
        let mask = self.chain_mask();
        assert(pos & mask <= mask) by (bit_vector);
        let chain_index = pos & mask;
        let previous = self.dictionary[hash] as usize;
        let delta = if previous > pos {
            0
        } else {
            pos - previous
        };
        let delta = if delta > mask {
            mask
        } else {
            delta
        };
        self.chain_table[chain_index] = delta as u16;
        self.dictionary[hash] = pos as u32;
    }

    /// Set the dictionary slot at hash index to the absolute position `pos`.
    fn set_dictionary_at(&mut self, hash: usize, pos: usize)
        requires
            old(self).wf(),
            hash < HASHTABLE_SIZE_HC,
        ensures
            final(self).wf(),
            final(self).max_attempts == old(self).max_attempts,
            final(self).next_to_update == old(self).next_to_update,
            final(self).dictionary@ == old(self).dictionary@.update(hash as int, pos as u32),
            final(self).chain_table@ == old(self).chain_table@,
    {
        self.dictionary[hash] = pos as u32;
    }

    /// Set the chain delta stored for the absolute position `pos`.
    fn set_chain(&mut self, pos: usize, delta: u16)
        requires
            old(self).wf(),
        ensures
            final(self).wf(),
            final(self).max_attempts == old(self).max_attempts,
            final(self).next_to_update == old(self).next_to_update,
            final(self).dictionary@ == old(self).dictionary@,
            final(self).chain_table@ == old(self).chain_table@.update(old(self).chain_index(pos), delta),
    {
        let mask = self.chain_mask();
        assert(pos & mask <= mask) by (bit_vector);
        let chain_index = pos & mask;
        self.chain_table[chain_index] = delta;
    }

    /// Get dictionary slot at hash index (most recent absolute position).
    fn get_dictionary_at(&self, hash: usize) -> (r: usize)
        requires
            self.wf(),
            hash < HASHTABLE_SIZE_HC,
        ensures
            r == self.dictionary@[hash as int],
    {
        self.dictionary[hash] as usize
    }

    /// The match at the head of the chain of `cur`, the first candidate that a search at `cur`
    /// examines: its length (0 when it does not match or the search examines none) and its
    /// distance from `cur`.
    fn first_candidate_match(
        &self,
        input: &[u8],
        cur: usize,
        match_limit: usize,
        ext_dict: &[u8],
        stream_offset: usize,
    ) -> (r: (usize, usize))
        requires
            self.wf(),
            search_args(input@, cur as int, match_limit as int, ext_dict@, stream_offset as int),
        ensures
            r.0 == 0 || (MINMATCH <= r.0 && cur + r.0 <= match_limit && 0 < r.1 < MAX_DISTANCE_HC && r.1 <= cur
                + stream_offset),
            ({
                let head = self.dictionary@[hc_hash_of(le_u32_at(input@, cur as int) as u32) as int];
                let dpos = head + ext_dict@.len() - stream_offset;
                if self.max_attempts == 0 || !self.in_range_spec(head as usize, (cur + stream_offset) as usize) {
                    r == (0usize, 0usize)
                } else {
                    &&& r.1 == cur + stream_offset - head
                    &&& dpos < 0 ==> r.0 == 0
                    &&& dpos >= 0 ==> longest_run(r.0 as int, input@, cur as int, ext_dict@ + input@, dpos, match_limit as int)
                }
            }),
    {
        if self.max_attempts == 0 {
            return (0, 0);
        }
        let cur_absolute = cur + stream_offset;
        let candidate = self.get_dictionary_at(get_hash_at(input, cur));
        if !self.in_range(candidate, cur_absolute) {
            return (0, 0);
        }
        let ghost d = ext_dict@ + input@;
        let match_length = match candidate_source(candidate, stream_offset, ext_dict.len()) {
            CandidateSource::Input(candidate_relative) => {
                proof {
                    assert forall|k: int| 0 <= k < input@.len() - candidate_relative implies #[trigger] d[ext_dict@.len()
                        + candidate_relative + k] == input@[candidate_relative + k] by {}
                }
                if read_min_match_equals(input, candidate_relative, cur) {
                    let n = count_common_bytes(input, candidate_relative + MINMATCH, cur + MINMATCH, match_limit);
                    proof {
                        let dp = ext_dict@.len() + candidate_relative;
                        assert forall|k: int| 0 <= k < MINMATCH + n implies #[trigger] input@[cur + k] == d[dp + k] by {
                            if k >= 4 {
                                assert(input@[cur + MINMATCH + (k - 4)] == input@[candidate_relative + MINMATCH + (k - 4)]);
                            }
                            assert(d[dp + k] == input@[candidate_relative + k]);
                        }
                        if cur + MINMATCH + n < match_limit {
                            assert(input@[cur + MINMATCH + n] != input@[candidate_relative + MINMATCH + n]);
                            assert(d[dp + (MINMATCH + n)] == input@[candidate_relative + (MINMATCH + n)]);
                        }
                    }
                    MINMATCH + n
                } else {
                    proof {
                        let dp = ext_dict@.len() + candidate_relative;
                        let k = choose|k: int| 0 <= k < 4 && #[trigger] input@[candidate_relative + k] != input@[cur + k];
                        assert(d[dp + k] == input@[candidate_relative + k]);
                    }
                    0
                }
            },
            CandidateSource::ExternalDictionary(candidate_relative) => try_ext_dict_match(
                input,
                cur,
                match_limit,
                ext_dict,
                candidate_relative,
            ),
            CandidateSource::Unavailable => 0,
        };
        (match_length, cur_absolute - candidate)
    }

    /// After a search at `cur_absolute` whose first candidate matched `first_match_length`
    /// bytes at distance `delta`, link the positions covered by that match to the positions
    /// `delta` bytes before them, make the last `delta` of them the heads of their chains, and
    /// count them all as inserted.
    fn pre_hash_repeat(
        &mut self,
        input: &[u8],
        cur_absolute: usize,
        first_match_length: usize,
        delta: usize,
        stream_offset: usize,
    )
        requires
            old(self).wf(),
            MINMATCH <= first_match_length,
            0 < delta < MAX_DISTANCE_HC,
            delta <= cur_absolute,
            stream_offset <= cur_absolute,
            cur_absolute - stream_offset + first_match_length <= input@.len(),
            cur_absolute + first_match_length <= usize::MAX,
        ensures
            final(self).wf(),
            final(self).max_attempts == old(self).max_attempts,
            final(self).next_to_update == cur_absolute + first_match_length - 3,
            ({
                let end = cur_absolute + first_match_length - 3;
                let mid = if cur_absolute < end - delta { end - delta } else { cur_absolute as int };
                (final(self).dictionary@, final(self).chain_table@) == hc_heads_set(
                    old(self).dictionary@,
                    hc_chain_filled(old(self).chain_table@, cur_absolute as int, mid, delta as u16),
                    input@,
                    stream_offset as int,
                    mid,
                    end,
                    delta as u16,
                )
            }),
    {
        let mut ptr_pos = cur_absolute;
        let end_pos = cur_absolute + first_match_length - 3;
        let ghost mid = if cur_absolute < end_pos - delta { end_pos - delta } else { cur_absolute as int };
        let ghost filled = hc_chain_filled(old(self).chain_table@, cur_absolute as int, mid as int, delta as u16);
        while ptr_pos < end_pos - delta
            invariant
                self.wf(),
                self.max_attempts == old(self).max_attempts,
                self.dictionary@ == old(self).dictionary@,
                mid == (if cur_absolute < end_pos - delta { end_pos - delta } else { cur_absolute as int }),
                filled == hc_chain_filled(old(self).chain_table@, cur_absolute as int, mid as int, delta as u16),
                ptr_pos <= mid,
                hc_chain_filled(self.chain_table@, ptr_pos as int, mid as int, delta as u16) == filled,
                cur_absolute <= ptr_pos,
                ptr_pos <= end_pos - delta || ptr_pos == cur_absolute,
                end_pos == cur_absolute + first_match_length - 3,
                MINMATCH <= first_match_length,
                0 < delta < MAX_DISTANCE_HC,
                delta <= cur_absolute,
            decreases end_pos - ptr_pos,
        {
            self.set_chain(ptr_pos, delta as u16);
            ptr_pos = ptr_pos + 1;
        }
        assert(ptr_pos == mid);
        assert(self.chain_table@ == filled);
        let ghost result = hc_heads_set(self.dictionary@, self.chain_table@, input@, stream_offset as int, mid as int, end_pos as int, delta as u16);
        loop
            invariant_except_break
                cur_absolute <= ptr_pos < end_pos,
            invariant
                self.wf(),
                self.max_attempts == old(self).max_attempts,
                end_pos == cur_absolute + first_match_length - 3,
                hc_heads_set(self.dictionary@, self.chain_table@, input@, stream_offset as int, ptr_pos as int, end_pos as int, delta as u16) == result,
                stream_offset <= cur_absolute,
                cur_absolute - stream_offset + first_match_length <= input@.len(),
                0 < delta < MAX_DISTANCE_HC,
            ensures
                ptr_pos == end_pos,
            decreases end_pos - ptr_pos,
        {
            let ghost d0 = self.dictionary@;
            let ghost c0 = self.chain_table@;
            self.set_chain(ptr_pos, delta as u16);
            let local_ptr = ptr_pos - stream_offset;
            self.set_dictionary_at(get_hash_at(input, local_ptr), ptr_pos);
            assert(c0.update(hc_slot(c0, ptr_pos as int), delta as u16) == self.chain_table@);
            ptr_pos = ptr_pos + 1;
            if ptr_pos >= end_pos {
                break;
            }
        }
        assert(ptr_pos == end_pos);
        assert((self.dictionary@, self.chain_table@) == result);
        self.next_to_update = end_pos;
    }

    /// Insert hashes for all positions up to the given local offset.
    /// Positions stored in the hash table are absolute (`local_pos + stream_offset`).
    fn insert(&mut self, cur: u32, input: &[u8], stream_offset: usize)
        requires
            old(self).wf(),
            cur + 4 <= input@.len(),
            cur + stream_offset <= usize::MAX,
        ensures
            final(self).wf(),
            final(self).max_attempts == old(self).max_attempts,
            final(self).next_to_update == cur + stream_offset,
            (final(self).dictionary@, final(self).chain_table@) == hc_inserted(
                old(self).dictionary@,
                old(self).chain_table@,
                input@,
                stream_offset as int,
                if old(self).next_to_update < stream_offset { stream_offset as int } else { old(self).next_to_update as int },
                cur + stream_offset,
            ),
    {
        let cur_absolute = cur as usize + stream_offset;
        // Positions before the start of `input` are not in it and cannot be hashed.
        let first = if self.next_to_update < stream_offset {
            stream_offset
        } else {
            self.next_to_update
        };
        let mut absolute_position = first;
        while absolute_position < cur_absolute
            invariant
                self.wf(),
                self.max_attempts == old(self).max_attempts,
                stream_offset <= absolute_position,
                cur_absolute == cur + stream_offset,
                cur + 4 <= input@.len(),
                first == (if old(self).next_to_update < stream_offset { stream_offset } else { old(self).next_to_update }),
                hc_inserted(self.dictionary@, self.chain_table@, input@, stream_offset as int, absolute_position as int, cur_absolute as int)
                    == hc_inserted(old(self).dictionary@, old(self).chain_table@, input@, stream_offset as int, first as int, cur_absolute as int),
            decreases cur_absolute - absolute_position,
        {
            let local_pos = absolute_position - stream_offset;
            let ghost d0 = self.dictionary@;
            let ghost c0 = self.chain_table@;
            let h = get_hash_at(input, local_pos);
            self.add_hash(h, absolute_position);
            assert((self.dictionary@, self.chain_table@) == hc_added(d0, c0, h as int, absolute_position as int));
            absolute_position = absolute_position + 1;
        }
        self.next_to_update = cur_absolute;
    }
}

} // verus!

verus! {

/// A single LZ4 back-reference match: `match_length` bytes at `start_position` that repeat the
/// bytes at `candidate`, in stream positions that wrap around in `u32`.
#[derive(Clone, Copy)]
pub struct Match {
    /// Byte position in the input where this match starts.
    pub start_position: u32,
    /// Length of the match in bytes.
    pub match_length: u32,
    /// Position of the earlier occurrence; the encoded offset is `start_position - candidate`.
    pub candidate: u32,
}

/// The distance from a match back to its earlier occurrence.
pub open spec fn match_distance(m: Match) -> u32 {
    m.start_position.wrapping_sub(m.candidate)
}

/// `m` is a back reference within the data formed by `dict` followed by `input`, that ends
/// by `match_limit`.
pub open spec fn match_ok(m: Match, input: Seq<u8>, dict: Seq<u8>, match_limit: int) -> bool {
    &&& m.start_position + m.match_length <= match_limit
    &&& 0 < match_distance(m) < 65536
    &&& match_distance(m) <= dict.len() + m.start_position
    &&& repeats(dict + input, dict.len() + m.start_position, match_distance(m) as int, m.match_length as int)
}

/// Dropping the first bytes of a back reference leaves a back reference.
proof fn lemma_match_trim(m: Match, t: Match, k: int, input: Seq<u8>, dict: Seq<u8>, match_limit: int)
    requires
        match_ok(m, input, dict, match_limit),
        0 <= k,
        t.start_position == m.start_position + k,
        t.match_length == if m.match_length >= k { m.match_length - k } else { 0 },
        match_distance(t) == match_distance(m),
        t.start_position + t.match_length <= match_limit,
    ensures
        match_ok(t, input, dict, match_limit),
{
    let d = dict + input;
    let dist = match_distance(m) as int;
    assert forall|j: int| 0 <= j < t.match_length implies #[trigger] d[dict.len() + t.start_position + j] == d[dict.len()
        + t.start_position + j - dist] by {
        let j2 = j + k;
        assert(d[dict.len() + m.start_position + j2] == d[dict.len() + m.start_position + j2 - dist]);
    }
}

impl Match {
    pub fn end(&self) -> (r: usize)
        requires
            self.start_position + self.match_length <= usize::MAX,
        ensures
            r == self.start_position + self.match_length,
    {
        self.start_position as usize + self.match_length as usize
    }

    /// Remove `bytes_to_skip` bytes from the beginning of the match, advancing both
    /// start and reference positions forward while shrinking the match length.
    /// Used to resolve overlaps between consecutive matches.
    pub fn trim_front(&mut self, bytes_to_skip: usize)
        requires
            old(self).start_position + bytes_to_skip <= u32::MAX,
        ensures
            final(self).start_position == old(self).start_position + bytes_to_skip,
            final(self).match_length == if old(self).match_length >= bytes_to_skip {
                (old(self).match_length - bytes_to_skip) as u32
            } else {
                0u32
            },
            match_distance(*final(self)) == match_distance(*old(self)),
    {
        let k = bytes_to_skip as u32;
        let s = self.start_position;
        let c = self.candidate;
        assert(((s + k) as u32).wrapping_sub(c.wrapping_add(k)) == s.wrapping_sub(c)) by (bit_vector)
            requires
                s + k <= 0xffff_ffffu32,
        ;
        self.start_position = self.start_position + k;
        self.candidate = self.candidate.wrapping_add(k);
        self.match_length = self.match_length.saturating_sub(k);
    }

    pub fn offset(&self) -> (r: u16)
        requires
            match_distance(*self) < 65536,
        ensures
            r == match_distance(*self),
    {
        self.start_position.wrapping_sub(self.candidate) as u16
    }

    /// Writes the pending literals `input[literal_start..start_position]` and this match.
    pub fn encode_to(
        &self,
        input: &[u8],
        literal_start: usize,
        output: &mut SliceSink,
        ext_dict: &[u8],
        Ghost(buf0): Ghost<Seq<u8>>,
        Ghost(p0): Ghost<int>,
        Ghost(prefix): Ghost<int>,
    )
        requires
            old(output).wf(),
            match_ok(*self, input@, ext_dict@, input@.len() - LAST_LITERALS),
            self.match_length >= MINMATCH,
            literal_start <= self.start_position,
            encoder_state(old(output).output@, old(output).pos as int, buf0, p0, input@, prefix, literal_start as int, ext_dict@),
        ensures
            final(output).wf(),
            encoder_state(
                final(output).output@,
                final(output).pos as int,
                buf0,
                p0,
                input@,
                prefix,
                self.start_position + self.match_length,
                ext_dict@,
            ),
            final(final(output).output)@ == final(old(output).output)@,
    {
        emit_sequence(
            input,
            output,
            literal_start,
            self.start_position as usize,
            self.offset(),
            self.match_length as usize,
            Ghost(buf0),
            Ghost(p0),
            Ghost(prefix),
            Ghost(ext_dict@),
        );
    }
}

/// The four bytes of a word that repeats one byte are that byte.
proof fn lemma_byte_pattern_bytes(s: Seq<u8>, p: int)
    requires
        0 <= p,
        p + 4 <= s.len(),
        is_byte_pattern(le_u32_at(s, p) as u32),
    ensures
        s[p + 1] == s[p] && s[p + 2] == s[p] && s[p + 3] == s[p],
        (le_u32_at(s, p) as u32) % 256 == s[p],
{
    let x = le_u32_at(s, p) as u32;
    let c = (x % 256) as u8;
    assert(le_u32(c, c, c, c) == (c as nat) * 0x01010101);
    crate::block::compress::lemma_le_u32_injective(s[p], s[p + 1], s[p + 2], s[p + 3], c, c, c, c);
}

/// `len` is the length of the match at `cur` against the bytes of `d` from `dpos`: the longest
/// run of equal bytes before `limit`, or 0 when the first `MINMATCH` bytes differ.
pub open spec fn longest_run(len: int, input: Seq<u8>, cur: int, d: Seq<u8>, dpos: int, limit: int) -> bool {
    &&& forall|k: int| 0 <= k < len ==> #[trigger] input[cur + k] == d[dpos + k]
    &&& len == 0 <==> !(forall|k: int| 0 <= k < MINMATCH ==> #[trigger] input[cur + k] == d[dpos + k])
    &&& len > 0 ==> MINMATCH <= len && cur + len <= limit
    &&& len > 0 && cur + len < limit ==> input[cur + len] != d[dpos + len]
}

/// Which byte slice contains a hash-chain candidate position. Stored value is slice-relative.
pub enum CandidateSource {
    Input(usize),
    ExternalDictionary(usize),
    Unavailable,
}

fn candidate_source(candidate: usize, stream_offset: usize, ext_dict_len: usize) -> (r: CandidateSource)
    requires
        ext_dict_len <= stream_offset,
    ensures
        r == (if candidate >= stream_offset {
            CandidateSource::Input((candidate - stream_offset) as usize)
        } else if ext_dict_len != 0 && candidate >= stream_offset - ext_dict_len {
            CandidateSource::ExternalDictionary((candidate - (stream_offset - ext_dict_len)) as usize)
        } else {
            CandidateSource::Unavailable
        }),
        r matches CandidateSource::Input(rel) ==> candidate >= stream_offset && rel == candidate - stream_offset,
        r matches CandidateSource::ExternalDictionary(rel) ==> candidate < stream_offset && rel == candidate - (
        stream_offset - ext_dict_len) && rel < ext_dict_len,
{
    let ext_dict_stream_offset = stream_offset - ext_dict_len;
    if candidate >= stream_offset {
        return CandidateSource::Input(candidate - stream_offset);
    }
    if ext_dict_len != 0 && candidate >= ext_dict_stream_offset {
        return CandidateSource::ExternalDictionary(candidate - ext_dict_stream_offset);
    }
    CandidateSource::Unavailable
}

/// The arguments of a search at `cur`: the cursor leaves room for a match and its last
/// literals, and the stream positions fit their integer types.
pub open spec fn search_args(input: Seq<u8>, cur: int, match_limit: int, dict: Seq<u8>, stream_offset: int) -> bool {
    &&& 0 <= cur
    &&& cur + MINMATCH <= match_limit <= input.len()
    &&& dict.len() <= stream_offset
    &&& input.len() <= u32::MAX
    &&& stream_offset + input.len() + input.len() / 8 + 16 <= usize::MAX
}

/// Count the match between `candidate` and `cur` in `input`.
/// Returns 0 if the candidate does not match or cannot beat `best_match_length`.
fn count_buffer_match(input: &[u8], candidate: usize, cur: usize, match_limit: usize, best_match_length: usize) -> (r: usize)
    requires
        candidate < cur,
        cur + MINMATCH <= match_limit,
        match_limit <= input@.len(),
    ensures
        r == 0 || (r >= MINMATCH && cur + r <= match_limit),
        forall|k: int| 0 <= k < r ==> #[trigger] input@[cur + k] == input@[candidate + k],
        (best_match_length >= MINMATCH && (best_match_length >= input@.len() - cur || !(input@[candidate
            + best_match_length - 1] == input@[cur + best_match_length - 1] && input@[candidate + best_match_length as int]
            == input@[cur + best_match_length as int]))) ==> r == 0,
        !(best_match_length >= MINMATCH && (best_match_length >= input@.len() - cur || !(input@[candidate
            + best_match_length - 1] == input@[cur + best_match_length - 1] && input@[candidate + best_match_length as int]
            == input@[cur + best_match_length as int]))) ==> longest_run(r as int, input@, cur as int, input@, candidate as int, match_limit as int),
{
    // A match that would have to reach past the input cannot beat the best one either.
    let cant_beat_best = best_match_length >= MINMATCH && (best_match_length >= input.len() - cur
        || !end_bytes_match(input, candidate, cur, best_match_length));
    if cant_beat_best || !read_min_match_equals(input, candidate, cur) {
        return 0;
    }
    let n = count_common_bytes(input, candidate + MINMATCH, cur + MINMATCH, match_limit);
    proof {
        assert forall|k: int| 0 <= k < MINMATCH + n implies #[trigger] input@[cur + k] == input@[candidate + k] by {
            if k >= 4 {
                let k2 = k - 4;
                assert(input@[cur + 4 + k2] == input@[candidate + 4 + k2]);
            }
        }
    }
    MINMATCH + n
}

/// The best match found so far by a search at `cur`: longer than `min` means it is a valid
/// back reference.
pub open spec fn best_ok(len: int, offset: int, min: int, cur: int, input: Seq<u8>, dict: Seq<u8>, match_limit: int) -> bool {
    &&& len >= min
    &&& len > min ==> (MINMATCH <= len && cur + len <= match_limit && 0 < offset && offset <= dict.len() + cur && repeats(
        dict + input,
        dict.len() + cur,
        offset,
        len,
    ))
}

/// What the repeat detection has learned about the bytes at the cursor: when `repeat` is 1,
/// the `source_pattern_length` bytes at `cur` are all the same byte.
pub open spec fn pattern_ok(repeat: u8, source_pattern_length: int, cur: int, input: Seq<u8>, match_limit: int) -> bool {
    repeat == 1 ==> (source_pattern_length >= 4 && cur + source_pattern_length <= match_limit && forall|k: int|
        0 <= k < source_pattern_length ==> #[trigger] input[cur + k] == input[cur])
}

/// Result of pattern/repeat chain optimization inside [`find_longer_hash_chain_match`]
/// (mirrors LZ4HC repeat detection).
pub enum PatternChainAction {
    /// Continue with normal chain-step logic at the end of the loop body.
    NoAction,
    /// Set `candidate` and restart the search loop iteration (`continue`).
    RetryCandidate(usize),
    /// Exit the search loop (`break`).
    StopSearch,
}

/// What the repeat detection does at chain candidate `candidate` of a search at `cur`, with
/// the repeat state `repeat`, the length `spl` of the byte run at `cur` and the best match
/// `best`, `best_offset`: the action, and the new repeat state, run length and best match.
pub open spec fn pattern_action(
    chain: Seq<u16>,
    input: Seq<u8>,
    cur: int,
    match_limit: int,
    cur_absolute: int,
    stream_offset: int,
    candidate: usize,
    chain_pos: usize,
    repeat: u8,
    spl: usize,
    best: usize,
    best_offset: u16,
) -> (PatternChainAction, u8, usize, usize, u16) {
    if chain[hc_slot(chain, candidate as int)] != 1 || chain_pos != 0 {
        (PatternChainAction::NoAction, repeat, spl, best, best_offset)
    } else {
        let b = input[cur];
        let four = input[cur + 1] == b && input[cur + 2] == b && input[cur + 3] == b;
        let rep2: u8 = if repeat == 0 { if four { 1 } else { 2 } } else { repeat };
        let spl2: usize = if repeat == 0 && four { (4 + byte_run(input, cur + 4, match_limit - (cur + 4), b)) as usize } else { spl };
        let mc = candidate.wrapping_sub(1) as int;
        let rel = mc - stream_offset;
        if rep2 != 1 || !(mc < cur_absolute && cur_absolute - mc <= chain.len() - 1 && mc >= stream_offset) || !(rel + 4
            <= input.len() && le_u32_at(input, rel) == le_u32_at(input, cur)) {
            (PatternChainAction::NoAction, rep2, spl2, best, best_offset)
        } else {
            let fwd = 4 + byte_run(input, rel + 4, match_limit - (rel + 4), b);
            let back = byte_run_back(input, rel, rel, b);
            let seg = back + fwd;
            if seg >= spl2 && fwd <= spl2 {
                let nr = rel + fwd - spl2 + stream_offset;
                (
                    if nr < cur_absolute && cur_absolute - nr <= chain.len() - 1 {
                        PatternChainAction::RetryCandidate(nr as usize)
                    } else {
                        PatternChainAction::NoAction
                    },
                    rep2,
                    spl2,
                    best,
                    best_offset,
                )
            } else {
                let nr = rel - back + stream_offset;
                if nr < cur_absolute && cur_absolute - nr <= chain.len() - 1 {
                    let max_len = if seg < spl2 { seg } else { spl2 as int };
                    let dist = chain[hc_slot(chain, nr)];
                    let (b2, o2) = if max_len > best { (max_len as usize, (cur_absolute - nr) as u16) } else { (best, best_offset) };
                    (
                        if dist == 0 || dist > nr {
                            PatternChainAction::StopSearch
                        } else {
                            PatternChainAction::RetryCandidate((nr - dist) as usize)
                        },
                        rep2,
                        spl2,
                        b2,
                        o2,
                    )
                } else {
                    (PatternChainAction::NoAction, rep2, spl2, best, best_offset)
                }
            }
        }
    }
}

impl HashTableHCU32 {
    /// Pattern / repeat chain optimization when `chain_delta(candidate) == 1` and
    /// `chain_pos == 0`. Returns an action for the outer search loop.
    #[verifier::rlimit(100)]
    #[verifier::spinoff_prover]
    fn pattern_chain_action(
        &self,
        input: &[u8],
        cur: usize,
        match_limit: usize,
        cur_absolute: usize,
        stream_offset: usize,
        candidate: usize,
        chain_pos: usize,
        repeat: &mut u8,
        source_pattern_length: &mut usize,
        best_len: &mut usize,
        best_offset: &mut u16,
        Ghost(dict): Ghost<Seq<u8>>,
        Ghost(min): Ghost<int>,
    ) -> (r: PatternChainAction)
        requires
            self.wf(),
            search_args(input@, cur as int, match_limit as int, dict, stream_offset as int),
            cur_absolute == cur + stream_offset,
            pattern_ok(*old(repeat), *old(source_pattern_length) as int, cur as int, input@, match_limit as int),
            best_ok(*old(best_len) as int, *old(best_offset) as int, min, cur as int, input@, dict, match_limit as int),
        ensures
            pattern_ok(*final(repeat), *final(source_pattern_length) as int, cur as int, input@, match_limit as int),
            best_ok(*final(best_len) as int, *final(best_offset) as int, min, cur as int, input@, dict, match_limit as int),
            *final(best_len) >= *old(best_len),
            self.chain_table@[self.chain_index(candidate)] != 1 || chain_pos != 0 ==> {
                &&& r is NoAction
                &&& *final(repeat) == *old(repeat)
                &&& *final(source_pattern_length) == *old(source_pattern_length)
                &&& *final(best_len) == *old(best_len)
                &&& *final(best_offset) == *old(best_offset)
            },
            *old(repeat) != 0 ==> *final(repeat) == *old(repeat),
            *old(repeat) == 0 && self.chain_table@[self.chain_index(candidate)] == 1 && chain_pos == 0 ==> {
                &&& *final(repeat) == 1 || *final(repeat) == 2
                &&& *final(repeat) == 1 <==> (input@[cur + 1] == input@[cur as int] && input@[cur + 2] == input@[cur as int]
                    && input@[cur + 3] == input@[cur as int])
            },
            *final(repeat) != 1 ==> r is NoAction && *final(best_len) == *old(best_len) && *final(best_offset) == *old(best_offset),
            *old(repeat) != 0 ==> *final(source_pattern_length) == *old(source_pattern_length),
            *old(repeat) == 0 && *final(repeat) == 1 ==> *final(source_pattern_length) == 4 + byte_run(
                input@,
                cur + 4,
                match_limit - (cur + 4),
                input@[cur as int],
            ),
            (r, *final(repeat), *final(source_pattern_length), *final(best_len), *final(best_offset)) == pattern_action(
                self.chain_table@,
                input@,
                cur as int,
                match_limit as int,
                cur_absolute as int,
                stream_offset as int,
                candidate,
                chain_pos,
                *old(repeat),
                *old(source_pattern_length),
                *old(best_len),
                *old(best_offset),
            ),
    {
        if self.chain_delta(candidate) != 1 || chain_pos != 0 {
            return PatternChainAction::NoAction;
        }
        let match_candidate = candidate.wrapping_sub(1);
        if *repeat == 0 {
            let pattern = get_batch(input, cur);
            if (pattern & 0xFFFF) == (pattern >> 16u32) && (pattern & 0xFF) == (pattern >> 24u32) {
                assert(is_byte_pattern(pattern)) by (bit_vector)
                    requires
                        (pattern & 0xFFFF) == (pattern >> 16u32) && (pattern & 0xFF) == (pattern >> 24u32),
                ;
                proof {
                    lemma_byte_pattern_bytes(input@, cur as int);
                }
                *repeat = 1;
                let n = count_pattern(input, cur + 4, match_limit, pattern);
                *source_pattern_length = n + 4;
                proof {
                    assert forall|k: int| 0 <= k < n + 4 implies #[trigger] input@[cur + k] == input@[cur as int] by {
                        if k >= 4 {
                            let k2 = k - 4;
                            assert(input@[cur + 4 + k2] == pattern % 256);
                        }
                    }
                }
            } else {
                proof {
                    let b = input@[cur as int];
                    if input@[cur + 1] == b && input@[cur + 2] == b && input@[cur + 3] == b {
                        assert(le_u32(b, b, b, b) == (b as nat) * 0x01010101);
                        let bu: u32 = b as u32;
                        assert(pattern == bu * 16843009);
                        assert((pattern & 0xFFFF) == (pattern >> 16u32) && (pattern & 0xFF) == (pattern >> 24u32)) by (bit_vector)
                            requires
                                bu < 256,
                                pattern == bu * 16843009,
                        ;
                    }
                }
                *repeat = 2;
            }
        }
        if *repeat != 1 {
            return PatternChainAction::NoAction;
        }
        if match_candidate >= cur_absolute || cur_absolute - match_candidate > self.chain_mask() || match_candidate
            < stream_offset {
            return PatternChainAction::NoAction;
        }
        let match_candidate_relative = match_candidate - stream_offset;
        let pattern = get_batch(input, cur);
        if match_candidate_relative + 4 > input.len() || get_batch(input, match_candidate_relative) != pattern {
            return PatternChainAction::NoAction;
        }
        proof {
            lemma_batch_eq(input@, match_candidate_relative as int, input@, cur as int);
        }
        let ghost b = input@[cur as int];
        assert(forall|k: int| 0 <= k < 4 ==> #[trigger] input@[cur + k] == b);
        proof {
            // The bytes at the cursor are one repeated byte, so the word is a byte pattern.
            assert(input@[cur + 0] == b && input@[cur + 1] == b && input@[cur + 2] == b && input@[cur + 3] == b);
            assert(le_u32(b, b, b, b) == (b as nat) * 0x01010101);
            let bu: u32 = b as u32;
            assert(pattern == bu * 16843009);
            assert(is_byte_pattern(pattern) && pattern % 256 == bu) by (bit_vector)
                requires
                    bu < 256,
                    pattern == bu * 16843009,
            ;
        }
        let forward_pattern_len = count_pattern(input, match_candidate_relative + 4, match_limit, pattern) + 4;
        let back_length = reverse_count_pattern(input, match_candidate_relative, 0, pattern);
        let segment_length = back_length + forward_pattern_len;
        let ghost mcr = match_candidate_relative as int;
        proof {
            assert forall|k: int| mcr - back_length <= k < mcr + forward_pattern_len implies #[trigger] input@[k] == b by {
                if k < mcr {
                    let j = mcr - 1 - k;
                    assert(input@[mcr - 1 - j] == pattern % 256);
                } else if k < mcr + 4 {
                    assert(input@[mcr + (k - mcr)] == input@[cur + (k - mcr)]);
                } else {
                    let j = k - mcr - 4;
                    assert(input@[mcr + 4 + j] == pattern % 256);
                }
            }
        }
        if segment_length >= *source_pattern_length && forward_pattern_len <= *source_pattern_length {
            let new_candidate_relative = match_candidate_relative + forward_pattern_len - *source_pattern_length;
            let new_ref_abs = new_candidate_relative + stream_offset;
            if cur_absolute > new_ref_abs && cur_absolute - new_ref_abs <= self.chain_mask() {
                return PatternChainAction::RetryCandidate(new_ref_abs);
            }
        } else {
            let new_candidate_relative = match_candidate_relative - back_length;
            let new_ref_abs = new_candidate_relative + stream_offset;
            if cur_absolute > new_ref_abs && cur_absolute - new_ref_abs <= self.chain_mask() {
                let max_match_length = if segment_length < *source_pattern_length {
                    segment_length
                } else {
                    *source_pattern_length
                };
                if max_match_length > *best_len {
                    *best_len = max_match_length;
                    *best_offset = (cur_absolute - new_ref_abs) as u16;
                    proof {
                        let d = dict + input@;
                        let off = (cur_absolute - new_ref_abs) as int;
                        assert forall|k: int| 0 <= k < max_match_length implies #[trigger] d[dict.len() + cur + k] == d[dict.len() + cur + k - off] by {
                            assert(input@[cur + k] == b);
                            assert(input@[new_candidate_relative + k] == b);
                        }
                    }
                }
                let dist = self.chain_delta(new_ref_abs) as usize;
                if dist == 0 || dist > new_ref_abs {
                    return PatternChainAction::StopSearch;
                }
                return PatternChainAction::RetryCandidate(new_ref_abs - dist);
            }
        }
        PatternChainAction::NoAction
    }
}

/// The length of the match that the chain's first candidate `c` gives a search at `cur` that
/// has to beat `min_match_length`: a candidate in the input that cannot beat it (it is at least
/// `MINMATCH` and the two bytes at its end disagree, or it reaches the end of the input) gives
/// 0; otherwise, as for a candidate in `dict`, the run of equal bytes from `cur` when the first
/// `MINMATCH` bytes agree, else 0.
pub open spec fn longer_first_len(
    input: Seq<u8>,
    dict: Seq<u8>,
    cur: int,
    match_limit: int,
    min_match_length: int,
    stream_offset: int,
    c: int,
) -> int {
    if c >= stream_offset {
        let rel = c - stream_offset;
        let cant_beat = min_match_length >= MINMATCH && (min_match_length >= input.len() - cur || !(input[rel
            + min_match_length - 1] == input[cur + min_match_length - 1] && input[rel + min_match_length] == input[cur
            + min_match_length]));
        if cant_beat || !(forall|k: int| 0 <= k < MINMATCH ==> #[trigger] input[cur + k] == input[rel + k]) {
            0
        } else {
            common_len(input, cur, input, rel, match_limit - cur)
        }
    } else if dict.len() != 0 && c >= stream_offset - dict.len() {
        let rel = c - (stream_offset - dict.len());
        let d = dict + input;
        if forall|k: int| 0 <= k < MINMATCH ==> #[trigger] input[cur + k] == d[rel + k] {
            common_len(input, cur, d, rel, compare_window(cur, match_limit, d.len() as int, rel))
        } else {
            0
        }
    } else {
        0
    }
}

/// The length of the match at candidate `rel` of the input for a search at `cur` that has to
/// beat `best`: 0 when it cannot (see [`count_buffer_match`]) or its first `MINMATCH` bytes
/// differ, else the run of equal bytes from `cur`.
pub open spec fn buffer_match_len(input: Seq<u8>, rel: int, cur: int, match_limit: int, best: int) -> int {
    let cant_beat = best >= MINMATCH && (best >= input.len() - cur || !(input[rel + best - 1] == input[cur + best - 1]
        && input[rel + best] == input[cur + best]));
    if cant_beat || !(forall|k: int| 0 <= k < MINMATCH ==> #[trigger] input[cur + k] == input[rel + k]) {
        0
    } else {
        common_len(input, cur, input, rel, match_limit - cur)
    }
}

/// The length of the match at position `rel` of `dict` (followed by `input`) for a search at
/// `cur`: the run of equal bytes when the first `MINMATCH` agree, else 0.
pub open spec fn dict_match_len(input: Seq<u8>, dict: Seq<u8>, rel: int, cur: int, match_limit: int) -> int {
    let d = dict + input;
    if forall|k: int| 0 <= k < MINMATCH ==> #[trigger] input[cur + k] == d[rel + k] {
        common_len(input, cur, d, rel, compare_window(cur, match_limit, d.len() as int, rel))
    } else {
        0
    }
}

/// The scan for a better chain to follow: over the positions `pos < end` after `candidate`,
/// stepping faster the longer no improvement is found, the largest chain delta seen and the
/// position where it was seen.
pub open spec fn swap_scan(chain: Seq<u16>, candidate: usize, end: int, pos: int, acc: int, dtn: u16, cp: usize) -> (u16, usize)
    decreases end - pos,
{
    if pos >= end || acc < 16 || pos < 0 {
        (dtn, cp)
    } else {
        let cd = chain[hc_slot(chain, candidate.wrapping_add(pos as usize) as int)];
        let step = acc / 16;
        let dtn2 = if cd > dtn { cd } else { dtn };
        let cp2 = if cd > dtn { pos as usize } else { cp };
        let acc2 = if cd > dtn { 16 } else { acc + 1 };
        if pos + step >= end {
            (dtn2, cp2)
        } else {
            swap_scan(chain, candidate, end, pos + step, acc2, dtn2, cp2)
        }
    }
}

/// The state of a search for a longer match at `cur`: the best length and offset, the chain
/// position to follow, the repeat state and the run length at `cur`.
pub struct LongerState {
    pub best: usize,
    pub offset: u16,
    pub chain_pos: usize,
    pub repeat: u8,
    pub spl: usize,
}

/// The best length and offset of the chain walk of a search for a longer match at `cur`, from
/// `candidate` with state `st`, for at most `remaining` more candidates: each candidate's
/// match replaces the best when longer; when it ties the best, the chain whose next link
/// skips furthest along the match is followed instead; runs of one byte are handled by
/// [`pattern_action`]; otherwise the walk steps along the chain.
pub open spec fn longer_walk(
    chain: Seq<u16>,
    input: Seq<u8>,
    dict: Seq<u8>,
    cur: int,
    match_limit: int,
    stream_offset: int,
    st: LongerState,
    candidate: usize,
    remaining: int,
) -> (usize, u16)
    decreases remaining,
{
    let cabs = cur + stream_offset;
    if remaining <= 0 || !hc_in_range(chain, candidate as int, cabs) {
        (st.best, st.offset)
    } else if candidate >= stream_offset {
        let rel = candidate - stream_offset;
        let ml = buffer_match_len(input, rel, cur, match_limit, st.best as int);
        let best1: usize = if ml > st.best { ml as usize } else { st.best };
        let off1: u16 = if ml > st.best { (cabs - candidate) as u16 } else { st.offset };
        let swap = ml == best1 && ml >= MINMATCH && candidate + best1 <= cabs;
        let sw = swap_scan(chain, candidate, best1 - MINMATCH + 1, 0, 16, 1, st.chain_pos);
        let cp1 = if swap { sw.1 } else { st.chain_pos };
        if swap && sw.0 > 1 {
            if sw.0 > candidate {
                (best1, off1)
            } else {
                longer_walk(
                    chain,
                    input,
                    dict,
                    cur,
                    match_limit,
                    stream_offset,
                    LongerState { best: best1, offset: off1, chain_pos: cp1, ..st },
                    (candidate - sw.0) as usize,
                    remaining - 1,
                )
            }
        } else {
            let pa = pattern_action(
                chain,
                input,
                cur,
                match_limit,
                cabs,
                stream_offset,
                candidate,
                cp1,
                st.repeat,
                st.spl,
                best1,
                off1,
            );
            let st2 = LongerState { best: pa.3, offset: pa.4, chain_pos: cp1, repeat: pa.1, spl: pa.2 };
            match pa.0 {
                PatternChainAction::RetryCandidate(c) => longer_walk(
                    chain,
                    input,
                    dict,
                    cur,
                    match_limit,
                    stream_offset,
                    st2,
                    c,
                    remaining - 1,
                ),
                PatternChainAction::StopSearch => (st2.best, st2.offset),
                PatternChainAction::NoAction => {
                    let delta = chain[hc_slot(chain, candidate.wrapping_add(cp1) as int)];
                    if delta == 0 || delta > candidate {
                        (st2.best, st2.offset)
                    } else {
                        longer_walk(chain, input, dict, cur, match_limit, stream_offset, st2, (candidate - delta) as usize, remaining - 1)
                    }
                },
            }
        }
    } else {
        let st2 = if dict.len() != 0 && candidate >= stream_offset - dict.len() {
            let ml = dict_match_len(input, dict, candidate - (stream_offset - dict.len()), cur, match_limit);
            if ml > st.best {
                LongerState { best: ml as usize, offset: (cabs - candidate) as u16, ..st }
            } else {
                st
            }
        } else {
            st
        };
        let delta = chain[hc_slot(chain, candidate.wrapping_add(st2.chain_pos) as int)];
        if delta == 0 || delta > candidate {
            (st2.best, st2.offset)
        } else {
            longer_walk(chain, input, dict, cur, match_limit, stream_offset, st2, (candidate - delta) as usize, remaining - 1)
        }
    }
}

/// Insert `cur` into the hash/chain tables, then search the chain for a match
/// longer than `min_match_length`. Used by the optimal parser.
///
/// Returns `(match_length, offset)`. Length is 0 if no match beats `min_match_length`.
#[verifier::rlimit(100)]
#[verifier::spinoff_prover]
pub fn find_longer_hash_chain_match(
    hash_table: &mut HashTableHCU32,
    input: &[u8],
    cur: usize,
    match_limit: usize,
    min_match_length: usize,
    ext_dict: &[u8],
    stream_offset: usize,
) -> (r: (u32, u16))
    requires
        old(hash_table).wf(),
        search_args(input@, cur as int, match_limit as int, ext_dict@, stream_offset as int),
    ensures
        final(hash_table).wf(),
        r.0 == 0 ==> r.1 == 0,
        r.0 == 0 || (r.0 > min_match_length && MINMATCH <= r.0 && cur + r.0 <= match_limit && 0 < r.1 && r.1 <= ext_dict@.len() + cur
            && repeats(ext_dict@ + input@, ext_dict@.len() + cur, r.1 as int, r.0 as int)),
        ({
            let first = if old(hash_table).next_update_view() < stream_offset {
                stream_offset as int
            } else {
                old(hash_table).next_update_view() as int
            };
            let t = hc_inserted(
                old(hash_table).dict_view(),
                old(hash_table).chain_view(),
                input@,
                stream_offset as int,
                first,
                cur + stream_offset,
            );
            let head = t.0[hc_hash_of(le_u32_at(input@, cur as int) as u32) as int] as int;
            let first_len = longer_first_len(input@, ext_dict@, cur as int, match_limit as int, min_match_length as int, stream_offset as int, head);
            old(hash_table).attempts_view() > 0 && hc_in_range(t.1, head, cur + stream_offset) && first_len > min_match_length
                ==> r.0 >= first_len
        }),
        ({
            let first = if old(hash_table).next_update_view() < stream_offset {
                stream_offset as int
            } else {
                old(hash_table).next_update_view() as int
            };
            let t = hc_inserted(
                old(hash_table).dict_view(),
                old(hash_table).chain_view(),
                input@,
                stream_offset as int,
                first,
                cur + stream_offset,
            );
            let head = t.0[hc_hash_of(le_u32_at(input@, cur as int) as u32) as int];
            let w = longer_walk(
                t.1,
                input@,
                ext_dict@,
                cur as int,
                match_limit as int,
                stream_offset as int,
                LongerState { best: min_match_length, offset: 0, chain_pos: 0, repeat: 0, spl: 0 },
                head as usize,
                old(hash_table).attempts_view() as int,
            );
            r == if w.0 <= min_match_length { (0u32, 0u16) } else { (w.0 as u32, w.1) }
        }),
{
    let ghost dict = ext_dict@;
    let ghost d = ext_dict@ + input@;
    hash_table.insert(cur as u32, input, stream_offset);
    let cur_absolute = cur + stream_offset;
    let mut best_match_length = min_match_length;
    let mut best_offset: u16 = 0;
    let mut chain_pos: usize = 0;
    let mut repeat: u8 = 0;
    let mut source_pattern_length: usize = 0;
    let mut candidate = hash_table.get_dictionary_at(get_hash_at(input, cur));
    let attempts = hash_table.max_attempts;
    let ghost head = candidate as int;
    let ghost first_len = longer_first_len(input@, dict, cur as int, match_limit as int, min_match_length as int, stream_offset as int, head);
    let ghost t1 = *hash_table;
    let ghost chain = hash_table.chain_table@;
    let ghost w = longer_walk(
        chain,
        input@,
        dict,
        cur as int,
        match_limit as int,
        stream_offset as int,
        LongerState { best: min_match_length, offset: 0, chain_pos: 0, repeat: 0, spl: 0 },
        candidate,
        attempts as int,
    );
    let mut attempt: usize = 0;
    while attempt < attempts
        invariant_except_break
            longer_walk(
                chain,
                input@,
                dict,
                cur as int,
                match_limit as int,
                stream_offset as int,
                LongerState {
                    best: best_match_length,
                    offset: best_offset,
                    chain_pos,
                    repeat,
                    spl: source_pattern_length,
                },
                candidate,
                attempts - attempt,
            ) == w,
        invariant
            chain == hash_table.chain_table@,
            *hash_table == t1,
            attempt <= attempts,
            attempt == 0 ==> candidate == head && best_match_length == min_match_length,
            attempt > 0 && hc_in_range(t1.chain_table@, head, cur_absolute as int) && first_len > min_match_length ==> best_match_length >= first_len,
            first_len == longer_first_len(input@, dict, cur as int, match_limit as int, min_match_length as int, stream_offset as int, head),
            hash_table.wf(),
            search_args(input@, cur as int, match_limit as int, dict, stream_offset as int),
            dict == ext_dict@,
            d == dict + input@,
            cur_absolute == cur + stream_offset,
            best_ok(best_match_length as int, best_offset as int, min_match_length as int, cur as int, input@, dict, match_limit as int),
            pattern_ok(repeat, source_pattern_length as int, cur as int, input@, match_limit as int),
        ensures
            attempt > 0 || attempts == 0,
            (best_match_length, best_offset) == w,
        decreases attempts - attempt,
    {
        let ghost first_iter = attempt == 0;
        attempt = attempt + 1;
        if !hash_table.in_range(candidate, cur_absolute) {
            break;
        }
        match candidate_source(candidate, stream_offset, ext_dict.len()) {
            CandidateSource::Input(candidate_relative) => {
                let match_length = count_buffer_match(input, candidate_relative, cur, match_limit, best_match_length);
                proof {
                    if match_length > 0 {
                        lemma_common_len(input@, cur as int, input@, candidate_relative as int, match_limit - cur, match_length as int);
                        assert forall|k: int| 0 <= k < MINMATCH implies #[trigger] input@[cur + k] == input@[candidate_relative + k] by {
                            assert(input@[cur + k] == input@[candidate_relative + k]);
                        }
                    } else {
                        assert(buffer_match_len(input@, candidate_relative as int, cur as int, match_limit as int, best_match_length as int) == 0) by {
                            if !(best_match_length >= MINMATCH && (best_match_length >= input@.len() - cur || !(input@[candidate_relative
                                + best_match_length - 1] == input@[cur + best_match_length - 1] && input@[candidate_relative
                                + best_match_length as int] == input@[cur + best_match_length as int]))) {
                                assert(!(forall|k: int| 0 <= k < MINMATCH ==> #[trigger] input@[cur + k] == input@[candidate_relative + k]));
                            }
                        }
                    }
                    assert(match_length == buffer_match_len(input@, candidate_relative as int, cur as int, match_limit as int, best_match_length as int));
                    if first_iter && match_length > 0 {
                        lemma_common_len(input@, cur as int, input@, candidate_relative as int, match_limit - cur, match_length as int);
                        assert forall|k: int| 0 <= k < MINMATCH implies #[trigger] input@[cur + k] == input@[candidate_relative + k] by {
                            assert(input@[cur + k] == input@[candidate_relative + k]);
                        }
                    }
                    if first_iter && match_length == 0 {
                        assert(first_len <= 0) by {
                            if !(min_match_length >= MINMATCH && (min_match_length >= input@.len() - cur || !(input@[candidate_relative
                                + min_match_length - 1] == input@[cur + min_match_length - 1] && input@[candidate_relative
                                + min_match_length as int] == input@[cur + min_match_length as int]))) {
                                assert(!(forall|k: int| 0 <= k < MINMATCH ==> #[trigger] input@[cur + k] == input@[candidate_relative + k]));
                            }
                        }
                    }
                }
                if match_length > best_match_length {
                    best_match_length = match_length;
                    best_offset = (cur_absolute - candidate) as u16;
                    proof {
                        assert forall|k: int| 0 <= k < match_length implies #[trigger] d[dict.len() + cur + k] == d[dict.len() + cur + k - best_offset] by {
                            assert(input@[cur + k] == input@[candidate_relative + k]);
                        }
                    }
                }
                if match_length == best_match_length && match_length >= MINMATCH && candidate + best_match_length
                    <= cur_absolute {
                    let mut distance_to_next: u16 = 1;
                    let end = best_match_length - MINMATCH + 1;
                    let mut acceleration: usize = 16;
                    let mut pos: usize = 0;
                    let ghost swt = swap_scan(chain, candidate, end as int, 0, 16, 1, chain_pos);
                    while pos < end
                        invariant
                            swap_scan(chain, candidate, end as int, pos as int, acceleration as int, distance_to_next, chain_pos) == swt,
                            chain == hash_table.chain_table@,
                            hash_table.wf(),
                            16 <= acceleration <= 16 + pos,
                            end <= input@.len(),
                            pos <= input@.len() + input@.len() / 16 + 1,
                            input@.len() + input@.len() / 8 + 16 <= usize::MAX,
                        decreases input@.len() + input@.len() / 8 + 16 - pos,
                    {
                        proof {
                            assert(hc_slot(chain, candidate.wrapping_add(pos) as int) == hash_table.chain_index(candidate.wrapping_add(pos)));
                        }
                        let candidate_dist = hash_table.chain_delta(candidate.wrapping_add(pos));
                        let step = acceleration / 16;
                        acceleration = acceleration + 1;
                        if candidate_dist > distance_to_next {
                            distance_to_next = candidate_dist;
                            chain_pos = pos;
                            acceleration = 16;
                        }
                        pos = pos + step;
                    }
                    assert((distance_to_next, chain_pos) == swt);
                    if distance_to_next > 1 {
                        if (distance_to_next as usize) > candidate {
                            break;
                        }
                        candidate = candidate - distance_to_next as usize;
                        continue;
                    }
                }
                match hash_table.pattern_chain_action(
                    input,
                    cur,
                    match_limit,
                    cur_absolute,
                    stream_offset,
                    candidate,
                    chain_pos,
                    &mut repeat,
                    &mut source_pattern_length,
                    &mut best_match_length,
                    &mut best_offset,
                    Ghost(dict),
                    Ghost(min_match_length as int),
                ) {
                    PatternChainAction::RetryCandidate(new_abs) => {
                        candidate = new_abs;
                        continue;
                    },
                    PatternChainAction::StopSearch => {
                        break;
                    },
                    PatternChainAction::NoAction => {},
                }
            },
            CandidateSource::ExternalDictionary(candidate_relative) => {
                let match_length = try_ext_dict_match(input, cur, match_limit, ext_dict, candidate_relative);
                proof {
                    if match_length > 0 {
                        lemma_common_len(
                            input@,
                            cur as int,
                            d,
                            candidate_relative as int,
                            compare_window(cur as int, match_limit as int, d.len() as int, candidate_relative as int),
                            match_length as int,
                        );
                    }
                    assert(match_length == dict_match_len(input@, dict, candidate_relative as int, cur as int, match_limit as int));
                    if first_iter && match_length > 0 {
                        lemma_common_len(
                            input@,
                            cur as int,
                            d,
                            candidate_relative as int,
                            compare_window(cur as int, match_limit as int, d.len() as int, candidate_relative as int),
                            match_length as int,
                        );
                    }
                }
                if match_length > best_match_length {
                    best_match_length = match_length;
                    best_offset = (cur_absolute - candidate) as u16;
                    proof {
                        assert forall|k: int| 0 <= k < match_length implies #[trigger] d[dict.len() + cur + k] == d[dict.len() + cur + k - best_offset] by {
                            assert(input@[cur + k] == d[candidate_relative + k]);
                        }
                    }
                }
            },
            CandidateSource::Unavailable => {},
        }
        proof {
            assert(hc_slot(chain, candidate.wrapping_add(chain_pos) as int) == hash_table.chain_index(candidate.wrapping_add(chain_pos)));
        }
        let delta = hash_table.chain_delta(candidate.wrapping_add(chain_pos)) as usize;
        if delta == 0 || delta > candidate {
            break;
        }
        candidate = candidate - delta;
    }
    if best_match_length <= min_match_length {
        (0, 0)
    } else {
        (best_match_length as u32, best_offset)
    }
}

/// Insert `cur` into the hash/chain tables, then search the chain for a match
/// longer than `min_match_length`, extending both forward and backward.
///
/// `start_limit` is the earliest position the match may extend backward to.
/// Returns the best wider match found, or `None` if no match beats `min_match_length`.
#[verifier::rlimit(60)]
#[verifier::spinoff_prover]
fn find_wider_hash_chain_match(
    hash_table: &mut HashTableHCU32,
    input: &[u8],
    cur: usize,
    start_limit: usize,
    match_limit: usize,
    min_match_length: usize,
    ext_dict: &[u8],
    stream_offset: usize,
) -> (r: Option<Match>)
    requires
        old(hash_table).wf(),
        search_args(input@, cur as int, match_limit as int, ext_dict@, stream_offset as int),
        match_limit < input@.len(),
        start_limit <= cur,
        start_limit + min_match_length <= match_limit,
    ensures
        final(hash_table).wf(),
        r matches Some(m) ==> m.match_length > min_match_length && start_limit <= m.start_position <= cur && match_ok(
            m,
            input@,
            ext_dict@,
            match_limit as int,
        ),
        r == wider_search(*old(hash_table), input@, ext_dict@, cur as int, start_limit as int, match_limit as int, min_match_length as int, stream_offset as int),
        (final(hash_table).dictionary@, final(hash_table).chain_table@) == hc_inserted(
            old(hash_table).dictionary@,
            old(hash_table).chain_table@,
            input@,
            stream_offset as int,
            if old(hash_table).next_to_update < stream_offset { stream_offset as int } else { old(hash_table).next_to_update as int },
            cur + stream_offset,
        ),
        final(hash_table).next_to_update == cur + stream_offset,
        final(hash_table).max_attempts == old(hash_table).max_attempts,
{
    let ghost dict = ext_dict@;
    let ghost d = ext_dict@ + input@;
    let mut best_match = Match { start_position: cur as u32, match_length: min_match_length as u32, candidate: 0 };
    let ghost init = best_match;
    let cur_absolute = cur + stream_offset;
    let look_back_length = cur - start_limit;
    hash_table.insert(cur as u32, input, stream_offset);
    let mut candidate = hash_table.get_dictionary_at(get_hash_at(input, cur));
    let attempts = hash_table.max_attempts;
    let ghost chain = hash_table.chain_table@;
    let ghost w = wider_walk(
        chain,
        input@,
        dict,
        cur as int,
        start_limit as int,
        match_limit as int,
        stream_offset as int,
        init,
        candidate as int,
        attempts as int,
    );
    let ghost t1 = *hash_table;
    let mut attempt: usize = 0;
    while attempt < attempts
        invariant_except_break
            wider_walk(
                chain,
                input@,
                dict,
                cur as int,
                start_limit as int,
                match_limit as int,
                stream_offset as int,
                best_match,
                candidate as int,
                attempts - attempt,
            ) == w,
        invariant
            *hash_table == t1,
            chain == hash_table.chain_table@,
            attempt <= attempts,
            hash_table.wf(),
            search_args(input@, cur as int, match_limit as int, dict, stream_offset as int),
            match_limit < input@.len(),
            dict == ext_dict@,
            d == dict + input@,
            cur_absolute == cur + stream_offset,
            look_back_length == cur - start_limit,
            start_limit + min_match_length <= match_limit,
            best_match.match_length >= min_match_length,
            best_match.match_length == min_match_length ==> best_match.start_position == cur,
            best_match.match_length > min_match_length ==> start_limit <= best_match.start_position <= cur && match_ok(
                best_match,
                input@,
                dict,
                match_limit as int,
            ),
        ensures
            best_match == w,
        decreases attempts - attempt,
    {
        attempt = attempt + 1;
        if !hash_table.in_range(candidate, cur_absolute) {
            break;
        }
        let ghost best0 = best_match;
        let ghost step = wider_step(
            input@,
            dict,
            cur as int,
            start_limit as int,
            match_limit as int,
            stream_offset as int,
            best0,
            candidate as int,
        );
        match candidate_source(candidate, stream_offset, ext_dict.len()) {
            CandidateSource::Input(candidate_relative) => {
                let can_check_tail = best_match.match_length >= MINMATCH as u32 && candidate_relative >= look_back_length;
                if (!can_check_tail || end_bytes_match(
                    input,
                    candidate_relative - look_back_length,
                    start_limit,
                    best_match.match_length as usize,
                )) && read_min_match_equals(input, candidate_relative, cur) {
                    let fwd_count = count_common_bytes(
                        input,
                        candidate_relative + MINMATCH,
                        cur + MINMATCH,
                        match_limit,
                    );
                    let forward_length = MINMATCH + fwd_count;
                    let backward_length = count_common_bytes_backward(input, candidate_relative, cur, 0, start_limit);
                    proof {
                        lemma_common_len(
                            input@,
                            cur + MINMATCH,
                            input@,
                            candidate_relative + MINMATCH,
                            compare_window(cur + MINMATCH, match_limit as int, input@.len() as int, candidate_relative + MINMATCH),
                            fwd_count as int,
                        );
                        lemma_common_back(
                            input@,
                            candidate_relative as int,
                            cur as int,
                            if candidate_relative < cur - start_limit { candidate_relative as int } else { cur - start_limit },
                            backward_length as int,
                        );
                    }
                    let match_length = backward_length + forward_length;
                    if match_length as u32 > best_match.match_length {
                        let distance = cur_absolute - candidate;
                        let start = cur - backward_length;
                        best_match.match_length = match_length as u32;
                        best_match.candidate = candidate_position_for_distance(start, distance);
                        best_match.start_position = start as u32;
                        proof {
                            let s32 = start as u32;
                            let d32 = distance as u32;
                            assert(s32.wrapping_sub(s32.wrapping_sub(d32)) == d32) by (bit_vector);
                            assert forall|k: int| 0 <= k < match_length implies #[trigger] d[dict.len() + start + k] == d[dict.len() + start + k - distance] by {
                                if k < backward_length {
                                    let j = backward_length - 1 - k;
                                    assert(input@[candidate_relative - 1 - j] == input@[cur - 1 - j]);
                                } else if k < backward_length + 4 {
                                    let j = k - backward_length;
                                    assert(input@[candidate_relative + j] == input@[cur + j]);
                                } else {
                                    let j = k - backward_length - 4;
                                    assert(input@[cur + 4 + j] == input@[candidate_relative + 4 + j]);
                                }
                            }
                        }
                        assert(best_match == step);
                    } else {
                        assert(best_match == step);
                    }
                } else {
                    assert(best_match == step);
                }
            },
            CandidateSource::ExternalDictionary(candidate_relative) => {
                let match_length = try_ext_dict_match(input, cur, match_limit, ext_dict, candidate_relative);
                proof {
                    if match_length > 0 {
                        lemma_common_len(
                            input@,
                            cur as int,
                            d,
                            candidate_relative as int,
                            compare_window(cur as int, match_limit as int, d.len() as int, candidate_relative as int),
                            match_length as int,
                        );
                    }
                }
                if match_length as u32 > best_match.match_length {
                    let distance = cur_absolute - candidate;
                    best_match.match_length = match_length as u32;
                    best_match.candidate = candidate_position_for_distance(cur, distance);
                    best_match.start_position = cur as u32;
                    proof {
                        let s32 = cur as u32;
                        let d32 = distance as u32;
                        assert(s32.wrapping_sub(s32.wrapping_sub(d32)) == d32) by (bit_vector);
                        assert forall|k: int| 0 <= k < match_length implies #[trigger] d[dict.len() + cur + k] == d[dict.len() + cur + k - distance] by {
                            assert(input@[cur + k] == d[candidate_relative + k]);
                        }
                    }
                }
            },
            CandidateSource::Unavailable => {},
        }
        assert(best_match == step);
        match hash_table.advance(candidate, cur_absolute) {
            Some(next_candidate) => {
                candidate = next_candidate;
            },
            None => {
                break;
            },
        }
    }
    if best_match.match_length as usize == min_match_length {
        None
    } else {
        Some(best_match)
    }
}

/// The best match after examining the chain candidate `c` (a stream position) for a search at
/// `cur` that may widen matches back to `start_limit`: a candidate in the input counts when
/// its first `MINMATCH` bytes equal those at `cur` (and, once the best is at least `MINMATCH`
/// long and the candidate leaves room to look back, when the two bytes at the end of the best
/// match's span agree); its match runs forward from `cur` and back towards `start_limit`. A
/// candidate in `dict` counts when its first `MINMATCH` bytes agree, and runs forward only.
/// The candidate replaces `best` when its match is longer.
pub open spec fn wider_step(
    input: Seq<u8>,
    dict: Seq<u8>,
    cur: int,
    start_limit: int,
    match_limit: int,
    stream_offset: int,
    best: Match,
    c: int,
) -> Match {
    let cur_absolute = cur + stream_offset;
    let look_back = cur - start_limit;
    if c >= stream_offset {
        let rel = c - stream_offset;
        let can_check_tail = best.match_length >= MINMATCH && rel >= look_back;
        let tail_ok = !can_check_tail || (input[rel - look_back + best.match_length - 1] == input[start_limit
            + best.match_length - 1] && input[rel - look_back + best.match_length] == input[start_limit
            + best.match_length]);
        let first_ok = forall|k: int| 0 <= k < MINMATCH ==> #[trigger] input[rel + k] == input[cur + k];
        if tail_ok && first_ok {
            let fwd = MINMATCH + common_len(
                input,
                cur + MINMATCH,
                input,
                rel + MINMATCH,
                compare_window(cur + MINMATCH, match_limit, input.len() as int, rel + MINMATCH),
            );
            let bwd = common_back(input, rel, cur, if rel < cur - start_limit { rel } else { cur - start_limit });
            if bwd + fwd > best.match_length {
                Match {
                    start_position: (cur - bwd) as u32,
                    match_length: (bwd + fwd) as u32,
                    candidate: ((cur - bwd) as u32).wrapping_sub((cur_absolute - c) as u32),
                }
            } else {
                best
            }
        } else {
            best
        }
    } else if dict.len() != 0 && c >= stream_offset - dict.len() {
        let rel = c - (stream_offset - dict.len());
        let d = dict + input;
        let len = if forall|k: int| 0 <= k < MINMATCH ==> #[trigger] input[cur + k] == d[rel + k] {
            common_len(input, cur, d, rel, compare_window(cur, match_limit, d.len() as int, rel))
        } else {
            0
        };
        if len > best.match_length {
            Match {
                start_position: cur as u32,
                match_length: len as u32,
                candidate: (cur as u32).wrapping_sub((cur_absolute - c) as u32),
            }
        } else {
            best
        }
    } else {
        best
    }
}

/// The best match of a walk of at most `remaining` steps along the chain from candidate `c`,
/// stopping at the first candidate out of reach or at the end of the chain.
pub open spec fn wider_walk(
    chain: Seq<u16>,
    input: Seq<u8>,
    dict: Seq<u8>,
    cur: int,
    start_limit: int,
    match_limit: int,
    stream_offset: int,
    best: Match,
    c: int,
    remaining: int,
) -> Match
    decreases remaining,
{
    if remaining <= 0 || !hc_in_range(chain, c, cur + stream_offset) {
        best
    } else {
        let b2 = wider_step(input, dict, cur, start_limit, match_limit, stream_offset, best, c);
        let nx = hc_next(chain, c);
        if nx == c || !hc_in_range(chain, nx, cur + stream_offset) {
            b2
        } else {
            wider_walk(chain, input, dict, cur, start_limit, match_limit, stream_offset, b2, nx, remaining - 1)
        }
    }
}

/// The result of a search at `cur` in table `t`: the positions up to `cur` are added to the
/// table, then the chain of `cur` is walked for at most the table's number of attempts from
/// its head; the best match that is longer than `min_match_length`, or none.
spec fn wider_search(
    t: HashTableHCU32,
    input: Seq<u8>,
    dict: Seq<u8>,
    cur: int,
    start_limit: int,
    match_limit: int,
    min_match_length: int,
    stream_offset: int,
) -> Option<Match> {
    let first = if t.next_to_update < stream_offset { stream_offset } else { t.next_to_update as int };
    let tables = hc_inserted(t.dictionary@, t.chain_table@, input, stream_offset, first, cur + stream_offset);
    let head = tables.0[hc_hash_of(le_u32_at(input, cur) as u32) as int] as int;
    let init = Match { start_position: cur as u32, match_length: min_match_length as u32, candidate: 0 };
    let w = wider_walk(tables.1, input, dict, cur, start_limit, match_limit, stream_offset, init, head, t.max_attempts as int);
    if w.match_length == min_match_length {
        None
    } else {
        Some(w)
    }
}

/// Search the chain for the longest match starting at `cur`. Matches end at `match_limit`,
/// which must lie before the end of `input`: a candidate is first screened by the byte after the
/// best match so far.
fn find_best_hash_chain_match(
    hash_table: &mut HashTableHCU32,
    input: &[u8],
    cur: usize,
    match_limit: usize,
    ext_dict: &[u8],
    stream_offset: usize,
) -> (r: Option<Match>)
    requires
        old(hash_table).wf(),
        search_args(input@, cur as int, match_limit as int, ext_dict@, stream_offset as int),
        match_limit < input@.len(),
    ensures
        final(hash_table).wf(),
        r matches Some(m) ==> m.match_length > 0 && m.start_position == cur && match_ok(m, input@, ext_dict@, match_limit as int),
        r == wider_search(*old(hash_table), input@, ext_dict@, cur as int, cur as int, match_limit as int, 0, stream_offset as int),
{
    let found = find_wider_hash_chain_match(hash_table, input, cur, cur, match_limit, 0, ext_dict, stream_offset);
    let (first_match_length, delta) = hash_table.first_candidate_match(input, cur, match_limit, ext_dict, stream_offset);
    if first_match_length != 0 {
        hash_table.pre_hash_repeat(input, cur + stream_offset, first_match_length, delta, stream_offset);
    }
    found
}

} // verus!

verus! {

/// The facts about a block that the hash chain compressor works on.
pub open spec fn hc_block(input: Seq<u8>, end_pos_check: int, match_limit: int, dict: Seq<u8>, stream_offset: int) -> bool {
    &&& input.len() >= LZ4_MIN_LENGTH
    &&& end_pos_check == input.len() - MFLIMIT
    &&& match_limit == input.len() - LAST_LITERALS
    &&& dict.len() <= stream_offset
    &&& input.len() <= u32::MAX
    &&& stream_offset + input.len() + input.len() / 8 + 16 <= usize::MAX
}

/// Encodes `found_match` after the pending literals and moves the cursor to its end.
///
/// The search never produces a match that starts before the pending literals or is shorter
/// than [`MINMATCH`]; should one appear, it is not encoded and its bytes stay literals.
fn encode_match_and_advance(
    input: &[u8],
    output: &mut SliceSink,
    found_match: &Match,
    literal_start: &mut usize,
    cur: &mut usize,
    ext_dict: &[u8],
    Ghost(buf0): Ghost<Seq<u8>>,
    Ghost(p0): Ghost<int>,
    Ghost(prefix): Ghost<int>,
)
    requires
        old(output).wf(),
        match_ok(*found_match, input@, ext_dict@, input@.len() - LAST_LITERALS),
        encoder_state(old(output).output@, old(output).pos as int, buf0, p0, input@, prefix, *old(literal_start) as int, ext_dict@),
    ensures
        final(output).wf(),
        *final(cur) == found_match.start_position + found_match.match_length,
        encoder_state(final(output).output@, final(output).pos as int, buf0, p0, input@, prefix, *final(literal_start) as int, ext_dict@),
        final(final(output).output)@ == final(old(output).output)@,
{
    let _len = input.len();
    if found_match.start_position as usize >= *literal_start && found_match.match_length as usize >= MINMATCH {
        found_match.encode_to(input, *literal_start, output, ext_dict, Ghost(buf0), Ghost(p0), Ghost(prefix));
        *literal_start = found_match.end();
    }
    *cur = found_match.end();
}

/// Searches, `bytes_before_end` bytes before the end of `base_match`, for a match longer than
/// it that may reach back to its start.
fn find_wider_match_before_end(
    hash_table: &mut HashTableHCU32,
    input: &[u8],
    base_match: &Match,
    bytes_before_end: usize,
    end_pos_check: usize,
    match_limit: usize,
    ext_dict: &[u8],
    stream_offset: usize,
) -> (r: Option<Match>)
    requires
        old(hash_table).wf(),
        hc_block(input@, end_pos_check as int, match_limit as int, ext_dict@, stream_offset as int),
        match_ok(*base_match, input@, ext_dict@, match_limit as int),
    ensures
        final(hash_table).wf(),
        r matches Some(m) ==> m.match_length > base_match.match_length && m.start_position >= base_match.start_position
            && match_ok(m, input@, ext_dict@, match_limit as int),
        r == if base_match.start_position + base_match.match_length > end_pos_check || base_match.match_length
            < bytes_before_end {
            None::<Match>
        } else {
            wider_search(
                *old(hash_table),
                input@,
                ext_dict@,
                base_match.start_position + base_match.match_length - bytes_before_end,
                base_match.start_position as int,
                match_limit as int,
                base_match.match_length as int,
                stream_offset as int,
            )
        },
{
    if base_match.end() > end_pos_check {
        return None;
    }
    // A match shorter than the bytes to look back over cannot be widened from its end.
    if (base_match.match_length as usize) < bytes_before_end {
        return None;
    }
    find_wider_hash_chain_match(
        hash_table,
        input,
        base_match.end() - bytes_before_end,
        base_match.start_position as usize,
        match_limit,
        base_match.match_length as usize,
        ext_dict,
        stream_offset,
    )
}

fn find_following_wider_match(
    hash_table: &mut HashTableHCU32,
    input: &[u8],
    current_match: &Match,
    end_pos_check: usize,
    match_limit: usize,
    ext_dict: &[u8],
    stream_offset: usize,
) -> (r: Option<Match>)
    requires
        old(hash_table).wf(),
        hc_block(input@, end_pos_check as int, match_limit as int, ext_dict@, stream_offset as int),
        match_ok(*current_match, input@, ext_dict@, match_limit as int),
    ensures
        final(hash_table).wf(),
        r matches Some(m) ==> m.match_length > current_match.match_length && m.start_position
            >= current_match.start_position && match_ok(m, input@, ext_dict@, match_limit as int),
        r == if current_match.start_position + current_match.match_length > end_pos_check || current_match.match_length
            < 2 {
            None::<Match>
        } else {
            wider_search(
                *old(hash_table),
                input@,
                ext_dict@,
                current_match.start_position + current_match.match_length - 2,
                current_match.start_position as int,
                match_limit as int,
                current_match.match_length as int,
                stream_offset as int,
            )
        },
{
    find_wider_match_before_end(hash_table, input, current_match, 2, end_pos_check, match_limit, ext_dict, stream_offset)
}

fn followup_match_overlaps_previous_match(previous_match: &Match, current_match: &Match, next_match: &Match) -> (r: bool)
    ensures
        r == (previous_match.start_position < current_match.start_position && next_match.start_position
            < current_match.start_position + previous_match.match_length),
{
    previous_match.start_position < current_match.start_position && (next_match.start_position as u64)
        < current_match.start_position as u64 + previous_match.match_length as u64
}

fn next_match_starts_too_close(current_match: &Match, next_match: &Match) -> (r: bool)
    requires
        next_match.start_position >= current_match.start_position,
    ensures
        r == (next_match.start_position - current_match.start_position < 3),
{
    (next_match.start_position - current_match.start_position) < 3
}

/// How many bytes at the front of `next` a following `current` match keeps for itself: none
/// when `next` starts `OPTIMAL_MATCH_LENGTH` or more bytes later; else the part of `current`,
/// capped at `OPTIMAL_MATCH_LENGTH`, that reaches past the start of `next`, capped so that
/// `next` keeps at least `MINMATCH` bytes.
pub open spec fn next_match_overlap(current: Match, next: Match) -> int {
    let start_delta = next.start_position - current.start_position;
    if start_delta >= OPTIMAL_MATCH_LENGTH {
        0
    } else {
        let capped = if current.match_length < OPTIMAL_MATCH_LENGTH {
            current.match_length as int
        } else {
            OPTIMAL_MATCH_LENGTH as int
        };
        let next_end = next.start_position + next.match_length;
        let end_room = if next_end >= MINMATCH { next_end - MINMATCH } else { 0 };
        let len_room = if next.match_length >= MINMATCH { next.match_length - MINMATCH } else { 0 };
        let capped2 = if current.start_position + capped > end_room { start_delta + len_room } else { capped };
        if capped2 > start_delta { capped2 - start_delta } else { 0 }
    }
}

/// Moves the start of `next_match` past the part of `current_match` that it keeps.
fn trim_next_match_for_current_overlap(current_match: &Match, next_match: &mut Match, Ghost(input): Ghost<Seq<u8>>, Ghost(dict): Ghost<Seq<u8>>, Ghost(match_limit): Ghost<int>)
    requires
        old(next_match).start_position >= current_match.start_position,
        match_ok(*current_match, input, dict, match_limit),
        match_ok(*old(next_match), input, dict, match_limit),
        match_limit <= u32::MAX,
    ensures
        match_ok(*final(next_match), input, dict, match_limit),
        final(next_match).start_position == old(next_match).start_position + next_match_overlap(*current_match, *old(next_match)),
        final(next_match).start_position >= old(next_match).start_position,
        final(next_match).start_position + final(next_match).match_length == old(next_match).start_position + old(
            next_match,
        ).match_length,
{
    let start_delta = next_match.start_position - current_match.start_position;
    if start_delta >= OPTIMAL_MATCH_LENGTH as u32 {
        return;
    }
    let mut capped_length = if (current_match.match_length as usize) < OPTIMAL_MATCH_LENGTH {
        current_match.match_length as usize
    } else {
        OPTIMAL_MATCH_LENGTH
    };
    if current_match.start_position as usize + capped_length > next_match.end().saturating_sub(MINMATCH) {
        capped_length = start_delta as usize + (next_match.match_length as usize).saturating_sub(MINMATCH);
    }
    let overlap = capped_length.saturating_sub(start_delta as usize);
    if overlap > 0 {
        let ghost before = *next_match;
        next_match.trim_front(overlap);
        proof {
            lemma_match_trim(before, *next_match, overlap as int, input, dict, match_limit);
        }
    }
}

/// Result of the three-match resolution loop.
pub enum ResolveAction {
    /// All matches encoded. `cur` and `literal_start` already advanced.
    Done,
    /// `current_match` was encoded. Restart lazy evaluation with the returned matches.
    Restart { current_match: Match, previous_match: Match },
}

/// Resolve overlapping matches (`current_match`, `next_match`, and potentially a third one).
/// Encodes sequences to `output` and advances `cur`/`literal_start`.
fn resolve_overlapping_matches(
    input: &[u8],
    output: &mut SliceSink,
    hash_table: &mut HashTableHCU32,
    ext_dict: &[u8],
    stream_offset: usize,
    end_pos_check: usize,
    match_limit: usize,
    current_match: &mut Match,
    next_match: &mut Match,
    cur: &mut usize,
    literal_start: &mut usize,
    Ghost(buf0): Ghost<Seq<u8>>,
    Ghost(p0): Ghost<int>,
    Ghost(prefix): Ghost<int>,
) -> (r: ResolveAction)
    requires
        old(hash_table).wf(),
        old(output).wf(),
        hc_block(input@, end_pos_check as int, match_limit as int, ext_dict@, stream_offset as int),
        match_ok(*old(current_match), input@, ext_dict@, match_limit as int),
        match_ok(*old(next_match), input@, ext_dict@, match_limit as int),
        old(next_match).start_position >= old(current_match).start_position,
        encoder_state(old(output).output@, old(output).pos as int, buf0, p0, input@, prefix, *old(literal_start) as int, ext_dict@),
    ensures
        final(hash_table).wf(),
        final(output).wf(),
        encoder_state(final(output).output@, final(output).pos as int, buf0, p0, input@, prefix, *final(literal_start) as int, ext_dict@),
        final(final(output).output)@ == final(old(output).output)@,
        r matches ResolveAction::Done ==> *final(cur) >= old(next_match).start_position + old(next_match).match_length
            && *final(cur) <= match_limit,
        r matches ResolveAction::Restart { current_match: c, previous_match: p } ==> match_ok(c, input@, ext_dict@, match_limit as int)
            && match_ok(p, input@, ext_dict@, match_limit as int) && c.start_position + c.match_length
            > old(next_match).start_position + old(next_match).match_length && p.start_position + p.match_length
            >= old(next_match).start_position + old(next_match).match_length,
{
    let ghost e0 = next_match.start_position + next_match.match_length;
    loop
        invariant
            hash_table.wf(),
            output.wf(),
            hc_block(input@, end_pos_check as int, match_limit as int, ext_dict@, stream_offset as int),
            match_ok(*current_match, input@, ext_dict@, match_limit as int),
            match_ok(*next_match, input@, ext_dict@, match_limit as int),
            next_match.start_position >= current_match.start_position,
            next_match.start_position + next_match.match_length >= e0,
            e0 == old(next_match).start_position + old(next_match).match_length,
            encoder_state(output.output@, output.pos as int, buf0, p0, input@, prefix, *literal_start as int, ext_dict@),
            final(output.output)@ == final(old(output).output)@,
        decreases match_limit - (next_match.start_position + next_match.match_length),
    {
        trim_next_match_for_current_overlap(current_match, next_match, Ghost(input@), Ghost(ext_dict@), Ghost(match_limit as int));
        let third_match = match find_wider_match_before_end(
            hash_table,
            input,
            next_match,
            3,
            end_pos_check,
            match_limit,
            ext_dict,
            stream_offset,
        ) {
            Some(m) => m,
            None => {
                if (next_match.start_position as usize) < current_match.end() {
                    current_match.match_length = next_match.start_position - current_match.start_position;
                }
                encode_match_and_advance(input, output, current_match, literal_start, cur, ext_dict, Ghost(buf0), Ghost(p0), Ghost(prefix));
                encode_match_and_advance(input, output, next_match, literal_start, cur, ext_dict, Ghost(buf0), Ghost(p0), Ghost(prefix));
                return ResolveAction::Done;
            },
        };
        let third_match_starts_near_current_end = (third_match.start_position as usize) < current_match.end() + 3;
        // The third match starts right after the current one: encode the current one, then continue.
        if third_match_starts_near_current_end && third_match.start_position as usize >= current_match.end() {
            if (next_match.start_position as usize) < current_match.end() {
                let overlap = current_match.end() - next_match.start_position as usize;
                let ghost before = *next_match;
                next_match.trim_front(overlap);
                proof {
                    lemma_match_trim(before, *next_match, overlap as int, input@, ext_dict@, match_limit as int);
                }
                if (next_match.match_length as usize) < MINMATCH {
                    *next_match = third_match;
                }
            }
            encode_match_and_advance(input, output, current_match, literal_start, cur, ext_dict, Ghost(buf0), Ghost(p0), Ghost(prefix));
            return ResolveAction::Restart { current_match: third_match, previous_match: *next_match };
        }
        // The third match starts too close to the current one: it becomes the next match.
        if third_match_starts_near_current_end {
            *next_match = third_match;
            continue;
        }
        // Resolve overlap between the current match and the next one.
        if (next_match.start_position as usize) < current_match.end() {
            if (next_match.start_position - current_match.start_position) < MATCH_LENGTH_MASK as u32 {
                if current_match.match_length as usize > OPTIMAL_MATCH_LENGTH {
                    current_match.match_length = OPTIMAL_MATCH_LENGTH as u32;
                }
                if current_match.end() > next_match.end().saturating_sub(MINMATCH) {
                    current_match.match_length = next_match.end().saturating_sub(
                        current_match.start_position as usize + MINMATCH,
                    ) as u32;
                }
                let overlap = current_match.end().saturating_sub(next_match.start_position as usize);
                let ghost before = *next_match;
                next_match.trim_front(overlap);
                proof {
                    lemma_match_trim(before, *next_match, overlap as int, input@, ext_dict@, match_limit as int);
                }
            } else {
                current_match.match_length = next_match.start_position - current_match.start_position;
            }
        }
        // Encode the current match, then continue resolving with the next and third ones.
        encode_match_and_advance(input, output, current_match, literal_start, cur, ext_dict, Ghost(buf0), Ghost(p0), Ghost(prefix));
        *current_match = *next_match;
        *next_match = third_match;
    }
}

/// Internal high-compression implementation for the hash-chain strategy.
/// `input_pos` is where the current block starts (positions before it are prefix).
/// `ext_dict` and `stream_offset` support linked block mode.
///
/// Returns [`CompressError::OutputTooSmall`], writing nothing, when the output has fewer free
/// bytes than [`max_output_size`] of the block.
pub fn compress_hash_chain_internal(
    input: &[u8],
    input_pos: usize,
    output: &mut SliceSink,
    hash_table: &mut HashTableHCU32,
    ext_dict: &[u8],
    stream_offset: usize,
) -> (r: Result<usize, CompressError>)
    requires
        input_pos <= input@.len(),
        old(output).wf(),
        old(hash_table).wf(),
        ext_dict@.len() <= stream_offset,
        input@.len() <= u32::MAX,
        stream_offset + input@.len() + input@.len() / 8 + 16 <= usize::MAX,
    ensures
        final(hash_table).wf(),
        final(output).wf(),
        final(output).output@.len() == old(output).output@.len(),
        final(final(output).output)@ == final(old(output).output)@,
        max_output_size(input@.len() - input_pos) > old(output).output@.len() - old(output).pos ==> r
            == Err::<usize, CompressError>(CompressError::OutputTooSmall) && final(output).output@
            == old(output).output@ && final(output).pos == old(output).pos,
        max_output_size(input@.len() - input_pos) <= old(output).output@.len() - old(output).pos ==> (
        r matches Ok(n) && n <= max_output_size(input@.len() - input_pos) && final(output).pos == old(output).pos
            + n && final(output).output@ == splice(
            old(output).output@,
            old(output).pos as int,
            final(output).output@.subrange(old(output).pos as int, final(output).pos as int),
        ) && block_decodes_to(
            final(output).output@.subrange(old(output).pos as int, final(output).pos as int),
            ext_dict@,
            input@,
            input_pos as int,
        ) && block_keeps_rules(
            final(output).output@.subrange(old(output).pos as int, final(output).pos as int),
            input@,
            ext_dict@.len() as int,
            input_pos as int,
        ) && short_block(
            final(output).output@.subrange(old(output).pos as int, final(output).pos as int),
            input@,
            input_pos as int,
        )),
{
    let output_start = output.pos;
    if !fits_output(input.len() - input_pos, output.output.len() - output.pos) {
        return Err(CompressError::OutputTooSmall);
    }
    let ghost buf0 = output.output@;
    let ghost p0 = output_start as int;
    let ghost prefix = input_pos as int;
    proof {
        lemma_encoder_start(buf0, p0, input@, prefix, ext_dict@);
    }
    if input.len() - input_pos < LZ4_MIN_LENGTH {
        assert(output.output@.subrange(p0, p0) =~= Seq::<u8>::empty());
        let n = emit_last_literals(input, output, input_pos, output_start, Ghost(buf0), Ghost(prefix), Ghost(ext_dict@));
        assert(Seq::<u8>::empty() + last_sequence_bytes(input@.skip(input_pos as int)) =~= last_sequence_bytes(input@.skip(input_pos as int)));
        return Ok(n);
    }
    let input_end = input.len();
    // Inclusive max main-loop cursor: at least `MFLIMIT` bytes from cursor to `input_end`.
    let end_pos_check = input_end - MFLIMIT;
    // Do not extend matches into the last `LAST_LITERALS` bytes (they are literals).
    let match_limit = input_end - LAST_LITERALS;
    let mut cur = input_pos;
    let mut literal_start = input_pos;
    while cur <= end_pos_check
        invariant
            hash_table.wf(),
            output.wf(),
            hc_block(input@, end_pos_check as int, match_limit as int, ext_dict@, stream_offset as int),
            input_end == input@.len(),
            cur <= input_end,
            encoder_state(output.output@, output.pos as int, buf0, p0, input@, prefix, literal_start as int, ext_dict@),
            buf0 == old(output).output@,
            p0 == old(output).pos,
            p0 == output_start,
            prefix == input_pos,
            final(output.output)@ == final(old(output).output)@,
        decreases input_end + 1 - cur,
    {
        let found_match = match find_best_hash_chain_match(hash_table, input, cur, match_limit, ext_dict, stream_offset) {
            Some(m) => m,
            None => {
                cur = cur + 1;
                continue;
            },
        };
        let ghost cur0 = cur as int;
        let mut current_match = found_match;
        let mut previous_match = current_match;
        // Lazy match evaluation: start from current_match and keep looking slightly ahead.
        loop
            invariant_except_break
                match_ok(current_match, input@, ext_dict@, match_limit as int),
                match_ok(previous_match, input@, ext_dict@, match_limit as int),
                current_match.start_position + current_match.match_length > cur0,
                previous_match.start_position + previous_match.match_length > cur0,
            invariant
                hash_table.wf(),
                output.wf(),
                hc_block(input@, end_pos_check as int, match_limit as int, ext_dict@, stream_offset as int),
                input_end == input@.len(),
                encoder_state(output.output@, output.pos as int, buf0, p0, input@, prefix, literal_start as int, ext_dict@),
                final(output.output)@ == final(old(output).output)@,
            ensures
                cur0 < cur <= match_limit,
            decreases match_limit - (current_match.start_position + current_match.match_length),
        {
            let next = match find_following_wider_match(
                hash_table,
                input,
                &current_match,
                end_pos_check,
                match_limit,
                ext_dict,
                stream_offset,
            ) {
                Some(m) => m,
                None => {
                    encode_match_and_advance(input, output, &current_match, &mut literal_start, &mut cur, ext_dict, Ghost(buf0), Ghost(p0), Ghost(prefix));
                    break;
                },
            };
            let mut next_match = next;
            if followup_match_overlaps_previous_match(&previous_match, &current_match, &next_match) {
                current_match = previous_match;
            }
            if next_match_starts_too_close(&current_match, &next_match) {
                current_match = next_match;
                continue;
            }
            match resolve_overlapping_matches(
                input,
                output,
                hash_table,
                ext_dict,
                stream_offset,
                end_pos_check,
                match_limit,
                &mut current_match,
                &mut next_match,
                &mut cur,
                &mut literal_start,
                Ghost(buf0),
                Ghost(p0),
                Ghost(prefix),
            ) {
                ResolveAction::Done => {
                    break;
                },
                ResolveAction::Restart { current_match: restart_match, previous_match: restart_previous_match } => {
                    current_match = restart_match;
                    previous_match = restart_previous_match;
                },
            }
        }
    }
    let n = emit_last_literals(input, output, literal_start, output_start, Ghost(buf0), Ghost(prefix), Ghost(ext_dict@));
    Ok(n)
}

} // verus!
