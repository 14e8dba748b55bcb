//! A fast optimal-parse compressor: a hash-chain match finder feeding a price-based dynamic program.
//! It emits a standard LZ4 block directly, at a ratio close to the suffix-array parse.
//!
//! It only ever searches a single contiguous window (callers fold a dictionary in as a prefix) and
//! always from the current position forwards. Long runs are kept fast by stopping as soon as a
//! maximal-length match is found (it's already optimal); general repetitive data relies on the
//! chain-swap step.
//!
//! Every match the parse emits was compared byte by byte against the window, so the block decodes
//! back to the window whatever the prices say.
use vstd::prelude::*;
use crate::block::format::last_sequence_bytes;
use crate::block::compress::{
    block_decodes_to, block_keeps_rules, emit_last_literals_checked, emit_sequence_checked, encoder_progress, get_batch,
    lemma_encoder_progress_start, lemma_le_u32_injective, max_output_size, repeats,
};
use crate::block::compress_hc::hash_chain::{hash_hc, hc_hash_of};
use crate::block::compress_hc::optimal::{
    fill_trailing_literal_states, initialize_first_match_states, initialize_literal_states, parse_bounds,
    parse_path, reverse_optimal_parse_path, should_skip_optimal_search, state_ok, states_ok, step_ok,
    update_literal_states_before_match, update_match_states_from_position, OptimalState,
};
use crate::block::compress_hc::{LZ4_OPT_NUM, TRAILING_LITERALS};
use crate::block::{CompressError, LAST_LITERALS, MFLIMIT, MINMATCH};
use crate::sink::{splice, SliceSink};
use super::{window_compressed, MIN_MATCH_SIZE};

verus! {

/// Number of slots of the hash table.
pub const HASH_SIZE: usize = 32768;

/// Number of slots of the chain table, indexed by the low 16 bits of a position.
pub const CHAIN_SIZE: usize = 65536;

/// Index offset so an empty hash slot (0) reads as "too far".
pub const BASE: u32 = 65536;

/// The largest distance of a match.
pub const DISTANCE_MAX: u32 = 65535;

/// Number of states of the optimal parse.
pub const OPT_SIZE: usize = 4099;

/// Max-effort search depth.
pub const NB_SEARCHES: i32 = 16384;

/// The match length past which no better one is looked for.
pub const SUFFICIENT_LEN: i32 = 4095;

/// The two bytes at `i`, little-endian.
fn read16(w: &[u8], i: usize) -> (r: u16)
    requires
        i + 2 <= w@.len(),
    ensures
        r == w@[i as int] + 256 * w@[i + 1],
{
    w[i] as u16 + (w[i + 1] as u16) * 256
}

/// The hash of the four bytes at `i`.
fn hash4(w: &[u8], i: usize) -> (r: usize)
    requires
        i + 4 <= w@.len(),
    ensures
        r < HASH_SIZE,
        r == hc_hash_of(crate::block::le_u32_at(w@, i as int) as u32),
{
    hash_hc(get_batch(w, i)) as usize
}

/// Common-prefix length of `w[a..]` and `w[b..]`, where `a` (the "in" side) may not reach
/// `a_limit`.
fn count(w: &[u8], a: usize, b: usize, a_limit: usize) -> (r: usize)
    requires
        b < a <= a_limit <= w@.len(),
    ensures
        a + r <= a_limit,
        forall|k: int| 0 <= k < r ==> #[trigger] w@[a + k] == w@[b + k],
        a + r < a_limit ==> w@[a + r] != w@[b + r],
{
    let mut n: usize = 0;
    while a + n < a_limit && w[a + n] == w[b + n]
        invariant
            b < a <= a_limit <= w@.len(),
            a + n <= a_limit,
            forall|k: int| 0 <= k < n ==> #[trigger] w@[a + k] == w@[b + k],
        decreases a_limit - a - n,
    {
        n = n + 1;
    }
    n
}

/// Reusable hash-chain compressor state.
pub struct HcCompressor {
    hash: Vec<u32>,
    chain: Vec<u16>,
    opt: Vec<OptimalState>,
}

impl HcCompressor {
    /// The tables have their sizes.
    pub closed spec fn wf(&self) -> bool {
        &&& self.hash@.len() == HASH_SIZE
        &&& self.chain@.len() == CHAIN_SIZE
    }

    /// Every position in the hash table is below `limit`.
    pub closed spec fn hashed_below(&self, limit: u32) -> bool {
        forall|h: int| 0 <= h < self.hash@.len() ==> #[trigger] self.hash@[h] < limit
    }

    /// Creates empty tables.
    pub fn new() -> (c: Self)
        ensures
            c.wf(),
    {
        HcCompressor { hash: vec![0u32; HASH_SIZE], chain: vec![0xFFFFu16; CHAIN_SIZE], opt: Vec::new() }
    }

    /// Empties the tables for a new block.
    fn reset(&mut self)
        requires
            old(self).wf(),
        ensures
            final(self).wf(),
            final(self).hashed_below(BASE),
            final(self).opt@.len() == OPT_SIZE,
    {
        let mut i: usize = 0;
        while i < HASH_SIZE
            invariant
                self.wf(),
                i <= HASH_SIZE,
                forall|h: int| 0 <= h < i ==> #[trigger] self.hash@[h] == 0,
            decreases HASH_SIZE - i,
        {
            self.hash[i] = 0;
            i = i + 1;
        }
        let mut j: usize = 0;
        while j < CHAIN_SIZE
            invariant
                self.wf(),
                forall|h: int| 0 <= h < HASH_SIZE ==> #[trigger] self.hash@[h] == 0,
            decreases CHAIN_SIZE - j,
        {
            self.chain[j] = 0xFFFF;
            j = j + 1;
        }
        if self.opt.len() != OPT_SIZE {
            self.opt = vec![OptimalState { path_cost: 0, lit_len: 0, match_offset: 0, match_len: 0 }; OPT_SIZE];
        }
    }

    /// Insert hash-chain entries for all positions in `[next..target)` (positions are absolute
    /// indices = window offset + BASE). `next_to_update` tracks how far we've inserted.
    fn insert(&mut self, w: &[u8], next_to_update: &mut u32, target_idx: u32)
        requires
            old(self).wf(),
            old(self).hashed_below(*old(next_to_update)),
            BASE <= *old(next_to_update) <= target_idx,
            target_idx - BASE + MFLIMIT <= w@.len(),
        ensures
            final(self).wf(),
            final(self).hashed_below(target_idx),
            *final(next_to_update) == target_idx,
            final(self).opt == old(self).opt,
    {
        let mut idx = *next_to_update;
        while idx < target_idx
            invariant
                self.wf(),
                self.hashed_below(idx),
                BASE <= idx <= target_idx,
                target_idx - BASE + MFLIMIT <= w@.len(),
                self.opt == old(self).opt,
            decreases target_idx - idx,
        {
            let pos = (idx - BASE) as usize;
            let h = hash4(w, pos);
            let previous = self.hash[h];
            let mut delta = if previous > idx {
                DISTANCE_MAX
            } else {
                idx - previous
            };
            if delta > DISTANCE_MAX {
                delta = DISTANCE_MAX;
            }
            self.chain.set(idx as u16 as usize, delta as u16);
            self.hash.set(h, idx);
            idx = idx + 1;
        }
        *next_to_update = target_idx;
    }

    /// Find the longest match at `ip_pos`, returning `(length, offset)` with `length <= min_len`
    /// meaning "no better match". `matchlimit = n - LAST_LITERALS`.
    fn find_match(
        &mut self,
        w: &[u8],
        next_to_update: &mut u32,
        ip_pos: usize,
        min_len: i32,
        matchlimit: usize,
        favor_dec_speed: bool,
    ) -> (r: (i32, i32))
        requires
            old(self).wf(),
            old(self).hashed_below(*old(next_to_update)),
            BASE <= *old(next_to_update) <= ip_pos + BASE,
            ip_pos + MFLIMIT <= w@.len(),
            w@.len() < 0x7000_0000,
            matchlimit == w@.len() - LAST_LITERALS,
            min_len == MIN_MATCH_SIZE - 1,
        ensures
            final(self).wf(),
            final(self).hashed_below(*final(next_to_update)),
            *final(next_to_update) == ip_pos + BASE,
            final(self).opt == old(self).opt,
            r.0 >= min_len,
            r.0 > min_len ==> MINMATCH <= r.0 && ip_pos + r.0 <= matchlimit && 0 < r.1 <= DISTANCE_MAX && r.1 <= ip_pos
                && repeats(w@, ip_pos as int, r.1 as int, r.0 as int),
    {
        let ip_index = ip_pos as u32 + BASE;
        let lowest = if BASE + DISTANCE_MAX + 1 > ip_index {
            BASE
        } else {
            ip_index - DISTANCE_MAX
        };
        let pattern = get_batch(w, ip_pos);
        let mut longest = min_len;
        let mut offset: i32 = 0;
        let mut match_chain_pos: u32 = 0;
        let max_possible = (matchlimit - ip_pos) as i32;
        self.insert(w, next_to_update, ip_index);
        let mut match_index = self.hash[hash4(w, ip_pos)];
        let mut nb = NB_SEARCHES;
        while match_index >= lowest && nb > 0
            invariant
                self.wf(),
                self.hashed_below(ip_index),
                *next_to_update == ip_index,
                self.opt == old(self).opt,
                ip_index == ip_pos + BASE,
                BASE <= lowest,
                ip_index - lowest <= DISTANCE_MAX,
                match_index < ip_index,
                ip_pos + MFLIMIT <= w@.len(),
                w@.len() < 0x7000_0000,
                matchlimit == w@.len() - LAST_LITERALS,
                max_possible == matchlimit - ip_pos,
                pattern == crate::block::le_u32_at(w@, ip_pos as int),
                min_len == MIN_MATCH_SIZE - 1,
                min_len <= longest <= max_possible,
                longest > min_len ==> MINMATCH <= longest && 0 < offset <= DISTANCE_MAX && offset <= ip_pos && repeats(
                    w@,
                    ip_pos as int,
                    offset as int,
                    longest as int,
                ),
                0 <= nb <= NB_SEARCHES,
                match_chain_pos < 0x7000_0000,
            decreases nb,
        {
            nb = nb - 1;
            let mut match_length: i32 = 0;
            let m_pos = (match_index - BASE) as usize;
            if !(favor_dec_speed && ip_index - match_index < 8) && read16(w, ip_pos + longest as usize - 1) == read16(
                w,
                m_pos + longest as usize - 1,
            ) && get_batch(w, m_pos) == pattern {
                let c = count(w, ip_pos + 4, m_pos + 4, matchlimit);
                match_length = MIN_MATCH_SIZE + c as i32;
                proof {
                    lemma_le_u32_injective(
                        w@[m_pos as int],
                        w@[m_pos + 1],
                        w@[m_pos + 2],
                        w@[m_pos + 3],
                        w@[ip_pos as int],
                        w@[ip_pos + 1],
                        w@[ip_pos + 2],
                        w@[ip_pos + 3],
                    );
                }
                if match_length > longest {
                    longest = match_length;
                    offset = (ip_index - match_index) as i32;
                    proof {
                        assert forall|k: int| 0 <= k < longest implies #[trigger] w@[ip_pos + k] == w@[ip_pos + k - offset] by {
                            if k >= 4 {
                                assert(w@[ip_pos + 4 + (k - 4)] == w@[m_pos + 4 + (k - 4)]);
                            }
                        }
                    }
                    if longest >= max_possible {
                        break;
                    }
                }
            }
            // chain-swap: when a candidate ties the current best, jump along the match to the chain
            // link with the largest stride, skipping redundant inside-match candidates.
            if match_length == longest && match_index + longest as u32 <= ip_index {
                let mut dist_to_next_match: u32 = 1;
                let end = longest - MIN_MATCH_SIZE + 1;
                let mut accel: i32 = 16;
                let mut pos: i32 = 0;
                while pos < end
                    invariant
                        self.wf(),
                        0 <= pos,
                        end <= 0x7000_0000,
                        16 <= accel <= 16 + pos,
                        match_index < ip_index,
                        ip_index < 0x8000_0000,
                        dist_to_next_match <= 0xFFFF,
                        match_chain_pos < 0x7000_0000,
                        pos <= end + end / 16 + 1,
                    decreases 0x8000_0000 - pos,
                {
                    let candidate_dist = self.chain[(match_index + pos as u32) as u16 as usize] as u32;
                    let step = accel / 16;
                    accel = accel + 1;
                    if candidate_dist > dist_to_next_match {
                        dist_to_next_match = candidate_dist;
                        match_chain_pos = pos as u32;
                        accel = 16;
                    }
                    pos = pos + step;
                }
                if dist_to_next_match > 1 {
                    if dist_to_next_match > match_index {
                        break;
                    }
                    match_index = match_index - dist_to_next_match;
                    continue;
                }
            }
            match_index = match_index - self.chain[(match_index + match_chain_pos) as u16 as usize] as u32;
        }
        (longest, offset)
    }

    /// Returns `(0, 0)` unless there's a match strictly longer than `min_len`.
    fn find_longer_match(
        &mut self,
        w: &[u8],
        next_to_update: &mut u32,
        ip_pos: usize,
        min_len: i32,
        matchlimit: usize,
        favor_dec_speed: bool,
    ) -> (r: (i32, i32))
        requires
            old(self).wf(),
            old(self).hashed_below(*old(next_to_update)),
            BASE <= *old(next_to_update) <= ip_pos + BASE,
            ip_pos + MFLIMIT <= w@.len(),
            w@.len() < 0x7000_0000,
            matchlimit == w@.len() - LAST_LITERALS,
            min_len == MIN_MATCH_SIZE - 1,
        ensures
            final(self).wf(),
            final(self).hashed_below(*final(next_to_update)),
            *final(next_to_update) == ip_pos + BASE,
            final(self).opt == old(self).opt,
            r.0 == 0 || (MINMATCH <= r.0 && ip_pos + r.0 <= matchlimit && 0 < r.1 <= DISTANCE_MAX && r.1 <= ip_pos
                && repeats(w@, ip_pos as int, r.1 as int, r.0 as int)),
    {
        let (len, off) = self.find_match(w, next_to_update, ip_pos, min_len, matchlimit, favor_dec_speed);
        if len <= min_len {
            return (0, 0);
        }
        // When favouring decompression speed, a match just over the fast-path threshold is shortened
        // back to 18 so the decoder stays on its branchless fast copy.
        if favor_dec_speed && len > 18 && len <= 36 {
            return (18, off);
        }
        (len, off)
    }

    /// Emit one (literals, match) sequence and advance `ip`/`anchor`.
    fn encode_sequence(
        &self,
        out: &mut SliceSink,
        w: &[u8],
        ip: &mut usize,
        anchor: &mut usize,
        match_length: i32,
        offset: i32,
        Ghost(buf0): Ghost<Seq<u8>>,
        Ghost(p0): Ghost<int>,
        Ghost(prefix): Ghost<int>,
    ) -> (r: Result<(), CompressError>)
        requires
            old(out).wf(),
            encoder_progress(old(out).output@, old(out).pos as int, buf0, p0, w@, prefix, *old(anchor) as int, Seq::empty()),
            w@.len() < 0x7000_0000,
            *old(anchor) <= *old(ip),
            MINMATCH <= match_length,
            *old(ip) + match_length + LAST_LITERALS <= w@.len(),
            0 < offset <= DISTANCE_MAX,
            offset <= *old(ip),
            repeats(w@, *old(ip) as int, offset as int, match_length as int),
        ensures
            final(out).wf(),
            final(final(out).output)@ == final(old(out).output)@,
            r is Ok ==> *final(ip) == *old(ip) + match_length && *final(anchor) == *final(ip) && encoder_progress(
                final(out).output@,
                final(out).pos as int,
                buf0,
                p0,
                w@,
                prefix,
                *final(anchor) as int,
                Seq::empty(),
            ),
            r is Err ==> r == Err::<(), CompressError>(CompressError::OutputTooSmall) && *final(out) == *old(out)
                && *final(ip) == *old(ip) && *final(anchor) == *old(anchor),
            max_output_size(w@.len() - prefix) <= buf0.len() - p0 ==> r is Ok,
    {
        proof {
            assert(Seq::<u8>::empty() + w@ =~= w@);
        }
        let res = emit_sequence_checked(
            w,
            out,
            *anchor,
            *ip,
            offset as u16,
            match_length as usize,
            Ghost(buf0),
            Ghost(p0),
            Ghost(prefix),
            Ghost(Seq::empty()),
        );
        match res {
            Ok(()) => {
                *ip = *ip + match_length as usize;
                *anchor = *ip;
                Ok(())
            },
            Err(e) => Err(e),
        }
    }

    /// Emit the final literals-only sequence.
    fn encode_last_literals(
        &self,
        out: &mut SliceSink,
        w: &[u8],
        anchor: usize,
        n: usize,
        start_op: usize,
        Ghost(buf0): Ghost<Seq<u8>>,
        Ghost(prefix): Ghost<int>,
    ) -> (r: Result<(), CompressError>)
        requires
            old(out).wf(),
            encoder_progress(old(out).output@, old(out).pos as int, buf0, start_op as int, w@, prefix, anchor as int, Seq::empty()),
            w@.len() < 0x7000_0000,
            n == w@.len(),
        ensures
            final(out).wf(),
            final(final(out).output)@ == final(old(out).output)@,
            r is Ok ==> start_op <= final(out).pos && final(out).pos - start_op <= max_output_size(w@.len() - prefix) && final(out).output@ == splice(
                buf0,
                start_op as int,
                final(out).output@.subrange(start_op as int, final(out).pos as int),
            ) && final(out).output@.len() == buf0.len() && block_decodes_to(
                final(out).output@.subrange(start_op as int, final(out).pos as int),
                Seq::empty(),
                w@,
                prefix,
            ) && block_keeps_rules(final(out).output@.subrange(start_op as int, final(out).pos as int), w@, 0, prefix)
                && final(out).output@.subrange(start_op as int, final(out).pos as int) == old(out).output@.subrange(
                start_op as int,
                old(out).pos as int,
            ) + last_sequence_bytes(w@.skip(anchor as int)),
            r is Err ==> r == Err::<(), CompressError>(CompressError::OutputTooSmall) && *final(out) == *old(out),
            max_output_size(w@.len() - prefix) <= buf0.len() - start_op ==> r is Ok,
    {
        match emit_last_literals_checked(w, out, anchor, start_op, Ghost(buf0), Ghost(prefix), Ghost(Seq::empty())) {
            Ok(_) => Ok(()),
            Err(e) => Err(e),
        }
    }

    /// Emit the sequences of the steps of `path`, which end at or after `last_match_pos`.
    /// `match_len == 1` means one literal step.
    fn encode_optimal_path(
        &self,
        out: &mut SliceSink,
        w: &[u8],
        ip: &mut usize,
        anchor: &mut usize,
        last_match_pos: usize,
        Ghost(path): Ghost<Seq<int>>,
        Ghost(matchlimit): Ghost<int>,
        Ghost(buf0): Ghost<Seq<u8>>,
        Ghost(p0): Ghost<int>,
        Ghost(prefix): Ghost<int>,
    ) -> (r: Result<(), CompressError>)
        requires
            old(out).wf(),
            parse_path(self.opt@, path, *old(ip) as int, w@, Seq::empty(), matchlimit),
            path.last() < last_match_pos <= path.last() + self.opt@[path.last()].match_len,
            *old(ip) + last_match_pos <= matchlimit,
            matchlimit + LAST_LITERALS <= w@.len(),
            w@.len() < 0x7000_0000,
            *old(anchor) <= *old(ip),
            encoder_progress(old(out).output@, old(out).pos as int, buf0, p0, w@, prefix, *old(anchor) as int, Seq::empty()),
        ensures
            final(out).wf(),
            final(final(out).output)@ == final(old(out).output)@,
            encoder_progress(final(out).output@, final(out).pos as int, buf0, p0, w@, prefix, *final(anchor) as int, Seq::empty()),
            r is Ok ==> *final(ip) == *old(ip) + path.last() + self.opt@[path.last()].match_len && *final(anchor)
                <= *final(ip),
            r is Err ==> r == Err::<(), CompressError>(CompressError::OutputTooSmall),
            max_output_size(w@.len() - prefix) <= buf0.len() - p0 ==> r is Ok,
    {
        let ghost base = *ip as int;
        let ghost last_node = path.last();
        let ghost final_index = path.last() + self.opt@[path.last()].match_len;
        let ghost d = Seq::<u8>::empty() + w@;
        proof {
            assert(d =~= w@);
        }
        let mut r_pos: usize = 0;
        let ghost mut t: int = 0;
        while r_pos < last_match_pos
            invariant
                out.wf(),
                d == w@,
                parse_path(self.opt@, path, base, w@, Seq::empty(), matchlimit),
                path.last() < last_match_pos <= final_index,
                last_node == path.last(),
                final_index == path.last() + self.opt@[path.last()].match_len,
                base + last_match_pos <= matchlimit,
                matchlimit + LAST_LITERALS <= w@.len(),
                w@.len() < 0x7000_0000,
                0 <= base,
                *ip == base + r_pos,
                *anchor <= *ip,
                0 <= t <= path.len(),
                t < path.len() ==> r_pos == path[t],
                t == path.len() ==> r_pos == final_index,
                r_pos < last_match_pos ==> t < path.len(),
                encoder_progress(out.output@, out.pos as int, buf0, p0, w@, prefix, *anchor as int, Seq::empty()),
                final(out.output)@ == final(old(out).output)@,
            decreases self.opt@.len() + w@.len() - r_pos,
        {
            let state = self.opt[r_pos];
            assert(step_ok(self.opt@[path[t]], path[t], base, w@, Seq::empty(), matchlimit));
            proof {
                if t + 1 < path.len() {
                    assert(path[t] + self.opt@[path[t]].match_len == path[t + 1]);
                }
            }
            let ml = state.match_len;
            let off = state.match_offset;
            if ml == 1 {
                *ip = *ip + 1;
                r_pos = r_pos + 1;
                proof {
                    t = t + 1;
                }
                continue;
            }
            r_pos = r_pos + ml as usize;
            let res = self.encode_sequence(
                out,
                w,
                ip,
                anchor,
                ml as i32,
                off as i32,
                Ghost(buf0),
                Ghost(p0),
                Ghost(prefix),
            );
            if let Err(e) = res {
                return Err(e);
            }
            proof {
                t = t + 1;
            }
        }
        Ok(())
    }

    /// Optimally compress `w[prefix_len..]` (using `w[..prefix_len]` as lookback) into `out`,
    /// emitting a standard LZ4 block. `favor_dec_speed` trades a little ratio for a
    /// decode-optimised stream. Returns the number of bytes written.
    pub fn compress(&mut self, w: &[u8], prefix_len: usize, favor_dec_speed: bool, out: &mut SliceSink) -> (r: Result<
        usize,
        CompressError,
    >)
        requires
            old(self).wf(),
            old(out).wf(),
            prefix_len <= w@.len(),
            w@.len() < 0x7000_0000,
        ensures
            final(self).wf(),
            final(out).wf(),
            final(final(out).output)@ == final(old(out).output)@,
            window_compressed(
                old(out).output@,
                old(out).pos as int,
                final(out).output@,
                final(out).pos as int,
                r,
                w@,
                prefix_len as int,
            ),
    {
        let n = w.len();
        let start_op = out.pos;
        self.reset();
        let mut next_to_update: u32 = BASE;
        let mut ip = prefix_len;
        let mut anchor = prefix_len;
        let ghost buf0 = out.output@;
        let ghost p0 = start_op as int;
        let ghost prefix = prefix_len as int;
        let ghost dict = Seq::<u8>::empty();
        proof {
            lemma_encoder_progress_start(buf0, p0, w@, prefix, dict);
            assert(dict + w@ =~= w@);
        }
        let favor_bias: i64 = if favor_dec_speed {
            1
        } else {
            0
        };
        if n > MFLIMIT {
            // last position a match may start at (inclusive: ip <= mflimit)
            let mflimit = n - MFLIMIT;
            let matchlimit = n - LAST_LITERALS;
            while ip <= mflimit
                invariant
                    self.wf(),
                    self.opt@.len() == OPT_SIZE,
                    self.hashed_below(next_to_update),
                    BASE <= next_to_update <= ip + BASE,
                    out.wf(),
                    n == w@.len(),
                    n > MFLIMIT,
                    mflimit == n - MFLIMIT,
                    matchlimit == n - LAST_LITERALS,
                    w@.len() < 0x7000_0000,
                    0 <= favor_bias <= 1,
                    dict == Seq::<u8>::empty(),
                    dict + w@ == w@,
                    anchor <= ip <= n,
                    encoder_progress(out.output@, out.pos as int, buf0, p0, w@, prefix, anchor as int, dict),
                    buf0 == old(out).output@,
                    p0 == old(out).pos,
                    p0 == start_op,
                    prefix == prefix_len,
                    final(out.output)@ == final(old(out).output)@,
                decreases n + 1 - ip,
            {
                let llen = (ip - anchor) as i64;
                let ghost base = ip as int;
                let ghost ll = llen as int;
                let (first_len, first_off) = self.find_longer_match(
                    w,
                    &mut next_to_update,
                    ip,
                    MIN_MATCH_SIZE - 1,
                    matchlimit,
                    favor_dec_speed,
                );
                if first_len == 0 {
                    ip = ip + 1;
                    continue;
                }
                if first_len > SUFFICIENT_LEN {
                    let res = self.encode_sequence(
                        out,
                        w,
                        &mut ip,
                        &mut anchor,
                        first_len,
                        first_off,
                        Ghost(buf0),
                        Ghost(p0),
                        Ghost(prefix),
                    );
                    if let Err(e) = res {
                        return Err(e);
                    }
                    continue;
                }
                let mut last_match_pos = first_len as usize;
                initialize_literal_states(
                    &mut self.opt,
                    llen,
                    Ghost(base),
                    Ghost(w@),
                    Ghost(dict),
                    Ghost(matchlimit as int),
                );
                initialize_first_match_states(
                    &mut self.opt,
                    llen,
                    first_len as usize,
                    first_off as u16,
                    Ghost(base),
                    Ghost(w@),
                    Ghost(dict),
                    Ghost(matchlimit as int),
                );
                fill_trailing_literal_states(
                    &mut self.opt,
                    last_match_pos,
                    Ghost(base),
                    Ghost(ll),
                    Ghost(w@),
                    Ghost(dict),
                    Ghost(matchlimit as int),
                );
                let mut cur: usize = 1;
                let mut goto_encode = false;
                let mut imm_best_mlen: i32 = 0;
                let mut imm_best_off: i32 = 0;
                let mut imm_last_match_pos: usize = 0;
                while cur < last_match_pos
                    invariant_except_break
                        !goto_encode,
                    invariant
                        self.wf(),
                        self.opt@.len() == OPT_SIZE,
                        self.hashed_below(next_to_update),
                        BASE <= next_to_update <= base + cur + BASE,
                        n == w@.len(),
                        mflimit == n - MFLIMIT,
                        matchlimit == n - LAST_LITERALS,
                        w@.len() < 0x7000_0000,
                        0 <= favor_bias <= 1,
                        dict == Seq::<u8>::empty(),
                        dict + w@ == w@,
                        base == ip,
                        ll == ip - anchor,
                        parse_bounds(base, ll, w@),
                        1 <= cur <= last_match_pos,
                        MINMATCH <= last_match_pos < LZ4_OPT_NUM,
                        base + last_match_pos <= matchlimit,
                        states_ok(self.opt@, last_match_pos + TRAILING_LITERALS, base, ll, w@, dict, matchlimit as int),
                    ensures
                        goto_encode ==> cur < last_match_pos && MINMATCH <= imm_best_mlen && base + cur + imm_best_mlen
                            <= matchlimit && 0 < imm_best_off <= DISTANCE_MAX && imm_best_off <= base + cur && repeats(
                            w@,
                            base + cur,
                            imm_best_off as int,
                            imm_best_mlen as int,
                        ) && imm_last_match_pos == cur + 1 && next_to_update == base + cur + BASE,
                        !goto_encode ==> next_to_update <= base + last_match_pos + BASE,
                    decreases LZ4_OPT_NUM - cur,
                {
                    let cur_ptr = ip + cur;
                    if cur_ptr > mflimit {
                        break;
                    }
                    assert(state_ok(self.opt@[cur as int], cur as int, base, ll, w@, dict, matchlimit as int));
                    // skip test: this position can't improve on the path so far
                    if should_skip_optimal_search(&self.opt, cur, true) {
                        cur = cur + 1;
                        continue;
                    }
                    let (new_len, new_off) = self.find_longer_match(
                        w,
                        &mut next_to_update,
                        cur_ptr,
                        MIN_MATCH_SIZE - 1,
                        matchlimit,
                        favor_dec_speed,
                    );
                    if new_len == 0 {
                        cur = cur + 1;
                        continue;
                    }
                    if new_len > SUFFICIENT_LEN || new_len as usize + cur >= LZ4_OPT_NUM {
                        imm_best_mlen = new_len;
                        imm_best_off = new_off;
                        imm_last_match_pos = cur + 1;
                        goto_encode = true;
                        break;
                    }
                    update_literal_states_before_match(
                        &mut self.opt,
                        cur,
                        Ghost(last_match_pos + TRAILING_LITERALS),
                        Ghost(base),
                        Ghost(ll),
                        Ghost(w@),
                        Ghost(dict),
                        Ghost(matchlimit as int),
                    );
                    update_match_states_from_position(
                        &mut self.opt,
                        cur,
                        new_len as usize,
                        new_off as u16,
                        &mut last_match_pos,
                        favor_bias,
                        Ghost(base),
                        Ghost(ll),
                        Ghost(w@),
                        Ghost(dict),
                        Ghost(matchlimit as int),
                    );
                    fill_trailing_literal_states(
                        &mut self.opt,
                        last_match_pos,
                        Ghost(base),
                        Ghost(ll),
                        Ghost(w@),
                        Ghost(dict),
                        Ghost(matchlimit as int),
                    );
                    cur = cur + 1;
                }
                // `cur_back` is where the reverse traversal starts. For an immediate encode it is the
                // loop position `cur` (the match is recorded there); otherwise it is the start of the
                // final match, `last_match_pos - best_mlen`.
                let best_mlen: i64;
                let best_off: i64;
                let cur_back: usize;
                if goto_encode {
                    best_mlen = imm_best_mlen as i64;
                    best_off = imm_best_off as i64;
                    last_match_pos = imm_last_match_pos;
                    cur_back = cur;
                } else {
                    let last_state = self.opt[last_match_pos];
                    assert(state_ok(self.opt@[last_match_pos as int], last_match_pos as int, base, ll, w@, dict, matchlimit as int));
                    best_mlen = last_state.match_len;
                    best_off = last_state.match_offset;
                    cur_back = last_match_pos - best_mlen as usize;
                }
                // reverse traversal to recover the shortest path
                let path = reverse_optimal_parse_path(
                    &mut self.opt,
                    cur_back,
                    best_mlen,
                    best_off,
                    Ghost(base),
                    Ghost(ll),
                    Ghost(w@),
                    Ghost(dict),
                    Ghost(matchlimit as int),
                );
                let res = self.encode_optimal_path(
                    out,
                    w,
                    &mut ip,
                    &mut anchor,
                    last_match_pos,
                    path,
                    Ghost(matchlimit as int),
                    Ghost(buf0),
                    Ghost(p0),
                    Ghost(prefix),
                );
                if let Err(e) = res {
                    return Err(e);
                }
            }
        }
        let ghost before = out.output@.subrange(p0, out.pos as int);
        proof {
            if n <= MFLIMIT {
                assert(before =~= Seq::<u8>::empty());
                assert(Seq::<u8>::empty() + last_sequence_bytes(w@.skip(prefix)) =~= last_sequence_bytes(w@.skip(prefix)));
            }
        }
        let res = self.encode_last_literals(out, w, anchor, n, start_op, Ghost(buf0), Ghost(prefix));
        match res {
            Ok(()) => Ok(out.pos - start_op),
            Err(e) => Err(e),
        }
    }
}

} // verus!
