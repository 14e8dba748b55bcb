//! Optimal parse and block emission.
//!
//! Three passes over the per-position longest matches produced by [`super::matchfinder`]:
//! 1. [`optimize_matches`] — a backward dynamic program choosing, for every position, whether to
//!    emit a literal or a match (and at which length) to minimise the encoded size.
//! 2. [`optimize_command_count`] — a forward pass that turns tiny matches back into literals and
//!    joins adjacent equal-offset matches when it's free, reducing the command count (decompression
//!    speed) without growing the output.
//! 3. [`write_block`] — emits a standard LZ4 block, ending on a literals-only token.
//!
//! The passes only ever shorten, drop or join the matches they are given, so every match stays
//! inside the window; [`write_block`] compares each match against the window before it emits it,
//! so the block decodes back to the window whatever the match finder reported.
use vstd::prelude::*;
use crate::block::format::{last_sequence_bytes, sequence_bytes};
use crate::block::compress::{
    emit_last_literals_checked, emit_sequence_checked, encoder_progress, ext_len, lemma_encoder_progress_start,
    repeats,
};
use crate::block::{CompressError, LAST_LITERALS, MAX_DISTANCE, MFLIMIT, MINMATCH};
use crate::sink::SliceSink;
use super::{
    match_in_window, varlen_extra_bytes, window_compressed, Favor, Match, LITERALS_RUN_LEN, MATCH_RUN_LEN,
    MIN_MATCH_SIZE,
};

verus! {

/// Matches at least this long skip the per-sub-length cost search (kept whole) for speed.
pub const LEAVE_ALONE_MATCH_SIZE: i32 = 1100;

/// Cost (in bits) added when switching between literal and match runs, to break ties toward fewer
/// mode switches.
pub const MODESWITCH_PENALTY: i64 = 1;

/// Extra *bits* to encode a literal run / match-code of `length` in the cost model — the byte cost
/// (shared [`super::varlen_extra_bytes`]) scaled to bits.
fn varlen_bits(length: i32) -> (r: i32)
    requires
        0 <= length,
    ensures
        r == 8 * ext_len(length as nat),
        0 <= r <= 8 * (length / 255 + 1),
{
    let b = varlen_extra_bytes(length as usize);
    assert(b <= length / 255 + 1);
    (b as i32) * 8
}

/// The cost of a match of `k` bytes at `i`, followed by the parse from `i + k` on.
fn match_cost(cost: &Vec<i64>, matches: &Vec<Match>, i: usize, k: i32, end: usize) -> (r: i64)
    requires
        MIN_MATCH_SIZE <= k,
        i + k < end <= matches@.len(),
        end <= cost@.len(),
        end < i32::MAX,
        0 <= cost@[i + k] <= 17 * (end - i - k),
    ensures
        0 <= r <= 24 + 8 * (k / 255 + 1) + 17 * (end - i - k) + 1,
        r == 24 + (if k >= MATCH_RUN_LEN + MIN_MATCH_SIZE { 8 * ext_len((k - MIN_MATCH_SIZE) as nat) } else { 0 })
            + cost@[i + k] + (if matches@[i + k].length >= MIN_MATCH_SIZE { MODESWITCH_PENALTY } else { 0 }),
{
    let extra: i64 = if k >= MATCH_RUN_LEN + MIN_MATCH_SIZE {
        varlen_bits(k - MIN_MATCH_SIZE) as i64
    } else {
        0
    };
    let switch: i64 = if matches[i + k as usize].length >= MIN_MATCH_SIZE {
        MODESWITCH_PENALTY
    } else {
        0
    };
    8 + 16 + extra + cost[i + k as usize] + switch
}

/// The first position from `j` on, before the last position `end - 1`, where `m` holds a
/// match; `end` if there is none.
pub open spec fn next_match(m: Seq<Match>, j: int, end: int) -> int
    decreases end - j,
{
    if j >= end - 1 {
        end
    } else if m[j].length >= MIN_MATCH_SIZE {
        j
    } else {
        next_match(m, j + 1, end)
    }
}

/// The price model's score bonus for a match: small when favouring ratio, larger when favouring
/// decompression speed.
pub open spec fn favor_score(favor: Favor) -> int {
    match favor {
        Favor::Ratio => 1,
        Favor::DecompressionSpeed => 5,
    }
}

/// The price, in bits, of a match of `k` bytes at `i` followed by the parse priced in `c` from
/// `i + k` on, with the penalty for switching to another match right after it.
pub open spec fn match_price(c: Seq<i64>, m: Seq<Match>, i: int, k: int) -> int {
    24 + (if k >= MATCH_RUN_LEN + MIN_MATCH_SIZE {
        8 * ext_len((k - MIN_MATCH_SIZE) as nat)
    } else {
        0
    }) + c[i + k] + (if m[i + k].length >= MIN_MATCH_SIZE {
        MODESWITCH_PENALTY as int
    } else {
        0
    })
}

/// The price and score of a literal at `i` followed by the parse from `i + 1` on (priced in `c`
/// and scored in `sc`), with length 0: a literal run that reaches a length whose encoding needs
/// another byte costs that byte, and a switch to a match right after it costs the penalty.
pub open spec fn literal_choice(c: Seq<i64>, sc: Seq<i64>, m: Seq<Match>, i: int, end: int) -> (int, int, int) {
    let run = next_match(m, i + 1, end) - i;
    (
        8 + c[i + 1] + (if run >= LITERALS_RUN_LEN && (run - LITERALS_RUN_LEN) % 255 == 0 {
            8int
        } else {
            0
        }) + (if m[i + 1].length >= MIN_MATCH_SIZE {
            MODESWITCH_PENALTY as int
        } else {
            0
        }),
        1 + sc[i + 1],
        0,
    )
}

/// `best` (price, score, length), or the match of `k` bytes at `i` when it is cheaper, or as
/// cheap with a smaller score.
pub open spec fn try_length(c: Seq<i64>, sc: Seq<i64>, m: Seq<Match>, i: int, k: int, extra: int, best: (int, int, int)) -> (int, int, int) {
    let price = match_price(c, m, i, k);
    let score = extra + sc[i + k];
    if best.0 > price || (best.0 == price && best.1 > score) {
        (price, score, k)
    } else {
        best
    }
}

/// `best` tried against the matches of `k`, `k - 1`, ..., `MIN_MATCH_SIZE` bytes at `i`, in
/// that order.
pub open spec fn best_length(c: Seq<i64>, sc: Seq<i64>, m: Seq<Match>, i: int, k: int, extra: int, best: (int, int, int)) -> (int, int, int)
    decreases k,
{
    if k < MIN_MATCH_SIZE {
        best
    } else {
        best_length(c, sc, m, i, k - 1, extra, try_length(c, sc, m, i, k, extra, best))
    }
}

/// The longest match tried for a match found with `len` bytes: favouring decompression speed,
/// a length just past what the token holds is cut back to what it holds.
pub open spec fn tried_length(favor: Favor, len: int) -> int {
    if favor is DecompressionSpeed && MATCH_RUN_LEN + MIN_MATCH_SIZE - 1 < len <= 2 * (MATCH_RUN_LEN + MIN_MATCH_SIZE - 1) {
        MATCH_RUN_LEN + MIN_MATCH_SIZE - 1
    } else {
        len
    }
}

/// A match found at `i` of a window of `end` bytes leaves room for the last literals: it
/// starts at least [`LAST_LITERALS`] bytes before the end, and a very long one, which is tried
/// whole, at least [`MIN_MATCH_SIZE`] more.
pub open spec fn fits_parse(found: Match, i: int, end: int) -> bool {
    found.length >= MIN_MATCH_SIZE ==> {
        &&& i + LAST_LITERALS <= end
        &&& found.length >= LEAVE_ALONE_MATCH_SIZE ==> i + MIN_MATCH_SIZE + LAST_LITERALS <= end
    }
}

/// The parse's choice at `i` of a window of `end` bytes, given the parse after `i` (prices in
/// `c`, scores in `sc`, choices in `m`) and the match `found` there: price, score, and the
/// length of the chosen match (0 for a literal). A literal is the first option; a found match,
/// capped so that the last literals stay literals, is tried whole when it is very long, and
/// else at each length from the longest tried down.
pub open spec fn parse_choice(c: Seq<i64>, sc: Seq<i64>, m: Seq<Match>, found: Match, i: int, end: int, favor: Favor) -> (int, int, int) {
    let lit = literal_choice(c, sc, m, i, end);
    if found.length < MIN_MATCH_SIZE {
        lit
    } else {
        let len = if i + found.length > end - LAST_LITERALS {
            end - LAST_LITERALS - i
        } else {
            found.length as int
        };
        if found.length >= LEAVE_ALONE_MATCH_SIZE {
            try_length(c, sc, m, i, len, favor_score(favor), lit)
        } else {
            best_length(c, sc, m, i, tried_length(favor, len), favor_score(favor), lit)
        }
    }
}

/// The match recorded for a choice of `len` bytes at the offset of `found`.
pub open spec fn chosen_match(found: Match, len: int) -> Match {
    if len >= MIN_MATCH_SIZE {
        Match { length: len as i32, offset: found.offset }
    } else {
        Match { length: 0, offset: 0 }
    }
}

/// Trying lengths from `k` down never gives a price above the best so far, nor above the price
/// of any length tried.
proof fn lemma_best_length_cheapest(
    c: Seq<i64>,
    sc: Seq<i64>,
    m: Seq<Match>,
    i: int,
    k: int,
    extra: int,
    best: (int, int, int),
    j: int,
)
    ensures
        best_length(c, sc, m, i, k, extra, best).0 <= best.0,
        MIN_MATCH_SIZE <= j <= k ==> best_length(c, sc, m, i, k, extra, best).0 <= match_price(c, m, i, j),
    decreases k,
{
    if k >= MIN_MATCH_SIZE {
        lemma_best_length_cheapest(c, sc, m, i, k - 1, extra, try_length(c, sc, m, i, k, extra, best), j);
    }
}

/// The parse's choice at `i` is the cheapest of the options it weighs: its price is no more than
/// that of a literal, nor than that of the found match's offset at any length it tries.
pub proof fn lemma_parse_choice_cheapest(
    c: Seq<i64>,
    sc: Seq<i64>,
    m: Seq<Match>,
    found: Match,
    i: int,
    end: int,
    favor: Favor,
    k: int,
)
    ensures
        parse_choice(c, sc, m, found, i, end, favor).0 <= literal_choice(c, sc, m, i, end).0,
        MIN_MATCH_SIZE <= found.length < LEAVE_ALONE_MATCH_SIZE && i + found.length <= end - LAST_LITERALS
            && MIN_MATCH_SIZE <= k <= tried_length(favor, found.length as int) ==> parse_choice(
            c,
            sc,
            m,
            found,
            i,
            end,
            favor,
        ).0 <= match_price(c, m, i, k),
        LEAVE_ALONE_MATCH_SIZE <= found.length && i + found.length <= end - LAST_LITERALS ==> parse_choice(
            c,
            sc,
            m,
            found,
            i,
            end,
            favor,
        ).0 <= match_price(c, m, i, found.length as int),
{
    let lit = literal_choice(c, sc, m, i, end);
    if MIN_MATCH_SIZE <= found.length < LEAVE_ALONE_MATCH_SIZE {
        let len = if i + found.length > end - LAST_LITERALS {
            end - LAST_LITERALS - i
        } else {
            found.length as int
        };
        lemma_best_length_cheapest(c, sc, m, i, tried_length(favor, len), favor_score(favor), lit, k);
    }
}

/// The first match from `j` on depends only on the entries from `j` on.
proof fn lemma_next_match_frame(m1: Seq<Match>, m2: Seq<Match>, j: int, end: int)
    requires
        forall|q: int| j <= q < end ==> #[trigger] m1[q] == m2[q],
    ensures
        next_match(m1, j, end) == next_match(m2, j, end),
    decreases end - j,
{
    if j < end {
        lemma_next_match_frame(m1, m2, j + 1, end);
    }
}

/// The best length at `i` depends only on the entries after `i`.
proof fn lemma_best_length_frame(
    c1: Seq<i64>,
    sc1: Seq<i64>,
    m1: Seq<Match>,
    c2: Seq<i64>,
    sc2: Seq<i64>,
    m2: Seq<Match>,
    i: int,
    k: int,
    extra: int,
    best: (int, int, int),
)
    requires
        forall|q: int| i < q <= i + k ==> #[trigger] c1[q] == c2[q],
        forall|q: int| i < q <= i + k ==> #[trigger] sc1[q] == sc2[q],
        forall|q: int| i < q <= i + k ==> #[trigger] m1[q] == m2[q],
    ensures
        best_length(c1, sc1, m1, i, k, extra, best) == best_length(c2, sc2, m2, i, k, extra, best),
    decreases k,
{
    if k >= MIN_MATCH_SIZE {
        assert(c1[i + k] == c2[i + k] && sc1[i + k] == sc2[i + k] && m1[i + k] == m2[i + k]);
        lemma_best_length_frame(c1, sc1, m1, c2, sc2, m2, i, k - 1, extra, try_length(c1, sc1, m1, i, k, extra, best));
    }
}

/// The parse's choice at `i` depends only on the parse after `i`.
proof fn lemma_parse_choice_frame(
    c1: Seq<i64>,
    sc1: Seq<i64>,
    m1: Seq<Match>,
    c2: Seq<i64>,
    sc2: Seq<i64>,
    m2: Seq<Match>,
    found: Match,
    i: int,
    end: int,
    favor: Favor,
)
    requires
        forall|q: int| i < q < end ==> #[trigger] c1[q] == c2[q],
        forall|q: int| i < q < end ==> #[trigger] sc1[q] == sc2[q],
        forall|q: int| i < q < end ==> #[trigger] m1[q] == m2[q],
        fits_parse(found, i, end),
        i + 1 < end,
    ensures
        parse_choice(c1, sc1, m1, found, i, end, favor) == parse_choice(c2, sc2, m2, found, i, end, favor),
{
    lemma_next_match_frame(m1, m2, i + 1, end);
    assert(c1[i + 1] == c2[i + 1] && sc1[i + 1] == sc2[i + 1] && m1[i + 1] == m2[i + 1]);
    if found.length >= MIN_MATCH_SIZE {
        let len = if i + found.length > end - LAST_LITERALS {
            end - LAST_LITERALS - i
        } else {
            found.length as int
        };
        if found.length >= LEAVE_ALONE_MATCH_SIZE {
            assert(c1[i + len] == c2[i + len] && sc1[i + len] == sc2[i + len] && m1[i + len] == m2[i + len]);
        }
        let lit = literal_choice(c1, sc1, m1, i, end);
        let f = favor_score(favor);
        let t = tried_length(favor, len);
        lemma_best_length_frame(c1, sc1, m1, c2, sc2, m2, i, t, f, lit);
    }
}

/// Backward optimal parse. Rewrites `matches[start..end]` in place so that `matches[i].length` is
/// either `0` (emit a literal at `i`) or the chosen match length (with `matches[i].offset` the
/// offset to use). `cost`/`score` are scratch arrays of length `end`.
///
/// Each choice is the one the price model makes given the choices after it: see
/// [`parse_choice`]. A chosen match is the match found at that position, or a shorter one at the
/// same offset.
#[verifier::rlimit(60)]
#[verifier::spinoff_prover]
pub fn optimize_matches(
    start: usize,
    end: usize,
    matches: &mut Vec<Match>,
    cost: &mut Vec<i64>,
    score: &mut Vec<i64>,
    favor: Favor,
)
    requires
        start < end < i32::MAX,
        old(matches)@.len() >= end,
        old(cost)@.len() >= end,
        old(score)@.len() >= end,
        forall|i: int| start <= i < end - 1 ==> #[trigger] fits_parse(old(matches)@[i], i, end as int),
    ensures
        final(matches)@.len() == old(matches)@.len(),
        final(cost)@.len() == old(cost)@.len(),
        final(score)@.len() == old(score)@.len(),
        forall|i: int|
            start <= i < end && match_in_window(old(matches)@[i], i, end as int) ==> #[trigger] match_in_window(
                final(matches)@[i],
                i,
                end as int,
            ),
        forall|i: int|
            start <= i < end - 1 ==> {
                let m = #[trigger] final(matches)@[i];
                let found = old(matches)@[i];
                if m.length >= MIN_MATCH_SIZE {
                    m.offset == found.offset && m.length <= found.length
                } else {
                    m.length == 0 && m.offset == 0
                }
            },
        forall|i: int|
            0 <= i < start || end - 1 <= i < old(matches)@.len() ==> #[trigger] final(matches)@[i] == old(matches)@[i],
        final(cost)@[end - 1] == 8,
        final(score)@[end - 1] == 0,
        forall|i: int|
            start <= i < end - 1 ==> {
                let (price, sco, len) = #[trigger] parse_choice(
                    final(cost)@,
                    final(score)@,
                    final(matches)@,
                    old(matches)@[i],
                    i,
                    end as int,
                    favor,
                );
                &&& final(cost)@[i] == price
                &&& final(score)@[i] == sco
                &&& final(matches)@[i] == chosen_match(old(matches)@[i], len)
            },
{
    let extra_match_score: i64 = match favor {
        Favor::Ratio => 1,
        Favor::DecompressionSpeed => 5,
    };
    cost.set(end - 1, 8);
    score.set(end - 1, 0);
    let mut last_literals_offset = end;

    // i from end-2 down to start (inclusive).
    let mut i: usize = end - 1;
    while i > start
        invariant
            start <= i <= end - 1,
            end < i32::MAX,
            matches@.len() == old(matches)@.len() >= end,
            cost@.len() == old(cost)@.len() >= end,
            score@.len() == old(score)@.len() >= end,
            i <= last_literals_offset <= end,
            last_literals_offset == next_match(matches@, i as int, end as int),
            extra_match_score == favor_score(favor),
            cost@[end - 1] == 8,
            score@[end - 1] == 0,
            forall|j: int| i <= j < end ==> 0 <= #[trigger] cost@[j] <= 17 * (end - j),
            forall|j: int| i <= j < end ==> 0 <= #[trigger] score@[j] <= 5 * (end - j),
            forall|j: int|
                start <= j < end && match_in_window(old(matches)@[j], j, end as int) ==> #[trigger] match_in_window(
                    matches@[j],
                    j,
                    end as int,
                ),
            forall|j: int| start <= j < end - 1 ==> #[trigger] fits_parse(old(matches)@[j], j, end as int),
            forall|j: int|
                i <= j < end - 1 ==> {
                    let m = #[trigger] matches@[j];
                    let found = old(matches)@[j];
                    if m.length >= MIN_MATCH_SIZE {
                        m.offset == found.offset && m.length <= found.length
                    } else {
                        m.length == 0 && m.offset == 0
                    }
                },
            forall|j: int|
                i <= j < end - 1 ==> {
                    let (price, sco, len) = #[trigger] parse_choice(
                        cost@,
                        score@,
                        matches@,
                        old(matches)@[j],
                        j,
                        end as int,
                        favor,
                    );
                    &&& cost@[j] == price
                    &&& score@[j] == sco
                    &&& matches@[j] == chosen_match(old(matches)@[j], len)
                },
            forall|j: int| 0 <= j < i || end - 1 <= j < matches@.len() ==> #[trigger] matches@[j] == old(matches)@[j],
        decreases i,
    {
        i = i - 1;
        let ghost c0 = cost@;
        let ghost s0 = score@;
        let ghost m0 = matches@;
        let ghost found = old(matches)@[i as int];
        assert(m0[i as int] == found);
        let literals_len = (last_literals_offset - i) as i32;
        let mut best_cost: i64 = 8 + cost[i + 1];
        let mut best_score: i64 = 1 + score[i + 1];
        if literals_len >= LITERALS_RUN_LEN && (literals_len - LITERALS_RUN_LEN) % 255 == 0 {
            // The literal run just crossed a variable-length encoding boundary.
            best_cost = best_cost + 8;
        }
        if matches[i + 1].length >= MIN_MATCH_SIZE {
            best_cost = best_cost + MODESWITCH_PENALTY;
        }
        let mut best_match_len: i32 = 0;
        let mut best_match_offset: u32 = 0;
        let ghost lit = literal_choice(c0, s0, m0, i as int, end as int);
        assert(lit == (best_cost as int, best_score as int, 0int));

        let cur_match = matches[i];
        assert(fits_parse(found, i as int, end as int));
        if cur_match.length >= MIN_MATCH_SIZE {
            let offset = cur_match.offset;
            // Cap the match so the last LAST_LITERALS bytes stay literals.
            let mut match_len = cur_match.length;
            if i + match_len as usize > end - LAST_LITERALS {
                match_len = (end - LAST_LITERALS - i) as i32;
            }
            let ghost capped = match_len as int;
            if cur_match.length >= LEAVE_ALONE_MATCH_SIZE {
                let cur_cost = match_cost(cost, matches, i, match_len, end);
                let cur_score = extra_match_score + score[i + match_len as usize];
                if best_cost > cur_cost || (best_cost == cur_cost && best_score > cur_score) {
                    best_cost = cur_cost;
                    best_score = cur_score;
                    best_match_len = match_len;
                    best_match_offset = offset;
                }
            } else {
                if let Favor::DecompressionSpeed = favor {
                    // If the match is just above the fast-path threshold, shorten it back to the
                    // threshold, trading a little ratio for decompression speed.
                    if match_len > (MATCH_RUN_LEN + MIN_MATCH_SIZE - 1) && match_len <= 2 * (MATCH_RUN_LEN
                        + MIN_MATCH_SIZE - 1) {
                        match_len = MATCH_RUN_LEN + MIN_MATCH_SIZE - 1;
                    }
                }
                assert(match_len == tried_length(favor, capped));
                let mut k = match_len;
                while k >= MIN_MATCH_SIZE
                    invariant
                        k <= match_len <= cur_match.length,
                        i + match_len <= end - LAST_LITERALS,
                        end < i32::MAX,
                        matches@ == m0,
                        cost@ == c0,
                        score@ == s0,
                        m0.len() >= end,
                        c0.len() >= end,
                        s0.len() >= end,
                        extra_match_score == favor_score(favor),
                        forall|j: int| i < j < end ==> 0 <= #[trigger] c0[j] <= 17 * (end - j),
                        forall|j: int| i < j < end ==> 0 <= #[trigger] s0[j] <= 5 * (end - j),
                        0 <= best_cost <= 17 * (end - i),
                        0 <= best_score <= 5 * (end - i),
                        best_match_len == 0 ==> best_match_offset == 0,
                        best_match_len != 0 ==> MIN_MATCH_SIZE <= best_match_len <= match_len
                            && best_match_offset == offset,
                        best_length(c0, s0, m0, i as int, match_len as int, favor_score(favor), lit) == best_length(
                            c0,
                            s0,
                            m0,
                            i as int,
                            k as int,
                            favor_score(favor),
                            (best_cost as int, best_score as int, best_match_len as int),
                        ),
                    decreases k,
                {
                    let cur_cost = match_cost(cost, matches, i, k, end);
                    let cur_score = extra_match_score + score[i + k as usize];
                    if best_cost > cur_cost || (best_cost == cur_cost && best_score > cur_score) {
                        best_cost = cur_cost;
                        best_score = cur_score;
                        best_match_len = k;
                        best_match_offset = offset;
                    }
                    k = k - 1;
                }
            }
        }
        assert(parse_choice(c0, s0, m0, found, i as int, end as int, favor) == (
            best_cost as int,
            best_score as int,
            best_match_len as int,
        ));
        if best_match_len >= MIN_MATCH_SIZE {
            last_literals_offset = i;
        }
        cost.set(i, best_cost);
        score.set(i, best_score);
        matches.set(i, Match { length: best_match_len, offset: best_match_offset });
        proof {
            assert(matches@[i as int] == chosen_match(found, best_match_len as int));
            lemma_next_match_frame(m0, matches@, i + 1, end as int);
            assert forall|j: int| i <= j < end - 1 implies {
                let (price, sco, len) = #[trigger] parse_choice(
                    cost@,
                    score@,
                    matches@,
                    old(matches)@[j],
                    j,
                    end as int,
                    favor,
                );
                &&& cost@[j] == price
                &&& score@[j] == sco
                &&& matches@[j] == chosen_match(old(matches)@[j], len)
            } by {
                assert(fits_parse(old(matches)@[j], j, end as int));
                if j > i {
                    lemma_parse_choice_frame(c0, s0, m0, cost@, score@, matches@, old(matches)@[j], j, end as int, favor);
                } else {
                    lemma_parse_choice_frame(c0, s0, m0, cost@, score@, matches@, found, j, end as int, favor);
                }
            }
        }
    }
}

/// The number of literal positions from `q` on, up to the next match or `end`.
pub open spec fn lits_after(m: Seq<Match>, q: int, end: int) -> int
    decreases end - q,
{
    if q >= end || m[q].length >= MIN_MATCH_SIZE {
        0
    } else {
        1 + lits_after(m, q + 1, end)
    }
}

/// The match at `i` turns into literals: it is at most 19 bytes, ends before `end`, and encoding
/// it as a command (after `nl` pending literals) costs at least as much as its bytes as
/// literals, counting how the literal run it joins grows.
pub open spec fn reduces(m: Seq<Match>, i: int, nl: int, end: int) -> bool {
    let len = m[i].length as int;
    &&& len <= 19
    &&& i + len < end
    &&& {
        let command_size = 8 + 8 * ext_len(nl as nat) + 16 + 8 * ext_len((len - MIN_MATCH_SIZE) as nat);
        if m[i + len].length >= MIN_MATCH_SIZE {
            command_size >= len * 8 + 8 * ext_len((nl + len) as nat)
        } else {
            let next = 1 + lits_after(m, i + len + 1, end);
            command_size >= len * 8 + 8 * ext_len((nl + next + len) as nat) - 8 * ext_len(next as nat)
        }
    }
}

/// `m` with the `len` entries from `i` turned into literals (length 0, offsets kept).
pub open spec fn literalized(m: Seq<Match>, i: int, len: int) -> Seq<Match> {
    Seq::new(m.len(), |q: int| if i <= q < i + len { Match { length: 0, offset: m[q].offset } } else { m[q] })
}

/// The match at `i` can absorb the match right after it: both are long enough together, the
/// following one lies inside the window, and its bytes are those at the first match's offset.
pub open spec fn joinable(window: Seq<u8>, end: int, m: Seq<Match>, i: int) -> bool {
    let cur = m[i];
    let base = i + cur.length;
    let next = m[base];
    &&& base < end
    &&& cur.offset > 0
    &&& cur.length >= 2
    &&& next.offset > 0
    &&& next.length >= 2
    &&& cur.length + next.length >= LEAVE_ALONE_MATCH_SIZE
    &&& cur.length + next.length <= 65535
    &&& base >= cur.offset
    &&& base >= next.offset
    &&& base + next.length <= end
    &&& next.length >= MIN_MATCH_SIZE
    &&& window.subrange(base - cur.offset, base - cur.offset + next.length) == window.subrange(
        base - next.offset,
        base - next.offset + next.length,
    )
}

/// `m` after the match at `i` absorbs the matches after it for as long as it can; an absorbed
/// match is marked with length -1.
pub open spec fn joined(window: Seq<u8>, end: int, m: Seq<Match>, i: int) -> Seq<Match>
    decreases end - m[i].length,
{
    if joinable(window, end, m, i) && i + m[i].length + m[i + m[i].length].length <= end && i >= 0 && i + m[i].length
        < m.len() {
        let base = i + m[i].length;
        proof {
            assert(base != i);
            let m1 = m.update(i, Match { length: (m[i].length + m[base].length) as i32, offset: m[i].offset }).update(
                base,
                Match { length: -1i32, offset: 0u32 },
            );
            assert(m1[i].length == m[i].length + m[base].length);
        }
        joined(
            window,
            end,
            m.update(i, Match { length: (m[i].length + m[base].length) as i32, offset: m[i].offset }).update(
                base,
                Match { length: -1i32, offset: 0u32 },
            ),
            i,
        )
    } else {
        m
    }
}

/// The pass from position `i` on, with `nl` literals pending.
pub open spec fn command_count_pass(window: Seq<u8>, end: int, m: Seq<Match>, i: int, nl: int) -> Seq<Match>
    decreases end - i,
{
    if i >= end || i < 0 {
        m
    } else if m[i].length >= MIN_MATCH_SIZE {
        let len = m[i].length as int;
        if reduces(m, i, nl, end) {
            command_count_pass(window, end, literalized(m, i, len), i + len, nl + len)
        } else {
            let m2 = joined(window, end, m, i);
            if m2[i].length <= 0 || i + m2[i].length > end {
                m2
            } else {
                command_count_pass(window, end, m2, i + m2[i].length, 0)
            }
        }
    } else {
        command_count_pass(window, end, m, i + 1, nl + 1)
    }
}

/// Minimise the number of commands without growing the output: a short match that costs at
/// least as much as its bytes as literals becomes literals, and a long match followed by another
/// that reproduces the same bytes at its own offset absorbs it.
pub fn optimize_command_count(window: &[u8], start: usize, end: usize, matches: &mut Vec<Match>)
    requires
        start <= end == window@.len() < i32::MAX,
        old(matches)@.len() == end,
        forall|i: int| start <= i < end ==> #[trigger] match_in_window(old(matches)@[i], i, end as int),
    ensures
        final(matches)@.len() == end,
        forall|i: int| start <= i < end ==> #[trigger] match_in_window(final(matches)@[i], i, end as int),
        forall|i: int| 0 <= i < start ==> #[trigger] final(matches)@[i] == old(matches)@[i],
        final(matches)@ == command_count_pass(window@, end as int, old(matches)@, start as int, 0),
{
    let mut num_literals: i32 = 0;
    let mut i = start;
    let ghost target = command_count_pass(window@, end as int, old(matches)@, start as int, 0);
    while i < end
        invariant
            command_count_pass(window@, end as int, matches@, i as int, num_literals as int) == target,
            start <= i <= end == window@.len() < i32::MAX,
            0 <= num_literals <= i - start,
            matches@.len() == end,
            forall|j: int| start <= j < end ==> #[trigger] match_in_window(matches@[j], j, end as int),
            forall|j: int| 0 <= j < start ==> #[trigger] matches@[j] == old(matches)@[j],
        decreases end - i,
    {
        let match_len = matches[i].length;
        let ghost m0 = matches@;
        let ghost nl0 = num_literals as int;
        let ghost i0 = i as int;
        if match_len >= MIN_MATCH_SIZE {
            assert(match_in_window(matches@[i as int], i as int, end as int));
            let mut reduce = false;
            if match_len <= 19 && i + (match_len as usize) < end {
                let encoded = match_len - MIN_MATCH_SIZE;
                let command_size = 8 + varlen_bits(num_literals) + 16 + varlen_bits(encoded);
                if matches[i + match_len as usize].length >= MIN_MATCH_SIZE {
                    // This match is followed by another match (no literals between). Re-encoding it
                    // as literals can't grow the output and removes a command.
                    if command_size >= (match_len * 8) + varlen_bits(num_literals + match_len) {
                        reduce = true;
                    }
                } else {
                    // This match is followed by some literals and then another match (or the end).
                    let mut cur_index = i + match_len as usize;
                    let mut next_num_literals: i32 = 0;
                    loop
                        invariant_except_break
                            cur_index < end,
                            1 + lits_after(matches@, i + match_len + 1, end as int) == next_num_literals + 1 + lits_after(
                                matches@,
                                cur_index + 1,
                                end as int,
                            ),
                        invariant
                            0 <= match_len,
                            i + match_len <= cur_index <= end,
                            next_num_literals == cur_index - i - match_len,
                            matches@.len() == end,
                            end < i32::MAX,
                        ensures
                            next_num_literals == 1 + lits_after(matches@, i + match_len + 1, end as int),
                        decreases end - cur_index,
                    {
                        cur_index = cur_index + 1;
                        next_num_literals = next_num_literals + 1;
                        if !(cur_index < end && matches[cur_index].length < MIN_MATCH_SIZE) {
                            break;
                        }
                    }
                    if command_size >= (match_len * 8) + varlen_bits(num_literals + next_num_literals + match_len)
                        - varlen_bits(next_num_literals) {
                        reduce = true;
                    }
                }
            }
            assert(reduce == reduces(m0, i as int, nl0, end as int));
            if reduce {
                let mut j: usize = 0;
                while j < match_len as usize
                    invariant
                        forall|q: int| 0 <= q < end ==> #[trigger] matches@[q] == if i <= q < i + j {
                            Match { length: 0, offset: m0[q].offset }
                        } else {
                            m0[q]
                        },
                        m0.len() == end,
                        start <= i,
                        0 <= j <= match_len,
                        i + match_len <= end,
                        matches@.len() == end,
                        forall|q: int| start <= q < end ==> #[trigger] match_in_window(matches@[q], q, end as int),
                        forall|q: int| 0 <= q < start ==> #[trigger] matches@[q] == old(matches)@[q],
                    decreases match_len - j,
                {
                    let m = matches[i + j];
                    matches.set(i + j, Match { length: 0, offset: m.offset });
                    j = j + 1;
                }
                assert(matches@ =~= literalized(m0, i as int, match_len as int));
                num_literals = num_literals + match_len;
                i = i + match_len as usize;
                assert(command_count_pass(window@, end as int, m0, i0, nl0) == command_count_pass(
                    window@,
                    end as int,
                    matches@,
                    i as int,
                    num_literals as int,
                ));
            } else {
                // Try to join this match with the following one if they reproduce the same bytes.
                let ghost joined_target = joined(window@, end as int, m0, i as int);
                loop
                    invariant
                        joined(window@, end as int, matches@, i as int) == joined_target,
                        start <= i < end == window@.len() < i32::MAX,
                        matches@.len() == end,
                        matches@[i as int].length >= MIN_MATCH_SIZE,
                        forall|q: int| start <= q < end ==> #[trigger] match_in_window(matches@[q], q, end as int),
                        forall|q: int| 0 <= q < start ==> #[trigger] matches@[q] == old(matches)@[q],
                    ensures
                        matches@ == joined_target,
                    decreases end - matches@[i as int].length,
                {
                    let cur = matches[i];
                    assert(match_in_window(matches@[i as int], i as int, end as int));
                    let base = i + cur.length as usize;
                    let next = matches[base];
                    assert(match_in_window(matches@[base as int], base as int, end as int));
                    if base < end && cur.offset > 0 && cur.length >= 2 && next.offset > 0 && next.length >= 2
                        && (cur.length + next.length) >= LEAVE_ALONE_MATCH_SIZE && (cur.length + next.length)
                        <= 65535 && base >= cur.offset as usize && base >= next.offset as usize && base
                        + next.length as usize <= end && next.length >= MIN_MATCH_SIZE {
                        assert(match_in_window(matches@[base as int], base as int, end as int));
                        let a = base - cur.offset as usize;
                        let b = base - next.offset as usize;
                        let len = next.length as usize;
                        if same_bytes(window, a, b, len) {
                            assert(joinable(window@, end as int, matches@, i as int));
                            matches.set(i, Match { length: cur.length + next.length, offset: cur.offset });
                            matches.set(base, Match { length: -1, offset: 0 });
                            continue;
                        }
                    }
                    assert(!joinable(window@, end as int, matches@, i as int));
                    assert(matches@ == joined_target);
                    break;
                }
                num_literals = 0;
                let l = matches[i].length;
                assert(match_in_window(matches@[i as int], i as int, end as int));
                i = i + l as usize;
                assert(command_count_pass(window@, end as int, m0, i0, nl0) == command_count_pass(
                    window@,
                    end as int,
                    matches@,
                    i as int,
                    num_literals as int,
                ));
            }
        } else {
            num_literals = num_literals + 1;
            i = i + 1;
        }
    }
    assert(command_count_pass(window@, end as int, matches@, i as int, num_literals as int) == matches@);
}

/// Whether `window[a..a + len]` equals `window[b..b + len]`.
fn same_bytes(window: &[u8], a: usize, b: usize, len: usize) -> (r: bool)
    requires
        window@.len() < i32::MAX,
        a + len <= window@.len(),
        b + len <= window@.len(),
    ensures
        r == (window@.subrange(a as int, a + len) == window@.subrange(b as int, b + len)),
{
    let mut k: usize = 0;
    while k < len
        invariant
            k <= len,
            window@.len() < i32::MAX,
            a + len <= window@.len(),
            b + len <= window@.len(),
            forall|q: int| 0 <= q < k ==> #[trigger] window@[a + q] == window@[b + q],
        decreases len - k,
    {
        if window[a + k] != window[b + k] {
            assert(window@.subrange(a as int, a + len)[k as int] != window@.subrange(b as int, b + len)[k as int]);
            return false;
        }
        k = k + 1;
    }
    assert forall|q: int| 0 <= q < len implies #[trigger] window@.subrange(a as int, a + len)[q] == window@.subrange(
        b as int,
        b + len,
    )[q] by {
        assert(window@[a + q] == window@[b + q]);
    }
    assert(window@.subrange(a as int, a + len) =~= window@.subrange(b as int, b + len));
    true
}

/// Whether the `len` bytes of `window` at `i` repeat the bytes `offset` positions before them.
fn repeats_back(window: &[u8], i: usize, offset: usize, len: usize) -> (r: bool)
    requires
        window@.len() < i32::MAX,
        offset <= i,
        i + len <= window@.len(),
    ensures
        r == repeats(window@, i as int, offset as int, len as int),
{
    let mut k: usize = 0;
    while k < len
        invariant
            k <= len,
            window@.len() < i32::MAX,
            offset <= i,
            i + len <= window@.len(),
            forall|q: int| 0 <= q < k ==> #[trigger] window@[i + q] == window@[i + q - offset],
        decreases len - k,
    {
        if window[i + k] != window[i + k - offset] {
            return false;
        }
        k = k + 1;
    }
    true
}

/// The match at `i` is written as a match: it lies in the window, at most [`MAX_DISTANCE`]
/// back, and its bytes repeat those at its offset.
pub open spec fn emitted(window: Seq<u8>, m: Match, i: int) -> bool {
    &&& m.length >= MIN_MATCH_SIZE
    &&& 1 <= m.offset <= MAX_DISTANCE
    &&& m.offset <= i
    &&& i + m.length <= window.len()
    &&& repeats(window, i, m.offset as int, m.length as int)
}

/// The bytes of the block for the parse `m` of `window` from `i` on, with the literals from
/// `anchor` pending: one sequence per emitted match, with the literals before it, and then the
/// last literals.
pub open spec fn parse_bytes(window: Seq<u8>, m: Seq<Match>, anchor: int, i: int) -> Seq<u8>
    decreases window.len() - i,
{
    if i >= window.len() {
        last_sequence_bytes(window.skip(anchor))
    } else if emitted(window, m[i], i) {
        sequence_bytes(window.subrange(anchor, i), m[i].offset as nat, (m[i].length - MIN_MATCH_SIZE) as nat)
            + parse_bytes(window, m, i + m[i].length, i + m[i].length)
    } else {
        parse_bytes(window, m, anchor, i + 1)
    }
}

/// With no match written from `i` on, the rest of the block is the pending literals.
proof fn lemma_parse_bytes_literals(window: Seq<u8>, m: Seq<Match>, anchor: int, i: int)
    requires
        0 <= anchor <= i <= window.len(),
        forall|j: int| i <= j < window.len() ==> !#[trigger] emitted(window, m[j], j),
    ensures
        parse_bytes(window, m, anchor, i) == last_sequence_bytes(window.skip(anchor)),
    decreases window.len() - i,
{
    if i < window.len() {
        assert(!emitted(window, m[i], i));
        lemma_parse_bytes_literals(window, m, anchor, i + 1);
    }
}

/// Emit a standard LZ4 block for the optimally-parsed `matches[start..end]` into `out`.
/// Returns the number of bytes written: the bytes are the encoding of the parse (see
/// [`parse_bytes`]). A match that does not repeat earlier bytes of the window is written as
/// literals.
pub fn write_block(window: &[u8], start: usize, end: usize, matches: &Vec<Match>, out: &mut SliceSink) -> (r: Result<
    usize,
    CompressError,
>)
    requires
        old(out).wf(),
        start <= end == window@.len() < i32::MAX,
        matches@.len() == end,
        forall|i: int| start <= i < end ==> #[trigger] match_in_window(matches@[i], i, end as int),
    ensures
        final(out).wf(),
        final(final(out).output)@ == final(old(out).output)@,
        window_compressed(
            old(out).output@,
            old(out).pos as int,
            final(out).output@,
            final(out).pos as int,
            r,
            window@,
            start as int,
        ),
        r is Ok ==> final(out).output@.subrange(old(out).pos as int, final(out).pos as int) == parse_bytes(
            window@,
            matches@,
            start as int,
            start as int,
        ),
        r is Ok <==> old(out).pos + parse_bytes(window@, matches@, start as int, start as int).len()
            <= old(out).output@.len(),
        r is Err ==> old(out).pos <= final(out).pos && final(out).output@.subrange(old(out).pos as int, final(out).pos as int)
            == parse_bytes(window@, matches@, start as int, start as int).take(final(out).pos - old(out).pos),
{
    let start_pos = out.pos;
    let ghost buf0 = out.output@;
    let ghost p0 = start_pos as int;
    let ghost prefix = start as int;
    let ghost dict = Seq::<u8>::empty();
    let ghost whole = parse_bytes(window@, matches@, start as int, start as int);
    proof {
        lemma_encoder_progress_start(buf0, p0, window@, prefix, dict);
        assert(dict + window@ =~= window@);
        assert(out.output@.subrange(p0, p0) + whole =~= whole);
    }
    let mut anchor = start;
    let mut i = start;
    while i < end
        invariant
            start <= anchor <= i <= end == window@.len() < i32::MAX,
            matches@.len() == end,
            forall|j: int| start <= j < end ==> #[trigger] match_in_window(matches@[j], j, end as int),
            out.wf(),
            dict == Seq::<u8>::empty(),
            dict + window@ == window@,
            encoder_progress(out.output@, out.pos as int, buf0, p0, window@, prefix, anchor as int, dict),
            buf0 == old(out).output@,
            p0 == old(out).pos,
            p0 == start_pos,
            prefix == start,
            final(out.output)@ == final(old(out).output)@,
            out.output@.subrange(p0, out.pos as int) + parse_bytes(window@, matches@, anchor as int, i as int) == whole,
            whole == parse_bytes(window@, matches@, start as int, start as int),
        decreases end - i,
    {
        let m = matches[i];
        let valid = m.length >= MIN_MATCH_SIZE && 1 <= m.offset && m.offset as usize <= MAX_DISTANCE && m.offset
            as usize <= i && m.length as usize <= end - i;
        if valid && repeats_back(window, i, m.offset as usize, m.length as usize) {
            assert(match_in_window(matches@[i as int], i as int, end as int));
            let ghost w0 = out.output@.subrange(p0, out.pos as int);
            let res = emit_sequence_checked(
                window,
                out,
                anchor,
                i,
                m.offset as u16,
                m.length as usize,
                Ghost(buf0),
                Ghost(p0),
                Ghost(prefix),
                Ghost(dict),
            );
            if let Err(e) = res {
                proof {
                    let sb = sequence_bytes(
                        window@.subrange(anchor as int, i as int),
                        m.offset as nat,
                        (m.length - MIN_MATCH_SIZE) as nat,
                    );
                    let next = parse_bytes(window@, matches@, i + m.length, i + m.length);
                    assert(emitted(window@, m, i as int));
                    assert(parse_bytes(window@, matches@, anchor as int, i as int) == sb + next);
                    assert(whole.take(out.pos - p0) =~= out.output@.subrange(p0, out.pos as int));
                }
                return Err(e);
            }
            proof {
                let sb = sequence_bytes(
                    window@.subrange(anchor as int, i as int),
                    m.offset as nat,
                    (m.length - MIN_MATCH_SIZE) as nat,
                );
                let next = parse_bytes(window@, matches@, i + m.length, i + m.length);
                assert(emitted(window@, m, i as int));
                assert(parse_bytes(window@, matches@, anchor as int, i as int) == sb + next);
                assert(w0 + (sb + next) =~= (w0 + sb) + next);
            }
            i = i + m.length as usize;
            anchor = i;
        } else {
            proof {
                assert(!emitted(window@, m, i as int));
            }
            i = i + 1;
        }
    }
    // Final literals-only command (match nibble 0, no offset).
    let r = emit_last_literals_checked(window, out, anchor, start_pos, Ghost(buf0), Ghost(prefix), Ghost(dict));
    proof {
        assert(parse_bytes(window@, matches@, anchor as int, end as int) == last_sequence_bytes(window@.skip(anchor as int)));
        if r is Err {
            assert(whole.take(out.pos - p0) =~= out.output@.subrange(p0, out.pos as int));
        }
        if end <= MFLIMIT {
            assert forall|j: int| start <= j < end implies !#[trigger] emitted(window@, matches@[j], j) by {
                assert(match_in_window(matches@[j], j, end as int));
            }
            lemma_parse_bytes_literals(window@, matches@, start as int, start as int);
        }
    }
    r
}

} // verus!
