//! Optimal parsing (levels 10-12): a dynamic program over the next positions chooses the
//! cheapest sequence of literals and matches, measured in encoded bytes.
//!
//! The program keeps, for each position after the cursor, the cheapest known way to reach it.
//! Every match it records was found by the hash chain search, so the parse it emits is made
//! of verified back references, whatever the costs say.
use vstd::prelude::*;
use crate::block::format::last_sequence_bytes;
use crate::block::compress::{
    block_decodes_to, block_keeps_rules, short_block, emit_last_literals, emit_sequence, encoder_state, fits_output, lemma_encoder_start,
    max_output_size, repeats,
};
use crate::block::{CompressError, LAST_LITERALS, LZ4_MIN_LENGTH, MFLIMIT, MINMATCH};
use crate::block::compress_hc::hash_chain::{find_longer_hash_chain_match, HashTableHCU32, search_args};
use crate::block::compress_hc::{HcLevelParams, LZ4_OPT_NUM, RUN_MASK, TRAILING_LITERALS};
use crate::sink::{splice, SliceSink};

verus! {

/// Optimal parsing state for a single position.
///
/// The costs and literal counts are `i64`, so that the cost of a long literal run cannot
/// overflow.
#[derive(Clone, Copy)]
pub struct OptimalState {
    /// Best known encoded size (byte-cost model) to reach this position.
    pub path_cost: i64,
    /// Length of the literal run immediately before this state.
    pub lit_len: i64,
    /// Copy offset for the sequence ending here; `0` means literal step.
    pub match_offset: i64,
    /// Match length for this step; `1` means a single literal byte.
    pub match_len: i64,
}

/// The state of a position that no path reaches yet.
pub fn sentinel_state() -> (s: OptimalState)
    ensures
        s.path_cost == i64::MAX && s.lit_len == 0 && s.match_offset == 0 && s.match_len == 0,
{
    OptimalState { path_cost: i64::MAX, lit_len: 0, match_offset: 0, match_len: 0 }
}

/// Cost in bytes of encoding `lit_len` literals.
pub open spec fn literals_cost(lit_len: int) -> int {
    if lit_len >= RUN_MASK {
        lit_len + 1 + (lit_len - RUN_MASK) / 255
    } else {
        lit_len
    }
}

/// Cost in bytes of a sequence of `lit_len` literals and a match of `match_len` bytes.
pub open spec fn sequence_cost(lit_len: int, match_len: int) -> int {
    let code = match_len - MINMATCH;
    3 + literals_cost(lit_len) + if code >= 15 {
        1 + (code - 15) / 255
    } else {
        0
    }
}

/// Bounds of the cost of literals.
proof fn lemma_literals_cost(a: int, b: int)
    requires
        0 <= a <= b,
    ensures
        a <= literals_cost(a) <= 2 * a,
        literals_cost(a) <= literals_cost(b),
{
    if a >= 15 {
        assert((a - 15) / 255 <= a - 15) by (nonlinear_arith)
            requires
                a >= 15,
        ;
    }
    if b >= 15 {
        assert((b - 15) / 255 <= b - 15) by (nonlinear_arith)
            requires
                b >= 15,
        ;
        if a >= 15 {
            assert((a - 15) / 255 <= (b - 15) / 255) by (nonlinear_arith)
                requires
                    15 <= a <= b,
            ;
        }
    }
}

/// Bounds of the cost of a sequence.
proof fn lemma_sequence_cost(lit_len: int, match_len: int)
    requires
        0 <= lit_len,
        MINMATCH <= match_len,
    ensures
        3 <= sequence_cost(lit_len, match_len) <= 3 + 2 * lit_len + match_len,
{
    lemma_literals_cost(lit_len, lit_len);
    let code = match_len - 4;
    if code >= 15 {
        assert((code - 15) / 255 <= code - 16 || code == 15) by (nonlinear_arith)
            requires
                code >= 15,
        ;
    }
}

/// Calculate the cost in bytes of encoding literals
pub(crate) fn literals_price(lit_len: i64) -> (r: i64)
    requires
        0 <= lit_len <= 0x1_0000_0000_0000,
    ensures
        r == literals_cost(lit_len as int),
{
    let mut price = lit_len;
    if lit_len >= RUN_MASK as i64 {
        price = price + 1 + (lit_len - RUN_MASK as i64) / 255;
    }
    price
}

/// Calculate the cost in bytes of encoding a sequence (literals + match)
pub(crate) fn sequence_price(lit_len: i64, match_len: i64) -> (r: i64)
    requires
        0 <= lit_len <= 0x1_0000_0000_0000,
        MINMATCH <= match_len <= 0x1_0000_0000_0000,
    ensures
        r == sequence_cost(lit_len as int, match_len as int),
{
    // token + 16-bit offset
    let mut price: i64 = 1 + 2;
    // literal length encoding
    price = price + literals_price(lit_len);
    // match length encoding (match_len >= MINMATCH)
    let match_length_code = match_len - MINMATCH as i64;
    if match_length_code >= 15 {
        price = price + 1 + (match_length_code - 15) / 255;
    }
    price
}

/// The facts of a state at index `j` of a parse that started at `base` with `ll` pending
/// literals: its cost is bounded, and a match state (length other than 1) is a back
/// reference that ends at `base + j`.
pub open spec fn state_ok(
    st: OptimalState,
    j: int,
    base: int,
    ll: int,
    input: Seq<u8>,
    dict: Seq<u8>,
    match_limit: int,
) -> bool {
    &&& 0 <= st.path_cost <= 3 * (ll + j) + 5
    &&& 0 <= st.lit_len <= ll + j
    &&& st.match_len == 1 || (MINMATCH <= st.match_len <= j && base + j <= match_limit && 0 < st.match_offset
        < 65536 && st.match_offset <= dict.len() + base + j - st.match_len && repeats(
        dict + input,
        dict.len() + base + j - st.match_len,
        st.match_offset as int,
        st.match_len as int,
    ))
}

/// The states up to index `upto` are all [`state_ok`].
pub open spec fn states_ok(
    states: Seq<OptimalState>,
    upto: int,
    base: int,
    ll: int,
    input: Seq<u8>,
    dict: Seq<u8>,
    match_limit: int,
) -> bool {
    &&& states.len() == LZ4_OPT_NUM + TRAILING_LITERALS
    &&& forall|j: int|
        0 <= j <= upto && j < states.len() ==> #[trigger] state_ok(states[j], j, base, ll, input, dict, match_limit)
}

/// The bounds that keep the arithmetic on costs and positions in range.
pub open spec fn parse_bounds(base: int, ll: int, input: Seq<u8>) -> bool {
    &&& 0 <= ll <= base
    &&& base + LZ4_OPT_NUM + 16 <= 0x1_0000_0000_0000
    &&& input.len() <= 0x1_0000_0000_0000
}

/// A state at index `j` read as the start of a step of the parse: a literal (length 1), or a
/// back reference that starts at `base + j`.
pub open spec fn step_ok(st: OptimalState, j: int, base: int, input: Seq<u8>, dict: Seq<u8>, match_limit: int) -> bool {
    st.match_len == 1 || (MINMATCH <= st.match_len && base + j + st.match_len <= match_limit && 0 < st.match_offset
        < 65536 && st.match_offset <= dict.len() + base + j && repeats(
        dict + input,
        dict.len() + base + j,
        st.match_offset as int,
        st.match_len as int,
    ))
}

/// `path` lists, in increasing order from 0, the indices at which the steps of a parse start,
/// each step leading to the next index and the last one starting at the last index of `path`.
pub open spec fn parse_path(states: Seq<OptimalState>, path: Seq<int>, base: int, input: Seq<u8>, dict: Seq<u8>, match_limit: int) -> bool {
    &&& path.len() >= 1
    &&& path[0] == 0
    &&& forall|t: int| 0 <= t < path.len() ==> 0 <= #[trigger] path[t] < states.len() && path[t] <= path.last()
    &&& forall|t: int| 0 <= t < path.len() - 1 ==> #[trigger] path[t] + states[path[t]].match_len == path[t + 1]
    &&& forall|t: int| 0 <= t < path.len() ==> #[trigger] step_ok(states[path[t]], path[t], base, input, dict, match_limit)
}

/// Reverse the optimal parse path: walk backward from `start_state_index`, storing at each
/// step the step that starts there. Afterwards the steps read forward from index 0 form the
/// parse; the returned path lists their start indices.
pub(crate) fn reverse_optimal_parse_path(
    optimal_states: &mut Vec<OptimalState>,
    start_state_index: usize,
    match_length: i64,
    match_offset: i64,
    Ghost(base): Ghost<int>,
    Ghost(ll): Ghost<int>,
    Ghost(input): Ghost<Seq<u8>>,
    Ghost(dict): Ghost<Seq<u8>>,
    Ghost(match_limit): Ghost<int>,
) -> (path: Ghost<Seq<int>>)
    requires
        states_ok(old(optimal_states)@, start_state_index as int, base, ll, input, dict, match_limit),
        start_state_index < old(optimal_states)@.len(),
        step_ok(
            OptimalState { path_cost: 0, lit_len: 0, match_offset, match_len: match_length },
            start_state_index as int,
            base,
            input,
            dict,
            match_limit,
        ),
    ensures
        final(optimal_states)@.len() == old(optimal_states)@.len(),
        parse_path(final(optimal_states)@, path@, base, input, dict, match_limit),
        path@.last() == start_state_index,
        final(optimal_states)@[start_state_index as int].match_len == match_length,
{
    let ghost s0 = old(optimal_states)@;
    let ghost ml0 = match_length;
    let mut optimal_state_index = start_state_index;
    let mut match_length = match_length;
    let mut match_offset = match_offset;
    let ghost mut path: Seq<int> = Seq::empty();
    loop
        invariant_except_break
            optimal_state_index <= start_state_index,
            step_ok(
                OptimalState { path_cost: 0, lit_len: 0, match_offset, match_len: match_length },
                optimal_state_index as int,
                base,
                input,
                dict,
                match_limit,
            ),
            path.len() == 0 ==> optimal_state_index == start_state_index && match_length == ml0,
            path.len() > 0 ==> optimal_state_index + match_length == path[0],
            forall|j: int| 0 <= j <= optimal_state_index ==> #[trigger] optimal_states@[j] == s0[j],
            forall|t: int| 0 <= t < path.len() ==> optimal_state_index < #[trigger] path[t] <= start_state_index,
        invariant
            states_ok(s0, start_state_index as int, base, ll, input, dict, match_limit),
            optimal_states@.len() == s0.len(),
            start_state_index < s0.len(),
            forall|t: int| 0 <= t < path.len() ==> 0 <= #[trigger] path[t] <= start_state_index,
            path.len() > 0 ==> optimal_states@[start_state_index as int].match_len == ml0,
            forall|t: int| 0 <= t < path.len() - 1 ==> #[trigger] path[t] + optimal_states@[path[t]].match_len == path[t + 1],
            forall|t: int| 0 <= t < path.len() ==> #[trigger] step_ok(optimal_states@[path[t]], path[t], base, input, dict, match_limit),
            path.len() > 0 ==> path.last() == start_state_index,
        ensures
            parse_path(optimal_states@, path, base, input, dict, match_limit),
            path.last() == start_state_index,
        decreases optimal_state_index,
    {
        let current = optimal_states[optimal_state_index];
        let next_match_length = current.match_len;
        let next_match_offset = current.match_offset;
        let ghost i = optimal_state_index as int;
        assert(state_ok(s0[i], i, base, ll, input, dict, match_limit));
        let ghost old_states = optimal_states@;
        optimal_states[optimal_state_index] = OptimalState {
            path_cost: current.path_cost,
            lit_len: current.lit_len,
            match_offset,
            match_len: match_length,
        };
        proof {
            let new_path = seq![i] + path;
            assert forall|t: int| 0 <= t < new_path.len() - 1 implies #[trigger] new_path[t] + optimal_states@[new_path[t]].match_len == new_path[t + 1] by {
                if t > 0 {
                    assert(new_path[t] == path[t - 1]);
                    assert(new_path[t + 1] == path[t]);
                    assert(optimal_states@[path[t - 1]] == old_states[path[t - 1]]);
                }
            }
            assert forall|t: int| 0 <= t < new_path.len() implies #[trigger] step_ok(optimal_states@[new_path[t]], new_path[t], base, input, dict, match_limit) by {
                if t > 0 {
                    assert(new_path[t] == path[t - 1]);
                    assert(optimal_states@[path[t - 1]] == old_states[path[t - 1]]);
                }
            }
            path = new_path;
        }
        match_length = next_match_length;
        match_offset = next_match_offset;
        if (next_match_length as usize) > optimal_state_index || next_match_length > optimal_state_index as i64 {
            proof {
                assert(i == 0);
            }
            break;
        }
        optimal_state_index = optimal_state_index - next_match_length as usize;
    }
    Ghost(path)
}

} // verus!

verus! {

/// Emit LZ4 sequences from the steps of `path`, which end at or after `last_match_state_index`.
/// `match_len == 1` means one literal step.
fn encode_optimal_parse_path(
    optimal_states: &Vec<OptimalState>,
    last_match_state_index: usize,
    input: &[u8],
    literal_start: &mut usize,
    cur: &mut usize,
    output: &mut SliceSink,
    ext_dict: &[u8],
    Ghost(path): Ghost<Seq<int>>,
    Ghost(match_limit): Ghost<int>,
    Ghost(buf0): Ghost<Seq<u8>>,
    Ghost(p0): Ghost<int>,
    Ghost(prefix): Ghost<int>,
)
    requires
        old(output).wf(),
        parse_path(optimal_states@, path, *old(cur) as int, input@, ext_dict@, match_limit),
        path.last() < last_match_state_index <= path.last() + optimal_states@[path.last()].match_len,
        *old(cur) + last_match_state_index <= match_limit,
        match_limit + LAST_LITERALS <= input@.len(),
        *old(literal_start) <= *old(cur),
        encoder_state(old(output).output@, old(output).pos as int, buf0, p0, input@, prefix, *old(literal_start) as int, ext_dict@),
    ensures
        final(output).wf(),
        *final(cur) == *old(cur) + path.last() + optimal_states@[path.last()].match_len,
        *final(literal_start) <= *final(cur),
        optimal_states@[path.last()].match_len != 1 ==> *final(literal_start) == *final(cur),
        encoder_state(final(output).output@, final(output).pos as int, buf0, p0, input@, prefix, *final(literal_start) as int, ext_dict@),
        final(final(output).output)@ == final(old(output).output)@,
{
    let ghost base = *cur as int;
    let ghost last_node = path.last();
    let ghost final_index = path.last() + optimal_states@[path.last()].match_len;
    let _len = input.len();
    let mut optimal_state_index: usize = 0;
    let ghost mut t: int = 0;
    while optimal_state_index < last_match_state_index
        invariant
            output.wf(),
            parse_path(optimal_states@, path, base, input@, ext_dict@, match_limit),
            path.last() < last_match_state_index <= final_index,
            last_node == path.last(),
            final_index == path.last() + optimal_states@[path.last()].match_len,
            base + last_match_state_index <= match_limit,
            match_limit + LAST_LITERALS <= input@.len(),
            input@.len() <= usize::MAX,
            0 <= base,
            *cur == base + optimal_state_index,
            *literal_start <= *cur,
            0 <= t <= path.len(),
            t < path.len() ==> optimal_state_index == path[t],
            t == path.len() ==> optimal_state_index == final_index,
            t == path.len() && optimal_states@[last_node].match_len != 1 ==> *literal_start == *cur,
            optimal_state_index < last_match_state_index ==> t < path.len(),
            encoder_state(output.output@, output.pos as int, buf0, p0, input@, prefix, *literal_start as int, ext_dict@),
            final(output.output)@ == final(old(output).output)@,
        decreases optimal_states@.len() + input@.len() - optimal_state_index,
    {
        let state = optimal_states[optimal_state_index];
        assert(step_ok(optimal_states@[path[t]], path[t], base, input@, ext_dict@, match_limit));
        proof {
            if t + 1 < path.len() {
                assert(path[t] + optimal_states@[path[t]].match_len == path[t + 1]);
            }
        }
        let match_length = state.match_len as usize;
        if match_length == 1 {
            *cur = *cur + 1;
            optimal_state_index = optimal_state_index + 1;
            proof {
                t = t + 1;
            }
            continue;
        }
        let match_offset = state.match_offset as u16;
        assert(match_length == state.match_len);
        emit_sequence(
            input,
            output,
            *literal_start,
            *cur,
            match_offset,
            match_length,
            Ghost(buf0),
            Ghost(p0),
            Ghost(prefix),
            Ghost(ext_dict@),
        );
        *cur = *cur + match_length;
        *literal_start = *cur;
        optimal_state_index = optimal_state_index + match_length;
        proof {
            t = t + 1;
        }
    }
}

pub(crate) fn initialize_literal_states(
    optimal_states: &mut Vec<OptimalState>,
    literal_length: i64,
    Ghost(base): Ghost<int>,
    Ghost(input): Ghost<Seq<u8>>,
    Ghost(dict): Ghost<Seq<u8>>,
    Ghost(match_limit): Ghost<int>,
)
    requires
        old(optimal_states)@.len() == LZ4_OPT_NUM + TRAILING_LITERALS,
        parse_bounds(base, literal_length as int, input),
    ensures
        final(optimal_states)@.len() == old(optimal_states)@.len(),
        forall|j: int| 0 <= j < MINMATCH ==> #[trigger] state_ok(final(optimal_states)@[j], j, base, literal_length as int, input, dict, match_limit),
        forall|j: int| MINMATCH <= j < old(optimal_states)@.len() ==> #[trigger] final(optimal_states)@[j] == old(optimal_states)@[j],
{
    let mut literal_step: usize = 0;
    while literal_step < MINMATCH
        invariant
            optimal_states@.len() == old(optimal_states)@.len(),
            old(optimal_states)@.len() == LZ4_OPT_NUM + TRAILING_LITERALS,
            parse_bounds(base, literal_length as int, input),
            literal_step <= MINMATCH,
            forall|j: int| 0 <= j < literal_step ==> #[trigger] state_ok(optimal_states@[j], j, base, literal_length as int, input, dict, match_limit),
            forall|j: int| MINMATCH <= j < optimal_states@.len() ==> #[trigger] optimal_states@[j] == old(optimal_states)@[j],
        decreases MINMATCH - literal_step,
    {
        let l = literal_length + literal_step as i64;
        proof {
            lemma_literals_cost(l as int, l as int);
        }
        optimal_states[literal_step] = OptimalState { path_cost: literals_price(l), lit_len: l, match_offset: 0, match_len: 1 };
        literal_step = literal_step + 1;
    }
}

pub(crate) fn initialize_first_match_states(
    optimal_states: &mut Vec<OptimalState>,
    literal_length: i64,
    first_match_length: usize,
    first_match_offset: u16,
    Ghost(base): Ghost<int>,
    Ghost(input): Ghost<Seq<u8>>,
    Ghost(dict): Ghost<Seq<u8>>,
    Ghost(match_limit): Ghost<int>,
) -> (r: usize)
    requires
        old(optimal_states)@.len() == LZ4_OPT_NUM + TRAILING_LITERALS,
        parse_bounds(base, literal_length as int, input),
        MINMATCH <= first_match_length < LZ4_OPT_NUM,
        base + first_match_length <= match_limit,
        0 < first_match_offset,
        first_match_offset <= dict.len() + base,
        repeats(dict + input, dict.len() + base, first_match_offset as int, first_match_length as int),
    ensures
        r == first_match_length,
        final(optimal_states)@.len() == old(optimal_states)@.len(),
        forall|j: int| MINMATCH <= j <= first_match_length ==> #[trigger] state_ok(final(optimal_states)@[j], j, base, literal_length as int, input, dict, match_limit),
        forall|j: int| 0 <= j < old(optimal_states)@.len() && !(MINMATCH <= j <= first_match_length) ==> #[trigger] final(optimal_states)@[j] == old(optimal_states)@[j],
{
    let mut match_length: usize = MINMATCH;
    while match_length <= first_match_length
        invariant
            optimal_states@.len() == old(optimal_states)@.len(),
            old(optimal_states)@.len() == LZ4_OPT_NUM + TRAILING_LITERALS,
            parse_bounds(base, literal_length as int, input),
            MINMATCH <= match_length <= first_match_length + 1,
            first_match_length < LZ4_OPT_NUM,
            base + first_match_length <= match_limit,
            0 < first_match_offset,
            first_match_offset <= dict.len() + base,
            repeats(dict + input, dict.len() + base, first_match_offset as int, first_match_length as int),
            forall|j: int| MINMATCH <= j < match_length ==> #[trigger] state_ok(optimal_states@[j], j, base, literal_length as int, input, dict, match_limit),
            forall|j: int| 0 <= j < optimal_states@.len() && !(MINMATCH <= j < match_length) ==> #[trigger] optimal_states@[j] == old(optimal_states)@[j],
        decreases first_match_length + 1 - match_length,
    {
        proof {
            lemma_sequence_cost(literal_length as int, match_length as int);
        }
        optimal_states[match_length] = OptimalState {
            path_cost: sequence_price(literal_length, match_length as i64),
            lit_len: literal_length,
            match_offset: first_match_offset as i64,
            match_len: match_length as i64,
        };
        match_length = match_length + 1;
    }
    first_match_length
}

pub(crate) fn fill_trailing_literal_states(
    optimal_states: &mut Vec<OptimalState>,
    last_match_state_index: usize,
    Ghost(base): Ghost<int>,
    Ghost(ll): Ghost<int>,
    Ghost(input): Ghost<Seq<u8>>,
    Ghost(dict): Ghost<Seq<u8>>,
    Ghost(match_limit): Ghost<int>,
)
    requires
        states_ok(old(optimal_states)@, last_match_state_index as int, base, ll, input, dict, match_limit),
        last_match_state_index < LZ4_OPT_NUM,
        parse_bounds(base, ll, input),
    ensures
        states_ok(final(optimal_states)@, last_match_state_index + TRAILING_LITERALS, base, ll, input, dict, match_limit),
        forall|j: int| 0 <= j <= last_match_state_index ==> #[trigger] final(optimal_states)@[j] == old(optimal_states)@[j],
{
    let base_path_cost = optimal_states[last_match_state_index].path_cost;
    assert(state_ok(optimal_states@[last_match_state_index as int], last_match_state_index as int, base, ll, input, dict, match_limit));
    let mut trailing_literal_length: usize = 1;
    while trailing_literal_length <= TRAILING_LITERALS
        invariant
            optimal_states@.len() == LZ4_OPT_NUM + TRAILING_LITERALS,
            last_match_state_index < LZ4_OPT_NUM,
            parse_bounds(base, ll, input),
            1 <= trailing_literal_length <= TRAILING_LITERALS + 1,
            0 <= base_path_cost <= 3 * (ll + last_match_state_index) + 5,
            forall|j: int| 0 <= j < last_match_state_index + trailing_literal_length && j < optimal_states@.len() ==> #[trigger] state_ok(optimal_states@[j], j, base, ll, input, dict, match_limit),
            forall|j: int| 0 <= j <= last_match_state_index ==> #[trigger] optimal_states@[j] == old(optimal_states)@[j],
        ensures
            forall|j: int| 0 <= j <= last_match_state_index + TRAILING_LITERALS && j < optimal_states@.len() ==> #[trigger] state_ok(optimal_states@[j], j, base, ll, input, dict, match_limit),
        decreases TRAILING_LITERALS + 1 - trailing_literal_length,
    {
        let state_index = last_match_state_index + trailing_literal_length;
        if state_index >= optimal_states.len() {
            break;
        }
        proof {
            lemma_literals_cost(trailing_literal_length as int, trailing_literal_length as int);
        }
        optimal_states[state_index] = OptimalState {
            path_cost: base_path_cost + literals_price(trailing_literal_length as i64),
            lit_len: trailing_literal_length as i64,
            match_offset: 0,
            match_len: 1,
        };
        trailing_literal_length = trailing_literal_length + 1;
    }
}

pub(crate) fn should_skip_optimal_search(optimal_states: &Vec<OptimalState>, scan_offset: usize, full_optimal_update: bool) -> (r: bool)
    requires
        scan_offset + MINMATCH < optimal_states@.len(),
        optimal_states@[scan_offset as int].path_cost <= 0x1_0000_0000_0000,
    ensures
        r == (optimal_states@[scan_offset + 1].path_cost <= optimal_states@[scan_offset as int].path_cost
            && (full_optimal_update ==> optimal_states@[scan_offset + MINMATCH].path_cost
            < optimal_states@[scan_offset as int].path_cost + 3)),
{
    let _len = optimal_states.len();
    if full_optimal_update {
        optimal_states[scan_offset + 1].path_cost <= optimal_states[scan_offset].path_cost
            && optimal_states[scan_offset + MINMATCH].path_cost < optimal_states[scan_offset].path_cost + 3
    } else {
        optimal_states[scan_offset + 1].path_cost <= optimal_states[scan_offset].path_cost
    }
}

fn minimum_match_length_to_improve(full_optimal_update: bool, last_match_state_index: usize, scan_offset: usize) -> (r: usize)
    requires
        scan_offset <= last_match_state_index,
    ensures
        r == if full_optimal_update { MINMATCH - 1 } else { last_match_state_index - scan_offset },
{
    if full_optimal_update {
        MINMATCH - 1
    } else {
        last_match_state_index - scan_offset
    }
}

fn should_encode_optimal_match_early(match_length: usize, scan_offset: usize, sufficient_match_len: usize) -> (r: bool)
    requires
        match_length + scan_offset <= usize::MAX,
    ensures
        r == (match_length >= sufficient_match_len || match_length + scan_offset >= LZ4_OPT_NUM),
{
    match_length >= sufficient_match_len || match_length + scan_offset >= LZ4_OPT_NUM
}

pub(crate) fn update_literal_states_before_match(
    optimal_states: &mut Vec<OptimalState>,
    scan_offset: usize,
    Ghost(upto): Ghost<int>,
    Ghost(base): Ghost<int>,
    Ghost(ll): Ghost<int>,
    Ghost(input): Ghost<Seq<u8>>,
    Ghost(dict): Ghost<Seq<u8>>,
    Ghost(match_limit): Ghost<int>,
)
    requires
        states_ok(old(optimal_states)@, upto, base, ll, input, dict, match_limit),
        scan_offset + MINMATCH - 1 <= upto,
        scan_offset + MINMATCH <= LZ4_OPT_NUM + TRAILING_LITERALS,
        parse_bounds(base, ll, input),
    ensures
        states_ok(final(optimal_states)@, upto, base, ll, input, dict, match_limit),
        forall|j: int| 0 <= j <= scan_offset ==> #[trigger] final(optimal_states)@[j] == old(optimal_states)@[j],
        forall|j: int| scan_offset + MINMATCH <= j < old(optimal_states)@.len() ==> #[trigger] final(optimal_states)@[j] == old(optimal_states)@[j],
        forall|k: int| 1 <= k < MINMATCH ==> #[trigger] final(optimal_states)@[scan_offset + k] == literal_step_state(
            old(optimal_states)@,
            scan_offset as int,
            k,
        ),
{
    let base_state = optimal_states[scan_offset];
    assert(state_ok(optimal_states@[scan_offset as int], scan_offset as int, base, ll, input, dict, match_limit));
    let base_literal_length = base_state.lit_len;
    let base_path_cost = base_state.path_cost;
    let base_literal_cost = literals_price(base_literal_length);
    let mut literal_step: usize = 1;
    while literal_step < MINMATCH
        invariant
            states_ok(optimal_states@, upto, base, ll, input, dict, match_limit),
            scan_offset + MINMATCH - 1 <= upto,
            scan_offset + MINMATCH <= LZ4_OPT_NUM + TRAILING_LITERALS,
            parse_bounds(base, ll, input),
            1 <= literal_step <= MINMATCH,
            0 <= base_literal_length <= ll + scan_offset,
            0 <= base_path_cost <= 3 * (ll + scan_offset) + 5,
            base_literal_cost == literals_cost(base_literal_length as int),
            old(optimal_states)@.len() == LZ4_OPT_NUM + TRAILING_LITERALS,
            forall|j: int| 0 <= j <= scan_offset ==> #[trigger] optimal_states@[j] == old(optimal_states)@[j],
            forall|j: int| scan_offset + MINMATCH <= j < old(optimal_states)@.len() ==> #[trigger] optimal_states@[j] == old(optimal_states)@[j],
            forall|j: int| scan_offset + literal_step <= j < scan_offset + MINMATCH ==> #[trigger] optimal_states@[j] == old(optimal_states)@[j],
            forall|k: int| 1 <= k < literal_step ==> #[trigger] optimal_states@[scan_offset + k] == literal_step_state(
                old(optimal_states)@,
                scan_offset as int,
                k,
            ),
            base_literal_length == old(optimal_states)@[scan_offset as int].lit_len,
            base_path_cost == old(optimal_states)@[scan_offset as int].path_cost,
        decreases MINMATCH - literal_step,
    {
        let state_index = scan_offset + literal_step;
        let l = base_literal_length + literal_step as i64;
        proof {
            lemma_literals_cost(base_literal_length as int, l as int);
            lemma_literals_cost(l as int, l as int);
        }
        let path_cost = base_path_cost - base_literal_cost + literals_price(l);
        assert(state_ok(optimal_states@[state_index as int], state_index as int, base, ll, input, dict, match_limit));
        let existing_cost = optimal_states[state_index].path_cost;
        let ghost prev = optimal_states@;
        if path_cost < existing_cost {
            let new_state = OptimalState { path_cost, lit_len: l, match_offset: 0, match_len: 1 };
            optimal_states.set(state_index, new_state);
            assert(optimal_states@ == prev.update(state_index as int, new_state));
            assert(state_index < scan_offset + MINMATCH);
        }
        literal_step = literal_step + 1;
    }
}

/// The literal run and the path cost of reaching, from the state at `scan_offset`, the end of
/// a match of `match_length` bytes: a state reached by literals folds its literal run into the
/// match's sequence, priced from the state before those literals; a state reached by a match
/// starts a sequence with no literals.
pub open spec fn match_price_spec(states: Seq<OptimalState>, scan_offset: int, match_length: int) -> (int, int) {
    let st = states[scan_offset];
    if st.match_len == 1 {
        let prev = if scan_offset > st.lit_len { states[scan_offset - st.lit_len].path_cost as int } else { 0 };
        (st.lit_len as int, prev + sequence_cost(st.lit_len as int, match_length))
    } else {
        (0, st.path_cost + sequence_cost(0, match_length))
    }
}

/// The state at `scan_offset + step` after the literal steps from `scan_offset`: extending the
/// literal run of the state at `scan_offset` by `step` bytes, when that is cheaper.
pub open spec fn literal_step_state(states: Seq<OptimalState>, scan_offset: int, step: int) -> OptimalState {
    let b = states[scan_offset];
    let p = b.path_cost - literals_cost(b.lit_len as int) + literals_cost(b.lit_len + step);
    if p < states[scan_offset + step].path_cost {
        OptimalState { path_cost: p as i64, lit_len: (b.lit_len + step) as i64, match_offset: 0, match_len: 1 }
    } else {
        states[scan_offset + step]
    }
}

/// The match of `k` bytes from `scan_offset` replaces the state it reaches: that state lies
/// past those known (`last + TRAILING_LITERALS`), or the match reaches it no dearer, less the
/// bias.
pub open spec fn match_step_applies(states: Seq<OptimalState>, scan_offset: int, k: int, last: int, favor_bias: int) -> bool {
    scan_offset + k > last + TRAILING_LITERALS || match_price_spec(states, scan_offset, k).1 <= states[scan_offset
        + k].path_cost - favor_bias
}

pub(crate) fn match_price_from_state(
    optimal_states: &Vec<OptimalState>,
    scan_offset: usize,
    match_length: i64,
    Ghost(base): Ghost<int>,
    Ghost(ll): Ghost<int>,
    Ghost(input): Ghost<Seq<u8>>,
    Ghost(dict): Ghost<Seq<u8>>,
    Ghost(match_limit): Ghost<int>,
) -> (r: (i64, i64))
    requires
        states_ok(optimal_states@, scan_offset as int, base, ll, input, dict, match_limit),
        scan_offset < optimal_states@.len(),
        MINMATCH <= match_length <= LZ4_OPT_NUM,
        parse_bounds(base, ll, input),
    ensures
        0 <= r.0 <= ll + scan_offset,
        0 <= r.1 <= 3 * (ll + scan_offset + match_length) + 5,
        r.0 == match_price_spec(optimal_states@, scan_offset as int, match_length as int).0,
        r.1 == match_price_spec(optimal_states@, scan_offset as int, match_length as int).1,
{
    let state = optimal_states[scan_offset];
    assert(state_ok(optimal_states@[scan_offset as int], scan_offset as int, base, ll, input, dict, match_limit));
    if state.match_len == 1 {
        let literal_length = state.lit_len;
        let previous_sequence_cost = if scan_offset as i64 > literal_length {
            let q = scan_offset - literal_length as usize;
            assert(state_ok(optimal_states@[q as int], q as int, base, ll, input, dict, match_limit));
            optimal_states[q].path_cost
        } else {
            0
        };
        proof {
            lemma_sequence_cost(literal_length as int, match_length as int);
        }
        (literal_length, previous_sequence_cost + sequence_price(literal_length, match_length))
    } else {
        proof {
            lemma_sequence_cost(0, match_length as int);
        }
        (0, state.path_cost + sequence_price(0, match_length))
    }
}

pub(crate) fn update_match_states_from_position(
    optimal_states: &mut Vec<OptimalState>,
    scan_offset: usize,
    new_match_length: usize,
    new_match_offset: u16,
    last_match_state_index: &mut usize,
    favor_bias: i64,
    Ghost(base): Ghost<int>,
    Ghost(ll): Ghost<int>,
    Ghost(input): Ghost<Seq<u8>>,
    Ghost(dict): Ghost<Seq<u8>>,
    Ghost(match_limit): Ghost<int>,
)
    requires
        states_ok(old(optimal_states)@, *old(last_match_state_index) + TRAILING_LITERALS, base, ll, input, dict, match_limit),
        scan_offset < *old(last_match_state_index) < LZ4_OPT_NUM,
        parse_bounds(base, ll, input),
        0 <= favor_bias <= 1,
        MINMATCH <= new_match_length,
        base + scan_offset + new_match_length <= match_limit,
        0 < new_match_offset,
        new_match_offset <= dict.len() + base + scan_offset,
        repeats(dict + input, dict.len() + base + scan_offset, new_match_offset as int, new_match_length as int),
    ensures
        *old(last_match_state_index) <= *final(last_match_state_index) < LZ4_OPT_NUM,
        *final(last_match_state_index) == *old(last_match_state_index) || *final(last_match_state_index)
            <= scan_offset + new_match_length,
        states_ok(
            final(optimal_states)@,
            if *final(last_match_state_index) > *old(last_match_state_index) + TRAILING_LITERALS {
                *final(last_match_state_index) as int
            } else {
                *old(last_match_state_index) + TRAILING_LITERALS
            },
            base,
            ll,
            input,
            dict,
            match_limit,
        ),
        ({
            let capped = if new_match_length < LZ4_OPT_NUM - scan_offset - 1 {
                new_match_length as int
            } else {
                LZ4_OPT_NUM - scan_offset - 1
            };
            let l0 = *old(last_match_state_index);
            &&& forall|k: int| MINMATCH <= k <= capped ==> #[trigger] final(optimal_states)@[scan_offset + k] == (if match_step_applies(
                old(optimal_states)@,
                scan_offset as int,
                k,
                l0 as int,
                favor_bias as int,
            ) {
                OptimalState {
                    path_cost: match_price_spec(old(optimal_states)@, scan_offset as int, k).1 as i64,
                    lit_len: match_price_spec(old(optimal_states)@, scan_offset as int, k).0 as i64,
                    match_offset: new_match_offset as i64,
                    match_len: k as i64,
                }
            } else {
                old(optimal_states)@[scan_offset + k]
            })
            &&& forall|j: int| 0 <= j < old(optimal_states)@.len() && !(scan_offset + MINMATCH <= j <= scan_offset + capped)
                ==> #[trigger] final(optimal_states)@[j] == old(optimal_states)@[j]
            &&& *final(last_match_state_index) == (if capped >= MINMATCH && l0 < scan_offset + capped && match_step_applies(
                old(optimal_states)@,
                scan_offset as int,
                capped,
                l0 as int,
                favor_bias as int,
            ) {
                (scan_offset + capped) as usize
            } else {
                l0
            })
        }),
{
    let l0 = *last_match_state_index;
    let capped_match_length = if new_match_length < LZ4_OPT_NUM - scan_offset - 1 {
        new_match_length
    } else {
        LZ4_OPT_NUM - scan_offset - 1
    };
    let mut match_length: usize = MINMATCH;
    while match_length <= capped_match_length
        invariant
            optimal_states@.len() == LZ4_OPT_NUM + TRAILING_LITERALS,
            scan_offset < l0 < LZ4_OPT_NUM,
            l0 <= *last_match_state_index < LZ4_OPT_NUM,
            *last_match_state_index > l0 ==> *last_match_state_index == scan_offset + capped_match_length && match_length > capped_match_length,
            parse_bounds(base, ll, input),
            0 <= favor_bias <= 1,
            capped_match_length <= new_match_length,
            scan_offset + capped_match_length < LZ4_OPT_NUM,
            MINMATCH <= match_length,
            base + scan_offset + new_match_length <= match_limit,
            0 < new_match_offset,
            new_match_offset <= dict.len() + base + scan_offset,
            repeats(dict + input, dict.len() + base + scan_offset, new_match_offset as int, new_match_length as int),
            forall|j: int| 0 <= j <= scan_offset ==> #[trigger] optimal_states@[j] == old(optimal_states)@[j],
            forall|j: int| 0 <= j < optimal_states@.len() && (j <= l0 + TRAILING_LITERALS || j < scan_offset + match_length) ==> #[trigger] state_ok(optimal_states@[j], j, base, ll, input, dict, match_limit),
            l0 == *old(last_match_state_index),
            old(optimal_states)@.len() == LZ4_OPT_NUM + TRAILING_LITERALS,
            capped_match_length == (if new_match_length < LZ4_OPT_NUM - scan_offset - 1 {
                new_match_length as int
            } else {
                LZ4_OPT_NUM - scan_offset - 1
            }),
            match_length <= capped_match_length + 1 || capped_match_length < MINMATCH,
            match_length == MINMATCH || match_length <= capped_match_length + 1,
            forall|k: int| MINMATCH <= k < match_length && k <= capped_match_length ==> #[trigger] optimal_states@[scan_offset + k] == (if match_step_applies(
                old(optimal_states)@,
                scan_offset as int,
                k,
                l0 as int,
                favor_bias as int,
            ) {
                OptimalState {
                    path_cost: match_price_spec(old(optimal_states)@, scan_offset as int, k).1 as i64,
                    lit_len: match_price_spec(old(optimal_states)@, scan_offset as int, k).0 as i64,
                    match_offset: new_match_offset as i64,
                    match_len: k as i64,
                }
            } else {
                old(optimal_states)@[scan_offset + k]
            }),
            forall|j: int| 0 <= j < old(optimal_states)@.len() && !(scan_offset + MINMATCH <= j < scan_offset + match_length)
                ==> #[trigger] optimal_states@[j] == old(optimal_states)@[j],
            *last_match_state_index == (if match_length > capped_match_length && capped_match_length >= MINMATCH && l0 < scan_offset + capped_match_length && match_step_applies(
                old(optimal_states)@,
                scan_offset as int,
                capped_match_length as int,
                l0 as int,
                favor_bias as int,
            ) {
                (scan_offset + capped_match_length) as usize
            } else {
                l0
            }),
        decreases capped_match_length + 1 - match_length,
    {
        let state_index = scan_offset + match_length;
        proof {
            assert forall|j: int| 0 <= j <= scan_offset implies #[trigger] state_ok(optimal_states@[j], j, base, ll, input, dict, match_limit) by {
                assert(optimal_states@[j] == old(optimal_states)@[j]);
            }
        }
        let (literal_prefix_length, path_cost) = match_price_from_state(
            optimal_states,
            scan_offset,
            match_length as i64,
            Ghost(base),
            Ghost(ll),
            Ghost(input),
            Ghost(dict),
            Ghost(match_limit),
        );
        proof {
            if state_index <= *last_match_state_index + TRAILING_LITERALS {
                assert(state_ok(optimal_states@[state_index as int], state_index as int, base, ll, input, dict, match_limit));
            }
            let st = optimal_states@[scan_offset as int];
            assert(st == old(optimal_states)@[scan_offset as int]);
            if st.match_len == 1 && scan_offset > st.lit_len {
                let q = scan_offset - st.lit_len;
                assert(optimal_states@[q] == old(optimal_states)@[q]);
            }
            assert(match_price_spec(optimal_states@, scan_offset as int, match_length as int) == match_price_spec(
                old(optimal_states)@,
                scan_offset as int,
                match_length as int,
            ));
            assert(optimal_states@[state_index as int] == old(optimal_states)@[state_index as int]);
        }
        let ghost prev = optimal_states@;
        if state_index > *last_match_state_index + TRAILING_LITERALS || path_cost <= optimal_states[state_index].path_cost
            - favor_bias {
            if match_length == capped_match_length && *last_match_state_index < state_index {
                *last_match_state_index = state_index;
            }
            optimal_states[state_index] = OptimalState {
                path_cost,
                lit_len: literal_prefix_length,
                match_offset: new_match_offset as i64,
                match_len: match_length as i64,
            };
            assert(optimal_states@ == prev.update(state_index as int, optimal_states@[state_index as int]));
        }
        match_length = match_length + 1;
    }
}

/// Reverses the path that ends at `last_match_state_index` and encodes it.
fn finish_optimal_parse_path(
    optimal_states: &mut Vec<OptimalState>,
    last_match_state_index: usize,
    input: &[u8],
    literal_start: &mut usize,
    cur: &mut usize,
    output: &mut SliceSink,
    ext_dict: &[u8],
    Ghost(ll): Ghost<int>,
    Ghost(match_limit): Ghost<int>,
    Ghost(buf0): Ghost<Seq<u8>>,
    Ghost(p0): Ghost<int>,
    Ghost(prefix): Ghost<int>,
)
    requires
        old(output).wf(),
        states_ok(old(optimal_states)@, last_match_state_index as int, *old(cur) as int, ll, input@, ext_dict@, match_limit),
        MINMATCH <= last_match_state_index < LZ4_OPT_NUM,
        *old(cur) + last_match_state_index <= match_limit,
        parse_bounds(*old(cur) as int, ll, input@),
        match_limit + LAST_LITERALS <= input@.len(),
        *old(literal_start) <= *old(cur),
        encoder_state(old(output).output@, old(output).pos as int, buf0, p0, input@, prefix, *old(literal_start) as int, ext_dict@),
    ensures
        final(output).wf(),
        final(optimal_states)@.len() == old(optimal_states)@.len(),
        *final(cur) == *old(cur) + last_match_state_index,
        *final(literal_start) <= *final(cur),
        encoder_state(final(output).output@, final(output).pos as int, buf0, p0, input@, prefix, *final(literal_start) as int, ext_dict@),
        final(final(output).output)@ == final(old(output).output)@,
{
    let ghost base = *cur as int;
    let last_state = optimal_states[last_match_state_index];
    assert(state_ok(optimal_states@[last_match_state_index as int], last_match_state_index as int, base, ll, input@, ext_dict@, match_limit));
    let match_length = last_state.match_len;
    let match_offset = last_state.match_offset;
    let start = last_match_state_index - match_length as usize;
    let path = reverse_optimal_parse_path(
        optimal_states,
        start,
        match_length,
        match_offset,
        Ghost(base),
        Ghost(ll),
        Ghost(input@),
        Ghost(ext_dict@),
        Ghost(match_limit),
    );
    encode_optimal_parse_path(
        optimal_states,
        last_match_state_index,
        input,
        literal_start,
        cur,
        output,
        ext_dict,
        path,
        Ghost(match_limit),
        Ghost(buf0),
        Ghost(p0),
        Ghost(prefix),
    );
}

} // verus!

verus! {

/// Internal optimal parsing compression implementation.
///
/// Returns [`CompressError::OutputTooSmall`], writing nothing, when the output has fewer free
/// bytes than [`max_output_size`] of the block.
pub fn compress_opt_internal(
    input: &[u8],
    input_pos: usize,
    output: &mut SliceSink,
    level_params: HcLevelParams,
    hash_table: &mut HashTableHCU32,
    ext_dict: &[u8],
    stream_offset: usize,
) -> (r: Result<usize, CompressError>)
    requires
        input_pos <= input@.len(),
        old(output).wf(),
        old(hash_table).wf(),
        ext_dict@.len() <= stream_offset,
        input@.len() <= u32::MAX,
        stream_offset + input@.len() + input@.len() / 8 + 16 <= usize::MAX,
    ensures
        final(hash_table).wf(),
        final(output).wf(),
        final(output).output@.len() == old(output).output@.len(),
        final(final(output).output)@ == final(old(output).output)@,
        max_output_size(input@.len() - input_pos) > old(output).output@.len() - old(output).pos ==> r
            == Err::<usize, CompressError>(CompressError::OutputTooSmall) && final(output).output@
            == old(output).output@ && final(output).pos == old(output).pos,
        max_output_size(input@.len() - input_pos) <= old(output).output@.len() - old(output).pos ==> (
        r matches Ok(n) && n <= max_output_size(input@.len() - input_pos) && final(output).pos == old(output).pos
            + n && final(output).output@ == splice(
            old(output).output@,
            old(output).pos as int,
            final(output).output@.subrange(old(output).pos as int, final(output).pos as int),
        ) && block_decodes_to(
            final(output).output@.subrange(old(output).pos as int, final(output).pos as int),
            ext_dict@,
            input@,
            input_pos as int,
        ) && block_keeps_rules(
            final(output).output@.subrange(old(output).pos as int, final(output).pos as int),
            input@,
            ext_dict@.len() as int,
            input_pos as int,
        ) && short_block(
            final(output).output@.subrange(old(output).pos as int, final(output).pos as int),
            input@,
            input_pos as int,
        )),
{
    let output_start = output.pos;
    if !fits_output(input.len() - input_pos, output.output.len() - output.pos) {
        return Err(CompressError::OutputTooSmall);
    }
    let ghost buf0 = output.output@;
    let ghost p0 = output_start as int;
    let ghost prefix = input_pos as int;
    let ghost dict = ext_dict@;
    proof {
        lemma_encoder_start(buf0, p0, input@, prefix, ext_dict@);
    }
    if input.len() - input_pos < LZ4_MIN_LENGTH {
        assert(output.output@.subrange(p0, p0) =~= Seq::<u8>::empty());
        let n = emit_last_literals(input, output, input_pos, output_start, Ghost(buf0), Ghost(prefix), Ghost(ext_dict@));
        assert(Seq::<u8>::empty() + last_sequence_bytes(input@.skip(input_pos as int)) =~= last_sequence_bytes(input@.skip(input_pos as int)));
        return Ok(n);
    }
    let input_end = input.len();
    // Inclusive max main-loop `cur`: at least `MFLIMIT` bytes remain from `cur` to `input_end`.
    let end_pos_check = input_end - MFLIMIT;
    // Do not extend matches into the last `LAST_LITERALS` bytes (they are literals).
    let match_limit = input_end - LAST_LITERALS;
    let full_optimal_update = level_params.full_optimal_update;
    let mut literal_start = input_pos;
    let mut cur = input_pos;
    let mut optimal_states = vec![sentinel_state(); LZ4_OPT_NUM + TRAILING_LITERALS];
    let sufficient_match_len = if level_params.sufficient_match_len < LZ4_OPT_NUM - 1 {
        level_params.sufficient_match_len
    } else {
        LZ4_OPT_NUM - 1
    };
    while cur <= end_pos_check
        invariant
            hash_table.wf(),
            output.wf(),
            input_end == input@.len(),
            input_end >= LZ4_MIN_LENGTH,
            end_pos_check == input_end - MFLIMIT,
            match_limit == input_end - LAST_LITERALS,
            dict == ext_dict@,
            ext_dict@.len() <= stream_offset,
            input@.len() <= u32::MAX,
            stream_offset + input@.len() + input@.len() / 8 + 16 <= usize::MAX,
            sufficient_match_len < LZ4_OPT_NUM,
            optimal_states@.len() == LZ4_OPT_NUM + TRAILING_LITERALS,
            literal_start <= cur <= input_end,
            encoder_state(output.output@, output.pos as int, buf0, p0, input@, prefix, literal_start as int, ext_dict@),
            buf0 == old(output).output@,
            p0 == old(output).pos,
            p0 == output_start,
            prefix == input_pos,
            final(output.output)@ == final(old(output).output)@,
        decreases input_end + 1 - cur,
    {
        let literal_length = (cur - literal_start) as i64;
        let ghost base = cur as int;
        let ghost ll = literal_length as int;
        let (first_match_length, first_match_offset) = find_longer_hash_chain_match(
            hash_table,
            input,
            cur,
            match_limit,
            MINMATCH - 1,
            ext_dict,
            stream_offset,
        );
        if first_match_length == 0 {
            cur = cur + 1;
            continue;
        }
        let first_match_length = first_match_length as usize;
        if first_match_length >= sufficient_match_len {
            emit_sequence(
                input,
                output,
                literal_start,
                cur,
                first_match_offset,
                first_match_length,
                Ghost(buf0),
                Ghost(p0),
                Ghost(prefix),
                Ghost(ext_dict@),
            );
            cur = cur + first_match_length;
            literal_start = cur;
            continue;
        }
        initialize_literal_states(&mut optimal_states, literal_length, Ghost(base), Ghost(input@), Ghost(dict), Ghost(match_limit as int));
        let mut last_match_state_index = initialize_first_match_states(
            &mut optimal_states,
            literal_length,
            first_match_length,
            first_match_offset,
            Ghost(base),
            Ghost(input@),
            Ghost(dict),
            Ghost(match_limit as int),
        );
        fill_trailing_literal_states(
            &mut optimal_states,
            last_match_state_index,
            Ghost(base),
            Ghost(ll),
            Ghost(input@),
            Ghost(dict),
            Ghost(match_limit as int),
        );
        let mut encoded_prefix_early = false;
        let mut scan_offset: usize = 1;
        while scan_offset < last_match_state_index
            invariant_except_break
                cur == base,
                scan_offset >= 1,
                !encoded_prefix_early,
            invariant
                hash_table.wf(),
                output.wf(),
                input_end == input@.len(),
                input_end >= LZ4_MIN_LENGTH,
                end_pos_check == input_end - MFLIMIT,
                match_limit == input_end - LAST_LITERALS,
                dict == ext_dict@,
                ext_dict@.len() <= stream_offset,
                input@.len() <= u32::MAX,
                stream_offset + input@.len() + input@.len() / 8 + 16 <= usize::MAX,
                sufficient_match_len < LZ4_OPT_NUM,
                ll == cur - literal_start || encoded_prefix_early,
                parse_bounds(base, ll, input@),
                base == input_pos + (base - input_pos),
                !encoded_prefix_early ==> MINMATCH <= last_match_state_index < LZ4_OPT_NUM,
                !encoded_prefix_early ==> base + last_match_state_index <= match_limit,
                !encoded_prefix_early ==> states_ok(
                    optimal_states@,
                    last_match_state_index + TRAILING_LITERALS,
                    base,
                    ll,
                    input@,
                    dict,
                    match_limit as int,
                ),
                optimal_states@.len() == LZ4_OPT_NUM + TRAILING_LITERALS,
                literal_start <= cur <= input_end,
                encoder_state(output.output@, output.pos as int, buf0, p0, input@, prefix, literal_start as int, ext_dict@),
                buf0 == old(output).output@,
                p0 == old(output).pos,
                p0 == output_start,
                prefix == input_pos,
                final(output.output)@ == final(old(output).output)@,
            ensures
                encoded_prefix_early ==> base < cur <= match_limit,
                !encoded_prefix_early ==> cur == base && ll == cur - literal_start,
            decreases LZ4_OPT_NUM - scan_offset,
        {
            let scan_pos = cur + scan_offset;
            if scan_pos > end_pos_check {
                break;
            }
            assert(state_ok(optimal_states@[scan_offset as int], scan_offset as int, base, ll, input@, dict, match_limit as int));
            if should_skip_optimal_search(&optimal_states, scan_offset, full_optimal_update) {
                scan_offset = scan_offset + 1;
                continue;
            }
            let minimum_match_length = minimum_match_length_to_improve(
                full_optimal_update,
                last_match_state_index,
                scan_offset,
            );
            let (new_match_length, new_match_offset) = find_longer_hash_chain_match(
                hash_table,
                input,
                scan_pos,
                match_limit,
                minimum_match_length,
                ext_dict,
                stream_offset,
            );
            if new_match_length == 0 {
                scan_offset = scan_offset + 1;
                continue;
            }
            let new_match_length = new_match_length as usize;
            if should_encode_optimal_match_early(new_match_length, scan_offset, sufficient_match_len) {
                last_match_state_index = scan_offset + 1;
                let path = reverse_optimal_parse_path(
                    &mut optimal_states,
                    scan_offset,
                    new_match_length as i64,
                    new_match_offset as i64,
                    Ghost(base),
                    Ghost(ll),
                    Ghost(input@),
                    Ghost(dict),
                    Ghost(match_limit as int),
                );
                encode_optimal_parse_path(
                    &optimal_states,
                    last_match_state_index,
                    input,
                    &mut literal_start,
                    &mut cur,
                    output,
                    ext_dict,
                    path,
                    Ghost(match_limit as int),
                    Ghost(buf0),
                    Ghost(p0),
                    Ghost(prefix),
                );
                encoded_prefix_early = true;
                break;
            }
            update_literal_states_before_match(
                &mut optimal_states,
                scan_offset,
                Ghost(last_match_state_index + TRAILING_LITERALS),
                Ghost(base),
                Ghost(ll),
                Ghost(input@),
                Ghost(dict),
                Ghost(match_limit as int),
            );
            update_match_states_from_position(
                &mut optimal_states,
                scan_offset,
                new_match_length,
                new_match_offset,
                &mut last_match_state_index,
                0,
                Ghost(base),
                Ghost(ll),
                Ghost(input@),
                Ghost(dict),
                Ghost(match_limit as int),
            );
            fill_trailing_literal_states(
                &mut optimal_states,
                last_match_state_index,
                Ghost(base),
                Ghost(ll),
                Ghost(input@),
                Ghost(dict),
                Ghost(match_limit as int),
            );
            scan_offset = scan_offset + 1;
        }
        if encoded_prefix_early {
            continue;
        }
        finish_optimal_parse_path(
            &mut optimal_states,
            last_match_state_index,
            input,
            &mut literal_start,
            &mut cur,
            output,
            ext_dict,
            Ghost(ll),
            Ghost(match_limit as int),
            Ghost(buf0),
            Ghost(p0),
            Ghost(prefix),
        );
    }
    let n = emit_last_literals(input, output, literal_start, output_start, Ghost(buf0), Ghost(prefix), Ghost(ext_dict@));
    Ok(n)
}

} // verus!
