//! The compression algorithm.
//!
//! We make use of hash tables to find duplicates. This gives a reasonable compression ratio with a
//! high performance. It has fixed memory usage, which contrary to other approaches, makes it less
//! memory hungry.
use vstd::prelude::*;
use crate::block::{le_u32, le_u32_at, le_u64_at, u32_to_le_bytes};
use crate::block::format::{
    decode_at, decode_block, ext_bytes, lemma_decode_longer_dict, ext_field, last_sequence_bytes, lemma_copy_back_repeats, lemma_decode_last_sequence,
    lemma_decode_sequence, lemma_ext_bytes_len, sat, sequence_bytes, token_byte, nibble,
};
use crate::block::{
    CompressError, DecompressError, END_OFFSET, LAST_LITERALS, LZ4_MIN_LENGTH, MAX_DISTANCE, MFLIMIT, MINMATCH, WINDOW_SIZE,
};
use crate::block::decompress::slice_range;
use crate::block::hashtable::{HashTable, HashTable4K, HashTable4KU16};
use crate::sink::{lemma_splice_append, lemma_splice_byte, lemma_splice_empty, splice, Sink, SliceSink};

verus! {

/// Reads the 4 bytes at `n` as a little-endian "batch".
pub fn get_batch(input: &[u8], n: usize) -> (r: u32)
    requires
        n + 4 <= input@.len(),
    ensures
        r as nat == le_u32_at(input@, n as int),
{
    let b0 = input[n] as u32;
    let b1 = input[n + 1] as u32;
    let b2 = input[n + 2] as u32;
    let b3 = input[n + 3] as u32;
    b0 + 256 * b1 + 65536 * b2 + 16777216 * b3
}

/// Reads the 8 bytes at `n` as a little-endian "batch".
pub fn get_batch_arch(input: &[u8], n: usize) -> (r: u64)
    requires
        n + 8 <= input@.len(),
    ensures
        r as nat == le_u64_at(input@, n as int),
{
    let _len = input.len();
    let lo = get_batch(input, n) as u64;
    let hi = get_batch(input, n + 4) as u64;
    lo + 4294967296 * hi
}

} // verus!

verus! {

/// Number of bytes of the length extension that follows a nibble field of value `n`.
pub open spec fn ext_len(n: nat) -> nat {
    if n >= 15 {
        ((n - 15) as nat / 255 + 1) as nat
    } else {
        0
    }
}

/// The length extension of a field has `ext_len` bytes, and at most a fifteenth of the
/// field's value.
pub proof fn lemma_ext_field_len(n: nat)
    ensures
        ext_field(n).len() == ext_len(n),
        15 * ext_len(n) <= n,
{
    if n >= 15 {
        lemma_ext_bytes_len((n - 15) as nat);
        let m = (n - 15) as nat;
        assert(15 * (m / 255 + 1) <= m + 15) by (nonlinear_arith);
    }
}

/// Size of an encoded sequence.
pub proof fn lemma_sequence_bytes_len(lits: Seq<u8>, offset: nat, ml_code: nat)
    ensures
        sequence_bytes(lits, offset, ml_code).len() == 3 + lits.len() + ext_len(lits.len()) + ext_len(ml_code),
        15 * sequence_bytes(lits, offset, ml_code).len() <= 16 * (lits.len() + ml_code + 4),
{
    lemma_ext_field_len(lits.len());
    lemma_ext_field_len(ml_code);
}

/// Size of an encoded last sequence.
pub proof fn lemma_last_sequence_bytes_len(lits: Seq<u8>)
    ensures
        last_sequence_bytes(lits).len() == 1 + lits.len() + ext_len(lits.len()),
        15 * last_sequence_bytes(lits).len() <= 16 * lits.len() + 15,
{
    lemma_ext_field_len(lits.len());
}

/// `n + 255 * k` is encoded as `k` bytes `255` followed by the encoding of `n`.
proof fn lemma_ext_bytes_split(n: nat, k: nat)
    ensures
        ext_bytes(n + 255 * k) == Seq::new(k, |i: int| 255u8) + ext_bytes(n),
    decreases k,
{
    if k > 0 {
        lemma_ext_bytes_split(n, (k - 1) as nat);
        assert((n + 255 * k - 255) as nat == n + 255 * (k - 1) as nat);
        assert(seq![255u8] + (Seq::new((k - 1) as nat, |i: int| 255u8) + ext_bytes(n)) =~= Seq::new(
            k,
            |i: int| 255u8,
        ) + ext_bytes(n));
    }
}

fn token_from_literal(lit_len: usize) -> (r: u8)
    ensures
        r == token_byte(lit_len as nat, 0),
{
    if lit_len < 0xF {
        let l = lit_len as u8;
        assert(l << 4u8 == l * 16) by (bit_vector)
            requires
                l < 15,
        ;
        l << 4u8
    } else {
        0xF0
    }
}

fn token_from_literal_and_match_length(lit_len: usize, duplicate_length: usize) -> (r: u8)
    ensures
        r == token_byte(lit_len as nat, duplicate_length as nat),
{
    let token: u8 = if lit_len < 0xF {
        let l = lit_len as u8;
        assert(l << 4u8 == l * 16) by (bit_vector)
            requires
                l < 15,
        ;
        l << 4u8
    } else {
        0xF0
    };
    let low: u8 = if duplicate_length < 0xF {
        duplicate_length as u8
    } else {
        0xF
    };
    assert(token % 16 == 0);
    assert(token | low == token + low) by (bit_vector)
        requires
            token % 16 == 0,
            low < 16,
    ;
    token | low
}

/// The largest number of bytes that [`count_same_bytes`] compares.
pub open spec fn compare_window(cur: int, match_limit: int, source_len: int, candidate: int) -> int {
    let max_input = if match_limit > cur { match_limit - cur } else { 0 };
    let max_source = source_len - candidate;
    if max_input < max_source { max_input } else { max_source }
}

/// Counts the number of same bytes in two byte streams.
/// `input` is the complete input
/// `cur` is the current position in the input. it will be incremented by the number of matched
/// bytes `source` either the same as input or an external slice
/// `candidate` is the candidate position in `source`
/// `match_limit` is the absolute position in `input` beyond which we must not read
pub fn count_same_bytes(input: &[u8], cur: &mut usize, source: &[u8], candidate: usize, match_limit: usize) -> (n: usize)
    requires
        *old(cur) <= input@.len(),
        match_limit <= input@.len(),
        candidate <= source@.len(),
    ensures
        n <= compare_window(*old(cur) as int, match_limit as int, source@.len() as int, candidate as int),
        *final(cur) == *old(cur) + n,
        forall|k: int| 0 <= k < n ==> #[trigger] input@[*old(cur) + k] == source@[candidate + k],
        n < compare_window(*old(cur) as int, match_limit as int, source@.len() as int, candidate as int)
            ==> input@[*old(cur) + n] != source@[candidate + n],
{
    let max_input = if match_limit > *cur { match_limit - *cur } else { 0 };
    let max_source = source.len() - candidate;
    let max_len = if max_input < max_source { max_input } else { max_source };
    let start = *cur;
    let _input_len = input.len();
    let mut num: usize = 0;
    while num < max_len && input[start + num] == source[candidate + num]
        invariant
            num <= max_len,
            max_len == compare_window(start as int, match_limit as int, source@.len() as int, candidate as int),
            start + max_len <= input@.len(),
            candidate + max_len <= source@.len(),
            source@.len() <= usize::MAX,
            input@.len() <= usize::MAX,
            forall|k: int| 0 <= k < num ==> #[trigger] input@[start + k] == source@[candidate + k],
        decreases max_len - num,
    {
        num = num + 1;
    }
    *cur = start + num;
    num
}

/// Write an integer to the output.
///
/// Each additional byte then represent a value from 0 to 255, which is added to the previous value
/// to produce a total length. When the byte value is 255, another byte must read and added, and so
/// on. There can be any number of bytes of value "255" following token
pub fn write_integer(output: &mut SliceSink, n: usize)
    requires
        old(output).wf(),
        old(output).pos + ext_bytes(n as nat).len() <= old(output).output@.len(),
    ensures
        final(output).pos == old(output).pos + ext_bytes(n as nat).len(),
        final(output).output@ == splice(old(output).output@, old(output).pos as int, ext_bytes(n as nat)),
        final(final(output).output)@ == final(old(output).output)@,
{
    let ghost n0 = n as nat;
    let ghost buf0 = output.output@;
    let ghost p0 = output.pos as int;
    proof {
        lemma_ext_bytes_len(n0);
        lemma_splice_empty(buf0, p0);
    }
    let mut n = n;
    let mut k: usize = 0;
    while n >= 0xFF
        invariant
            n0 == n + 255 * k,
            0 <= p0,
            p0 + n0 / 255 + 1 <= buf0.len(),
            output.pos == p0 + k,
            output.output@ == splice(buf0, p0, Seq::new(k as nat, |i: int| 255u8)),
            final(output.output)@ == final(old(output).output)@,
        decreases n,
    {
        assert(n0 / 255 >= k + 1) by (nonlinear_arith)
            requires
                n0 >= 255 * (k + 1),
        ;
        let ghost before = output.output@;
        n = n - 0xFF;
        output.push(0xFF);
        proof {
            lemma_splice_byte(before, p0 + k, 255u8);
            lemma_splice_append(buf0, p0, Seq::new(k as nat, |i: int| 255u8), seq![255u8]);
            assert(Seq::new(k as nat, |i: int| 255u8) + seq![255u8] =~= Seq::new((k + 1) as nat, |i: int| 255u8));
        }
        k = k + 1;
    }
    assert(n0 / 255 == k) by (nonlinear_arith)
        requires
            n0 == n + 255 * k,
            n < 255,
    ;
    let ghost before = output.output@;
    output.push(n as u8);
    proof {
        lemma_splice_byte(before, p0 + k, n as u8);
        lemma_splice_append(buf0, p0, Seq::new(k as nat, |i: int| 255u8), seq![n as u8]);
        lemma_ext_bytes_split(n as nat, k as nat);
        assert(ext_bytes(n as nat) == seq![n as u8]);
    }
}

/// Handle the last bytes from the input as literals
pub fn handle_last_literals(output: &mut SliceSink, input: &[u8])
    requires
        old(output).wf(),
        old(output).pos + last_sequence_bytes(input@).len() <= old(output).output@.len(),
    ensures
        final(output).pos == old(output).pos + last_sequence_bytes(input@).len(),
        final(output).output@ == splice(old(output).output@, old(output).pos as int, last_sequence_bytes(input@)),
        final(final(output).output)@ == final(old(output).output)@,
{
    let ghost buf0 = output.output@;
    let ghost p0 = output.pos as int;
    let lit_len = input.len();
    proof {
        lemma_last_sequence_bytes_len(input@);
        lemma_ext_field_len(lit_len as nat);
    }
    let token = token_from_literal(lit_len);
    output.push(token);
    proof {
        lemma_splice_byte(buf0, p0, token);
    }
    let ghost head = seq![token];
    if lit_len >= 0xF {
        let ghost before = output.output@;
        write_integer(output, lit_len - 0xF);
        proof {
            lemma_splice_append(buf0, p0, head, ext_bytes((lit_len - 15) as nat));
        }
    } else {
        assert(head + ext_field(lit_len as nat) =~= head);
    }
    let ghost mid = head + ext_field(lit_len as nat);
    assert(output.output@ == splice(buf0, p0, mid));
    output.extend_from_slice(input);
    proof {
        lemma_splice_append(buf0, p0, mid, input@);
    }
}

/// Moves the cursors back as long as the bytes match, to find additional bytes in a duplicate
pub fn backtrack_match(input: &[u8], cur: &mut usize, literal_start: usize, source: &[u8], candidate: &mut usize)
    requires
        literal_start <= *old(cur) <= input@.len(),
        *old(candidate) <= source@.len(),
    ensures
        literal_start <= *final(cur) <= *old(cur),
        *old(cur) - *final(cur) == *old(candidate) - *final(candidate),
        *final(candidate) <= *old(candidate),
        forall|j: int| *final(cur) <= j < *old(cur) ==> #[trigger] input@[j] == source@[j - *old(cur) + *old(candidate)],
        *final(candidate) > 0 && *final(cur) > literal_start ==> input@[*final(cur) - 1] != source@[*final(candidate) - 1],
{
    let ghost c0 = *cur;
    let ghost k0 = *candidate;
    while *candidate > 0 && *cur > literal_start && input[*cur - 1] == source[*candidate - 1]
        invariant
            literal_start <= *cur <= c0,
            c0 <= input@.len(),
            k0 <= source@.len(),
            c0 - *cur == k0 - *candidate,
            forall|j: int| *cur <= j < c0 ==> #[trigger] input@[j] == source@[j - c0 + k0],
        decreases *cur,
    {
        *cur = *cur - 1;
        *candidate = *candidate - 1;
    }
}

/// Writes the low and the high byte of `el`.
fn push_u16(output: &mut SliceSink, el: u16)
    requires
        old(output).wf(),
        old(output).pos + 2 <= old(output).output@.len(),
    ensures
        final(output).pos == old(output).pos + 2,
        final(output).output@ == splice(old(output).output@, old(output).pos as int, seq![(el % 256) as u8, (el / 256) as u8]),
        final(final(output).output)@ == final(old(output).output)@,
{
    let ghost buf0 = output.output@;
    let ghost p0 = output.pos as int;
    output.push((el % 256) as u8);
    proof {
        lemma_splice_byte(buf0, p0, (el % 256) as u8);
    }
    let ghost before = output.output@;
    output.push((el / 256) as u8);
    proof {
        lemma_splice_byte(before, p0 + 1, (el / 256) as u8);
        lemma_splice_append(buf0, p0, seq![(el % 256) as u8], seq![(el / 256) as u8]);
        assert(seq![(el % 256) as u8] + seq![(el / 256) as u8] =~= seq![(el % 256) as u8, (el / 256) as u8]);
    }
}

/// Writes one sequence: the token, the literal length extension, the literals, the offset and
/// the match length extension.
pub fn encode_sequence(literal: &[u8], output: &mut SliceSink, offset: u16, match_len: usize)
    requires
        old(output).wf(),
        old(output).pos + sequence_bytes(literal@, offset as nat, match_len as nat).len() <= old(output).output@.len(),
    ensures
        final(output).pos == old(output).pos + sequence_bytes(literal@, offset as nat, match_len as nat).len(),
        final(output).output@ == splice(
            old(output).output@,
            old(output).pos as int,
            sequence_bytes(literal@, offset as nat, match_len as nat),
        ),
        final(final(output).output)@ == final(old(output).output)@,
{
    let ghost buf0 = output.output@;
    let ghost p0 = output.pos as int;
    proof {
        lemma_sequence_bytes_len(literal@, offset as nat, match_len as nat);
        lemma_ext_field_len(literal@.len());
        lemma_ext_field_len(match_len as nat);
    }
    let token = token_from_literal_and_match_length(literal.len(), match_len);
    output.push(token);
    proof {
        lemma_splice_byte(buf0, p0, token);
    }
    let ghost d1 = seq![token];
    if literal.len() >= 0xF {
        write_integer(output, literal.len() - 0xF);
        proof {
            lemma_splice_append(buf0, p0, d1, ext_bytes((literal@.len() - 15) as nat));
        }
    } else {
        assert(d1 + ext_field(literal@.len()) =~= d1);
    }
    let ghost d2 = d1 + ext_field(literal@.len());
    output.extend_from_slice(literal);
    proof {
        lemma_splice_append(buf0, p0, d2, literal@);
    }
    let ghost d3 = d2 + literal@;
    push_u16(output, offset);
    proof {
        lemma_splice_append(buf0, p0, d3, seq![(offset % 256) as u8, (offset / 256) as u8]);
    }
    let ghost d4 = d3 + seq![(offset % 256) as u8, (offset / 256) as u8];
    if match_len >= 0xF {
        write_integer(output, match_len - 0xF);
        proof {
            lemma_splice_append(buf0, p0, d4, ext_bytes((match_len - 15) as nat));
        }
    } else {
        assert(d4 + ext_field(match_len as nat) =~= d4);
    }
    assert(d4 + ext_field(match_len as nat) =~= sequence_bytes(literal@, offset as nat, match_len as nat));
}

/// Bound on the compressed size of `n` input bytes.
pub open spec fn max_output_size(n: int) -> int {
    20 + n * 110 / 100
}

/// Returns the maximum output size of the compressed data.
/// Can be used to preallocate capacity on the output vector
pub fn get_maximum_output_size(input_len: usize) -> (r: usize)
    ensures
        r == sat(max_output_size(input_len as int)),
{
    let m: u128 = (input_len as u128) * 110 / 100 + 20;
    if m > usize::MAX as u128 {
        usize::MAX
    } else {
        m as usize
    }
}

} // verus!

verus! {

/// `bytes` begins a block that, decoded after the output `input.take(prefix)` with `dict`
/// before it, has produced `input.take(done)` once `bytes` are read, whatever follows them.
pub open spec fn decodes_prefix(bytes: Seq<u8>, input: Seq<u8>, prefix: int, done: int, dict: Seq<u8>) -> bool {
    forall|t: Seq<u8>, cap: int|
        t.len() > bytes.len() && t.take(bytes.len() as int) == bytes && cap >= input.len()
            ==> #[trigger] decode_at(t, 0, input.take(prefix), dict, cap) == decode_at(
            t,
            bytes.len() as int,
            input.take(done),
            dict,
            cap,
        )
}

/// Decoding `block` after the output `input.take(prefix)`, with `dict` before it, gives back
/// `input` in any output buffer that can hold it.
pub open spec fn block_decodes_to(block: Seq<u8>, dict: Seq<u8>, input: Seq<u8>, prefix: int) -> bool {
    forall|cap: int|
        cap >= input.len() ==> #[trigger] decode_at(block, 0, input.take(prefix), dict, cap) == Ok::<
            Seq<u8>,
            DecompressError,
        >(input)
}

/// The `n` bytes of `d` at `m` each equal the byte `offset` positions before them.
pub open spec fn repeats(d: Seq<u8>, m: int, offset: int, n: int) -> bool {
    forall|k: int| 0 <= k < n ==> #[trigger] d[m + k] == d[m + k - offset]
}

/// Nothing is emitted yet: the decoder is where it started.
proof fn lemma_decodes_prefix_start(input: Seq<u8>, prefix: int, dict: Seq<u8>)
    ensures
        decodes_prefix(Seq::empty(), input, prefix, prefix, dict),
{
}

/// Emitting a sequence whose match repeats earlier bytes moves the decoder past the match.
proof fn lemma_emit_sequence(
    bytes: Seq<u8>,
    input: Seq<u8>,
    prefix: int,
    done: int,
    dict: Seq<u8>,
    start: int,
    offset: nat,
    ml_code: nat,
)
    requires
        decodes_prefix(bytes, input, prefix, done, dict),
        0 <= done <= start,
        start + ml_code + 4 <= input.len(),
        0 < offset < 65536,
        offset <= dict.len() + start,
        repeats(dict + input, dict.len() + start, offset as int, ml_code + 4 as int),
    ensures
        decodes_prefix(
            bytes + sequence_bytes(input.subrange(done, start), offset, ml_code),
            input,
            prefix,
            start + ml_code + 4,
            dict,
        ),
{
    let lits = input.subrange(done, start);
    let enc = sequence_bytes(lits, offset, ml_code);
    let b2 = bytes + enc;
    let next = start + ml_code + 4;
    let d = dict + input;
    let m = dict.len() + start;
    assert(dict + input.take(done) + lits =~= d.take(m));
    lemma_copy_back_repeats(d, m, offset as int, (ml_code + 4) as nat);
    assert(d.take(m + ml_code + 4).skip(dict.len() as int) =~= input.take(next));
    assert forall|t: Seq<u8>, cap: int|
        t.len() > b2.len() && t.take(b2.len() as int) == b2 && cap >= input.len() implies #[trigger] decode_at(
        t,
        0,
        input.take(prefix),
        dict,
        cap,
    ) == decode_at(t, b2.len() as int, input.take(next), dict, cap) by {
        assert(t.take(bytes.len() as int) =~= b2.take(bytes.len() as int));
        assert(b2.take(bytes.len() as int) =~= bytes);
        assert(t.subrange(bytes.len() as int, (bytes.len() + enc.len()) as int) =~= b2.subrange(
            bytes.len() as int,
            b2.len() as int,
        ));
        assert(b2.subrange(bytes.len() as int, b2.len() as int) =~= enc);
        lemma_decode_sequence(t, bytes.len() as int, input.take(done), dict, cap, lits, offset, ml_code);
    }
}

/// Emitting the remaining input as the last sequence completes the block.
proof fn lemma_emit_last(bytes: Seq<u8>, input: Seq<u8>, prefix: int, done: int, dict: Seq<u8>)
    requires
        decodes_prefix(bytes, input, prefix, done, dict),
        0 <= done <= input.len(),
    ensures
        block_decodes_to(bytes + last_sequence_bytes(input.skip(done)), dict, input, prefix),
{
    let last = last_sequence_bytes(input.skip(done));
    let t = bytes + last;
    assert forall|cap: int| cap >= input.len() implies #[trigger] decode_at(
        t,
        0,
        input.take(prefix),
        dict,
        cap,
    ) == Ok::<Seq<u8>, DecompressError>(input) by {
        assert(t.take(bytes.len() as int) =~= bytes);
        assert(t.subrange(bytes.len() as int, t.len() as int) =~= last);
        lemma_decode_last_sequence(t, bytes.len() as int, input.take(done), dict, cap, input.skip(done));
        assert(input.take(done) + input.skip(done) =~= input);
    }
}

/// Four bytes are determined by their little-endian value.
pub proof fn lemma_le_u32_injective(a0: u8, a1: u8, a2: u8, a3: u8, b0: u8, b1: u8, b2: u8, b3: u8)
    requires
        le_u32(a0, a1, a2, a3) == le_u32(b0, b1, b2, b3),
    ensures
        a0 == b0 && a1 == b1 && a2 == b2 && a3 == b3,
{
    let x = le_u32(a0, a1, a2, a3);
    assert(x % 256 == a0 && x % 256 == b0) by (nonlinear_arith)
        requires
            x == a0 + 256 * a1 + 65536 * a2 + 16777216 * a3,
            x == b0 + 256 * b1 + 65536 * b2 + 16777216 * b3,
            a0 < 256,
            b0 < 256,
    ;
    assert(x / 256 == a1 + 256 * a2 + 65536 * a3 && x / 256 == b1 + 256 * b2 + 65536 * b3) by (nonlinear_arith)
        requires
            x == a0 + 256 * a1 + 65536 * a2 + 16777216 * a3,
            x == b0 + 256 * b1 + 65536 * b2 + 16777216 * b3,
            a0 < 256,
            b0 < 256,
    ;
    let y = x / 256;
    assert(y % 256 == a1 && y % 256 == b1 && y / 256 == a2 + 256 * a3 && y / 256 == b2 + 256 * b3) by (nonlinear_arith)
        requires
            y == a1 + 256 * a2 + 65536 * a3,
            y == b1 + 256 * b2 + 65536 * b3,
            a1 < 256,
            b1 < 256,
    ;
    let z = y / 256;
    assert(z % 256 == a2 && z % 256 == b2 && z / 256 == a3 && z / 256 == b3) by (nonlinear_arith)
        requires
            z == a2 + 256 * a3,
            z == b2 + 256 * b3,
            a2 < 256,
            b2 < 256,
    ;
}

/// Emitted sizes stay within [`max_output_size`].
proof fn lemma_fits_max_output(x: int, n: int)
    requires
        0 <= n,
        15 * x <= 16 * n + 15,
    ensures
        x <= max_output_size(n),
{
    assert(x <= 20 + n * 110 / 100) by (nonlinear_arith)
        requires
            0 <= n,
            15 * x <= 16 * n + 15,
    ;
}

/// A value reduced modulo a positive number is not larger than the value.
proof fn lemma_mod_le(v: nat, m: nat)
    requires
        m > 0,
    ensures
        v % m <= v,
{
    assert(v % m <= v) by (nonlinear_arith)
        requires
            m > 0,
    ;
}

} // verus!

verus! {

/// Increase step size after 1<<INCREASE_STEPSIZE_BITSHIFT non matches
const INCREASE_STEPSIZE_BITSHIFT: usize = 5;

/// Whether an output with `remaining` free bytes can hold the compression of `input_len` bytes.
pub fn fits_output(input_len: usize, remaining: usize) -> (r: bool)
    ensures
        r == (max_output_size(input_len as int) <= remaining),
{
    (input_len as u128) * 110 / 100 + 20 <= remaining as u128
}

/// Compress all bytes of `input[input_pos..]` into `output`.
///
/// Bytes in `input[..input_pos]` are treated as a preamble and can be used for lookback.
/// This part is known as the compressor "prefix".
/// Bytes in `ext_dict` logically precede the bytes in `input` and can also be used for lookback.
///
/// `input_stream_offset` is the logical position of the first byte of `input`. This allows same
/// `dict` to be used for many calls to `compress_internal` as we can "readdress" the first byte of
/// `input` to be something other than 0.
///
/// `dict` is the dictionary of previously encoded sequences.
///
/// This is used to find duplicates in the stream so they are not written multiple times.
///
/// Every four bytes are hashed, and in the resulting slot their position in the input buffer
/// is placed in the dict. This way we can easily look up a candidate to back references.
/// A candidate is only used after its bytes were compared with the bytes at the cursor, so a
/// stale or colliding entry costs compression ratio, never correctness.
///
/// Returns the number of bytes written (compressed) into `output`: a block that decodes, after
/// the output `input[..input_pos]` and with `ext_dict` before it, to `input`.
///
/// `USE_DICT` enables matches in `ext_dict`; without it `ext_dict` must be empty.
#[verifier::rlimit(100)]
#[verifier::spinoff_prover]
pub fn compress_internal<T: HashTable, const USE_DICT: bool>(
    input: &[u8],
    input_pos: usize,
    output: &mut SliceSink,
    dict: &mut T,
    ext_dict: &[u8],
    input_stream_offset: usize,
) -> (r: Result<usize, CompressError>)
    requires
        input_pos <= input@.len(),
        old(output).wf(),
        old(dict).wf(),
        USE_DICT ==> ext_dict@.len() <= WINDOW_SIZE && ext_dict@.len() <= input_stream_offset
            && input_stream_offset + input@.len() + ext_dict@.len() <= isize::MAX,
        !USE_DICT ==> ext_dict@.len() == 0,
        input_stream_offset + input@.len() + input@.len() / 8 + 64 <= usize::MAX,
        forall|k: int|
            0 <= k < old(dict).entries().len() ==> #[trigger] old(dict).entries()[k] == 0
                || old(dict).entries()[k] < input_stream_offset + input_pos,
    ensures
        final(dict).wf(),
        forall|k: int|
            0 <= k < final(dict).entries().len() ==> #[trigger] final(dict).entries()[k] == 0 || final(dict).entries()[k]
                < input_stream_offset + input@.len(),
        final(output).wf(),
        final(output).output@.len() == old(output).output@.len(),
        final(final(output).output)@ == final(old(output).output)@,
        max_output_size(input@.len() - input_pos) > old(output).output@.len() - old(output).pos ==> r
            == Err::<usize, CompressError>(CompressError::OutputTooSmall) && final(output).output@
            == old(output).output@ && final(output).pos == old(output).pos && *final(dict) == *old(dict),
        max_output_size(input@.len() - input_pos) <= old(output).output@.len() - old(output).pos ==> (
        r matches Ok(n) && n <= max_output_size(input@.len() - input_pos) && final(output).pos == old(output).pos
            + n && final(output).output@ == splice(
            old(output).output@,
            old(output).pos as int,
            final(output).output@.subrange(old(output).pos as int, final(output).pos as int),
        ) && block_decodes_to(
            final(output).output@.subrange(old(output).pos as int, final(output).pos as int),
            ext_dict@,
            input@,
            input_pos as int,
        ) && block_keeps_rules(
            final(output).output@.subrange(old(output).pos as int, final(output).pos as int),
            input@,
            ext_dict@.len() as int,
            input_pos as int,
        ) && short_block(
            final(output).output@.subrange(old(output).pos as int, final(output).pos as int),
            input@,
            input_pos as int,
        )),
        max_output_size(input@.len() - input_pos) <= old(output).output@.len() - old(output).pos ==> final(output).output@.subrange(
            old(output).pos as int,
            final(output).pos as int,
        ) == fast_block::<T>(input@, input_pos as int, ext_dict@, input_stream_offset as int, old(dict).entries()),
        max_output_size(input@.len() - input_pos) <= old(output).output@.len() - old(output).pos ==> block_within(
            final(output).output@.subrange(old(output).pos as int, final(output).pos as int),
            input@,
            ext_dict@.len() as int,
            input_pos as int,
            MFLIMIT as int,
            END_OFFSET as int,
        ),
{
    let ghost inp = input@;
    let ghost iso = input_stream_offset as int;
    let ghost total = fast_block::<T>(input@, input_pos as int, ext_dict@, iso, old(dict).entries());
    let ghost xd = ext_dict@;
    let ghost xl = ext_dict@.len() as int;
    let ghost d = ext_dict@ + input@;
    let ghost buf0 = output.output@;
    let ghost pp = input_pos as int;
    let ghost n = input@.len() - input_pos;
    let output_start_pos = output.pos;
    let ghost p0 = output_start_pos as int;
    if !fits_output(input.len() - input_pos, output.output.len() - output.pos) {
        return Err(CompressError::OutputTooSmall);
    }
    proof {
        lemma_decodes_prefix_start(inp, pp, xd);
        lemma_ruled_start(inp, xl, pp);
        lemma_within_start(inp, xl, pp, MFLIMIT as int, END_OFFSET as int);
        lemma_splice_empty(buf0, p0);
    }
    if input.len() - input_pos < LZ4_MIN_LENGTH {
        let rest = slice_range(input, input_pos, input.len());
        proof {
            assert(rest@ =~= inp.skip(pp));
            lemma_last_sequence_bytes_len(rest@);
            lemma_fits_max_output(last_sequence_bytes(rest@).len() as int, n);
        }
        handle_last_literals(output, rest);
        proof {
            lemma_emit_last(Seq::empty(), inp, pp, pp, xd);
            lemma_ruled_last(Seq::empty(), inp, xl, pp, pp);
            lemma_within_last(Seq::empty(), inp, xl, pp, pp, MFLIMIT as int, END_OFFSET as int);
            assert(Seq::<u8>::empty() + last_sequence_bytes(inp.skip(pp)) =~= last_sequence_bytes(inp.skip(pp)));
            assert(output.output@.subrange(p0, output.pos as int) =~= last_sequence_bytes(rest@));
        }
        return Ok(output.pos - output_start_pos);
    }
    let ext_dict_stream_offset = input_stream_offset - ext_dict.len();
    let end_pos_check = input.len() - MFLIMIT;
    let mut literal_start = input_pos;
    let mut cur = input_pos;
    if cur == 0 && input_stream_offset == 0 {
        // According to the spec we can't start with a match,
        // except when referencing another block.
        let hash = T::get_hash_at(input, 0);
        proof {
            dict.lemma_slots();
        }
        dict.put_at(hash, 0);
        cur = 1;
        proof {
            assert(((0 as nat) % T::value_modulus()) as usize == 0usize);
        }
    }
    proof {
        dict.lemma_slots();
    }
    assert(fast_search::<T>(inp, xd, iso, dict.entries(), literal_start as int, 32, cur as int) == total);
    let ghost mut emitted: Seq<u8> = Seq::empty();
    loop
        invariant
            inp == input@,
            xd == ext_dict@,
            xl == xd.len(),
            d == xd + inp,
            buf0 == old(output).output@,
            pp == input_pos,
            n == inp.len() - pp,
            n >= LZ4_MIN_LENGTH,
            p0 == old(output).pos,
            p0 == output_start_pos,
            max_output_size(n) <= buf0.len() - p0,
            end_pos_check == inp.len() - MFLIMIT,
            ext_dict_stream_offset == input_stream_offset - xl,
            USE_DICT ==> xl <= input_stream_offset,
            !USE_DICT ==> xl == 0,
            input_stream_offset + inp.len() + inp.len() / 8 + 64 <= usize::MAX,
            pp <= literal_start <= cur,
            cur + 6 <= inp.len(),
            output.wf(),
            output.output@.len() == buf0.len(),
            output.pos == p0 + emitted.len(),
            output.output@ == splice(buf0, p0, emitted),
            final(output.output)@ == final(old(output).output)@,
            decodes_prefix(emitted, inp, pp, literal_start as int, xd),
            ruled_prefix_within(emitted, inp, xl, pp, literal_start as int, MFLIMIT as int, END_OFFSET as int),
            15 * emitted.len() <= 16 * (literal_start - pp),
            iso == input_stream_offset,
            total == fast_block::<T>(inp, pp, xd, iso, old(dict).entries()),
            emitted + fast_search::<T>(inp, xd, iso, dict.entries(), literal_start as int, 32, cur as int) == total,
            dict.wf(),
            T::value_modulus() > 0,
            forall|k: int| 0 <= k < dict.entries().len() ==> #[trigger] dict.entries()[k] < input_stream_offset + cur,
            forall|k: int| 0 <= k < dict.entries().len() ==> #[trigger] dict.entries()[k] < input_stream_offset + inp.len(),
        decreases inp.len() - literal_start,
    {
        let mut step_size: usize;
        let mut candidate: usize = 0;
        let mut candidate_source: &[u8] = input;
        let ghost mut src_base: int = xl;
        let mut offset: u16 = 0;
        assert(1usize << 5usize == 32) by (bit_vector);
        let mut non_match_count: usize = 1 << INCREASE_STEPSIZE_BITSHIFT;
        // The number of bytes before our cursor, where the duplicate starts.
        let mut next_cur = cur;
        // In this loop we search for duplicates via the hashtable. 4bytes or 8bytes are hashed and
        // compared.
        loop
            invariant_except_break
                cur <= next_cur,
                next_cur <= inp.len() + inp.len() / 32,
                32 <= non_match_count <= 32 + next_cur,
                forall|k: int| 0 <= k < dict.entries().len() ==> #[trigger] dict.entries()[k] < input_stream_offset + next_cur,
                emitted + fast_search::<T>(inp, xd, iso, dict.entries(), literal_start as int, non_match_count as int, next_cur as int) == total,
            invariant
                inp == input@,
                xd == ext_dict@,
                xl == xd.len(),
                d == xd + inp,
                buf0 == old(output).output@,
                pp == input_pos,
                n == inp.len() - pp,
                n >= LZ4_MIN_LENGTH,
                p0 == old(output).pos,
                p0 == output_start_pos,
                max_output_size(n) <= buf0.len() - p0,
                end_pos_check == inp.len() - MFLIMIT,
                ext_dict_stream_offset == input_stream_offset - xl,
                USE_DICT ==> xl <= input_stream_offset,
                !USE_DICT ==> xl == 0,
                input_stream_offset + inp.len() + inp.len() / 8 + 64 <= usize::MAX,
                pp <= literal_start <= cur,
                literal_start + 6 <= inp.len(),
                output.wf(),
                output.output@.len() == buf0.len(),
                output.pos == p0 + emitted.len(),
                output.output@ == splice(buf0, p0, emitted),
                final(output.output)@ == final(old(output).output)@,
                decodes_prefix(emitted, inp, pp, literal_start as int, xd),
                ruled_prefix_within(emitted, inp, xl, pp, literal_start as int, MFLIMIT as int, END_OFFSET as int),
                15 * emitted.len() <= 16 * (literal_start - pp),
                iso == input_stream_offset,
                total == fast_block::<T>(inp, pp, xd, iso, old(dict).entries()),
                dict.wf(),
                T::value_modulus() > 0,
                forall|k: int| 0 <= k < dict.entries().len() ==> #[trigger] dict.entries()[k] < input_stream_offset + inp.len(),
            ensures
                emitted + fast_match::<T>(inp, xd, iso, dict.entries(), literal_start as int, cur as int, candidate_source@, candidate as int, offset as int) == total,
                cur <= end_pos_check,
                forall|k: int| 0 <= k < dict.entries().len() ==> #[trigger] dict.entries()[k] <= input_stream_offset + cur,
                candidate + 4 <= candidate_source@.len(),
                0 <= src_base,
                src_base + candidate_source@.len() <= d.len(),
                candidate_source@ == d.subrange(src_base, src_base + candidate_source@.len()),
                src_base + candidate == xl + cur - offset,
                0 < offset,
                repeats(d, xl + cur, offset as int, 4),
            decreases inp.len() + inp.len() / 32 + 1 - next_cur,
        {
            assert(non_match_count >> 5usize == non_match_count / 32) by (bit_vector);
            assert(next_cur + non_match_count / 32 <= inp.len() + inp.len() / 8 + 64) by (nonlinear_arith)
                requires
                    next_cur <= inp.len() + inp.len() / 32,
                    non_match_count <= 32 + next_cur,
            ;
            let ghost e0 = dict.entries();
            let ghost c0 = non_match_count as int;
            let ghost n0 = next_cur as int;
            step_size = non_match_count >> INCREASE_STEPSIZE_BITSHIFT;
            non_match_count = non_match_count + 1;
            cur = next_cur;
            next_cur = next_cur + step_size;
            // Same as cur + MFLIMIT > input.len()
            if cur > end_pos_check {
                let rest = slice_range(input, literal_start, input.len());
                proof {
                    assert(rest@ =~= inp.skip(literal_start as int));
                    lemma_last_sequence_bytes_len(rest@);
                    lemma_fits_max_output((emitted.len() + last_sequence_bytes(rest@).len()) as int, n);
                }
                let ghost before = output.output@;
                handle_last_literals(output, rest);
                proof {
                    lemma_splice_append(buf0, p0, emitted, last_sequence_bytes(rest@));
                    lemma_emit_last(emitted, inp, pp, literal_start as int, xd);
                    lemma_within_ruled(emitted, inp, xl, pp, literal_start as int, MFLIMIT as int, END_OFFSET as int);
                    lemma_ruled_last(emitted, inp, xl, pp, literal_start as int);
                    lemma_within_last(emitted, inp, xl, pp, literal_start as int, MFLIMIT as int, END_OFFSET as int);
                    assert(output.output@.subrange(p0, output.pos as int) =~= emitted + last_sequence_bytes(rest@));
                    assert(fast_search::<T>(inp, xd, iso, e0, literal_start as int, c0, n0) == last_sequence_bytes(rest@)) by {
                        reveal_with_fuel(fast_search, 1);
                    }
                }
                return Ok(output.pos - output_start_pos);
            }
            // Find a candidate in the dictionary with the hash of the current four bytes.
            let hash = T::get_hash_at(input, cur);
            proof {
                dict.lemma_slots();
            }
            candidate = dict.get_at(hash);
            assert(candidate < input_stream_offset + cur);
            let ghost cand0 = candidate as int;
            let ghost entries0 = dict.entries();
            dict.put_at(hash, cur + input_stream_offset);
            proof {
                lemma_mod_le((cur + input_stream_offset) as nat, T::value_modulus());
                assert forall|k: int| 0 <= k < dict.entries().len() implies #[trigger] dict.entries()[k]
                    <= input_stream_offset + cur by {
                    if k != T::slot(hash) {
                        assert(dict.entries()[k] == entries0[k]);
                    }
                }
            }
            let ghost e2 = dict.entries();
            let ghost later = fast_search::<T>(inp, xd, iso, e2, literal_start as int, non_match_count as int, next_cur as int);
            // Two requirements to the candidate exists:
            // - We should not return a position which is merely a hash collision, so that the
            //   candidate actually matches what we search for.
            // - We can address up to 16-bit offset, hence we are only able to address the candidate
            //   if its offset is less than or equals to 0xFFFF.
            if input_stream_offset + cur - candidate > MAX_DISTANCE {
                assert(fast_search::<T>(inp, xd, iso, e0, literal_start as int, c0, n0) == later) by {
                    reveal_with_fuel(fast_search, 1);
                }
                continue;
            }
            if candidate >= input_stream_offset {
                // match within input
                offset = (input_stream_offset + cur - candidate) as u16;
                candidate = candidate - input_stream_offset;
                candidate_source = input;
                proof {
                    src_base = xl;
                    assert(candidate_source@ =~= d.subrange(src_base, src_base + candidate_source@.len()));
                }
            } else if USE_DICT {
                // A candidate before the external dictionary is no longer reachable.
                if candidate < ext_dict_stream_offset || candidate - ext_dict_stream_offset + 4 > ext_dict.len() {
                    assert(fast_search::<T>(inp, xd, iso, e0, literal_start as int, c0, n0) == later) by {
                    reveal_with_fuel(fast_search, 1);
                }
                    continue;
                }
                // match within ext dict
                offset = (input_stream_offset + cur - candidate) as u16;
                candidate = candidate - ext_dict_stream_offset;
                candidate_source = ext_dict;
                proof {
                    src_base = 0;
                    assert(candidate_source@ =~= d.subrange(src_base, src_base + candidate_source@.len()));
                }
            } else {
                // Match is not reachable anymore
                // eg. compressing an independent block frame w/o clearing
                // the matches tables, only increasing input_stream_offset.
                assert(fast_search::<T>(inp, xd, iso, e0, literal_start as int, c0, n0) == later) by {
                    reveal_with_fuel(fast_search, 1);
                }
                continue;
            }
            let cand_bytes: u32 = get_batch(candidate_source, candidate);
            let curr_bytes: u32 = get_batch(input, cur);
            if cand_bytes == curr_bytes {
                proof {
                    let s = candidate_source@;
                    lemma_le_u32_injective(
                        s[candidate as int],
                        s[candidate + 1],
                        s[candidate + 2],
                        s[candidate + 3],
                        inp[cur as int],
                        inp[cur + 1],
                        inp[cur + 2],
                        inp[cur + 3],
                    );
                    assert forall|k: int| 0 <= k < 4 implies #[trigger] d[xl + cur + k] == d[xl + cur + k - offset] by {
                        assert(d[xl + cur + k] == inp[cur + k]);
                        assert(d[xl + cur + k - offset] == s[candidate + k]);
                    }
                    assert(fast_search::<T>(inp, xd, iso, e0, literal_start as int, c0, n0) == fast_match::<T>(
                        inp, xd, iso, e2, literal_start as int, cur as int, candidate_source@, candidate as int, offset as int)) by {
                        reveal_with_fuel(fast_search, 1);
                        reveal_with_fuel(fast_match, 1);
                    }
                }
                break;
            }
            assert(fast_search::<T>(inp, xd, iso, e0, literal_start as int, c0, n0) == later) by {
                    reveal_with_fuel(fast_search, 1);
                }
        }
        let ghost cur_found = cur as int;
        let ghost cand_found = candidate as int;
        let ghost e2 = dict.entries();
        // Extend the match backwards if we can
        backtrack_match(input, &mut cur, literal_start, candidate_source, &mut candidate);
        proof {
            lemma_back_len(inp, literal_start as int, candidate_source@, cur_found, cand_found, cur as int, candidate as int);
        }
        // The length (in bytes) of the literals section.
        let lit_len = cur - literal_start;
        let ghost start = cur as int;
        let ghost cand_start = candidate as int;
        cur = cur + MINMATCH;
        candidate = candidate + MINMATCH;
        let duplicate_length = count_same_bytes(input, &mut cur, candidate_source, candidate, input.len() - END_OFFSET);
        proof {
            lemma_same_len(
                inp,
                start + 4,
                candidate_source@,
                cand_start + 4,
                compare_window(start + 4, inp.len() - END_OFFSET, candidate_source@.len() as int, cand_start + 4),
                duplicate_length as int,
            );
            lemma_fast_match_repeats(
                xd,
                inp,
                candidate_source@,
                src_base,
                offset as int,
                cur_found,
                cand_found,
                start,
                cand_start,
                duplicate_length as int,
            );
        }
        // The position two bytes before the end of the match is stored; any position near the
        // end would do.
        let hash = T::get_hash_at(input, cur - 2);
        let ghost entries1 = dict.entries();
        proof {
            dict.lemma_slots();
        }
        dict.put_at(hash, cur - 2 + input_stream_offset);
        proof {
            lemma_mod_le((cur - 2 + input_stream_offset) as nat, T::value_modulus());
            assert forall|k: int| 0 <= k < dict.entries().len() implies #[trigger] dict.entries()[k]
                < input_stream_offset + cur by {
                if k != T::slot(hash) {
                    assert(dict.entries()[k] == entries1[k]);
                }
            }
        }
        let literal = slice_range(input, literal_start, literal_start + lit_len);
        let ghost seq_bytes = sequence_bytes(literal@, offset as nat, duplicate_length as nat);
        proof {
            assert(literal@ == inp.subrange(literal_start as int, start));
            lemma_sequence_bytes_len(literal@, offset as nat, duplicate_length as nat);
            lemma_fits_max_output((emitted.len() + seq_bytes.len()) as int, n);
        }
        encode_sequence(literal, output, offset, duplicate_length);
        proof {
            lemma_splice_append(buf0, p0, emitted, seq_bytes);
            lemma_fast_sequence::<T>(
                emitted,
                inp,
                xd,
                pp,
                iso,
                e2,
                literal_start as int,
                cur_found,
                candidate_source@,
                cand_found,
                offset as int,
                start,
                duplicate_length as int,
                dict.entries(),
                total,
            );
            emitted = emitted + seq_bytes;
        }
        literal_start = cur;
    }
}

} // verus!

verus! {

/// The number of bytes before `cur` in `input` that equal the bytes before `pos` in `source`,
/// counted backwards one by one, without going before `lit` in `input` or before the start of
/// `source`.
pub open spec fn back_len(input: Seq<u8>, lit: int, source: Seq<u8>, cur: int, pos: int) -> nat
    decreases pos,
{
    if 0 < pos <= source.len() && lit < cur <= input.len() && input[cur - 1] == source[pos - 1] {
        1 + back_len(input, lit, source, cur - 1, pos - 1)
    } else {
        0
    }
}

/// The number of equal bytes at `i` in `a` and at `j` in `b`, compared one by one, at most `w`.
pub open spec fn same_len(a: Seq<u8>, i: int, b: Seq<u8>, j: int, w: int) -> nat
    decreases w,
{
    if w > 0 && 0 <= i < a.len() && 0 <= j < b.len() && a[i] == b[j] {
        1 + same_len(a, i + 1, b, j + 1, w - 1)
    } else {
        0
    }
}

/// What [`backtrack_match`] leaves is the number of steps of [`back_len`].
pub proof fn lemma_back_len(input: Seq<u8>, lit: int, source: Seq<u8>, c0: int, k0: int, c1: int, k1: int)
    requires
        lit <= c1 <= c0 <= input.len(),
        c0 - c1 == k0 - k1,
        0 <= k1 <= k0 <= source.len(),
        forall|j: int| c1 <= j < c0 ==> #[trigger] input[j] == source[j - c0 + k0],
        k1 > 0 && c1 > lit ==> input[c1 - 1] != source[k1 - 1],
    ensures
        back_len(input, lit, source, c0, k0) == c0 - c1,
    decreases c0 - c1,
{
    if c0 > c1 {
        assert(input[c0 - 1] == source[c0 - 1 - c0 + k0]);
        lemma_back_len(input, lit, source, c0 - 1, k0 - 1, c1, k1);
    }
}

/// The match that the fast compressor takes repeats the bytes `offset` back over its whole
/// length: the four bytes found at `c0`, the bytes before them that the backward extension
/// added, and the `dup` bytes counted after its first four, which reach past `c0 + 4`.
proof fn lemma_fast_match_repeats(
    x: Seq<u8>,
    inp: Seq<u8>,
    s: Seq<u8>,
    src_base: int,
    offset: int,
    c0: int,
    k0: int,
    start: int,
    cs: int,
    dup: int,
)
    requires
        0 <= src_base,
        src_base + s.len() <= x.len() + inp.len(),
        s == (x + inp).subrange(src_base, src_base + s.len()),
        src_base + k0 == x.len() + c0 - offset,
        repeats(x + inp, x.len() + c0, offset, 4),
        0 <= start <= c0,
        c0 + MFLIMIT <= inp.len(),
        c0 - start == k0 - cs,
        0 <= cs,
        k0 + 4 <= s.len(),
        forall|j: int| start <= j < c0 ==> #[trigger] inp[j] == s[j - c0 + k0],
        0 <= dup <= compare_window(start + 4, inp.len() - END_OFFSET, s.len() as int, cs + 4),
        forall|k: int| 0 <= k < dup ==> #[trigger] inp[start + 4 + k] == s[cs + 4 + k],
        dup < compare_window(start + 4, inp.len() - END_OFFSET, s.len() as int, cs + 4) ==> inp[start + 4 + dup]
            != s[cs + 4 + dup],
    ensures
        repeats(x + inp, x.len() + start, offset, 4 + dup),
        dup >= c0 - start,
{
    let d = x + inp;
    let xl = x.len() as int;
    assert forall|k: int| 0 <= k < 4 + c0 - start implies #[trigger] d[xl + start + k] == d[xl + start + k - offset] by {
        if start + k < c0 {
            let j = start + k - c0 + k0;
            assert(inp[start + k] == s[j]);
            assert(d[xl + start + k] == inp[start + k]);
            assert(s[j] == d[src_base + j]);
        } else {
            let k2 = start + k - c0;
            assert(d[xl + c0 + k2] == d[xl + c0 + k2 - offset]);
        }
    }
    if dup < c0 - start {
        let k = 4 + dup;
        assert(d[xl + start + k] == d[xl + start + k - offset]);
        assert(d[xl + start + k] == inp[start + k]);
        assert(s[cs + k] == d[src_base + cs + k]);
        assert(false);
    }
    assert forall|k: int| 0 <= k < 4 + dup implies #[trigger] d[xl + start + k] == d[xl + start + k - offset] by {
        if k >= 4 {
            let k2 = k - 4;
            assert(inp[start + 4 + k2] == s[cs + 4 + k2]);
            assert(d[xl + start + k] == inp[start + 4 + k2]);
            assert(s[cs + 4 + k2] == d[src_base + cs + 4 + k2]);
        }
    }
}

/// What [`count_same_bytes`] returns is [`same_len`] over its window.
pub proof fn lemma_same_len(a: Seq<u8>, i: int, b: Seq<u8>, j: int, w: int, n: int)
    requires
        0 <= i,
        0 <= j,
        0 <= n <= w,
        i + w <= a.len(),
        j + w <= b.len(),
        forall|k: int| 0 <= k < n ==> #[trigger] a[i + k] == b[j + k],
        n < w ==> a[i + n] != b[j + n],
    ensures
        same_len(a, i, b, j, w) == n,
    decreases n,
{
    if n > 0 {
        assert(a[i + 0] == b[j + 0]);
        assert forall|k: int| 0 <= k < n - 1 implies #[trigger] a[i + 1 + k] == b[j + 1 + k] by {
            assert(a[i + (k + 1)] == b[j + (k + 1)]);
        }
        lemma_same_len(a, i + 1, b, j + 1, w - 1, n - 1);
    }
}

/// Writing the sequence of the match that the fast compressor takes keeps the bytes written a
/// decodable, ruled prefix of the block, and the rest of the block is the search after it.
proof fn lemma_fast_sequence<T: HashTable>(
    emitted: Seq<u8>,
    input: Seq<u8>,
    ext_dict: Seq<u8>,
    prefix: int,
    iso: int,
    entries: Seq<usize>,
    lit: int,
    cur: int,
    source: Seq<u8>,
    pos: int,
    offset: int,
    start: int,
    dup: int,
    e3: Seq<usize>,
    total: Seq<u8>,
)
    requires
        decodes_prefix(emitted, input, prefix, lit, ext_dict),
        ruled_prefix_within(emitted, input, ext_dict.len() as int, prefix, lit, MFLIMIT as int, END_OFFSET as int),
        0 <= lit <= start <= cur,
        cur + MFLIMIT <= input.len(),
        start + 4 + dup + END_OFFSET <= input.len(),
        0 <= dup,
        0 < offset <= MAX_DISTANCE,
        offset <= ext_dict.len() + start,
        repeats(ext_dict + input, ext_dict.len() + start, offset, 4 + dup),
        back_len(input, lit, source, cur, pos) == cur - start,
        dup == same_len(
            input,
            start + 4,
            source,
            pos - (cur - start) + 4,
            compare_window(start + 4, input.len() - END_OFFSET, source.len() as int, pos - (cur - start) + 4),
        ),
        e3 == entries.update(
            T::slot(T::hash_at(input, start + 4 + dup - 2)),
            (((start + 4 + dup - 2 + iso) as nat) % T::value_modulus()) as usize,
        ),
        emitted + fast_match::<T>(input, ext_dict, iso, entries, lit, cur, source, pos, offset) == total,
    ensures
        ({
            let sb = sequence_bytes(input.subrange(lit, start), offset as nat, dup as nat);
            &&& decodes_prefix(emitted + sb, input, prefix, start + 4 + dup, ext_dict)
            &&& ruled_prefix_within(
                emitted + sb,
                input,
                ext_dict.len() as int,
                prefix,
                start + 4 + dup,
                MFLIMIT as int,
                END_OFFSET as int,
            )
            &&& emitted + sb + fast_search::<T>(input, ext_dict, iso, e3, start + 4 + dup, 32, start + 4 + dup) == total
        }),
{
    lemma_emit_sequence(emitted, input, prefix, lit, ext_dict, start, offset as nat, dup as nat);
    lemma_within_push(
        emitted,
        input,
        ext_dict.len() as int,
        prefix,
        lit,
        start,
        offset,
        4 + dup,
        MFLIMIT as int,
        END_OFFSET as int,
    );
    lemma_fast_match_step::<T>(input, ext_dict, iso, entries, lit, cur, source, pos, offset, start, dup, e3);
    let sb = sequence_bytes(input.subrange(lit, start), offset as nat, dup as nat);
    let rest = fast_search::<T>(input, ext_dict, iso, e3, start + 4 + dup, 32, start + 4 + dup);
    assert(emitted + sb + rest =~= emitted + (sb + rest));
}

/// A match taken at `cur` with the bytes at `pos` in `source`, extended backwards to `start`
/// and counted forwards to `dup` bytes after its first four, gives its sequence followed by
/// the search after it, with the table `e3`.
proof fn lemma_fast_match_step<T: HashTable>(
    input: Seq<u8>,
    ext_dict: Seq<u8>,
    iso: int,
    entries: Seq<usize>,
    lit: int,
    cur: int,
    source: Seq<u8>,
    pos: int,
    offset: int,
    start: int,
    dup: int,
    e3: Seq<usize>,
)
    requires
        0 <= lit <= start <= cur,
        back_len(input, lit, source, cur, pos) == cur - start,
        dup == same_len(
            input,
            start + 4,
            source,
            pos - (cur - start) + 4,
            compare_window(start + 4, input.len() - END_OFFSET, source.len() as int, pos - (cur - start) + 4),
        ),
        start + 4 + dup <= input.len(),
        e3 == entries.update(
            T::slot(T::hash_at(input, start + 4 + dup - 2)),
            (((start + 4 + dup - 2 + iso) as nat) % T::value_modulus()) as usize,
        ),
    ensures
        fast_match::<T>(input, ext_dict, iso, entries, lit, cur, source, pos, offset) == sequence_bytes(
            input.subrange(lit, start),
            offset as nat,
            dup as nat,
        ) + fast_search::<T>(input, ext_dict, iso, e3, start + 4 + dup, 32, start + 4 + dup),
{
    reveal_with_fuel(fast_match, 1);
    reveal_with_fuel(fast_search, 1);
}

/// How far the next probe position `next` is from the end of an input of `len` bytes.
pub open spec fn search_fuel(len: int, next: int) -> int {
    if next > len {
        0
    } else {
        len - next + 1
    }
}

/// The bytes that the fast compressor writes from its search for a match onwards.
///
/// `entries` are the slots of its table of type `T`, `lit` is where the pending literals start,
/// `count` counts the probes since the last match and `next` is the position of the next probe;
/// every probe moves `count / 32` bytes further. A probe looks up the position stored for the
/// hash of the bytes at it, stores its own position instead, and takes the candidate when it is
/// at most [`MAX_DISTANCE`] back, lies in `input` or wholly in `ext_dict`, and its first four
/// bytes equal those at the probe. Once a probe would start less than [`MFLIMIT`] bytes before
/// the end, the rest is written as literals. `iso` is the stream position of `input[0]`.
#[verifier::opaque]
pub open spec fn fast_search<T: HashTable>(
    input: Seq<u8>,
    ext_dict: Seq<u8>,
    iso: int,
    entries: Seq<usize>,
    lit: int,
    count: int,
    next: int,
) -> Seq<u8>
    decreases (if lit <= input.len() { input.len() - lit } else { 0 }), search_fuel(input.len() as int, next) + 1,
{
    if !(0 <= lit <= next && 32 <= count && LZ4_MIN_LENGTH <= input.len()) {
        Seq::empty()
    } else if next > input.len() - MFLIMIT {
        last_sequence_bytes(input.skip(lit))
    } else {
        let cur = next;
        let slot = T::slot(T::hash_at(input, cur));
        let cand = entries[slot] as int;
        let e2 = entries.update(slot, (((cur + iso) as nat) % T::value_modulus()) as usize);
        let offset = iso + cur - cand;
        let xbase = iso - ext_dict.len();
        if offset > MAX_DISTANCE {
            fast_search::<T>(input, ext_dict, iso, e2, lit, count + 1, next + count / 32)
        } else if cand >= iso {
            if le_u32_at(input, cand - iso) == le_u32_at(input, cur) {
                fast_match::<T>(input, ext_dict, iso, e2, lit, cur, input, cand - iso, offset)
            } else {
                fast_search::<T>(input, ext_dict, iso, e2, lit, count + 1, next + count / 32)
            }
        } else if cand < xbase || cand - xbase + 4 > ext_dict.len() {
            fast_search::<T>(input, ext_dict, iso, e2, lit, count + 1, next + count / 32)
        } else if le_u32_at(ext_dict, cand - xbase) == le_u32_at(input, cur) {
            fast_match::<T>(input, ext_dict, iso, e2, lit, cur, ext_dict, cand - xbase, offset)
        } else {
            fast_search::<T>(input, ext_dict, iso, e2, lit, count + 1, next + count / 32)
        }
    }
}

/// The bytes that the fast compressor writes once the probe at `cur` found four equal bytes at
/// `pos` in `source`, `offset` bytes back: the match is extended backwards over the pending
/// literals and forwards up to [`END_OFFSET`] bytes before the end, the position two bytes
/// before its end is stored in the table, the sequence is written, and the search goes on
/// after the match.
#[verifier::opaque]
pub open spec fn fast_match<T: HashTable>(
    input: Seq<u8>,
    ext_dict: Seq<u8>,
    iso: int,
    entries: Seq<usize>,
    lit: int,
    cur: int,
    source: Seq<u8>,
    pos: int,
    offset: int,
) -> Seq<u8>
    decreases (if lit <= input.len() { input.len() - lit } else { 0 }), 0int,
{
    let b = back_len(input, lit, source, cur, pos);
    let start = cur - b;
    let spos = pos - b;
    let w = compare_window(start + 4, input.len() - END_OFFSET, source.len() as int, spos + 4);
    let dup = same_len(input, start + 4, source, spos + 4, w);
    let end = start + 4 + dup;
    if !(0 <= lit <= start && end <= input.len()) {
        Seq::empty()
    } else {
        let e3 = entries.update(
            T::slot(T::hash_at(input, end - 2)),
            (((end - 2 + iso) as nat) % T::value_modulus()) as usize,
        );
        sequence_bytes(input.subrange(lit, start), offset as nat, dup)
            + fast_search::<T>(input, ext_dict, iso, e3, end, 32, end)
    }
}

/// The block that the fast compressor writes for `input[prefix..]` with a table of type `T`
/// whose slots hold `entries`, `ext_dict` before `input`, and `input[0]` at stream position
/// `iso`. A block that starts the stream starts with a literal: position 0 is stored and the
/// search starts at 1.
pub open spec fn fast_block<T: HashTable>(
    input: Seq<u8>,
    prefix: int,
    ext_dict: Seq<u8>,
    iso: int,
    entries: Seq<usize>,
) -> Seq<u8> {
    if input.len() - prefix < LZ4_MIN_LENGTH {
        last_sequence_bytes(input.skip(prefix))
    } else if prefix == 0 && iso == 0 {
        fast_search::<T>(input, ext_dict, iso, entries.update(T::slot(T::hash_at(input, 0)), 0usize), 0, 32, 1)
    } else {
        fast_search::<T>(input, ext_dict, iso, entries, prefix, 32, prefix)
    }
}

/// The slots of a table of type `T` after the positions `i`, `i + 3`, ... of `data` that have
/// eight bytes after them were stored, starting from `entries`.
pub open spec fn dict_filled<T: HashTable>(entries: Seq<usize>, data: Seq<u8>, i: int) -> Seq<usize>
    decreases data.len() - i,
{
    if i < 0 || i + 8 > data.len() {
        entries
    } else {
        dict_filled::<T>(
            entries.update(T::slot(T::hash_at(data, i)), ((i as nat) % T::value_modulus()) as usize),
            data,
            i + 3,
        )
    }
}

/// The slots of a new table of 4096 slots.
pub open spec fn zero_slots() -> Seq<usize> {
    Seq::new(4096, |i: int| 0usize)
}

/// The block that [`compress_into_with_dict`] writes for `input` after `dict_data`: the table
/// with 16 bit entries where the dictionary and the input together stay under 65535 bytes, else
/// the one with 32 bit entries, first filled from the reachable window of the dictionary.
pub open spec fn fast_dict_block(input: Seq<u8>, dict_data: Seq<u8>) -> Seq<u8> {
    let w = dict_window(dict_data);
    if dict_data.len() < 65535 && input.len() < 65535 - dict_data.len() {
        fast_block::<HashTable4KU16>(input, 0, w, w.len() as int, dict_filled::<HashTable4KU16>(zero_slots(), w, 0))
    } else {
        fast_block::<HashTable4K>(input, 0, w, w.len() as int, dict_filled::<HashTable4K>(zero_slots(), w, 0))
    }
}

/// The block that [`compress`] writes for `input`.
pub open spec fn fast_compressed(input: Seq<u8>) -> Seq<u8> {
    fast_dict_block(input, Seq::empty())
}

/// The dictionary that the compressors into a new vec use: one of at most 3 bytes is left out.
pub open spec fn effective_dict(dict_data: Seq<u8>) -> Seq<u8> {
    if dict_data.len() <= 3 {
        Seq::empty()
    } else {
        dict_data
    }
}

/// Compressing into a new vec with a dictionary of at most 3 bytes gives the block of
/// [`compress`].
pub proof fn lemma_small_dict_ignored(input: Seq<u8>, dict_data: Seq<u8>)
    requires
        dict_data.len() <= 3,
    ensures
        fast_dict_block(input, effective_dict(dict_data)) == fast_compressed(input),
{
}

} // verus!

verus! {

/// The part of a dictionary that matches can reach: its last [`WINDOW_SIZE`] bytes.
pub open spec fn dict_window(dict: Seq<u8>) -> Seq<u8> {
    if dict.len() > WINDOW_SIZE {
        dict.skip(dict.len() - WINDOW_SIZE)
    } else {
        dict
    }
}

/// `block` decompresses, with `dict` before it, to `input` in every output buffer that can
/// hold `input`.
pub open spec fn compresses_to(block: Seq<u8>, dict: Seq<u8>, input: Seq<u8>) -> bool {
    forall|cap: int| cap >= input.len() ==> #[trigger] decode_block(block, dict, cap) == Ok::<Seq<u8>, DecompressError>(input)
}

/// Decompressing a compressed block with room for at least the input's length gives back the
/// input: what [`crate::block::decompress_with_dict`] returns on what the compressors wrote.
pub proof fn lemma_block_roundtrip(block: Seq<u8>, dict: Seq<u8>, input: Seq<u8>, size: int)
    requires
        compresses_to(block, dict, input),
        size >= input.len(),
    ensures
        decode_block(block, dict, size) == Ok::<Seq<u8>, DecompressError>(input),
{
}

/// An output of the size-prepending compressors, for an input whose length fits the `u32` size
/// field, decompresses with its own size field to the input: what
/// [`crate::block::decompress_size_prepended_with_dict`] returns on it.
pub proof fn lemma_size_prepended_roundtrip(out: Seq<u8>, dict: Seq<u8>, input: Seq<u8>)
    requires
        input.len() <= u32::MAX,
        out.len() >= 4,
        le_u32(out[0], out[1], out[2], out[3]) == (input.len() as u32) as nat,
        compresses_to(out.skip(4), dict, input),
    ensures
        decode_block(out.skip(4), dict, le_u32(out[0], out[1], out[2], out[3]) as int) == Ok::<
            Seq<u8>,
            DecompressError,
        >(input),
{
}

/// A block that decodes to `input` with the window of a dictionary decodes to it with the
/// whole dictionary too.
pub proof fn lemma_compresses_with_dict(block: Seq<u8>, w: Seq<u8>, dict: Seq<u8>, input: Seq<u8>)
    requires
        block_decodes_to(block, w, input, 0),
        w.len() <= dict.len(),
        w == dict.skip(dict.len() - w.len()),
    ensures
        compresses_to(block, dict, input),
{
    assert(input.take(0) =~= Seq::<u8>::empty());
    assert forall|cap: int| cap >= input.len() implies #[trigger] decode_block(block, dict, cap) == Ok::<
        Seq<u8>,
        DecompressError,
    >(input) by {
        assert(decode_at(block, 0, input.take(0), w, cap) == Ok::<Seq<u8>, DecompressError>(input));
        lemma_decode_longer_dict(block, 0, Seq::empty(), w, dict, cap);
    }
}

/// Fills `dict` with the positions of the dictionary data, and returns the part of the data
/// that matches can reach.
fn init_dict<'a, T: HashTable>(dict: &mut T, dict_data: &'a [u8]) -> (r: &'a [u8])
    requires
        old(dict).wf(),
        forall|k: int| 0 <= k < old(dict).entries().len() ==> #[trigger] old(dict).entries()[k] == 0,
    ensures
        r@ == dict_window(dict_data@),
        final(dict).wf(),
        final(dict).entries() == dict_filled::<T>(old(dict).entries(), r@, 0),
        forall|k: int|
            0 <= k < final(dict).entries().len() ==> #[trigger] final(dict).entries()[k] == 0
                || final(dict).entries()[k] < r@.len(),
{
    let data = if dict_data.len() > WINDOW_SIZE {
        slice_range(dict_data, dict_data.len() - WINDOW_SIZE, dict_data.len())
    } else {
        dict_data
    };
    assert(data@ =~= dict_window(dict_data@));
    proof {
        dict.lemma_slots();
    }
    let mut i: usize = 0;
    // Every third position is hashed, over 8 byte words.
    while i + 8 <= data.len()
        invariant
            dict.wf(),
            T::value_modulus() > 0,
            data@.len() <= WINDOW_SIZE,
            i <= data@.len(),
            forall|k: int| 0 <= k < dict.entries().len() ==> #[trigger] dict.entries()[k] == 0 || dict.entries()[k] < data@.len(),
            dict_filled::<T>(dict.entries(), data@, i as int) == dict_filled::<T>(old(dict).entries(), data@, 0),
        decreases data@.len() - i,
    {
        let hash = T::get_hash_at(data, i);
        let ghost e0 = dict.entries();
        proof {
            dict.lemma_slots();
        }
        dict.put_at(hash, i);
        proof {
            lemma_mod_le(i as nat, T::value_modulus());
            assert forall|k: int| 0 <= k < dict.entries().len() implies #[trigger] dict.entries()[k] == 0
                || dict.entries()[k] < data@.len() by {
                if k != T::slot(hash) {
                    assert(dict.entries()[k] == e0[k]);
                }
            }
        }
        i = i + 3;
    }
    data
}

/// Compress all bytes of `input` into `output`, after its write position, with the reachable
/// window of `dict_data` as the data that precedes `input`.
/// The method chooses an appropriate hashtable to lookup duplicates.
/// output should be preallocated with a size of
/// `get_maximum_output_size`.
///
/// Returns the number of bytes written (compressed) into `output`.
pub fn compress_into_sink_with_dict<const USE_DICT: bool>(
    input: &[u8],
    output: &mut SliceSink,
    dict_data: &[u8],
) -> (r: Result<usize, CompressError>)
    requires
        old(output).wf(),
        !USE_DICT ==> dict_data@.len() == 0,
        input@.len() <= isize::MAX,
        USE_DICT ==> input@.len() + 2 * dict_window(dict_data@).len() <= isize::MAX,
    ensures
        final(output).wf(),
        final(output).output@.len() == old(output).output@.len(),
        final(final(output).output)@ == final(old(output).output)@,
        max_output_size(input@.len() as int) > old(output).output@.len() - old(output).pos ==> r
            == Err::<usize, CompressError>(CompressError::OutputTooSmall) && final(output).output@
            == old(output).output@ && final(output).pos == old(output).pos,
        max_output_size(input@.len() as int) <= old(output).output@.len() - old(output).pos ==> (r matches Ok(n)
            && n <= max_output_size(input@.len() as int) && final(output).pos == old(output).pos + n
            && final(output).output@ == splice(
            old(output).output@,
            old(output).pos as int,
            final(output).output@.subrange(old(output).pos as int, final(output).pos as int),
        ) && compresses_to(
            final(output).output@.subrange(old(output).pos as int, final(output).pos as int),
            dict_data@,
            input@,
        ) && block_keeps_rules(
            final(output).output@.subrange(old(output).pos as int, final(output).pos as int),
            input@,
            dict_window(dict_data@).len() as int,
            0,
        ) && short_block(final(output).output@.subrange(old(output).pos as int, final(output).pos as int), input@, 0)
            && final(output).output@.subrange(old(output).pos as int, final(output).pos as int) == fast_dict_block(
            input@,
            dict_data@,
        ) && block_within(
            final(output).output@.subrange(old(output).pos as int, final(output).pos as int),
            input@,
            dict_window(dict_data@).len() as int,
            0,
            MFLIMIT as int,
            END_OFFSET as int,
        )),
{
    let ghost p0 = output.pos as int;
    let r = if dict_data.len() < 65535 && input.len() < 65535 - dict_data.len() {
        let mut dict = HashTable4KU16::new();
        assert(dict.entries() =~= zero_slots());
        let window = init_dict(&mut dict, dict_data);
        compress_internal::<_, USE_DICT>(input, 0, output, &mut dict, window, window.len())
    } else {
        let mut dict = HashTable4K::new();
        assert(dict.entries() =~= zero_slots());
        let window = init_dict(&mut dict, dict_data);
        compress_internal::<_, USE_DICT>(input, 0, output, &mut dict, window, window.len())
    };
    proof {
        if let Ok(n) = r {
            let w = dict_window(dict_data@);
            assert(w.len() <= dict_data@.len());
            assert(w =~= dict_data@.skip(dict_data@.len() - w.len()));
            lemma_compresses_with_dict(output.output@.subrange(p0, output.pos as int), w, dict_data@, input@);
        }
    }
    r
}

/// Compress all bytes of `input` into `output`.
/// The method chooses an appropriate hashtable to lookup duplicates.
/// output should be preallocated with a size of
/// `get_maximum_output_size`.
///
/// Returns the number of bytes written (compressed) into `output`.
pub fn compress_into(input: &[u8], output: &mut [u8]) -> (r: Result<usize, CompressError>)
    requires
        input@.len() <= isize::MAX,
    ensures
        final(output)@.len() == old(output)@.len(),
        max_output_size(input@.len() as int) > old(output)@.len() ==> r == Err::<usize, CompressError>(
            CompressError::OutputTooSmall,
        ) && final(output)@ == old(output)@,
        max_output_size(input@.len() as int) <= old(output)@.len() ==> (r matches Ok(n) && n <= max_output_size(
            input@.len() as int,
        ) && final(output)@.skip(n as int) == old(output)@.skip(n as int) && compresses_to(
            final(output)@.take(n as int),
            Seq::empty(),
            input@,
        ) && block_keeps_rules(final(output)@.take(n as int), input@, 0, 0) && short_block(final(output)@.take(n as int), input@, 0)
            && final(output)@.take(n as int) == fast_compressed(input@) && block_within(
            final(output)@.take(n as int),
            input@,
            0,
            0,
            MFLIMIT as int, END_OFFSET as int,
        )),
{
    let no_dict: &[u8] = &[];
    assert(no_dict@ =~= Seq::<u8>::empty());
    compress_into_with_dict_impl::<false>(input, output, no_dict)
}

/// Compress all bytes of `input` into `output`, with `dict_data` as the data that precedes
/// `input`; matches reach into its last [`WINDOW_SIZE`] bytes.
/// The method chooses an appropriate hashtable to lookup duplicates.
/// output should be preallocated with a size of
/// `get_maximum_output_size`.
///
/// Returns the number of bytes written (compressed) into `output`.
pub fn compress_into_with_dict(input: &[u8], output: &mut [u8], dict_data: &[u8]) -> (r: Result<usize, CompressError>)
    requires
        input@.len() + 2 * dict_window(dict_data@).len() <= isize::MAX,
    ensures
        final(output)@.len() == old(output)@.len(),
        max_output_size(input@.len() as int) > old(output)@.len() ==> r == Err::<usize, CompressError>(
            CompressError::OutputTooSmall,
        ) && final(output)@ == old(output)@,
        max_output_size(input@.len() as int) <= old(output)@.len() ==> (r matches Ok(n) && n <= max_output_size(
            input@.len() as int,
        ) && final(output)@.skip(n as int) == old(output)@.skip(n as int) && compresses_to(
            final(output)@.take(n as int),
            dict_data@,
            input@,
        ) && block_keeps_rules(final(output)@.take(n as int), input@, dict_window(dict_data@).len() as int, 0) && short_block(final(output)@.take(n as int), input@, 0)
            && final(output)@.take(n as int) == fast_dict_block(input@, dict_data@) && block_within(
            final(output)@.take(n as int),
            input@,
            dict_window(dict_data@).len() as int,
            0,
            MFLIMIT as int, END_OFFSET as int,
        )),
{
    compress_into_with_dict_impl::<true>(input, output, dict_data)
}

fn compress_into_with_dict_impl<const USE_DICT: bool>(input: &[u8], output: &mut [u8], dict_data: &[u8]) -> (r: Result<
    usize,
    CompressError,
>)
    requires
        !USE_DICT ==> dict_data@.len() == 0,
        input@.len() <= isize::MAX,
        USE_DICT ==> input@.len() + 2 * dict_window(dict_data@).len() <= isize::MAX,
    ensures
        final(output)@.len() == old(output)@.len(),
        max_output_size(input@.len() as int) > old(output)@.len() ==> r == Err::<usize, CompressError>(
            CompressError::OutputTooSmall,
        ) && final(output)@ == old(output)@,
        max_output_size(input@.len() as int) <= old(output)@.len() ==> (r matches Ok(n) && n <= max_output_size(
            input@.len() as int,
        ) && final(output)@.skip(n as int) == old(output)@.skip(n as int) && compresses_to(
            final(output)@.take(n as int),
            dict_data@,
            input@,
        ) && block_keeps_rules(final(output)@.take(n as int), input@, dict_window(dict_data@).len() as int, 0) && short_block(final(output)@.take(n as int), input@, 0)
            && final(output)@.take(n as int) == fast_dict_block(input@, dict_data@) && block_within(
            final(output)@.take(n as int),
            input@,
            dict_window(dict_data@).len() as int,
            0,
            MFLIMIT as int, END_OFFSET as int,
        )),
{
    let ghost o0 = output@;
    let mut sink = SliceSink::new(output, 0);
    let r = compress_into_sink_with_dict::<USE_DICT>(input, &mut sink, dict_data);
    proof {
        if let Ok(n) = r {
            assert(sink.output@.take(n as int) =~= sink.output@.subrange(0, n as int));
            assert(sink.output@.skip(n as int) =~= o0.skip(n as int));
        }
    }
    r
}

} // verus!

verus! {

/// Compresses `input` into a new vec, after the little-endian `u32` of its length if
/// `prepend_size`. A dictionary of at most 3 bytes is not used.
fn compress_into_vec_with_dict<const USE_DICT: bool>(input: &[u8], prepend_size: bool, dict_data: &[u8]) -> (r: Vec<u8>)
    requires
        !USE_DICT ==> dict_data@.len() == 0,
        input@.len() <= isize::MAX,
        USE_DICT ==> input@.len() + 2 * dict_window(dict_data@).len() <= isize::MAX,
    ensures
        prepend_size ==> r@.len() >= 4 && le_u32(r@[0], r@[1], r@[2], r@[3]) == (input@.len() as u32) as nat
            && r@.len() <= max_output_size(input@.len() as int) + 4 && compresses_to(
            r@.skip(4),
            dict_data@,
            input@,
        ) && block_keeps_rules(r@.skip(4), input@, dict_window(dict_data@).len() as int, 0)
            && short_block(r@.skip(4), input@, 0) && r@.skip(4) == fast_dict_block(input@, effective_dict(dict_data@))
            && block_within(r@.skip(4), input@, dict_window(dict_data@).len() as int, 0, MFLIMIT as int, END_OFFSET as int),
        !prepend_size ==> r@.len() <= max_output_size(input@.len() as int) && compresses_to(
            r@,
            dict_data@,
            input@,
        ) && block_keeps_rules(r@, input@, dict_window(dict_data@).len() as int, 0) && short_block(r@, input@, 0)
            && r@ == fast_dict_block(input@, effective_dict(dict_data@)) && block_within(
            r@,
            input@,
            dict_window(dict_data@).len() as int,
            0,
            MFLIMIT as int, END_OFFSET as int,
        ),
{
    let prepend_size_num_bytes: usize = if prepend_size {
        4
    } else {
        0
    };
    let max_compressed_size = get_maximum_output_size(input.len()) + prepend_size_num_bytes;
    let empty: &[u8] = &[];
    let used_dict: &[u8] = if dict_data.len() <= 3 {
        empty
    } else {
        dict_data
    };
    let mut compressed: Vec<u8> = vec![0u8; max_compressed_size];
    if prepend_size {
        let size = u32_to_le_bytes(input.len() as u32);
        compressed[0] = size[0];
        compressed[1] = size[1];
        compressed[2] = size[2];
        compressed[3] = size[3];
    }
    let ghost head = compressed@.take(prepend_size_num_bytes as int);
    let mut sink = SliceSink::new(compressed.as_mut_slice(), prepend_size_num_bytes);
    let res = compress_into_sink_with_dict::<USE_DICT>(input, &mut sink, used_dict);
    let compressed_len = res.unwrap();
    let ghost block = sink.output@.subrange(prepend_size_num_bytes as int, (prepend_size_num_bytes + compressed_len) as int);
    proof {
        assert(used_dict@ == effective_dict(dict_data@));
        if dict_data@.len() <= 3 {
            assert(used_dict@ =~= Seq::<u8>::empty());
            lemma_rules_longer_dict(block, input@, 0, dict_window(dict_data@).len() as int, 0);
            lemma_within_longer_dict(block, input@, 0, dict_window(dict_data@).len() as int, 0, MFLIMIT as int, END_OFFSET as int);
            assert(Seq::<u8>::empty() =~= dict_data@.skip(dict_data@.len() as int));
            assert(Seq::<u8>::empty().take(0) =~= Seq::<u8>::empty());
            assert forall|cap: int| cap >= input@.len() implies #[trigger] decode_block(block, dict_data@, cap) == Ok::<
                Seq<u8>,
                DecompressError,
            >(input@) by {
                assert(decode_block(block, Seq::empty(), cap) == Ok::<Seq<u8>, DecompressError>(input@));
                lemma_decode_longer_dict(block, 0, Seq::empty(), Seq::empty(), dict_data@, cap);
            }
        }
    }
    compressed.truncate(prepend_size_num_bytes + compressed_len);
    proof {
        assert(compressed@.skip(prepend_size_num_bytes as int) =~= block);
        if prepend_size {
            assert(compressed@.take(4) =~= head);
        } else {
            assert(compressed@ =~= block);
        }
    }
    compressed
}

/// Compress all bytes of `input` into `output`. The uncompressed size will be prepended as a little
/// endian u32. Can be used in conjunction with `decompress_size_prepended`
pub fn compress_prepend_size(input: &[u8]) -> (r: Vec<u8>)
    requires
        input@.len() <= isize::MAX,
    ensures
        r@.len() >= 4,
        le_u32(r@[0], r@[1], r@[2], r@[3]) == (input@.len() as u32) as nat,
        r@.len() <= max_output_size(input@.len() as int) + 4,
        compresses_to(r@.skip(4), Seq::empty(), input@),
        block_keeps_rules(r@.skip(4), input@, 0, 0),
        short_block(r@.skip(4), input@, 0),
        r@.skip(4) == fast_compressed(input@),
        block_within(r@.skip(4), input@, 0, 0, MFLIMIT as int, END_OFFSET as int),
{
    let no_dict: &[u8] = &[];
    assert(no_dict@ =~= Seq::<u8>::empty());
    compress_into_vec_with_dict::<false>(input, true, no_dict)
}

/// Compress all bytes of `input`.
pub fn compress(input: &[u8]) -> (r: Vec<u8>)
    requires
        input@.len() <= isize::MAX,
    ensures
        r@.len() <= max_output_size(input@.len() as int),
        compresses_to(r@, Seq::empty(), input@),
        block_keeps_rules(r@, input@, 0, 0),
        short_block(r@, input@, 0),
        r@ == fast_compressed(input@),
        block_within(r@, input@, 0, 0, MFLIMIT as int, END_OFFSET as int),
{
    let no_dict: &[u8] = &[];
    assert(no_dict@ =~= Seq::<u8>::empty());
    compress_into_vec_with_dict::<false>(input, false, no_dict)
}

/// Compress all bytes of `input` with an external dictionary.
pub fn compress_with_dict(input: &[u8], ext_dict: &[u8]) -> (r: Vec<u8>)
    requires
        input@.len() + 2 * dict_window(ext_dict@).len() <= isize::MAX,
    ensures
        r@.len() <= max_output_size(input@.len() as int),
        compresses_to(r@, ext_dict@, input@),
        block_keeps_rules(r@, input@, dict_window(ext_dict@).len() as int, 0),
        short_block(r@, input@, 0),
        r@ == fast_dict_block(input@, effective_dict(ext_dict@)),
        block_within(r@, input@, dict_window(ext_dict@).len() as int, 0, MFLIMIT as int, END_OFFSET as int),
{
    compress_into_vec_with_dict::<true>(input, false, ext_dict)
}

/// Compress all bytes of `input` into `output`. The uncompressed size will be prepended as a little
/// endian u32. Can be used in conjunction with `decompress_size_prepended_with_dict`
pub fn compress_prepend_size_with_dict(input: &[u8], ext_dict: &[u8]) -> (r: Vec<u8>)
    requires
        input@.len() + 2 * dict_window(ext_dict@).len() <= isize::MAX,
    ensures
        r@.len() >= 4,
        le_u32(r@[0], r@[1], r@[2], r@[3]) == (input@.len() as u32) as nat,
        r@.len() <= max_output_size(input@.len() as int) + 4,
        compresses_to(r@.skip(4), ext_dict@, input@),
        block_keeps_rules(r@.skip(4), input@, dict_window(ext_dict@).len() as int, 0),
        short_block(r@.skip(4), input@, 0),
        r@.skip(4) == fast_dict_block(input@, effective_dict(ext_dict@)),
        block_within(r@.skip(4), input@, dict_window(ext_dict@).len() as int, 0, MFLIMIT as int, END_OFFSET as int),
{
    compress_into_vec_with_dict::<true>(input, true, ext_dict)
}

/// A reusable compression table that avoids re-allocating the internal hash table on every call.
///
/// This is useful when compressing many small inputs in a loop. Create one table and pass it
/// to [`compress_into_with_table`] repeatedly.
pub enum CompressTable {
    /// Table using 16-bit entries, suitable for inputs where `input.len() < u16::MAX`.
    Small(HashTable4KU16),
    /// Table using 32-bit entries, suitable for any input size.
    Large(HashTable4K),
}

impl CompressTable {
    /// The table inside has its full size.
    pub open spec fn wf(&self) -> bool {
        match self {
            CompressTable::Small(t) => t.wf(),
            CompressTable::Large(t) => t.wf(),
        }
    }

    /// Create a small table (16-bit entries). More memory efficient, but only usable when the
    /// total input size is less than 65535 bytes.
    pub fn small() -> (t: Self)
        ensures
            t.wf(),
            t is Small,
    {
        CompressTable::Small(HashTable4KU16::new())
    }

    /// Create a large table (32-bit entries). Works for any input size.
    pub fn large() -> (t: Self)
        ensures
            t.wf(),
            t is Large,
    {
        CompressTable::Large(HashTable4K::new())
    }
}

impl Default for CompressTable {
    fn default() -> (t: Self)
        ensures
            t.wf(),
            t is Small,
    {
        CompressTable::Small(HashTable4KU16::new())
    }
}

/// Compress all bytes of `input` into `output`, reusing a [`CompressTable`] to avoid
/// re-allocating the internal hash table.
///
/// `output` should be preallocated with a size of [`get_maximum_output_size`].
///
/// Returns the number of bytes written (compressed) into `output`.
///
/// **Note:** If the table variant doesn't match the input size (e.g. a `Small` table is used
/// with input >= 64KB), the table will be transparently upgraded. However, it won't be
/// downgraded automatically.
pub fn compress_into_with_table(input: &[u8], output: &mut [u8], table: &mut CompressTable) -> (r: Result<
    usize,
    CompressError,
>)
    requires
        old(table).wf(),
        input@.len() <= isize::MAX,
    ensures
        final(table).wf(),
        (*final(table) is Large) == (*old(table) is Large || input@.len() >= 65535),
        final(output)@.len() == old(output)@.len(),
        max_output_size(input@.len() as int) > old(output)@.len() ==> r == Err::<usize, CompressError>(
            CompressError::OutputTooSmall,
        ) && final(output)@ == old(output)@,
        max_output_size(input@.len() as int) <= old(output)@.len() ==> (r matches Ok(n) && n <= max_output_size(
            input@.len() as int,
        ) && final(output)@.skip(n as int) == old(output)@.skip(n as int) && compresses_to(
            final(output)@.take(n as int),
            Seq::empty(),
            input@,
        ) && block_keeps_rules(final(output)@.take(n as int), input@, 0, 0) && short_block(final(output)@.take(n as int), input@, 0)
            && (*final(table) is Small ==> final(output)@.take(n as int) == fast_block::<HashTable4KU16>(
            input@,
            0,
            Seq::empty(),
            0,
            zero_slots(),
        )) && (*final(table) is Large ==> final(output)@.take(n as int) == fast_block::<HashTable4K>(
            input@,
            0,
            Seq::empty(),
            0,
            zero_slots(),
        )) && (*old(table) is Small ==> final(output)@.take(n as int) == fast_compressed(input@)) && block_within(
            final(output)@.take(n as int),
            input@,
            0,
            0,
            MFLIMIT as int, END_OFFSET as int,
        )),
{
    if input.len() >= 65535 && matches!(table, CompressTable::Small(_)) {
        *table = CompressTable::Large(HashTable4K::new());
    }
    let ghost o0 = output@;
    let no_dict: &[u8] = &[];
    assert(no_dict@ =~= Seq::<u8>::empty());
    let mut sink = SliceSink::new(output, 0);
    let r = match table {
        CompressTable::Small(dict) => {
            proof {
                dict.lemma_len();
            }
            dict.clear();
            assert(dict.entries() =~= zero_slots());
            compress_internal::<_, false>(input, 0, &mut sink, dict, no_dict, 0)
        },
        CompressTable::Large(dict) => {
            proof {
                dict.lemma_len();
            }
            dict.clear();
            assert(dict.entries() =~= zero_slots());
            compress_internal::<_, false>(input, 0, &mut sink, dict, no_dict, 0)
        },
    };
    proof {
        if let Ok(n) = r {
            let block = sink.output@.subrange(0, n as int);
            assert(sink.output@.take(n as int) =~= block);
            assert(sink.output@.skip(n as int) =~= o0.skip(n as int));
            assert(Seq::<u8>::empty().skip(0) =~= Seq::<u8>::empty());
            lemma_compresses_with_dict(block, Seq::empty(), Seq::empty(), input@);
        }
    }
    r
}

} // verus!

verus! {

/// The bytes of the sequences `seqs` of `input`, in order; each sequence `(lit_start, start,
/// offset, len)` is the literals `input[lit_start..start]` and a match of `len` bytes `offset`
/// bytes back.
pub open spec fn sequences_bytes(input: Seq<u8>, seqs: Seq<(int, int, int, int)>) -> Seq<u8>
    decreases seqs.len(),
{
    if seqs.len() == 0 {
        Seq::empty()
    } else {
        let q = seqs.last();
        sequences_bytes(input, seqs.drop_last()) + sequence_bytes(input.subrange(q.0, q.1), q.2 as nat, (q.3 - MINMATCH) as nat)
    }
}

/// The sequences `seqs` cover `input` from `prefix` up to `done`, one after the other, and keep
/// the rules of the block format: a match is at least [`MINMATCH`] bytes, leaves the last
/// [`LAST_LITERALS`] bytes to literals, and reaches between 1 and [`MAX_DISTANCE`] bytes back,
/// never before the `dict_len` bytes of the dictionary.
#[verifier::opaque]
pub open spec fn keeps_block_rules(input_len: int, dict_len: int, seqs: Seq<(int, int, int, int)>, prefix: int, done: int) -> bool {
    &&& forall|k: int|
        0 <= k < seqs.len() ==> {
            let q = #[trigger] seqs[k];
            &&& q.0 <= q.1
            &&& MINMATCH <= q.3
            &&& q.1 + q.3 + LAST_LITERALS <= input_len
            &&& 1 <= q.2 <= MAX_DISTANCE
            &&& q.2 <= dict_len + q.1
        }
    &&& forall|k: int| 0 < k < seqs.len() ==> #[trigger] seqs[k].0 == seqs[k - 1].1 + seqs[k - 1].3
    &&& seqs.len() == 0 ==> done == prefix
    &&& seqs.len() > 0 ==> seqs[0].0 == prefix && done == seqs.last().1 + seqs.last().3
}

/// `bytes` are the sequences of a parse of `input` from `prefix` up to `done` that keeps the
/// rules of the block format.
pub open spec fn ruled_prefix(bytes: Seq<u8>, input: Seq<u8>, dict_len: int, prefix: int, done: int) -> bool {
    exists|seqs: Seq<(int, int, int, int)>|
        keeps_block_rules(input.len() as int, dict_len, seqs, prefix, done) && bytes == #[trigger] sequences_bytes(input, seqs)
}

/// The block's first sequence begins with at least one literal: its token's literal count is
/// not 0.
pub open spec fn opens_with_literal(block: Seq<u8>) -> bool {
    block.len() > 0 && block[0] >= 16
}

/// `block` is a block of `input` from `prefix` on that keeps the rules of the block format: its
/// sequences, then the last literals, from the end of the last match (or `prefix`) on. With
/// nothing before the input (no dictionary, no prefix), the block opens with a literal.
#[verifier::opaque]
pub open spec fn block_keeps_rules(block: Seq<u8>, input: Seq<u8>, dict_len: int, prefix: int) -> bool {
    &&& exists|seqs: Seq<(int, int, int, int)>, done: int|
        #[trigger] keeps_block_rules(input.len() as int, dict_len, seqs, prefix, done) && block == sequences_bytes(
            input,
            seqs,
        ) + last_sequence_bytes(input.skip(done))
    &&& dict_len == 0 && prefix == 0 && input.len() > 0 ==> opens_with_literal(block)
}

/// The first byte of the sequences is the token of the first of them.
proof fn lemma_sequences_first_byte(input: Seq<u8>, seqs: Seq<(int, int, int, int)>)
    requires
        seqs.len() > 0,
        0 <= seqs[0].0 <= seqs[0].1 <= input.len(),
    ensures
        sequences_bytes(input, seqs).len() > 0,
        sequences_bytes(input, seqs)[0] == token_byte((seqs[0].1 - seqs[0].0) as nat, (seqs[0].3 - MINMATCH) as nat),
    decreases seqs.len(),
{
    let q = seqs.last();
    let sb = sequence_bytes(input.subrange(q.0, q.1), q.2 as nat, (q.3 - MINMATCH) as nat);
    if seqs.len() == 1 {
        assert(seqs.drop_last().len() == 0);
        assert(sequences_bytes(input, seqs.drop_last()) == Seq::<u8>::empty());
        assert(sequences_bytes(input, seqs) =~= sb);
        assert(sb[0] == token_byte(input.subrange(q.0, q.1).len(), (q.3 - MINMATCH) as nat));
    } else {
        let d = seqs.drop_last();
        assert(d[0] == seqs[0]);
        lemma_sequences_first_byte(input, d);
    }
}

/// With nothing before the input, a parse that keeps the rules opens its block with a literal:
/// no match can reach back from the first byte.
proof fn lemma_parse_opens_with_literal(input: Seq<u8>, seqs: Seq<(int, int, int, int)>, done: int)
    requires
        keeps_block_rules(input.len() as int, 0, seqs, 0, done),
        input.len() > 0,
    ensures
        opens_with_literal(sequences_bytes(input, seqs) + last_sequence_bytes(input.skip(done))),
{
    reveal(keeps_block_rules);
    let all = sequences_bytes(input, seqs) + last_sequence_bytes(input.skip(done));
    if seqs.len() > 0 {
        let q = seqs[0];
        lemma_sequences_first_byte(input, seqs);
        let lit = (q.1 - q.0) as nat;
        assert(lit >= 1);
        assert(nibble(lit) >= 1);
        assert(token_byte(lit, (q.3 - MINMATCH) as nat) >= 16);
        assert(all[0] == sequences_bytes(input, seqs)[0]);
    } else {
        assert(sequences_bytes(input, seqs) =~= Seq::<u8>::empty());
        let rest = input.skip(done);
        assert(rest.len() == input.len());
        assert(all =~= last_sequence_bytes(rest));
        assert(nibble(rest.len()) >= 1);
        assert(token_byte(rest.len(), 0) >= 16);
    }
}

/// No sequence is written yet.
pub proof fn lemma_ruled_start(input: Seq<u8>, dict_len: int, prefix: int)
    ensures
        ruled_prefix(Seq::empty(), input, dict_len, prefix, prefix),
{
    reveal(keeps_block_rules);
    let seqs = Seq::<(int, int, int, int)>::empty();
    assert(keeps_block_rules(input.len() as int, dict_len, seqs, prefix, prefix));
    assert(sequences_bytes(input, seqs) == Seq::<u8>::empty());
}

/// A block of a non-empty input that nothing precedes, neither a dictionary nor a prefix,
/// starts with a literal.
pub proof fn lemma_block_opens_with_literal(block: Seq<u8>, input: Seq<u8>)
    requires
        block_keeps_rules(block, input, 0, 0),
        input.len() > 0,
    ensures
        opens_with_literal(block),
{
    reveal(block_keeps_rules);
}

/// Writing a sequence whose match keeps the rules keeps the parse within them.
pub proof fn lemma_ruled_push(
    bytes: Seq<u8>,
    input: Seq<u8>,
    dict_len: int,
    prefix: int,
    done: int,
    start: int,
    offset: int,
    len: int,
)
    requires
        ruled_prefix(bytes, input, dict_len, prefix, done),
        done <= start,
        MINMATCH <= len,
        start + len + LAST_LITERALS <= input.len(),
        1 <= offset <= MAX_DISTANCE,
        offset <= dict_len + start,
    ensures
        ruled_prefix(
            bytes + sequence_bytes(input.subrange(done, start), offset as nat, (len - MINMATCH) as nat),
            input,
            dict_len,
            prefix,
            start + len,
        ),
{
    reveal(keeps_block_rules);
    let seqs = choose|seqs: Seq<(int, int, int, int)>|
        keeps_block_rules(input.len() as int, dict_len, seqs, prefix, done) && bytes == #[trigger] sequences_bytes(input, seqs);
    let s2 = seqs.push((done, start, offset, len));
    assert(s2.drop_last() =~= seqs);
    assert(keeps_block_rules(input.len() as int, dict_len, s2, prefix, start + len)) by {
        assert forall|k: int| 0 < k < s2.len() implies #[trigger] s2[k].0 == s2[k - 1].1 + s2[k - 1].3 by {
            if k < seqs.len() {
                assert(s2[k] == seqs[k] && s2[k - 1] == seqs[k - 1]);
            }
        }
    }
    assert(sequences_bytes(input, s2) == bytes + sequence_bytes(input.subrange(done, start), offset as nat, (len - MINMATCH) as nat));
}

/// The last literals complete a block that keeps the rules.
pub proof fn lemma_ruled_last(bytes: Seq<u8>, input: Seq<u8>, dict_len: int, prefix: int, done: int)
    requires
        ruled_prefix(bytes, input, dict_len, prefix, done),
    ensures
        block_keeps_rules(bytes + last_sequence_bytes(input.skip(done)), input, dict_len, prefix),
{
    reveal(block_keeps_rules);
    let seqs = choose|seqs: Seq<(int, int, int, int)>|
        keeps_block_rules(input.len() as int, dict_len, seqs, prefix, done) && bytes == #[trigger] sequences_bytes(input, seqs);
    assert(keeps_block_rules(input.len() as int, dict_len, seqs, prefix, done) && bytes + last_sequence_bytes(
        input.skip(done),
    ) == sequences_bytes(input, seqs) + last_sequence_bytes(input.skip(done)));
    if dict_len == 0 && prefix == 0 && input.len() > 0 {
        lemma_parse_opens_with_literal(input, seqs, done);
    }
}

/// Every match of the parse `seqs` of an input of `len` bytes starts at least `start_gap`
/// bytes and ends at least `end_gap` bytes before the end of the input.
pub open spec fn matches_within(seqs: Seq<(int, int, int, int)>, len: int, start_gap: int, end_gap: int) -> bool {
    forall|k: int|
        0 <= k < seqs.len() ==> #[trigger] seqs[k].1 + start_gap <= len && seqs[k].1 + seqs[k].3 + end_gap <= len
}

/// `bytes` are the sequences of a parse of `input` from `prefix` up to `done` that keeps the
/// rules of the block format, with every match within the margins.
pub open spec fn ruled_prefix_within(
    bytes: Seq<u8>,
    input: Seq<u8>,
    dict_len: int,
    prefix: int,
    done: int,
    start_gap: int,
    end_gap: int,
) -> bool {
    exists|seqs: Seq<(int, int, int, int)>|
        keeps_block_rules(input.len() as int, dict_len, seqs, prefix, done) && matches_within(
            seqs,
            input.len() as int,
            start_gap,
            end_gap,
        ) && bytes == #[trigger] sequences_bytes(input, seqs)
}

/// `block` is a block of `input` from `prefix` on that keeps the rules of the block format
/// and whose every match starts at least `start_gap` bytes and ends at least `end_gap` bytes
/// before the end of the input.
pub open spec fn block_within(block: Seq<u8>, input: Seq<u8>, dict_len: int, prefix: int, start_gap: int, end_gap: int) -> bool {
    exists|seqs: Seq<(int, int, int, int)>, done: int|
        #[trigger] keeps_block_rules(input.len() as int, dict_len, seqs, prefix, done) && matches_within(
            seqs,
            input.len() as int,
            start_gap,
            end_gap,
        ) && block == sequences_bytes(input, seqs) + last_sequence_bytes(input.skip(done))
}

/// No sequence is written yet.
pub proof fn lemma_within_start(input: Seq<u8>, dict_len: int, prefix: int, start_gap: int, end_gap: int)
    ensures
        ruled_prefix_within(Seq::empty(), input, dict_len, prefix, prefix, start_gap, end_gap),
{
    reveal(keeps_block_rules);
    let seqs = Seq::<(int, int, int, int)>::empty();
    assert(keeps_block_rules(input.len() as int, dict_len, seqs, prefix, prefix));
    assert(sequences_bytes(input, seqs) == Seq::<u8>::empty());
}

/// Writing a sequence whose match keeps the rules and the margins keeps the parse within them.
pub proof fn lemma_within_push(
    bytes: Seq<u8>,
    input: Seq<u8>,
    dict_len: int,
    prefix: int,
    done: int,
    start: int,
    offset: int,
    len: int,
    start_gap: int,
    end_gap: int,
)
    requires
        ruled_prefix_within(bytes, input, dict_len, prefix, done, start_gap, end_gap),
        done <= start,
        MINMATCH <= len,
        start + len + LAST_LITERALS <= input.len(),
        start + start_gap <= input.len(),
        start + len + end_gap <= input.len(),
        1 <= offset <= MAX_DISTANCE,
        offset <= dict_len + start,
    ensures
        ruled_prefix_within(
            bytes + sequence_bytes(input.subrange(done, start), offset as nat, (len - MINMATCH) as nat),
            input,
            dict_len,
            prefix,
            start + len,
            start_gap,
            end_gap,
        ),
{
    reveal(keeps_block_rules);
    let seqs = choose|seqs: Seq<(int, int, int, int)>|
        keeps_block_rules(input.len() as int, dict_len, seqs, prefix, done) && matches_within(
            seqs,
            input.len() as int,
            start_gap,
            end_gap,
        ) && bytes == #[trigger] sequences_bytes(input, seqs);
    let s2 = seqs.push((done, start, offset, len));
    assert(s2.drop_last() =~= seqs);
    assert(keeps_block_rules(input.len() as int, dict_len, s2, prefix, start + len)) by {
        assert forall|k: int| 0 < k < s2.len() implies #[trigger] s2[k].0 == s2[k - 1].1 + s2[k - 1].3 by {
            if k < seqs.len() {
                assert(s2[k] == seqs[k] && s2[k - 1] == seqs[k - 1]);
            }
        }
    }
    assert(matches_within(s2, input.len() as int, start_gap, end_gap)) by {
        assert forall|k: int| 0 <= k < s2.len() implies #[trigger] s2[k].1 + start_gap <= input.len() && s2[k].1
            + s2[k].3 + end_gap <= input.len() by {
            if k < seqs.len() {
                assert(s2[k] == seqs[k]);
            }
        }
    }
    assert(sequences_bytes(input, s2) == bytes + sequence_bytes(input.subrange(done, start), offset as nat, (len - MINMATCH) as nat));
}

/// A parse within the margins keeps the rules.
pub proof fn lemma_within_ruled(bytes: Seq<u8>, input: Seq<u8>, dict_len: int, prefix: int, done: int, start_gap: int, end_gap: int)
    requires
        ruled_prefix_within(bytes, input, dict_len, prefix, done, start_gap, end_gap),
    ensures
        ruled_prefix(bytes, input, dict_len, prefix, done),
{
    let seqs = choose|seqs: Seq<(int, int, int, int)>|
        keeps_block_rules(input.len() as int, dict_len, seqs, prefix, done) && matches_within(
            seqs,
            input.len() as int,
            start_gap,
            end_gap,
        ) && bytes == #[trigger] sequences_bytes(input, seqs);
    assert(keeps_block_rules(input.len() as int, dict_len, seqs, prefix, done) && bytes == sequences_bytes(input, seqs));
}

/// The last literals complete a block within the margins.
pub proof fn lemma_within_last(bytes: Seq<u8>, input: Seq<u8>, dict_len: int, prefix: int, done: int, start_gap: int, end_gap: int)
    requires
        ruled_prefix_within(bytes, input, dict_len, prefix, done, start_gap, end_gap),
    ensures
        block_within(bytes + last_sequence_bytes(input.skip(done)), input, dict_len, prefix, start_gap, end_gap),
{
    let seqs = choose|seqs: Seq<(int, int, int, int)>|
        keeps_block_rules(input.len() as int, dict_len, seqs, prefix, done) && matches_within(
            seqs,
            input.len() as int,
            start_gap,
            end_gap,
        ) && bytes == #[trigger] sequences_bytes(input, seqs);
    assert(keeps_block_rules(input.len() as int, dict_len, seqs, prefix, done) && matches_within(
        seqs,
        input.len() as int,
        start_gap,
        end_gap,
    ) && bytes + last_sequence_bytes(input.skip(done)) == sequences_bytes(input, seqs) + last_sequence_bytes(input.skip(done)));
}

/// A block within the margins with a dictionary of `d1` bytes is within them with a longer one.
pub proof fn lemma_within_longer_dict(block: Seq<u8>, input: Seq<u8>, d1: int, d2: int, prefix: int, start_gap: int, end_gap: int)
    requires
        block_within(block, input, d1, prefix, start_gap, end_gap),
        0 <= d1 <= d2,
    ensures
        block_within(block, input, d2, prefix, start_gap, end_gap),
{
    reveal(keeps_block_rules);
    let (seqs, done) = choose|seqs: Seq<(int, int, int, int)>, done: int|
        #[trigger] keeps_block_rules(input.len() as int, d1, seqs, prefix, done) && matches_within(
            seqs,
            input.len() as int,
            start_gap,
            end_gap,
        ) && block == sequences_bytes(input, seqs) + last_sequence_bytes(input.skip(done));
    assert(keeps_block_rules(input.len() as int, d2, seqs, prefix, done));
}

/// A block that keeps the rules with a dictionary of `d1` bytes keeps them with a longer one.
pub proof fn lemma_rules_longer_dict(block: Seq<u8>, input: Seq<u8>, d1: int, d2: int, prefix: int)
    requires
        block_keeps_rules(block, input, d1, prefix),
        0 <= d1 <= d2,
    ensures
        block_keeps_rules(block, input, d2, prefix),
{
    reveal(block_keeps_rules);
    reveal(keeps_block_rules);
    let (seqs, done) = choose|seqs: Seq<(int, int, int, int)>, done: int|
        #[trigger] keeps_block_rules(input.len() as int, d1, seqs, prefix, done) && block == sequences_bytes(input, seqs)
            + last_sequence_bytes(input.skip(done));
    assert(keeps_block_rules(input.len() as int, d2, seqs, prefix, done));
}

/// Every sequence of a parse that keeps the rules starts its literals at or after `prefix`.
proof fn lemma_rules_after_prefix(input_len: int, dict_len: int, seqs: Seq<(int, int, int, int)>, prefix: int, done: int, i: int)
    requires
        keeps_block_rules(input_len, dict_len, seqs, prefix, done),
        0 <= i < seqs.len(),
    ensures
        seqs[i].0 >= prefix,
    decreases i,
{
    reveal(keeps_block_rules);
    if i > 0 {
        lemma_rules_after_prefix(input_len, dict_len, seqs, prefix, done, i - 1);
        assert(seqs[i].0 == seqs[i - 1].1 + seqs[i - 1].3);
    }
}

/// `s2` is `seqs` moved `k` positions down.
pub open spec fn shifted(seqs: Seq<(int, int, int, int)>, s2: Seq<(int, int, int, int)>, k: int) -> bool {
    &&& s2.len() == seqs.len()
    &&& forall|i: int| 0 <= i < seqs.len() ==> #[trigger] s2[i] == (seqs[i].0 - k, seqs[i].1 - k, seqs[i].2, seqs[i].3)
}

/// The sequences of `w + input` at positions from `w.len()` on are those of `input` at the
/// positions `w.len()` lower.
proof fn lemma_sequences_shift(w: Seq<u8>, input: Seq<u8>, seqs: Seq<(int, int, int, int)>, s2: Seq<(int, int, int, int)>)
    requires
        shifted(seqs, s2, w.len() as int),
        forall|i: int| 0 <= i < seqs.len() ==> w.len() <= #[trigger] seqs[i].0 <= seqs[i].1 <= w.len() + input.len(),
    ensures
        sequences_bytes(w + input, seqs) == sequences_bytes(input, s2),
    decreases seqs.len(),
{
    let k = w.len() as int;
    if seqs.len() > 0 {
        let d = seqs.drop_last();
        let d2 = s2.drop_last();
        assert forall|i: int| 0 <= i < d.len() implies w.len() <= #[trigger] d[i].0 <= d[i].1 <= w.len() + input.len() by {
            assert(d[i] == seqs[i]);
        }
        assert forall|i: int| 0 <= i < d.len() implies #[trigger] d2[i] == (d[i].0 - k, d[i].1 - k, d[i].2, d[i].3) by {
            assert(d[i] == seqs[i] && d2[i] == s2[i]);
        }
        lemma_sequences_shift(w, input, d, d2);
        let q = seqs.last();
        assert(s2.last() == (q.0 - k, q.1 - k, q.2, q.3));
        assert((w + input).subrange(q.0, q.1) =~= input.subrange(q.0 - k, q.1 - k));
    }
}

/// The parse of `w + input` after the prefix `w`, moved `w.len()` positions down, is a parse of
/// `input` that keeps the rules with a dictionary of `w.len()` bytes.
proof fn lemma_rules_shift(w: Seq<u8>, input: Seq<u8>, seqs: Seq<(int, int, int, int)>, done: int, s2: Seq<(int, int, int, int)>)
    requires
        keeps_block_rules((w + input).len() as int, 0, seqs, w.len() as int, done),
        shifted(seqs, s2, w.len() as int),
    ensures
        keeps_block_rules(input.len() as int, w.len() as int, s2, 0, done - w.len()),
        forall|i: int| 0 <= i < seqs.len() ==> w.len() <= #[trigger] seqs[i].0 <= seqs[i].1 <= w.len() + input.len(),
        w.len() <= done <= w.len() + input.len(),
{
    reveal(keeps_block_rules);
    let k = w.len() as int;
    let n = (w + input).len() as int;
    assert forall|i: int| 0 <= i < seqs.len() implies w.len() <= #[trigger] seqs[i].0 <= seqs[i].1 <= w.len() + input.len() by {
        lemma_rules_after_prefix(n, 0, seqs, k, done, i);
    }
    if seqs.len() > 0 {
        lemma_rules_after_prefix(n, 0, seqs, k, done, seqs.len() - 1);
        assert(s2[0] == (seqs[0].0 - k, seqs[0].1 - k, seqs[0].2, seqs[0].3));
        assert(s2.last() == (seqs.last().0 - k, seqs.last().1 - k, seqs.last().2, seqs.last().3));
    }
    assert forall|i: int| 0 <= i < s2.len() implies {
        let q = #[trigger] s2[i];
        &&& q.0 <= q.1
        &&& MINMATCH <= q.3
        &&& q.1 + q.3 + LAST_LITERALS <= input.len()
        &&& 1 <= q.2 <= MAX_DISTANCE
        &&& q.2 <= k + q.1
    } by {
        assert(s2[i] == (seqs[i].0 - k, seqs[i].1 - k, seqs[i].2, seqs[i].3));
    }
    assert forall|i: int| 0 < i < s2.len() implies #[trigger] s2[i].0 == s2[i - 1].1 + s2[i - 1].3 by {
        assert(s2[i] == (seqs[i].0 - k, seqs[i].1 - k, seqs[i].2, seqs[i].3));
        assert(s2[i - 1] == (seqs[i - 1].0 - k, seqs[i - 1].1 - k, seqs[i - 1].2, seqs[i - 1].3));
        assert(seqs[i].0 == seqs[i - 1].1 + seqs[i - 1].3);
    }
}

/// A parse that shows a block keeps the rules.
proof fn lemma_rules_witness(block: Seq<u8>, input: Seq<u8>, dict_len: int, prefix: int) -> (r: (Seq<(int, int, int, int)>, int))
    requires
        block_keeps_rules(block, input, dict_len, prefix),
    ensures
        keeps_block_rules(input.len() as int, dict_len, r.0, prefix, r.1),
        block == sequences_bytes(input, r.0) + last_sequence_bytes(input.skip(r.1)),
{
    reveal(block_keeps_rules);
    choose|seqs: Seq<(int, int, int, int)>, done: int|
        #[trigger] keeps_block_rules(input.len() as int, dict_len, seqs, prefix, done) && block == sequences_bytes(input, seqs)
            + last_sequence_bytes(input.skip(done))
}

/// A parse that keeps the rules shows its block keeps them.
proof fn lemma_rules_intro(block: Seq<u8>, input: Seq<u8>, dict_len: int, prefix: int, seqs: Seq<(int, int, int, int)>, done: int)
    requires
        keeps_block_rules(input.len() as int, dict_len, seqs, prefix, done),
        block == sequences_bytes(input, seqs) + last_sequence_bytes(input.skip(done)),
    ensures
        block_keeps_rules(block, input, dict_len, prefix),
{
    reveal(block_keeps_rules);
    if dict_len == 0 && prefix == 0 && input.len() > 0 {
        lemma_parse_opens_with_literal(input, seqs, done);
    }
}

/// A block of `w + input` after the prefix `w`, with no dictionary, keeps the rules as a block
/// of `input` after a dictionary of `w.len()` bytes.
#[verifier::rlimit(50)]
#[verifier::spinoff_prover]
pub proof fn lemma_rules_prefix_as_dict(block: Seq<u8>, w: Seq<u8>, input: Seq<u8>)
    requires
        block_keeps_rules(block, w + input, 0, w.len() as int),
    ensures
        block_keeps_rules(block, input, w.len() as int, 0),
{
    let k = w.len() as int;
    let (seqs, done) = lemma_rules_witness(block, w + input, 0, k);
    let s2 = Seq::new(seqs.len(), |i: int| (seqs[i].0 - k, seqs[i].1 - k, seqs[i].2, seqs[i].3));
    assert(shifted(seqs, s2, k));
    lemma_rules_shift(w, input, seqs, done, s2);
    lemma_sequences_shift(w, input, seqs, s2);
    assert((w + input).skip(done) =~= input.skip(done - k));
    lemma_rules_intro(block, input, k, 0, s2, done - k);
}

/// The block of `input` from `prefix` on, when fewer than [`LZ4_MIN_LENGTH`] bytes are to be
/// compressed, is those bytes as one run of literals.
pub open spec fn short_block(block: Seq<u8>, input: Seq<u8>, prefix: int) -> bool {
    input.len() - prefix < LZ4_MIN_LENGTH ==> block == last_sequence_bytes(input.skip(prefix))
}

/// The state of a block encoder that writes into a buffer that was `buf0`, from position
/// `p0` on: the bytes written so far (`out[p0..pos]`) decode to `input[..literal_start]`
/// after the prefix `input[..prefix]`, with `dict` before it, and are small enough that the
/// rest of the input still fits into [`max_output_size`] bytes.
pub open spec fn encoder_state(
    out: Seq<u8>,
    pos: int,
    buf0: Seq<u8>,
    p0: int,
    input: Seq<u8>,
    prefix: int,
    literal_start: int,
    dict: Seq<u8>,
) -> bool {
    &&& 0 <= p0 <= pos <= buf0.len()
    &&& out.len() == buf0.len()
    &&& out == splice(buf0, p0, out.subrange(p0, pos))
    &&& decodes_prefix(out.subrange(p0, pos), input, prefix, literal_start, dict)
    &&& ruled_prefix(out.subrange(p0, pos), input, dict.len() as int, prefix, literal_start)
    &&& 15 * (pos - p0) <= 16 * (literal_start - prefix)
    &&& 0 <= prefix <= literal_start <= input.len()
    &&& max_output_size(input.len() - prefix) <= buf0.len() - p0
}

/// An encoder starts with nothing written.
pub proof fn lemma_encoder_start(out: Seq<u8>, p0: int, input: Seq<u8>, prefix: int, dict: Seq<u8>)
    requires
        0 <= p0 <= out.len(),
        0 <= prefix <= input.len(),
        max_output_size(input.len() - prefix) <= out.len() - p0,
    ensures
        encoder_state(out, p0, out, p0, input, prefix, prefix, dict),
{
    lemma_decodes_prefix_start(input, prefix, dict);
    lemma_ruled_start(input, dict.len() as int, prefix);
    assert(out.subrange(p0, p0) =~= Seq::<u8>::empty());
    lemma_splice_empty(out, p0);
}

/// Writes the sequence made of the pending literals `input[literal_start..start]` and the
/// match of `match_len` bytes at `start`, `offset` bytes back.
pub fn emit_sequence(
    input: &[u8],
    output: &mut SliceSink,
    literal_start: usize,
    start: usize,
    offset: u16,
    match_len: usize,
    Ghost(buf0): Ghost<Seq<u8>>,
    Ghost(p0): Ghost<int>,
    Ghost(prefix): Ghost<int>,
    Ghost(dict): Ghost<Seq<u8>>,
)
    requires
        old(output).wf(),
        encoder_state(old(output).output@, old(output).pos as int, buf0, p0, input@, prefix, literal_start as int, dict),
        literal_start <= start,
        match_len >= MINMATCH,
        start + match_len + LAST_LITERALS <= input@.len(),
        0 < offset,
        offset <= dict.len() + start,
        repeats(dict + input@, dict.len() + start, offset as int, match_len as int),
    ensures
        final(output).wf(),
        encoder_state(
            final(output).output@,
            final(output).pos as int,
            buf0,
            p0,
            input@,
            prefix,
            (start + match_len) as int,
            dict,
        ),
        final(final(output).output)@ == final(old(output).output)@,
        final(output).output@.subrange(p0, final(output).pos as int) == old(output).output@.subrange(p0, old(output).pos as int)
            + sequence_bytes(input@.subrange(literal_start as int, start as int), offset as nat, (match_len - MINMATCH) as nat),
{
    let ghost e0 = output.output@.subrange(p0, output.pos as int);
    let literal = slice_range(input, literal_start, start);
    let ghost seq_bytes = sequence_bytes(literal@, offset as nat, (match_len - 4) as nat);
    proof {
        lemma_sequence_bytes_len(literal@, offset as nat, (match_len - 4) as nat);
        lemma_fits_max_output((e0.len() + seq_bytes.len()) as int, input@.len() - prefix);
    }
    encode_sequence(literal, output, offset, match_len - MINMATCH);
    proof {
        lemma_splice_append(buf0, p0, e0, seq_bytes);
        lemma_emit_sequence(e0, input@, prefix, literal_start as int, dict, start as int, offset as nat, (match_len - 4) as nat);
        lemma_ruled_push(e0, input@, dict.len() as int, prefix, literal_start as int, start as int, offset as int, match_len as int);
        assert(output.output@.subrange(p0, output.pos as int) =~= e0 + seq_bytes);
    }
}

/// Writes the last sequence, made of the literals `input[literal_start..]`, and returns the
/// number of bytes written since the encoder started.
pub fn emit_last_literals(
    input: &[u8],
    output: &mut SliceSink,
    literal_start: usize,
    output_start: usize,
    Ghost(buf0): Ghost<Seq<u8>>,
    Ghost(prefix): Ghost<int>,
    Ghost(dict): Ghost<Seq<u8>>,
) -> (n: usize)
    requires
        old(output).wf(),
        encoder_state(old(output).output@, old(output).pos as int, buf0, output_start as int, input@, prefix, literal_start as int, dict),
    ensures
        final(output).wf(),
        final(output).pos == output_start as int + n,
        n <= max_output_size(input@.len() - prefix),
        final(output).output@ == splice(buf0, output_start as int, final(output).output@.subrange(output_start as int, final(output).pos as int)),
        final(output).output@.len() == buf0.len(),
        block_decodes_to(final(output).output@.subrange(output_start as int, final(output).pos as int), dict, input@, prefix),
        block_keeps_rules(final(output).output@.subrange(output_start as int, final(output).pos as int), input@, dict.len() as int, prefix),
        final(output).output@.subrange(output_start as int, final(output).pos as int) == old(output).output@.subrange(
            output_start as int,
            old(output).pos as int,
        ) + last_sequence_bytes(input@.skip(literal_start as int)),
        final(final(output).output)@ == final(old(output).output)@,
{
    let ghost p0 = output_start as int;
    let ghost e0 = output.output@.subrange(p0, output.pos as int);
    let rest = slice_range(input, literal_start, input.len());
    proof {
        assert(rest@ =~= input@.skip(literal_start as int));
        lemma_last_sequence_bytes_len(rest@);
        lemma_fits_max_output((e0.len() + last_sequence_bytes(rest@).len()) as int, input@.len() - prefix);
    }
    handle_last_literals(output, rest);
    proof {
        lemma_splice_append(buf0, p0, e0, last_sequence_bytes(rest@));
        lemma_emit_last(e0, input@, prefix, literal_start as int, dict);
        lemma_ruled_last(e0, input@, dict.len() as int, prefix, literal_start as int);
        assert(output.output@.subrange(p0, output.pos as int) =~= e0 + last_sequence_bytes(rest@));
    }
    output.pos - output_start
}

/// What [`encoder_state`] says, except that the buffer needs no room for the rest of the
/// input: the bytes written so far decode to `input[..literal_start]` and stay within the
/// worst-case size.
pub open spec fn encoder_progress(
    out: Seq<u8>,
    pos: int,
    buf0: Seq<u8>,
    p0: int,
    input: Seq<u8>,
    prefix: int,
    literal_start: int,
    dict: Seq<u8>,
) -> bool {
    &&& 0 <= p0 <= pos <= buf0.len()
    &&& out.len() == buf0.len()
    &&& out == splice(buf0, p0, out.subrange(p0, pos))
    &&& decodes_prefix(out.subrange(p0, pos), input, prefix, literal_start, dict)
    &&& ruled_prefix(out.subrange(p0, pos), input, dict.len() as int, prefix, literal_start)
    &&& 15 * (pos - p0) <= 16 * (literal_start - prefix)
    &&& 0 <= prefix <= literal_start <= input.len()
}

/// An encoder that checks for room starts with nothing written.
pub proof fn lemma_encoder_progress_start(out: Seq<u8>, p0: int, input: Seq<u8>, prefix: int, dict: Seq<u8>)
    requires
        0 <= p0 <= out.len(),
        0 <= prefix <= input.len(),
    ensures
        encoder_progress(out, p0, out, p0, input, prefix, prefix, dict),
{
    lemma_decodes_prefix_start(input, prefix, dict);
    lemma_ruled_start(input, dict.len() as int, prefix);
    assert(out.subrange(p0, p0) =~= Seq::<u8>::empty());
    lemma_splice_empty(out, p0);
}

/// Writes the sequence made of the pending literals `input[literal_start..start]` and the
/// match of `match_len` bytes at `start`, `offset` bytes back, when the output has room for
/// it, and fails with [`CompressError::OutputTooSmall`], writing nothing, when it has not.
/// It always has room when the buffer was large enough for [`max_output_size`] of the input.
#[verifier::rlimit(50)]
#[verifier::spinoff_prover]
pub fn emit_sequence_checked(
    input: &[u8],
    output: &mut SliceSink,
    literal_start: usize,
    start: usize,
    offset: u16,
    match_len: usize,
    Ghost(buf0): Ghost<Seq<u8>>,
    Ghost(p0): Ghost<int>,
    Ghost(prefix): Ghost<int>,
    Ghost(dict): Ghost<Seq<u8>>,
) -> (r: Result<(), CompressError>)
    requires
        old(output).wf(),
        encoder_progress(old(output).output@, old(output).pos as int, buf0, p0, input@, prefix, literal_start as int, dict),
        input@.len() <= isize::MAX,
        literal_start <= start,
        match_len >= MINMATCH,
        start + match_len + LAST_LITERALS <= input@.len(),
        0 < offset,
        offset <= dict.len() + start,
        repeats(dict + input@, dict.len() + start, offset as int, match_len as int),
    ensures
        final(output).wf(),
        final(final(output).output)@ == final(old(output).output)@,
        r is Ok ==> encoder_progress(
            final(output).output@,
            final(output).pos as int,
            buf0,
            p0,
            input@,
            prefix,
            (start + match_len) as int,
            dict,
        ),
        r is Ok ==> final(output).output@.subrange(p0, final(output).pos as int) == old(output).output@.subrange(
            p0,
            old(output).pos as int,
        ) + sequence_bytes(input@.subrange(literal_start as int, start as int), offset as nat, (match_len - MINMATCH) as nat),
        r is Ok <==> old(output).pos + sequence_bytes(
            input@.subrange(literal_start as int, start as int),
            offset as nat,
            (match_len - MINMATCH) as nat,
        ).len() <= old(output).output@.len(),
        r is Err ==> r == Err::<(), CompressError>(CompressError::OutputTooSmall) && *final(output) == *old(
            output,
        ),
        max_output_size(input@.len() - prefix) <= buf0.len() - p0 ==> r is Ok,
{
    let ghost e0 = output.output@.subrange(p0, output.pos as int);
    let literal = slice_range(input, literal_start, start);
    let lit_len = start - literal_start;
    let ml_code = match_len - MINMATCH;
    let ghost seq_bytes = sequence_bytes(literal@, offset as nat, ml_code as nat);
    proof {
        lemma_sequence_bytes_len(literal@, offset as nat, ml_code as nat);
        lemma_fits_max_output((e0.len() + seq_bytes.len()) as int, input@.len() - prefix);
    }
    let bytes = 1 + ext_count(lit_len) + lit_len + 2 + ext_count(ml_code);
    if bytes > output.output.len() - output.pos {
        return Err(CompressError::OutputTooSmall);
    }
    encode_sequence(literal, output, offset, ml_code);
    proof {
        lemma_splice_append(buf0, p0, e0, seq_bytes);
        lemma_emit_sequence(e0, input@, prefix, literal_start as int, dict, start as int, offset as nat, ml_code as nat);
        lemma_ruled_push(e0, input@, dict.len() as int, prefix, literal_start as int, start as int, offset as int, match_len as int);
        assert(output.output@.subrange(p0, output.pos as int) =~= e0 + seq_bytes);
    }
    Ok(())
}

/// The number of length extension bytes of a field holding `n`.
pub fn ext_count(n: usize) -> (r: usize)
    ensures
        r == ext_len(n as nat),
        r <= n / 15,
{
    proof {
        lemma_ext_field_len(n as nat);
    }
    if n >= 15 {
        (n - 15) / 255 + 1
    } else {
        0
    }
}

/// Writes the last sequence, made of the literals `input[literal_start..]`, when the output has
/// room for it, and returns the number of bytes written since the encoder started; fails with
/// [`CompressError::OutputTooSmall`], writing nothing, when it has not.
pub fn emit_last_literals_checked(
    input: &[u8],
    output: &mut SliceSink,
    literal_start: usize,
    output_start: usize,
    Ghost(buf0): Ghost<Seq<u8>>,
    Ghost(prefix): Ghost<int>,
    Ghost(dict): Ghost<Seq<u8>>,
) -> (r: Result<usize, CompressError>)
    requires
        old(output).wf(),
        encoder_progress(old(output).output@, old(output).pos as int, buf0, output_start as int, input@, prefix, literal_start as int, dict),
        input@.len() <= isize::MAX,
    ensures
        final(output).wf(),
        final(final(output).output)@ == final(old(output).output)@,
        r matches Ok(n) ==> final(output).pos == output_start as int + n && n <= max_output_size(input@.len() - prefix)
            && final(output).output@ == splice(
            buf0,
            output_start as int,
            final(output).output@.subrange(output_start as int, final(output).pos as int),
        ) && final(output).output@.len() == buf0.len() && block_decodes_to(
            final(output).output@.subrange(output_start as int, final(output).pos as int),
            dict,
            input@,
            prefix,
        ) && block_keeps_rules(
            final(output).output@.subrange(output_start as int, final(output).pos as int),
            input@,
            dict.len() as int,
            prefix,
        ),
        r is Ok ==> final(output).output@.subrange(output_start as int, final(output).pos as int) == old(
            output,
        ).output@.subrange(output_start as int, old(output).pos as int) + last_sequence_bytes(
            input@.skip(literal_start as int),
        ),
        r is Ok <==> old(output).pos + last_sequence_bytes(input@.skip(literal_start as int)).len()
            <= old(output).output@.len(),
        r is Err ==> r == Err::<usize, CompressError>(CompressError::OutputTooSmall) && *final(output) == *old(
            output,
        ),
        max_output_size(input@.len() - prefix) <= buf0.len() - output_start ==> r is Ok,
{
    let ghost p0 = output_start as int;
    let ghost e0 = output.output@.subrange(p0, output.pos as int);
    let rest = slice_range(input, literal_start, input.len());
    let lit_len = input.len() - literal_start;
    proof {
        assert(rest@ =~= input@.skip(literal_start as int));
        lemma_last_sequence_bytes_len(rest@);
        lemma_fits_max_output((e0.len() + last_sequence_bytes(rest@).len()) as int, input@.len() - prefix);
    }
    let bytes = 1 + ext_count(lit_len) + lit_len;
    if bytes > output.output.len() - output.pos {
        return Err(CompressError::OutputTooSmall);
    }
    handle_last_literals(output, rest);
    proof {
        lemma_splice_append(buf0, p0, e0, last_sequence_bytes(rest@));
        lemma_emit_last(e0, input@, prefix, literal_start as int, dict);
        lemma_ruled_last(e0, input@, dict.len() as int, prefix, literal_start as int);
        assert(output.output@.subrange(p0, output.pos as int) =~= e0 + last_sequence_bytes(rest@));
    }
    Ok(output.pos - output_start)
}

} // verus!
