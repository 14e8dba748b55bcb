//! The block decompression algorithm.
//!
//! Every function here computes [`decode_at`] exactly: on success the output buffer holds the
//! decoded bytes, on failure the returned error is the one the block format assigns to the
//! first malformed field.
use vstd::prelude::*;
use crate::block::format::{decode_block, decode_at, ext_acc, ext_int, lemma_ext_acc, lemma_copy_back_compose, match_field, lemma_copy_back_prefix, literal_field, sat};
use crate::block::{uncompressed_size, DecompressError, le_u32};
use crate::sink::{copy_back, lemma_copy_back_len, lemma_skip_more, Sink, SliceSink};

verus! {

/// Reads a length extension: bytes are added up until a byte below `255` is read.
pub fn read_integer(input: &[u8], input_pos: &mut usize) -> (r: Result<u128, DecompressError>)
    requires
        *old(input_pos) <= input@.len(),
    ensures
        *old(input_pos) <= *final(input_pos) <= input@.len(),
        match ext_int(input@, *old(input_pos) as int) {
            Some((v, p)) => r == Ok::<u128, DecompressError>(v as u128) && *final(input_pos) == p
                && 0 <= v <= 255 * input@.len(),
            None => r == Err::<u128, DecompressError>(DecompressError::ExpectedAnotherByte),
        },
{
    let ghost start = *input_pos as int;
    let ghost mut acc: int = 0;
    let mut n: u128 = 0;
    loop
        invariant
            start <= *input_pos <= input@.len(),
            start == *old(input_pos),
            0 <= acc <= 255 * (*input_pos - start),
            n == acc,
            ext_acc(input@, start, 0) == ext_acc(input@, *input_pos as int, acc),
        decreases input@.len() - *input_pos,
    {
        if *input_pos >= input.len() {
            return Err(DecompressError::ExpectedAnotherByte);
        }
        let extra = input[*input_pos];
        assert(extra != 255 ==> ext_acc(input@, *input_pos as int, acc) == Some((acc + extra, *input_pos + 1)));
        *input_pos = *input_pos + 1;
        n = n + extra as u128;
        if extra != 0xFF {
            return Ok(n);
        }
        proof {
            acc = acc + 255;
        }
    }
}

/// Reads a little-endian 16-bit integer.
pub fn read_u16(input: &[u8], input_pos: &mut usize) -> (r: Result<u16, DecompressError>)
    requires
        *old(input_pos) <= input@.len(),
    ensures
        input@.len() - *old(input_pos) < 2 ==> r == Err::<u16, DecompressError>(DecompressError::ExpectedAnotherByte)
            && *final(input_pos) == *old(input_pos),
        input@.len() - *old(input_pos) >= 2 ==> r == Ok::<u16, DecompressError>(
            (input@[*old(input_pos) as int] + 256 * input@[*old(input_pos) + 1]) as u16,
        ) && *final(input_pos) == *old(input_pos) + 2,
{
    if input.len() - *input_pos < 2 {
        return Err(DecompressError::ExpectedAnotherByte);
    }
    let lo = input[*input_pos] as u16;
    let hi = input[*input_pos + 1] as u16;
    *input_pos = *input_pos + 2;
    Ok(lo + 256 * hi)
}

/// Whether both length nibbles of `token` are below 15, so that no length extension follows.
pub fn does_token_fit(token: u8) -> (r: bool)
    ensures
        r == (token % 16 != 15 && token / 16 != 15),
{
    let lit = token & 0x0F;
    let ml = token & 0xF0;
    assert(token & 0x0F == token % 16 && ((token & 0xF0) == 0xF0) == (token / 16 == 15)) by (bit_vector);
    !(lit == 0x0F || ml == 0xF0)
}

/// Appends the first `min(match_length, offset - pos)` bytes of a match whose source starts
/// in the external dictionary. Returns the number of bytes appended.
pub fn copy_from_dict(output: &mut SliceSink, ext_dict: &[u8], offset: usize, match_length: usize) -> (r: usize)
    requires
        old(output).wf(),
        old(output).pos < offset,
        offset - old(output).pos <= ext_dict@.len(),
        old(output).pos + match_length <= old(output).output@.len(),
    ensures
        r == if match_length < offset - old(output).pos { match_length } else { (offset - old(output).pos) as usize },
        final(output).wf(),
        final(output).pos == old(output).pos + r,
        final(output).output@.len() == old(output).output@.len(),
        ext_dict@ + final(output).filled() == copy_back(ext_dict@ + old(output).filled(), offset as int, r as nat),
        final(output).output@.skip(final(output).pos as int) == old(output).output@.skip(final(output).pos as int),
        final(final(output).output)@ == final(old(output).output)@,
{
    let n = if match_length < offset - output.pos { match_length } else { offset - output.pos };
    copy_match(output, ext_dict, offset, n);
    n
}

/// Appends a match of `match_length` bytes at distance `offset` into the history
/// `ext_dict` followed by the output, one byte at a time.
fn copy_match(output: &mut SliceSink, ext_dict: &[u8], offset: usize, match_length: usize)
    requires
        old(output).wf(),
        0 < offset <= old(output).pos + ext_dict@.len(),
        old(output).pos + match_length <= old(output).output@.len(),
    ensures
        final(output).wf(),
        final(output).pos == old(output).pos + match_length,
        final(output).output@.len() == old(output).output@.len(),
        ext_dict@ + final(output).filled() == copy_back(ext_dict@ + old(output).filled(), offset as int, match_length as nat),
        final(output).output@.skip(final(output).pos as int) == old(output).output@.skip(final(output).pos as int),
        final(final(output).output)@ == final(old(output).output)@,
{
    let ghost h0 = ext_dict@ + output.filled();
    let ghost buf0 = output.output@;
    let p0 = output.pos;
    let mut k: usize = 0;
    while k < match_length
        invariant
            0 <= k <= match_length,
            output.wf(),
            output.pos == p0 + k,
            p0 + match_length <= buf0.len(),
            0 < offset <= p0 + ext_dict@.len(),
            output.output@.len() == buf0.len(),
            h0 == ext_dict@ + buf0.take(p0 as int),
            ext_dict@ + output.filled() == copy_back(h0, offset as int, k as nat),
            output.output@.skip(output.pos as int) == buf0.skip(output.pos as int),
            final(output.output)@ == final(old(output).output)@,
        decreases match_length - k,
    {
        let pos = output.pos;
        let b = if pos >= offset {
            output.byte_at(pos - offset)
        } else {
            ext_dict[ext_dict.len() - (offset - pos)]
        };
        let ghost g = ext_dict@ + output.filled();
        let ghost prev = output.output@;
        proof {
            lemma_copy_back_len(h0, offset as int, k as nat);
            assert(g[g.len() - offset] == b);
        }
        output.push(b);
        k = k + 1;
        assert(ext_dict@ + output.filled() =~= g.push(b));
        assert forall|i: int| 0 <= i < output.output@.len() - output.pos implies
            output.output@.skip(output.pos as int)[i] == buf0.skip(output.pos as int)[i] by {
            assert(prev.skip(pos as int)[i + 1] == buf0.skip(pos as int)[i + 1]);
        }
        assert(output.output@.skip(output.pos as int) =~= buf0.skip(output.pos as int));
    }
}

/// Appends a match of `match_length` bytes at distance `offset` whose source lies entirely in
/// the output written so far.
pub fn duplicate_slice(output: &mut SliceSink, offset: usize, match_length: usize)
    requires
        old(output).wf(),
        0 < offset <= old(output).pos,
        old(output).pos + match_length <= old(output).output@.len(),
    ensures
        final(output).wf(),
        final(output).pos == old(output).pos + match_length,
        final(output).output@.len() == old(output).output@.len(),
        final(output).filled() == copy_back(old(output).filled(), offset as int, match_length as nat),
        final(output).output@.skip(final(output).pos as int) == old(output).output@.skip(final(output).pos as int),
        final(final(output).output)@ == final(old(output).output)@,
{
    if match_length == 0 {
        return;
    }
    if offset == 1 {
        duplicate_overlapping_slice(output, offset, match_length);
    } else {
        let start = output.pos - offset;
        output.extend_from_within_overlapping(start, match_length);
    }
}

/// Appends a run of `match_length` bytes copied from distance `offset` when the copy overlaps
/// the bytes being written; a distance of one is a run of a single byte.
pub fn duplicate_overlapping_slice(output: &mut SliceSink, offset: usize, match_length: usize)
    requires
        old(output).wf(),
        0 < offset <= old(output).pos,
        old(output).pos + match_length <= old(output).output@.len(),
    ensures
        final(output).wf(),
        final(output).pos == old(output).pos + match_length,
        final(output).output@.len() == old(output).output@.len(),
        final(output).filled() == copy_back(old(output).filled(), offset as int, match_length as nat),
        final(output).output@.skip(final(output).pos as int) == old(output).output@.skip(final(output).pos as int),
        final(final(output).output)@ == final(old(output).output)@,
{
    let start = output.pos - offset;
    output.extend_from_within_overlapping(start, match_length);
}

} // verus!

verus! {

/// Reads the literal length of the sequence whose token (at `token_pos`) was just read.
fn read_literal_length(input: &[u8], input_pos: &mut usize, token: u8) -> (r: Result<u128, DecompressError>)
    requires
        *old(input_pos) >= 1,
        *old(input_pos) <= input@.len(),
        token == input@[*old(input_pos) - 1],
    ensures
        *old(input_pos) <= *final(input_pos) <= input@.len(),
        match literal_field(input@, *old(input_pos) - 1) {
            Some((lit, p)) => r == Ok::<u128, DecompressError>(lit as u128) && *final(input_pos) == p && 0 <= lit <= 15 + 255 * input@.len(),
            None => r == Err::<u128, DecompressError>(DecompressError::ExpectedAnotherByte),
        },
{
    proof {
        lemma_ext_acc(input@, *old(input_pos) as int, 0);
    }
    let nib = (token >> 4) as u128;
    assert(token >> 4 == token / 16) by (bit_vector);
    if nib == 15 {
        match read_integer(input, input_pos) {
            Ok(v) => {
                let len = input.len();
                assert(len <= 0xffff_ffff_ffff_ffff);
                Ok(15 + v)
            },
            Err(e) => Err(e),
        }
    } else {
        Ok(nib)
    }
}

/// Reads the match length of a sequence with token `token`; its extension, if any, starts at
/// the current position.
fn read_match_length(input: &[u8], input_pos: &mut usize, token: u8) -> (r: Result<u128, DecompressError>)
    requires
        *old(input_pos) <= input@.len(),
    ensures
        *old(input_pos) <= *final(input_pos) <= input@.len(),
        match match_field(input@, token, *old(input_pos) as int) {
            Some((ml, p)) => r == Ok::<u128, DecompressError>(ml as u128) && *final(input_pos) == p && 4 <= ml <= 19 + 255 * input@.len(),
            None => r == Err::<u128, DecompressError>(DecompressError::ExpectedAnotherByte),
        },
{
    proof {
        lemma_ext_acc(input@, *old(input_pos) as int, 0);
    }
    let nib = (token & 0xF) as u128;
    assert(token & 0xF == token % 16) by (bit_vector);
    if nib == 15 {
        match read_integer(input, input_pos) {
            Ok(v) => {
                let len = input.len();
                assert(len <= 0xffff_ffff_ffff_ffff);
                Ok(19 + v)
            },
            Err(e) => Err(e),
        }
    } else {
        Ok(4 + nib)
    }
}

/// Appends a match of `match_length` bytes at distance `offset` in the history formed by
/// `ext_dict` followed by the output.
fn apply_match(output: &mut SliceSink, ext_dict: &[u8], offset: usize, match_length: usize)
    requires
        old(output).wf(),
        0 < offset <= old(output).pos + ext_dict@.len(),
        old(output).pos + match_length <= old(output).output@.len(),
    ensures
        final(output).wf(),
        final(output).pos == old(output).pos + match_length,
        final(output).output@.len() == old(output).output@.len(),
        final(output).filled() == copy_back(ext_dict@ + old(output).filled(), offset as int, match_length as nat).skip(ext_dict@.len() as int),
        final(output).output@.skip(final(output).pos as int) == old(output).output@.skip(final(output).pos as int),
        final(final(output).output)@ == final(old(output).output)@,
{
    let ghost dict = ext_dict@;
    let ghost pre = output.filled();
    let ghost buf0 = output.output@;
    let p0 = output.pos;
    if offset > output.pos {
        let copied = copy_from_dict(output, ext_dict, offset, match_length);
        let rest = match_length - copied;
        let ghost mid = output.filled();
        let ghost buf1 = output.output@;
        proof {
            lemma_copy_back_len(dict + pre, offset as int, copied as nat);
            lemma_copy_back_compose(dict + pre, offset as int, copied as nat, rest as nat);
        }
        if rest > 0 {
            duplicate_slice(output, offset, rest);
            proof {
                lemma_copy_back_prefix(dict, mid, offset as int, rest as nat);
                lemma_skip_more(buf1, buf0, (p0 + copied) as int, output.pos as int);
            }
        } else {
            assert(copy_back(dict + mid, offset as int, 0) == dict + mid);
        }
    } else {
        duplicate_slice(output, offset, match_length);
        proof {
            lemma_copy_back_prefix(dict, pre, offset as int, match_length as nat);
        }
    }
    assert(copy_back(dict + pre, offset as int, match_length as nat).skip(dict.len() as int)
        =~= output.filled());
}

/// Decompresses all bytes of `input` into `output`, starting at its write position. Bytes
/// before the write position form a prefix that matches may refer to, and `ext_dict` precedes
/// them. Returns the number of bytes written.
pub fn decompress_internal(input: &[u8], output: &mut SliceSink, ext_dict: &[u8]) -> (r: Result<usize, DecompressError>)
    requires
        old(output).wf(),
    ensures
        final(output).wf(),
        final(output).output@.len() == old(output).output@.len(),
        final(final(output).output)@ == final(old(output).output)@,
        final(output).pos >= old(output).pos,
        final(output).output@.take(old(output).pos as int) == old(output).filled(),
        match decode_at(input@, 0, old(output).filled(), ext_dict@, old(output).output@.len() as int) {
            Ok(full) => r == Ok::<usize, DecompressError>((full.len() - old(output).pos) as usize)
                && final(output).filled() == full
                && final(output).output@.skip(final(output).pos as int) == old(output).output@.skip(final(output).pos as int),
            Err(e) => r == Err::<usize, DecompressError>(e),
        },
{
    let ghost s = input@;
    let ghost dict = ext_dict@;
    let ghost buf0 = output.output@;
    let ghost cap = output.output@.len() as int;
    let ghost goal = decode_at(s, 0, output.filled(), dict, cap);
    let initial_output_pos = output.pos;
    let mut input_pos: usize = 0;
    loop
        invariant_except_break
            decode_at(s, input_pos as int, output.filled(), dict, cap) == goal,
        invariant
            output.wf(),
            output.output@.len() == cap,
            cap == buf0.len(),
            initial_output_pos <= output.pos,
            initial_output_pos == old(output).pos,
            buf0 == old(output).output@,
            s == input@,
            dict == ext_dict@,
            input_pos <= s.len(),
            goal == decode_at(s, 0, old(output).filled(), dict, cap),
            output.output@.skip(output.pos as int) == buf0.skip(output.pos as int),
            final(output.output)@ == final(old(output).output)@,
            output.filled().take(initial_output_pos as int) == buf0.take(initial_output_pos as int),
        ensures
            goal == Ok::<Seq<u8>, DecompressError>(output.filled()),
        decreases s.len() - input_pos,
    {
        let ghost ip = input_pos as int;
        let ghost out = output.filled();
        if input_pos >= input.len() {
            return Err(DecompressError::ExpectedAnotherByte);
        }
        let token = input[input_pos];
        input_pos = input_pos + 1;
        let literal_length = match read_literal_length(input, &mut input_pos, token) {
            Ok(l) => l,
            Err(e) => {
                return Err(e);
            },
        };
        let ghost lit_p = literal_field(s, ip).unwrap();
        assert(literal_field(s, ip) is Some);
        if literal_length > (input.len() - input_pos) as u128 {
            return Err(DecompressError::LiteralOutOfBounds);
        }
        let literal_length = literal_length as usize;
        assert(lit_p.0 == literal_length);
        assert(out == output.filled() && out.len() == output.pos);
        if literal_length > output.capacity() - output.pos() {
            let expected = if output.pos() > usize::MAX - literal_length { usize::MAX } else { output.pos() + literal_length };
            return Err(DecompressError::OutputTooSmall { expected, actual: output.capacity() });
        }
        let lit_slice = slice_range(input, input_pos, input_pos + literal_length);
        let ghost before_lits = output.output@;
        output.extend_from_slice(lit_slice);
        proof {
            lemma_skip_more(before_lits, buf0, (output.pos - literal_length) as int, output.pos as int);
        }
        input_pos = input_pos + literal_length;
        let ghost out2 = output.filled();
        assert(out2 == out + s.subrange(lit_p.1, lit_p.1 + lit_p.0));
        if input_pos >= input.len() {
            break;
        }
        let ghost q = input_pos as int;
        let offset = match read_u16(input, &mut input_pos) {
            Ok(o) => o as usize,
            Err(e) => {
                return Err(e);
            },
        };
        let match_length = match read_match_length(input, &mut input_pos, token) {
            Ok(l) => l,
            Err(e) => {
                return Err(e);
            },
        };
        let ghost ml_r = match_field(s, token, q + 2).unwrap();
        assert(match_field(s, token, q + 2) is Some);
        assert(match_length == ml_r.0);
        assert(offset == s[q] + 256 * s[q + 1]);
        if offset == 0 {
            return Err(DecompressError::OffsetZero);
        }
        if offset > output.pos() && offset - output.pos() > ext_dict.len() {
            return Err(DecompressError::OffsetOutOfBounds);
        }
        if match_length > (output.capacity() - output.pos()) as u128 {
            let sum = output.pos() as u128 + match_length;
            let expected = if sum > usize::MAX as u128 { usize::MAX } else { sum as usize };
            return Err(DecompressError::OutputTooSmall { expected, actual: output.capacity() });
        }
        let match_length = match_length as usize;
        assert(ml_r.0 == match_length);
        let ghost before_match = output.output@;
        let ghost f0 = output.filled();
        apply_match(output, ext_dict, offset, match_length);
        proof {
            lemma_skip_more(before_match, buf0, (output.pos - match_length) as int, output.pos as int);
            let h = ext_dict@ + f0;
            lemma_copy_back_len(h, offset as int, match_length as nat);
            assert forall|i: int| 0 <= i < initial_output_pos implies output.filled()[i] == buf0[i] by {
                assert(output.filled()[i] == copy_back(h, offset as int, match_length as nat).take(h.len() as int)[ext_dict@.len() + i]);
                assert(f0.take(initial_output_pos as int)[i] == buf0.take(initial_output_pos as int)[i]);
            }
            assert(output.filled().take(initial_output_pos as int) =~= buf0.take(initial_output_pos as int));
        }
    }
    Ok(output.pos - initial_output_pos)
}

/// Returns `s[start..end]`.
pub fn slice_range(s: &[u8], start: usize, end: usize) -> (r: &[u8])
    requires
        start <= end <= s@.len(),
    ensures
        r@ == s@.subrange(start as int, end as int),
{
    &s[start..end]
}

} // verus!

verus! {

/// Decompresses all bytes of `input` into `output`, which should be preallocated with the size
/// of the uncompressed data. Returns the number of bytes written; the bytes after them are
/// left unchanged.
pub fn decompress_into(input: &[u8], output: &mut [u8]) -> (r: Result<usize, DecompressError>)
    ensures
        final(output)@.len() == old(output)@.len(),
        match decode_block(input@, Seq::empty(), old(output)@.len() as int) {
            Ok(full) => r == Ok::<usize, DecompressError>(full.len() as usize)
                && final(output)@ == full + old(output)@.skip(full.len() as int),
            Err(e) => r == Err::<usize, DecompressError>(e),
        },
{
    let no_dict: &[u8] = &[];
    assert(no_dict@ =~= Seq::<u8>::empty());
    decompress_into_with_dict(input, output, no_dict)
}

/// Decompresses all bytes of `input` into `output`, with `ext_dict` as the data that precedes
/// the block. Returns the number of bytes written; the bytes after them are left unchanged.
pub fn decompress_into_with_dict(input: &[u8], output: &mut [u8], ext_dict: &[u8]) -> (r: Result<usize, DecompressError>)
    ensures
        final(output)@.len() == old(output)@.len(),
        match decode_block(input@, ext_dict@, old(output)@.len() as int) {
            Ok(full) => r == Ok::<usize, DecompressError>(full.len() as usize)
                && final(output)@ == full + old(output)@.skip(full.len() as int),
            Err(e) => r == Err::<usize, DecompressError>(e),
        },
{
    let ghost o0 = output@;
    let mut sink = SliceSink::new(output, 0);
    assert(sink.filled() =~= Seq::<u8>::empty());
    let r = decompress_internal(input, &mut sink, ext_dict);
    proof {
        if let Ok(full) = decode_block(input@, ext_dict@, o0.len() as int) {
            assert(sink.output@ =~= full + o0.skip(full.len() as int));
        }
    }
    r
}

/// Decompresses all bytes of `input` into a new vec of at most `min_uncompressed_size` bytes.
pub fn decompress(input: &[u8], min_uncompressed_size: usize) -> (r: Result<Vec<u8>, DecompressError>)
    ensures
        match decode_block(input@, Seq::empty(), min_uncompressed_size as int) {
            Ok(full) => r matches Ok(v) && v@ == full,
            Err(e) => r == Err::<Vec<u8>, DecompressError>(e),
        },
{
    let no_dict: &[u8] = &[];
    assert(no_dict@ =~= Seq::<u8>::empty());
    decompress_with_dict(input, min_uncompressed_size, no_dict)
}

/// Decompresses all bytes of `input`, preceded by `ext_dict`, into a new vec of at most
/// `min_uncompressed_size` bytes.
pub fn decompress_with_dict(input: &[u8], min_uncompressed_size: usize, ext_dict: &[u8]) -> (r: Result<Vec<u8>, DecompressError>)
    ensures
        match decode_block(input@, ext_dict@, min_uncompressed_size as int) {
            Ok(full) => r matches Ok(v) && v@ == full,
            Err(e) => r == Err::<Vec<u8>, DecompressError>(e),
        },
{
    let mut vec: Vec<u8> = vec![0u8; min_uncompressed_size];
    let res = decompress_into_with_dict(input, vec.as_mut_slice(), ext_dict);
    match res {
        Ok(n) => {
            vec.truncate(n);
            proof {
                let full = decode_block(input@, ext_dict@, min_uncompressed_size as int)->Ok_0;
                assert(vec@ =~= full);
            }
            Ok(vec)
        },
        Err(e) => Err(e),
    }
}

/// Decompresses all bytes of `input` into a new vec. The first 4 bytes are the uncompressed
/// size in little endian.
pub fn decompress_size_prepended(input: &[u8]) -> (r: Result<Vec<u8>, DecompressError>)
    ensures
        input@.len() < 4 ==> r == Err::<Vec<u8>, DecompressError>(DecompressError::ExpectedAnotherByte),
        input@.len() >= 4 ==> match decode_block(
            input@.skip(4),
            Seq::empty(),
            le_u32(input@[0], input@[1], input@[2], input@[3]) as int,
        ) {
            Ok(full) => r matches Ok(v) && v@ == full,
            Err(e) => r == Err::<Vec<u8>, DecompressError>(e),
        },
{
    let no_dict: &[u8] = &[];
    assert(no_dict@ =~= Seq::<u8>::empty());
    decompress_size_prepended_with_dict(input, no_dict)
}

/// Decompresses all bytes of `input`, preceded by `ext_dict`, into a new vec. The first 4
/// bytes are the uncompressed size in little endian.
pub fn decompress_size_prepended_with_dict(input: &[u8], ext_dict: &[u8]) -> (r: Result<Vec<u8>, DecompressError>)
    ensures
        input@.len() < 4 ==> r == Err::<Vec<u8>, DecompressError>(DecompressError::ExpectedAnotherByte),
        input@.len() >= 4 ==> match decode_block(
            input@.skip(4),
            ext_dict@,
            le_u32(input@[0], input@[1], input@[2], input@[3]) as int,
        ) {
            Ok(full) => r matches Ok(v) && v@ == full,
            Err(e) => r == Err::<Vec<u8>, DecompressError>(e),
        },
{
    match uncompressed_size(input) {
        Ok((size, rest)) => decompress_with_dict(rest, size, ext_dict),
        Err(e) => Err(e),
    }
}

} // verus!
