//! The meaning of an LZ4 block, as mathematical functions.
//!
//! A block is a sequence of *sequences*. Each sequence is a token byte (high nibble: literal
//! length, low nibble: match length minus 4), an optional length extension, the literal bytes,
//! and, unless the block ends right after the literals, a 2 byte little-endian offset followed
//! by an optional match length extension. A length extension is a run of `255` bytes ended by
//! a byte below `255`; the nibble `15` is increased by the sum of its bytes.
//!
//! Decoding appends the literals and then copies `match length` bytes, each taken `offset`
//! bytes back in the history formed by the external dictionary followed by the output.
use vstd::prelude::*;
use crate::block::DecompressError;
use crate::sink::copy_back;

verus! {

/// Value and end position of a length extension that starts at `pos`, with `acc` already
/// summed.
pub open spec fn ext_acc(s: Seq<u8>, pos: int, acc: int) -> Option<(int, int)>
    decreases s.len() - pos,
{
    if pos < 0 || pos >= s.len() {
        None
    } else if s[pos] == 255 {
        ext_acc(s, pos + 1, acc + 255)
    } else {
        Some((acc + s[pos], pos + 1))
    }
}

/// A length extension ends after its start, inside `s`, and is at least what was summed.
pub proof fn lemma_ext_acc(s: Seq<u8>, pos: int, acc: int)
    ensures
        ext_acc(s, pos, acc) matches Some((v, p)) ==> v >= acc && pos < p <= s.len(),
    decreases s.len() - pos,
{
    if 0 <= pos < s.len() && s[pos] == 255 {
        lemma_ext_acc(s, pos + 1, acc + 255);
    }
}

/// Value and end position of the length extension that starts at `pos`.
pub open spec fn ext_int(s: Seq<u8>, pos: int) -> Option<(int, int)> {
    ext_acc(s, pos, 0)
}

/// `x` as a `usize`, clamped at `usize::MAX`.
pub open spec fn sat(x: int) -> usize {
    if x > usize::MAX {
        usize::MAX
    } else if x < 0 {
        0
    } else {
        x as usize
    }
}

/// Literal length of the sequence whose token is at `tpos`, and the position of its first
/// literal byte.
pub open spec fn literal_field(s: Seq<u8>, tpos: int) -> Option<(int, int)> {
    let nib = s[tpos] / 16;
    if nib == 15 {
        match ext_int(s, tpos + 1) {
            Some((v, p)) => Some((15 + v, p)),
            None => None,
        }
    } else {
        Some((nib as int, tpos + 1))
    }
}

/// Match length of the sequence whose token is `token`, whose extension (if any) starts at
/// `pos`, and the position after it.
pub open spec fn match_field(s: Seq<u8>, token: u8, pos: int) -> Option<(int, int)> {
    let nib = token % 16;
    if nib == 15 {
        match ext_int(s, pos) {
            Some((v, p)) => Some((19 + v, p)),
            None => None,
        }
    } else {
        Some((4 + nib, pos))
    }
}

/// Decodes the block `s` from position `ip` on.
///
/// `out` is the output so far (it may start with a preset prefix), `dict` the external
/// dictionary that precedes it, and `cap` the size of the output buffer. The result is the
/// complete output, or the error that the decompressor reports.
pub open spec fn decode_at(s: Seq<u8>, ip: int, out: Seq<u8>, dict: Seq<u8>, cap: int) -> Result<Seq<u8>, DecompressError>
    decreases s.len() - ip,
{
    if ip < 0 || ip >= s.len() {
        Err(DecompressError::ExpectedAnotherByte)
    } else {
        let token = s[ip];
        match literal_field(s, ip) {
            None => Err(DecompressError::ExpectedAnotherByte),
            Some((lit, p)) => {
                if lit > s.len() - p {
                    Err(DecompressError::LiteralOutOfBounds)
                } else if lit > cap - out.len() {
                    Err(DecompressError::OutputTooSmall { expected: sat(out.len() + lit), actual: sat(cap) })
                } else {
                    let out2 = out + s.subrange(p, p + lit);
                    let q = p + lit;
                    if q >= s.len() {
                        Ok(out2)
                    } else if s.len() - q < 2 {
                        Err(DecompressError::ExpectedAnotherByte)
                    } else {
                        let offset = s[q] + 256 * s[q + 1];
                        match match_field(s, token, q + 2) {
                            None => Err(DecompressError::ExpectedAnotherByte),
                            Some((ml, r)) => {
                                if offset == 0 {
                                    Err(DecompressError::OffsetZero)
                                } else if offset > out2.len() + dict.len() {
                                    Err(DecompressError::OffsetOutOfBounds)
                                } else if ml > cap - out2.len() {
                                    Err(DecompressError::OutputTooSmall { expected: sat(out2.len() + ml), actual: sat(cap) })
                                } else {
                                    proof {
                                        lemma_ext_acc(s, ip + 1, 0);
                                        lemma_ext_acc(s, q + 2, 0);
                                    }
                                    decode_at(s, r, copy_back(dict + out2, offset, ml as nat).skip(dict.len() as int), dict, cap)
                                }
                            },
                        }
                    }
                }
            },
        }
    }
}

/// Decoding only appends to the output, and never past the capacity.
pub proof fn lemma_decode_extends(s: Seq<u8>, ip: int, out: Seq<u8>, dict: Seq<u8>, cap: int)
    requires
        out.len() <= cap,
    ensures
        decode_at(s, ip, out, dict, cap) matches Ok(full) ==> out.len() <= full.len() <= cap && full.take(
            out.len() as int,
        ) == out,
    decreases s.len() - ip,
{
    if 0 <= ip < s.len() {
        let token = s[ip];
        lemma_ext_acc(s, ip + 1, 0);
        if let Some((lit, p)) = literal_field(s, ip) {
            assert(ip < p && 0 <= lit);
            if lit <= s.len() - p && lit <= cap - out.len() {
                let out2 = out + s.subrange(p, p + lit);
                let q = p + lit;
                if q < s.len() && s.len() - q >= 2 {
                    let offset = s[q] + 256 * s[q + 1];
                    lemma_ext_acc(s, q + 2, 0);
                    if let Some((ml, r)) = match_field(s, token, q + 2) {
                        assert(q + 2 <= r && 4 <= ml);
                        if offset != 0 && offset <= out2.len() + dict.len() && ml <= cap - out2.len() {
                            lemma_ext_acc(s, ip + 1, 0);
                            lemma_ext_acc(s, q + 2, 0);
                            let h = dict + out2;
                            crate::sink::lemma_copy_back_len(h, offset, ml as nat);
                            let next = copy_back(h, offset, ml as nat).skip(dict.len() as int);
                            assert(next.take(out2.len() as int) =~= out2) by {
                                assert(copy_back(h, offset, ml as nat).take(h.len() as int) == h);
                                assert forall|i: int| 0 <= i < out2.len() implies next[i] == out2[i] by {
                                    assert(next[i] == copy_back(h, offset, ml as nat).take(h.len() as int)[dict.len() + i]);
                                }
                            }
                            lemma_decode_extends(s, r, next, dict, cap);
                            if let Ok(full) = decode_at(s, r, next, dict, cap) {
                                assert(full.take(out.len() as int) =~= out) by {
                                    assert forall|i: int| 0 <= i < out.len() implies full[i] == out[i] by {
                                        assert(full.take(next.len() as int)[i] == next[i]);
                                        assert(next.take(out2.len() as int)[i] == out2[i]);
                                    }
                                }
                            }
                        }
                    }
                } else if q >= s.len() {
                    assert(out2.take(out.len() as int) =~= out);
                }
            }
        }
    }
}

/// Bytes in the output before the block decode as a dictionary would: the decoder that starts
/// with `w` already in the output produces `w` followed by what the decoder with dictionary `w`
/// produces.
pub proof fn lemma_decode_prefix_as_dict(s: Seq<u8>, ip: int, w: Seq<u8>, out: Seq<u8>, cap: int, res: Seq<u8>)
    requires
        decode_at(s, ip, w + out, Seq::empty(), cap + w.len()) == Ok::<Seq<u8>, DecompressError>(res),
    ensures
        decode_at(s, ip, out, w, cap) == Ok::<Seq<u8>, DecompressError>(res.skip(w.len() as int)),
    decreases s.len() - ip,
{
    let token = s[ip];
    lemma_ext_acc(s, ip + 1, 0);
    let (lit, p) = literal_field(s, ip).unwrap();
    let out2 = out + s.subrange(p, p + lit);
    assert((w + out) + s.subrange(p, p + lit) =~= w + out2);
    let q = p + lit;
    if q >= s.len() {
        assert((w + out2).skip(w.len() as int) =~= out2);
    } else {
        let offset = s[q] + 256 * s[q + 1];
        lemma_ext_acc(s, q + 2, 0);
        let (ml, r) = match_field(s, token, q + 2).unwrap();
        let h = w + out2;
        assert(Seq::<u8>::empty() + h =~= h);
        crate::sink::lemma_copy_back_len(h, offset, ml as nat);
        let next2 = copy_back(h, offset, ml as nat);
        assert(next2.skip(0) =~= next2);
        let next = next2.skip(w.len() as int);
        assert(next2 =~= w + next) by {
            assert(next2.take(h.len() as int) == h);
            assert forall|i: int| 0 <= i < w.len() implies next2[i] == w[i] by {
                assert(next2.take(h.len() as int)[i] == h[i]);
            }
        }
        lemma_decode_prefix_as_dict(s, r, w, next, cap, res);
    }
}

/// Two histories agree on every byte a match can reach: their last bytes are equal, as many as
/// the shorter has, and that is at least the largest offset unless both are the same length.
pub open spec fn window_agree(h1: Seq<u8>, h2: Seq<u8>) -> bool {
    let k = if h1.len() <= h2.len() {
        h1.len()
    } else {
        h2.len()
    };
    &&& h1.skip(h1.len() - k) == h2.skip(h2.len() - k)
    &&& (k >= 65535 || h1.len() == h2.len())
}

/// Appending the same bytes to agreeing histories keeps them agreeing.
pub proof fn lemma_window_agree_extend(h1: Seq<u8>, h2: Seq<u8>, e: Seq<u8>)
    requires
        window_agree(h1, h2),
    ensures
        window_agree(h1 + e, h2 + e),
{
    let k = if h1.len() <= h2.len() {
        h1.len()
    } else {
        h2.len()
    };
    let a = h1 + e;
    let b = h2 + e;
    let k2 = k + e.len();
    assert(a.skip(a.len() - k2) =~= h1.skip(h1.len() - k) + e);
    assert(b.skip(b.len() - k2) =~= h2.skip(h2.len() - k) + e);
}

/// Copying back at most as far as two histories agree appends the same bytes to both.
pub proof fn lemma_copy_back_agree(h1: Seq<u8>, h2: Seq<u8>, k: int, dist: int, n: nat)
    requires
        0 < dist <= k <= h1.len(),
        k <= h2.len(),
        h1.skip(h1.len() - k) == h2.skip(h2.len() - k),
    ensures
        copy_back(h1, dist, n).skip(h1.len() as int) == copy_back(h2, dist, n).skip(h2.len() as int),
    decreases n,
{
    crate::sink::lemma_copy_back_len(h1, dist, n);
    crate::sink::lemma_copy_back_len(h2, dist, n);
    if n > 0 {
        lemma_copy_back_agree(h1, h2, k, dist, (n - 1) as nat);
        let g1 = copy_back(h1, dist, (n - 1) as nat);
        let g2 = copy_back(h2, dist, (n - 1) as nat);
        crate::sink::lemma_copy_back_len(h1, dist, (n - 1) as nat);
        crate::sink::lemma_copy_back_len(h2, dist, (n - 1) as nat);
        let x = g1.skip(h1.len() as int);
        assert(g1 =~= h1 + x) by {
            assert(g1.take(h1.len() as int) == h1);
        }
        assert(g2 =~= h2 + x) by {
            assert(g2.take(h2.len() as int) == h2);
        }
        let i1 = g1.len() - dist;
        let i2 = g2.len() - dist;
        if x.len() >= dist {
            assert(g1[i1] == x[x.len() - dist]);
            assert(g2[i2] == x[x.len() - dist]);
        } else {
            let back = dist - x.len();
            assert(g1[i1] == h1[h1.len() - back]);
            assert(g2[i2] == h2[h2.len() - back]);
            assert(h1.skip(h1.len() - k)[k - back] == h1[h1.len() - back]);
            assert(h2.skip(h2.len() - k)[k - back] == h2[h2.len() - back]);
        }
        assert(copy_back(h1, dist, n).skip(h1.len() as int) =~= x.push(g1[i1]));
        assert(copy_back(h2, dist, n).skip(h2.len() as int) =~= x.push(g2[i2]));
    }
}

/// A block decodes the same way after any history that agrees with the one it was decoded
/// after, given room for its output: matches reach back at most 65535 bytes.
pub proof fn lemma_decode_same_window(
    s: Seq<u8>,
    ip: int,
    d1: Seq<u8>,
    p1: Seq<u8>,
    d2: Seq<u8>,
    p2: Seq<u8>,
    o: Seq<u8>,
    cap1: int,
    cap2: int,
    r: Seq<u8>,
)
    requires
        decode_at(s, ip, p1 + o, d1, cap1) == Ok::<Seq<u8>, DecompressError>(p1 + r),
        window_agree(d1 + (p1 + o), d2 + (p2 + o)),
        cap2 - p2.len() >= r.len(),
        p1.len() + o.len() <= cap1,
    ensures
        decode_at(s, ip, p2 + o, d2, cap2) == Ok::<Seq<u8>, DecompressError>(p2 + r),
    decreases s.len() - ip,
{
    lemma_decode_extends(s, ip, p1 + o, d1, cap1);
    assert((p1 + r).take((p1 + o).len() as int) == p1 + o);
    assert(o.len() <= r.len());
    let token = s[ip];
    lemma_ext_acc(s, ip + 1, 0);
    let (lit, p) = literal_field(s, ip).unwrap();
    let lits = s.subrange(p, p + lit);
    let o2 = o + lits;
    assert((p1 + o) + lits =~= p1 + o2);
    assert((p2 + o) + lits =~= p2 + o2);
    assert(d1 + (p1 + o2) =~= (d1 + (p1 + o)) + lits);
    assert(d2 + (p2 + o2) =~= (d2 + (p2 + o)) + lits);
    lemma_window_agree_extend(d1 + (p1 + o), d2 + (p2 + o), lits);
    let q = p + lit;
    if q >= s.len() {
        assert(p1 + o2 == p1 + r);
        assert(o2 =~= (p1 + o2).skip(p1.len() as int));
        assert(r =~= (p1 + r).skip(p1.len() as int));
    } else {
        lemma_decode_extends(s, ip, p1 + o, d1, cap1);
        let offset = s[q] + 256 * s[q + 1];
        lemma_ext_acc(s, q + 2, 0);
        let (ml, rr) = match_field(s, token, q + 2).unwrap();
        let h1 = d1 + (p1 + o2);
        let h2 = d2 + (p2 + o2);
        let k: int = if h1.len() <= h2.len() {
            h1.len() as int
        } else {
            h2.len() as int
        };
        lemma_copy_back_agree(h1, h2, k, offset, ml as nat);
        crate::sink::lemma_copy_back_len(h1, offset, ml as nat);
        crate::sink::lemma_copy_back_len(h2, offset, ml as nat);
        let x = copy_back(h1, offset, ml as nat).skip(h1.len() as int);
        let next1 = copy_back(h1, offset, ml as nat).skip(d1.len() as int);
        let next2 = copy_back(h2, offset, ml as nat).skip(d2.len() as int);
        assert(copy_back(h1, offset, ml as nat) =~= h1 + x) by {
            assert(copy_back(h1, offset, ml as nat).take(h1.len() as int) == h1);
        }
        assert(copy_back(h2, offset, ml as nat) =~= h2 + x) by {
            assert(copy_back(h2, offset, ml as nat).take(h2.len() as int) == h2);
        }
        let o3 = o2 + x;
        assert(next1 =~= p1 + o3);
        assert(next2 =~= p2 + o3);
        assert(d1 + (p1 + o3) =~= h1 + x);
        assert(d2 + (p2 + o3) =~= h2 + x);
        lemma_window_agree_extend(h1, h2, x);
        lemma_decode_extends(s, rr, p1 + o3, d1, cap1);
        lemma_decode_same_window(s, rr, d1, p1, d2, p2, o3, cap1, cap2, r);
    }
}

/// Decodes a whole block into an empty output of capacity `cap`.
pub open spec fn decode_block(s: Seq<u8>, dict: Seq<u8>, cap: int) -> Result<Seq<u8>, DecompressError> {
    decode_at(s, 0, Seq::empty(), dict, cap)
}

/// Copying `n1 + n2` bytes back is copying `n1` and then `n2`.
pub proof fn lemma_copy_back_compose(h: Seq<u8>, d: int, n1: nat, n2: nat)
    ensures
        copy_back(h, d, n1 + n2) == copy_back(copy_back(h, d, n1), d, n2),
    decreases n2,
{
    if n2 > 0 {
        lemma_copy_back_compose(h, d, n1, (n2 - 1) as nat);
        assert((n1 + n2 - 1) as nat == n1 + (n2 - 1) as nat);
    }
}

/// A copy that only reaches back into `b` does not depend on what precedes `b`.
pub proof fn lemma_copy_back_prefix(a: Seq<u8>, b: Seq<u8>, d: int, n: nat)
    requires
        0 < d <= b.len(),
    ensures
        copy_back(a + b, d, n) == a + copy_back(b, d, n),
    decreases n,
{
    crate::sink::lemma_copy_back_len(b, d, n);
    if n > 0 {
        lemma_copy_back_prefix(a, b, d, (n - 1) as nat);
        crate::sink::lemma_copy_back_len(b, d, (n - 1) as nat);
        let cb = copy_back(b, d, (n - 1) as nat);
        let g = a + cb;
        assert(g[g.len() - d] == cb[cb.len() - d]);
        assert(g.push(g[g.len() - d]) =~= a + cb.push(cb[cb.len() - d]));
    }
}

/// A copy whose source lies entirely in `h` appends a plain subrange of `h`.
pub proof fn lemma_copy_back_nonoverlapping(h: Seq<u8>, d: int, n: nat)
    requires
        n <= d <= h.len(),
    ensures
        copy_back(h, d, n) == h + h.subrange(h.len() - d, h.len() - d + n),
    decreases n,
{
    if n > 0 {
        lemma_copy_back_nonoverlapping(h, d, (n - 1) as nat);
        let g = copy_back(h, d, (n - 1) as nat);
        assert(g == h + h.subrange(h.len() - d, h.len() - d + n - 1));
        assert(g[g.len() - d] == h[h.len() - d + n - 1]);
        assert(g.push(g[g.len() - d]) =~= h + h.subrange(h.len() - d, h.len() - d + n));
    }
}

/// The bytes of a length extension of value `v`: `v / 255` bytes `255` and then `v % 255`.
pub open spec fn ext_bytes(v: nat) -> Seq<u8>
    decreases v,
{
    if v < 255 {
        seq![v as u8]
    } else {
        seq![255u8] + ext_bytes((v - 255) as nat)
    }
}

/// A nibble: `n` when below 15, else 15.
pub open spec fn nibble(n: nat) -> nat {
    if n < 15 {
        n
    } else {
        15
    }
}

/// The token of a sequence with `lit` literals and a match length field `ml_code`
/// (match length minus 4).
pub open spec fn token_byte(lit: nat, ml_code: nat) -> u8 {
    (nibble(lit) * 16 + nibble(ml_code)) as u8
}

/// The length extension that follows a nibble field of value `n`, if any.
pub open spec fn ext_field(n: nat) -> Seq<u8> {
    if n >= 15 {
        ext_bytes((n - 15) as nat)
    } else {
        Seq::empty()
    }
}

/// The encoding of a sequence: literals `lits`, then a match of length `ml_code + 4` at
/// distance `offset`.
pub open spec fn sequence_bytes(lits: Seq<u8>, offset: nat, ml_code: nat) -> Seq<u8> {
    seq![token_byte(lits.len(), ml_code)] + ext_field(lits.len()) + lits
        + seq![(offset % 256) as u8, (offset / 256) as u8] + ext_field(ml_code)
}

/// The encoding of the last sequence of a block, which holds only literals.
pub open spec fn last_sequence_bytes(lits: Seq<u8>) -> Seq<u8> {
    seq![token_byte(lits.len(), 0)] + ext_field(lits.len()) + lits
}

/// The number of bytes of a length extension.
pub proof fn lemma_ext_bytes_len(v: nat)
    ensures
        ext_bytes(v).len() == v / 255 + 1,
    decreases v,
{
    if v >= 255 {
        lemma_ext_bytes_len((v - 255) as nat);
    }
}

/// Reading the bytes of `ext_bytes(v)` gives back `v`.
pub proof fn lemma_ext_bytes_read(s: Seq<u8>, p: int, v: nat, acc: int)
    requires
        0 <= p,
        p + ext_bytes(v).len() <= s.len(),
        s.subrange(p, p + ext_bytes(v).len()) == ext_bytes(v),
    ensures
        ext_acc(s, p, acc) == Some((acc + v, p + ext_bytes(v).len())),
    decreases v,
{
    let e = ext_bytes(v);
    assert(s[p] == s.subrange(p, p + e.len())[0]);
    if v >= 255 {
        let e2 = ext_bytes((v - 255) as nat);
        assert(e.subrange(1, e.len() as int) =~= e2);
        assert(s.subrange(p + 1, p + 1 + e2.len()) =~= s.subrange(p, p + e.len()).subrange(1, e.len() as int));
        lemma_ext_bytes_read(s, p + 1, (v - 255) as nat, acc + 255);
    }
}

/// Decoding a sequence encoded by `sequence_bytes` appends its literals and its match.
pub proof fn lemma_decode_sequence(
    s: Seq<u8>,
    ip: int,
    out: Seq<u8>,
    dict: Seq<u8>,
    cap: int,
    lits: Seq<u8>,
    offset: nat,
    ml_code: nat,
)
    requires
        0 <= ip,
        ip + sequence_bytes(lits, offset, ml_code).len() < s.len(),
        s.subrange(ip, ip + sequence_bytes(lits, offset, ml_code).len()) == sequence_bytes(lits, offset, ml_code),
        0 < offset < 65536,
        offset <= out.len() + lits.len() + dict.len(),
        out.len() + lits.len() + ml_code + 4 <= cap,
    ensures
        decode_at(s, ip, out, dict, cap) == decode_at(
            s,
            ip + sequence_bytes(lits, offset, ml_code).len(),
            copy_back(dict + out + lits, offset as int, (ml_code + 4) as nat).skip(dict.len() as int),
            dict,
            cap,
        ),
{
    let enc = sequence_bytes(lits, offset, ml_code);
    let lit: int = lits.len() as int;
    let e1 = ext_field(lits.len());
    let e2 = ext_field(ml_code);
    let l1: int = e1.len() as int;
    let tok = token_byte(lits.len(), ml_code);
    assert(enc.len() == 1 + e1.len() + lit + 2 + e2.len());
    assert(s[ip] == enc[0]);
    assert(enc[0] == tok);
    assert(tok / 16 == nibble(lits.len()));
    assert(tok % 16 == nibble(ml_code));
    let p = ip + 1 + e1.len();
    if lit >= 15 {
        assert(s.subrange(ip + 1, ip + 1 + e1.len()) =~= enc.subrange(1, 1 + e1.len() as int));
        assert(enc.subrange(1, 1 + e1.len() as int) =~= e1);
        lemma_ext_bytes_read(s, ip + 1, (lit - 15) as nat, 0);
    }
    assert(literal_field(s, ip) == Some((lit as int, p)));
    assert(s.subrange(p, p + lit) =~= lits) by {
        assert forall|k: int| 0 <= k < lit implies s.subrange(p, p + lit)[k] == lits[k] by {
            assert(s[p + k] == enc[1 + e1.len() + k]);
        }
    }
    let q = p + lit;
    assert(s[q] == enc[1 + l1 + lit]);
    assert(s[q + 1] == enc[1 + l1 + lit + 1]);
    assert(s[q] + 256 * s[q + 1] == offset);
    let r = q + 2 + e2.len();
    if ml_code >= 15 {
        assert(s.subrange(q + 2, q + 2 + e2.len()) =~= enc.subrange(1 + l1 + lit + 2, enc.len() as int));
        assert(enc.subrange(1 + l1 + lit + 2, enc.len() as int) =~= e2);
        lemma_ext_bytes_read(s, q + 2, (ml_code - 15) as nat, 0);
    }
    assert(match_field(s, tok, q + 2) == Some(((ml_code + 4) as int, r)));
    assert(out + s.subrange(p, p + lit) == out + lits);
    assert(dict + (out + lits) == dict + out + lits);
}

/// Decoding the last sequence of a block appends its literals and ends the block.
pub proof fn lemma_decode_last_sequence(s: Seq<u8>, ip: int, out: Seq<u8>, dict: Seq<u8>, cap: int, lits: Seq<u8>)
    requires
        0 <= ip,
        ip + last_sequence_bytes(lits).len() == s.len(),
        s.subrange(ip, s.len() as int) == last_sequence_bytes(lits),
        out.len() + lits.len() <= cap,
    ensures
        decode_at(s, ip, out, dict, cap) == Ok::<Seq<u8>, DecompressError>(out + lits),
{
    let enc = last_sequence_bytes(lits);
    let lit = lits.len();
    let e1 = ext_field(lit);
    let tok = token_byte(lit, 0);
    assert(s[ip] == enc[0]);
    assert(tok / 16 == nibble(lit));
    let p = ip + 1 + e1.len();
    if lit >= 15 {
        assert(s.subrange(ip + 1, ip + 1 + e1.len()) =~= enc.subrange(1, 1 + e1.len() as int));
        assert(enc.subrange(1, 1 + e1.len() as int) =~= e1);
        lemma_ext_bytes_read(s, ip + 1, (lit - 15) as nat, 0);
    }
    assert(literal_field(s, ip) == Some((lit as int, p)));
    assert(s.subrange(p, p + lit) =~= lits) by {
        assert forall|k: int| 0 <= k < lit implies s.subrange(p, p + lit)[k] == lits[k] by {
            assert(s[p + k] == enc[1 + e1.len() + k]);
        }
    }
}

/// A back reference reproduces data in which every byte equals the byte `offset` before it.
pub proof fn lemma_copy_back_repeats(d: Seq<u8>, m: int, offset: int, n: nat)
    requires
        0 < offset <= m,
        m + n <= d.len(),
        forall|k: int| 0 <= k < n ==> #[trigger] d[m + k] == d[m + k - offset],
    ensures
        copy_back(d.take(m), offset, n) == d.take(m + n),
    decreases n,
{
    if n > 0 {
        lemma_copy_back_repeats(d, m, offset, (n - 1) as nat);
        let g = d.take(m + n - 1);
        assert(d[m + (n - 1)] == d[m + (n - 1) - offset]);
        assert(g.push(g[g.len() - offset]) =~= d.take(m + n));
    }
}

} // verus!

verus! {

/// Decoding with a dictionary gives the same output as decoding with any longer dictionary
/// that ends with it, whenever the shorter one succeeds: a block only reaches back as far as
/// its offsets say.
pub proof fn lemma_decode_longer_dict(s: Seq<u8>, ip: int, out: Seq<u8>, w: Seq<u8>, dict: Seq<u8>, cap: int)
    requires
        w.len() <= dict.len(),
        w == dict.skip(dict.len() - w.len()),
        decode_at(s, ip, out, w, cap) is Ok,
    ensures
        decode_at(s, ip, out, dict, cap) == decode_at(s, ip, out, w, cap),
    decreases s.len() - ip,
{
    if 0 <= ip < s.len() {
        let token = s[ip];
        match literal_field(s, ip) {
            None => {},
            Some((lit, p)) => {
                if lit <= s.len() - p && lit <= cap - out.len() {
                    let out2 = out + s.subrange(p, p + lit);
                    let q = p + lit;
                    if q < s.len() && s.len() - q >= 2 {
                        let offset = s[q] + 256 * s[q + 1];
                        match match_field(s, token, q + 2) {
                            None => {},
                            Some((ml, r)) => {
                                if offset != 0 && offset <= out2.len() + w.len() && ml <= cap - out2.len() {
                                    lemma_ext_acc(s, ip + 1, 0);
                                    lemma_ext_acc(s, q + 2, 0);
                                    let head = dict.take(dict.len() - w.len());
                                    assert(dict + out2 =~= head + (w + out2));
                                    lemma_copy_back_prefix(head, w + out2, offset as int, ml as nat);
                                    crate::sink::lemma_copy_back_len(w + out2, offset as int, ml as nat);
                                    let nw = copy_back(w + out2, offset as int, ml as nat);
                                    assert((head + nw).skip(dict.len() as int) =~= nw.skip(w.len() as int));
                                    lemma_decode_longer_dict(s, r, nw.skip(w.len() as int), w, dict, cap);
                                }
                            },
                        }
                    }
                }
            },
        }
    }
}

} // verus!
