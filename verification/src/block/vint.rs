//! `vint32`: unsigned 32-bit integers in groups of 7 bits, least significant group first, each
//! byte but the last with its high bit set.
use vstd::prelude::*;

verus! {

/// The encoding of `v`: one byte per 7-bit group, the high bit marking that more follow.
pub open spec fn varint_bytes(v: nat) -> Seq<u8>
    decreases v,
{
    if v < 128 {
        seq![v as u8]
    } else {
        seq![(v % 128 + 128) as u8] + varint_bytes(v / 128)
    }
}

/// The number of bytes the decoder reads at `pos`: up to the first byte without the high bit,
/// and never more than five.
pub open spec fn varint_len(data: Seq<u8>, pos: int) -> nat {
    if data[pos] < 128 {
        1
    } else if data[pos + 1] < 128 {
        2
    } else if data[pos + 2] < 128 {
        3
    } else if data[pos + 3] < 128 {
        4
    } else {
        5
    }
}

/// The value of the `n` 7-bit groups at `pos`, least significant first.
pub open spec fn varint_sum(data: Seq<u8>, pos: int, n: nat) -> nat
    decreases n,
{
    if n == 0 {
        0
    } else {
        (data[pos] % 128) as nat + 128 * varint_sum(data, pos + 1, (n - 1) as nat)
    }
}

/// What the decoder returns for the bytes at `pos`: their groups' value, cut to 32 bits.
pub open spec fn varint_value(data: Seq<u8>, pos: int) -> u32 {
    (varint_sum(data, pos, varint_len(data, pos)) % 0x1_0000_0000) as u32
}

/// The groups of `data` at `pos` do not depend on what follows them.
proof fn lemma_varint_sum_prefix(a: Seq<u8>, b: Seq<u8>, pos: int, n: nat)
    requires
        0 <= pos,
        pos + n <= a.len(),
        pos + n <= b.len(),
        forall|i: int| pos <= i < pos + n ==> a[i] == b[i],
    ensures
        varint_sum(a, pos, n) == varint_sum(b, pos, n),
    decreases n,
{
    if n > 0 {
        lemma_varint_sum_prefix(a, b, pos + 1, (n - 1) as nat);
    }
}

/// The encoding of `v` has every byte but the last marked, and its groups add up to `v`.
proof fn lemma_varint_bytes(v: nat)
    ensures
        varint_bytes(v).len() >= 1,
        varint_bytes(v).last() < 128,
        forall|i: int| 0 <= i < varint_bytes(v).len() - 1 ==> #[trigger] varint_bytes(v)[i] >= 128,
        varint_sum(varint_bytes(v), 0, varint_bytes(v).len()) == v,
        v < 0x80 ==> varint_bytes(v).len() == 1,
        v < 0x4000 ==> varint_bytes(v).len() <= 2,
        v < 0x20_0000 ==> varint_bytes(v).len() <= 3,
        v < 0x1000_0000 ==> varint_bytes(v).len() <= 4,
        v < 0x8_0000_0000 ==> varint_bytes(v).len() <= 5,
    decreases v,
{
    if v < 128 {
        assert(varint_sum(varint_bytes(v), 1, 0) == 0);
    } else {
        let rest = varint_bytes(v / 128);
        lemma_varint_bytes(v / 128);
        let s = varint_bytes(v);
        assert(s == seq![(v % 128 + 128) as u8] + rest);
        assert forall|i: int| 0 <= i < s.len() - 1 implies #[trigger] s[i] >= 128 by {
            if i > 0 {
                assert(s[i] == rest[i - 1]);
            }
        }
        assert(s.drop_first() =~= rest);
        lemma_varint_sum_shift(s, rest.len());
        assert(s.len() == rest.len() + 1);
        assert(varint_sum(s, 0, s.len()) == (s[0] % 128) as nat + 128 * varint_sum(s, 1, rest.len()));
        assert(s[0] % 128 == v % 128);
        assert(v == v % 128 + 128 * (v / 128));
    }
}

/// The groups of a sequence from position 1 are the groups of the sequence without its first byte.
proof fn lemma_varint_sum_shift(s: Seq<u8>, n: nat)
    requires
        n + 1 <= s.len(),
    ensures
        varint_sum(s, 1, n) == varint_sum(s.drop_first(), 0, n),
    decreases n,
{
    if n > 0 {
        lemma_varint_sum_shift_at(s, 1, n);
    }
}

proof fn lemma_varint_sum_shift_at(s: Seq<u8>, pos: int, n: nat)
    requires
        1 <= pos,
        pos + n <= s.len(),
    ensures
        varint_sum(s, pos, n) == varint_sum(s.drop_first(), pos - 1, n),
    decreases n,
{
    if n > 0 {
        lemma_varint_sum_shift_at(s, pos + 1, (n - 1) as nat);
    }
}

/// Decoding the encoding of a value, wherever it stands and whatever follows it, reads exactly
/// the encoding and gives the value back.
pub proof fn lemma_varint_roundtrip(v: u32, prefix: Seq<u8>, suffix: Seq<u8>)
    ensures
        ({
            let data = prefix + varint_bytes(v as nat) + suffix;
            &&& varint_len(data, prefix.len() as int) == varint_bytes(v as nat).len()
            &&& varint_value(data, prefix.len() as int) == v
        }),
{
    let e = varint_bytes(v as nat);
    let data = prefix + e + suffix;
    let p = prefix.len() as int;
    lemma_varint_bytes(v as nat);
    assert forall|i: int| 0 <= i < e.len() implies #[trigger] data[p + i] == e[i] by {
        assert(data[p + i] == (prefix + e)[p + i]);
    }
    // The length: the first byte without its high bit is the last one of `e`.
    if e.len() == 1 {
        assert(data[p] == e[0]);
    } else if e.len() == 2 {
        assert(data[p] == e[0] && data[p + 1] == e[1]);
    } else if e.len() == 3 {
        assert(data[p] == e[0] && data[p + 1] == e[1] && data[p + 2] == e[2]);
    } else if e.len() == 4 {
        assert(data[p] == e[0] && data[p + 1] == e[1] && data[p + 2] == e[2] && data[p + 3] == e[3]);
    } else {
        assert(data[p] == e[0] && data[p + 1] == e[1] && data[p + 2] == e[2] && data[p + 3] == e[3]);
    }
    assert(varint_len(data, p) == e.len());
    // The value: the groups read are those of `e`.
    let shifted = data.subrange(p, p + e.len());
    assert(shifted =~= e);
    lemma_varint_sum_window(data, p, e.len());
    assert(varint_sum(data, p, e.len()) == varint_sum(e, 0, e.len()));
}

/// The groups at `pos` are those of the bytes from `pos` on, taken alone.
proof fn lemma_varint_sum_window(data: Seq<u8>, pos: int, n: nat)
    requires
        0 <= pos,
        pos + n <= data.len(),
    ensures
        varint_sum(data, pos, n) == varint_sum(data.subrange(pos, pos + n), 0, n),
    decreases n,
{
    if n > 0 {
        let w = data.subrange(pos, pos + n);
        lemma_varint_sum_window(data, pos + 1, (n - 1) as nat);
        let w1 = data.subrange(pos + 1, pos + n);
        assert(w.drop_first() =~= w1);
        lemma_varint_sum_shift(w, (n - 1) as nat);
    }
}

/// `128` to the power `n`.
pub open spec fn pow128(n: nat) -> nat
    decreases n,
{
    if n == 0 {
        1
    } else {
        128 * pow128((n - 1) as nat)
    }
}

/// One more group adds its value at the next power of 128.
proof fn lemma_varint_sum_step(d: Seq<u8>, p: int, n: nat)
    ensures
        varint_sum(d, p, n + 1) == varint_sum(d, p, n) + (d[p + n] % 128) as nat * pow128(n),
    decreases n,
{
    if n == 0 {
        assert(varint_sum(d, p + 1, 0) == 0);
        assert(varint_sum(d, p, 0) == 0);
        assert(pow128(0) == 1);
        assert(varint_sum(d, p, 1) == (d[p] % 128) as nat);
        assert(p + n == p);
    } else {
        let m = (n - 1) as nat;
        let b = (d[p + n] % 128) as nat;
        lemma_varint_sum_step(d, p + 1, m);
        assert(p + 1 + m == p + n);
        assert(m + 1 == n);
        let a0 = (d[p] % 128) as nat;
        let s1 = varint_sum(d, p + 1, n);
        let s0 = varint_sum(d, p + 1, m);
        assert(s1 == s0 + b * pow128(m));
        assert(varint_sum(d, p, n + 1) == a0 + 128 * s1);
        assert(varint_sum(d, p, n) == a0 + 128 * s0);
        assert(pow128(n) == 128 * pow128(m));
        assert(128 * (b * pow128(m)) == b * pow128(n)) by (nonlinear_arith)
            requires
                pow128(n) == 128 * pow128(m),
        ;
        assert(varint_sum(d, p, n + 1) == varint_sum(d, p, n) + b * pow128(n));
    }
}

/// The bit operations of one 7-bit group.
proof fn lemma_varint_group_bits(ret: u32, next: u8, k: u32)
    by (bit_vector)
    requires
        (k == 7 && ret < 0x80u32) || (k == 14 && ret < 0x4000u32) || (k == 21 && ret < 0x20_0000u32) || (k == 28
            && ret < 0x1000_0000u32),
    ensures
        k == 7 ==> ret | (((next as u32) & 127u32) << k) == ret + ((next as u32) & 127u32) * 0x80u32,
        k == 14 ==> ret | (((next as u32) & 127u32) << k) == ret + ((next as u32) & 127u32) * 0x4000u32,
        k == 21 ==> ret | (((next as u32) & 127u32) << k) == ret + ((next as u32) & 127u32) * 0x20_0000u32,
        k == 28 ==> ret | (((next as u32) & 127u32) << k) == ret + ((next as u32) & 15u32) * 0x1000_0000u32,
        (next as u32) & 127u32 == (next as u32) % 128u32,
        (next as u32) & 15u32 == ((next as u32) % 128u32) % 16u32,
        ((next & 128u8) == 0u8) == (next < 128u8),
{
}

/// The fifth group keeps only the bits that fit in 32 bits.
proof fn lemma_varint_last_group(ret: int, x: int)
    requires
        0 <= ret < 0x1000_0000,
        0 <= x < 128,
    ensures
        (ret + x * 0x1000_0000) % 0x1_0000_0000 == ret + (x % 16) * 0x1000_0000,
{
    let q = x / 16;
    let r = x % 16;
    assert(x * 0x1000_0000 == r * 0x1000_0000 + q * 0x1_0000_0000);
    assert((ret + r * 0x1000_0000 + q * 0x1_0000_0000) % 0x1_0000_0000 == ret + r * 0x1000_0000);
}

/// Decode a `vint32`-encoded unsigned 32-bit integer from a bytes slice.
/// Maximum space required are 5 bytes.
/// `pos` will be used to access the pos in the slice.
/// `pos` will be incremented by the number of bytes used to decode the u32.
///
/// The encoding must lie within `data`.
pub fn decode_varint_slice(data: &[u8], pos: &mut usize) -> (r: u32)
    requires
        *old(pos) < data@.len(),
        *old(pos) + varint_len(data@, *old(pos) as int) <= data@.len(),
    ensures
        *final(pos) == *old(pos) + varint_len(data@, *old(pos) as int),
        r == varint_value(data@, *old(pos) as int),
{
    let ghost p = *pos as int;
    let ghost d = data@;
    proof {
        assert(pow128(1) == 128 && pow128(2) == 0x4000 && pow128(3) == 0x20_0000 && pow128(4) == 0x1000_0000) by {
            reveal_with_fuel(pow128, 5);
        }
        assert(varint_sum(d, p, 0) == 0);
        assert(pow128(0) == 1);
    }
    let next = data[*pos];
    *pos = *pos + 1;
    proof {
        lemma_varint_group_bits(0, next, 7);
        lemma_varint_sum_step(d, p, 0);
        assert(d[p + 0] == next);
    }
    let mut ret: u32 = (next as u32) & 127;
    assert(ret == varint_sum(d, p, 1));
    if next & 128 == 0 {
        assert(varint_len(d, p) == 1);
        return ret;
    }
    let next = data[*pos];
    *pos = *pos + 1;
    proof {
        lemma_varint_group_bits(ret, next, 7);
        lemma_varint_sum_step(d, p, 1);
        assert(d[p + 1] == next);
    }
    ret = ret | (((next as u32) & 127) << 7u32);
    assert(ret == varint_sum(d, p, 2));
    if next & 128 == 0 {
        assert(varint_len(d, p) == 2);
        return ret;
    }
    let next = data[*pos];
    *pos = *pos + 1;
    proof {
        lemma_varint_group_bits(ret, next, 14);
        lemma_varint_sum_step(d, p, 2);
        assert(d[p + 2] == next);
    }
    ret = ret | (((next as u32) & 127) << 14u32);
    assert(ret == varint_sum(d, p, 3));
    if next & 128 == 0 {
        assert(varint_len(d, p) == 3);
        return ret;
    }
    let next = data[*pos];
    *pos = *pos + 1;
    proof {
        lemma_varint_group_bits(ret, next, 21);
        lemma_varint_sum_step(d, p, 3);
        assert(d[p + 3] == next);
    }
    ret = ret | (((next as u32) & 127) << 21u32);
    assert(ret == varint_sum(d, p, 4));
    if next & 128 == 0 {
        assert(varint_len(d, p) == 4);
        return ret;
    }
    let next = data[*pos];
    *pos = *pos + 1;
    proof {
        lemma_varint_group_bits(ret, next, 28);
        lemma_varint_sum_step(d, p, 4);
        assert(d[p + 4] == next);
        lemma_varint_last_group(ret as int, (next % 128) as int);
        assert(varint_len(d, p) == 5);
    }
    ret = ret | (((next as u32) & 127) << 28u32);
    ret
}

/// The bit operations of encoding one group.
proof fn lemma_varint_encode_bits(v: u32)
    by (bit_vector)
    ensures
        ((v & 127) | 128) == v % 128 + 128,
        v >> 7 == v / 128,
        (v & 127) == v % 128,
{
}

/// Push the low 7 bits of `value` with the high bit set, and drop them from `value`.
fn push_varint_group(output: &mut Vec<u8>, value: &mut u32)
    ensures
        final(output)@ == old(output)@.push((*old(value) % 128 + 128) as u8),
        *final(value) == *old(value) / 128,
{
    proof {
        lemma_varint_encode_bits(*value);
    }
    output.push(((*value & 127) | 128) as u8);
    *value = *value >> 7u32;
}

/// Push the low 7 bits of `value`.
fn push_varint_last(output: &mut Vec<u8>, value: u32)
    ensures
        final(output)@ == old(output)@.push((value % 128) as u8),
{
    proof {
        lemma_varint_encode_bits(value);
    }
    output.push((value & 127) as u8);
}

/// `vint32` encode a unsigned 32-bit integer into a vec.
///
/// returns number of bytes written
pub fn encode_varint_into(output: &mut Vec<u8>, value: u32) -> (r: u8)
    ensures
        final(output)@ == old(output)@ + varint_bytes(value as nat),
        r == varint_bytes(value as nat).len(),
{
    let ghost v = value as nat;
    let ghost o = output@;
    let mut value = value;
    proof {
        reveal_with_fuel(varint_bytes, 6);
    }
    if value < 128 {
        push_varint_last(output, value);
        assert(output@ =~= o + varint_bytes(v));
        1
    } else if value < 0x4000 {
        push_varint_group(output, &mut value);
        push_varint_last(output, value);
        assert(output@ =~= o + varint_bytes(v));
        2
    } else if value < 0x20_0000 {
        push_varint_group(output, &mut value);
        push_varint_group(output, &mut value);
        push_varint_last(output, value);
        assert(output@ =~= o + varint_bytes(v));
        3
    } else if value < 0x1000_0000 {
        push_varint_group(output, &mut value);
        push_varint_group(output, &mut value);
        push_varint_group(output, &mut value);
        push_varint_last(output, value);
        assert(output@ =~= o + varint_bytes(v));
        4
    } else {
        push_varint_group(output, &mut value);
        push_varint_group(output, &mut value);
        push_varint_group(output, &mut value);
        push_varint_group(output, &mut value);
        push_varint_last(output, value);
        assert(output@ =~= o + varint_bytes(v));
        5
    }
}

} // verus!
