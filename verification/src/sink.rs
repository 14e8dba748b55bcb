//! Output buffers for compression and decompression.
//!
//! A sink is a fixed-capacity byte buffer with a write position: bytes before the position
//! are the output produced so far (`filled`), bytes after it are left as they were.
use vstd::prelude::*;
use crate::fastcpy::slice_copy;

verus! {

/// A position-tracking view of a sink: everything that `Sink` methods promise is stated over
/// the whole buffer (`sink_buf`) and the write position (`sink_pos`).
pub trait Sink {
    /// The complete underlying buffer.
    spec fn sink_buf(&self) -> Seq<u8>;

    /// The write position.
    spec fn sink_pos(&self) -> nat;

    /// Returns the number of bytes written so far (including any preset prefix).
    fn pos(&self) -> (r: usize)
        ensures
            r == self.sink_pos(),
    ;

    /// Returns the size of the underlying buffer.
    fn capacity(&self) -> (r: usize)
        ensures
            r == self.sink_buf().len(),
    ;

    /// Reads an already written byte.
    fn byte_at(&self, pos: usize) -> (r: u8)
        requires
            pos < self.sink_pos(),
            self.sink_pos() <= self.sink_buf().len(),
        ensures
            r == self.sink_buf()[pos as int],
    ;

    /// Writes one byte at the write position and advances it.
    fn push(&mut self, byte: u8)
        requires
            old(self).sink_pos() < old(self).sink_buf().len(),
        ensures
            final(self).sink_buf() == old(self).sink_buf().update(old(self).sink_pos() as int, byte),
            final(self).sink_pos() == old(self).sink_pos() + 1,
    ;

    /// Writes `data` at the write position and advances it by `data.len()`.
    fn extend_from_slice(&mut self, data: &[u8])
        requires
            old(self).sink_pos() + data@.len() <= old(self).sink_buf().len(),
        ensures
            final(self).sink_buf() == splice(old(self).sink_buf(), old(self).sink_pos() as int, data@),
            final(self).sink_pos() == old(self).sink_pos() + data@.len(),
    ;
}

/// `buf` with `data` written over it starting at `at`.
pub open spec fn splice(buf: Seq<u8>, at: int, data: Seq<u8>) -> Seq<u8> {
    buf.take(at) + data + buf.skip(at + data.len())
}

/// Writing `d1` and then `d2` right after it is writing `d1 + d2`.
pub proof fn lemma_splice_append(buf: Seq<u8>, at: int, d1: Seq<u8>, d2: Seq<u8>)
    requires
        0 <= at,
        at + d1.len() + d2.len() <= buf.len(),
    ensures
        splice(splice(buf, at, d1), at + d1.len(), d2) == splice(buf, at, d1 + d2),
        splice(buf, at, d1).len() == buf.len(),
{
    assert(splice(splice(buf, at, d1), at + d1.len(), d2) =~= splice(buf, at, d1 + d2));
}

/// Writing one byte is updating the buffer at that position.
pub proof fn lemma_splice_byte(buf: Seq<u8>, at: int, b: u8)
    requires
        0 <= at < buf.len(),
    ensures
        buf.update(at, b) == splice(buf, at, seq![b]),
{
    assert(buf.update(at, b) =~= splice(buf, at, seq![b]));
}

/// Writing nothing changes nothing.
pub proof fn lemma_splice_empty(buf: Seq<u8>, at: int)
    requires
        0 <= at <= buf.len(),
    ensures
        splice(buf, at, Seq::empty()) == buf,
{
    assert(splice(buf, at, Seq::empty()) =~= buf);
}

/// A sink that writes into a borrowed byte slice.
pub struct SliceSink<'a> {
    /// The slice written to.
    pub output: &'a mut [u8],
    /// The write position; bytes `output[..pos]` are the produced output.
    pub pos: usize,
}

impl<'a> SliceSink<'a> {
    /// The bytes written so far.
    pub open spec fn filled(&self) -> Seq<u8> {
        self.output@.take(self.pos as int)
    }

    /// The write position lies inside the slice.
    pub open spec fn wf(&self) -> bool {
        self.pos <= self.output@.len()
    }

    /// Creates a sink over `output` whose first `pos` bytes count as already written.
    pub fn new(output: &'a mut [u8], pos: usize) -> (s: Self)
        requires
            pos <= old(output)@.len(),
        ensures
            s.output@ == old(output)@,
            s.pos == pos,
            s.wf(),
            final(s.output)@ == final(output)@,
    {
        SliceSink { output, pos }
    }

    /// Creates a sink over `output` with the write position at the start.
    pub fn new_uninit_zero_pos(output: &'a mut [u8]) -> (s: Self)
        ensures
            s.output@ == old(output)@,
            s.pos == 0,
            s.wf(),
            final(s.output)@ == final(output)@,
    {
        SliceSink { output, pos: 0 }
    }

    /// Returns the written part of the buffer.
    pub fn init_part(&self) -> (r: &[u8])
        requires
            self.wf(),
        ensures
            r@ == self.filled(),
    {
        slice_prefix(self.output, self.pos)
    }

    /// Writes `len` copies of `byte`.
    pub fn extend_with_fill(&mut self, byte: u8, len: usize)
        requires
            old(self).pos + len <= old(self).output@.len(),
        ensures
            final(self).output@ == splice(old(self).output@, old(self).pos as int, Seq::new(len as nat, |i: int| byte)),
            final(self).pos == old(self).pos + len,
            final(final(self).output)@ == final(old(self).output)@,
    {
        let start = self.pos;
        let ghost buf0 = self.output@;
        let mut i: usize = 0;
        while i < len
            invariant
                0 <= i <= len,
                start + len <= buf0.len(),
                self.pos == start + i,
                self.output@ == splice(buf0, start as int, Seq::new(i as nat, |k: int| byte)),
                final(self.output)@ == final(old(self).output)@,
            decreases len - i,
        {
            self.push(byte);
            i = i + 1;
            assert(self.output@ =~= splice(buf0, start as int, Seq::new(i as nat, |k: int| byte)));
        }
    }

    /// Copies `len` already written bytes starting at `start` to the write position, one byte
    /// at a time, so that the source may overlap the bytes being written.
    pub fn extend_from_within_overlapping(&mut self, start: usize, len: usize)
        requires
            start < old(self).pos,
            old(self).pos + len <= old(self).output@.len(),
        ensures
            final(self).pos == old(self).pos + len,
            final(self).filled() == copy_back(old(self).filled(), old(self).pos - start, len as nat),
            final(self).output@.skip(final(self).pos as int) == old(self).output@.skip(final(self).pos as int),
            final(self).output@.len() == old(self).output@.len(),
            final(final(self).output)@ == final(old(self).output)@,
    {
        let p0 = self.pos;
        let dist = self.pos - start;
        let ghost buf0 = self.output@;
        let mut i: usize = 0;
        while i < len
            invariant
                0 <= i <= len,
                p0 + len <= buf0.len(),
                start < p0,
                dist == p0 - start,
                self.pos == p0 + i,
                self.output@.len() == buf0.len(),
                self.filled() == copy_back(buf0.take(p0 as int), dist as int, i as nat),
                self.output@.skip(self.pos as int) == buf0.skip(self.pos as int),
                final(self.output)@ == final(old(self).output)@,
            decreases len - i,
        {
            let b = self.output[self.pos - dist];
            let ghost before = self.filled();
            let ghost prev = self.output@;
            let ghost pp = self.pos as int;
            proof { lemma_copy_back_len(buf0.take(p0 as int), dist as int, i as nat); }
            self.push(b);
            i = i + 1;
            assert(self.filled() =~= before.push(b));
            assert forall|k: int| 0 <= k < self.output@.len() - self.pos implies
                self.output@.skip(self.pos as int)[k] == buf0.skip(self.pos as int)[k] by {
                assert(prev.skip(pp)[k + 1] == buf0.skip(pp)[k + 1]);
            }
            assert(self.output@.skip(self.pos as int) =~= buf0.skip(self.pos as int));
        }
    }
}

/// The bytes `h` extended by `n` bytes, each a copy of the byte `dist` positions before it.
/// This is what an LZ77 back reference of distance `dist` and length `n` appends.
pub open spec fn copy_back(h: Seq<u8>, dist: int, n: nat) -> Seq<u8>
    decreases n,
{
    if n == 0 {
        h
    } else {
        let g = copy_back(h, dist, (n - 1) as nat);
        g.push(g[g.len() - dist])
    }
}

/// `copy_back` appends exactly `n` bytes and keeps `h` as a prefix.
pub proof fn lemma_copy_back_len(h: Seq<u8>, dist: int, n: nat)
    ensures
        copy_back(h, dist, n).len() == h.len() + n,
        copy_back(h, dist, n).take(h.len() as int) == h,
    decreases n,
{
    if n > 0 {
        lemma_copy_back_len(h, dist, (n - 1) as nat);
        let g = copy_back(h, dist, (n - 1) as nat);
        assert(g.push(g[g.len() - dist]).take(h.len() as int) =~= g.take(h.len() as int));
    }
}

/// Sequences that agree from `i` on also agree from any later `j` on.
pub proof fn lemma_skip_more(a: Seq<u8>, b: Seq<u8>, i: int, j: int)
    requires
        0 <= i <= j <= a.len(),
        a.len() == b.len(),
        a.skip(i) == b.skip(i),
    ensures
        a.skip(j) == b.skip(j),
{
    assert forall|k: int| 0 <= k < a.len() - j implies a.skip(j)[k] == b.skip(j)[k] by {
        assert(a.skip(i)[k + j - i] == b.skip(i)[k + j - i]);
    }
    assert(a.skip(j) =~= b.skip(j));
}

/// Returns `s[..n]`.
fn slice_prefix(s: &[u8], n: usize) -> (r: &[u8])
    requires
        n <= s@.len(),
    ensures
        r@ == s@.take(n as int),
{
    let r = &s[0..n];
    assert(r@ =~= s@.take(n as int));
    r
}

impl<'a> Sink for SliceSink<'a> {
    open spec fn sink_buf(&self) -> Seq<u8> {
        self.output@
    }

    open spec fn sink_pos(&self) -> nat {
        self.pos as nat
    }

    fn pos(&self) -> (r: usize) {
        self.pos
    }

    fn capacity(&self) -> (r: usize) {
        self.output.len()
    }

    fn byte_at(&self, pos: usize) -> (r: u8) {
        self.output[pos]
    }

    fn push(&mut self, byte: u8)
        ensures
            final(final(self).output)@ == final(old(self).output)@,
    {
        self.output[self.pos] = byte;
        self.pos = self.pos + 1;
    }

    fn extend_from_slice(&mut self, data: &[u8])
        ensures
            final(final(self).output)@ == final(old(self).output)@,
            old(self).wf() ==> final(self).filled() == old(self).filled() + data@,
            final(self).output@.skip(final(self).pos as int) == old(self).output@.skip(final(self).pos as int),
            final(self).output@.len() == old(self).output@.len(),
            final(self).wf(),
    {
        let start = self.pos;
        let n = data.len();
        let cap = self.output.len();
        assert(start + n <= cap);
        let end = start + n;
        let ghost buf0 = self.output@;
        let (_, rest) = self.output.split_at_mut(start);
        let (target, _) = rest.split_at_mut(n);
        slice_copy(data, target);
        self.pos = end;
        assert(self.output@ =~= splice(buf0, start as int, data@));
        assert(self.filled() =~= buf0.take(start as int) + data@);
        assert(self.output@.skip(self.pos as int) =~= buf0.skip(self.pos as int));
    }
}

/// Resizes `vec` to `offset + required_capacity` bytes (new bytes are zero) and returns a
/// sink over `vec[offset..]` positioned at `pos`.
pub fn vec_sink_for_compression(
    vec: &mut Vec<u8>,
    offset: usize,
    pos: usize,
    required_capacity: usize,
) -> (s: SliceSink<'_>)
    requires
        offset + required_capacity <= usize::MAX,
        pos <= required_capacity,
    ensures
        s.output@ == resized(old(vec)@, (offset + required_capacity) as nat).skip(offset as int),
        s.pos == pos,
        s.wf(),
        final(vec)@ == resized(old(vec)@, (offset + required_capacity) as nat).take(offset as int)
            + final(s.output)@,
{
    vec_sink_for(vec, offset, pos, required_capacity)
}

/// Same as [`vec_sink_for_compression`]; used for decompression buffers.
pub fn vec_sink_for_decompression(
    vec: &mut Vec<u8>,
    offset: usize,
    pos: usize,
    required_capacity: usize,
) -> (s: SliceSink<'_>)
    requires
        offset + required_capacity <= usize::MAX,
        pos <= required_capacity,
    ensures
        s.output@ == resized(old(vec)@, (offset + required_capacity) as nat).skip(offset as int),
        s.pos == pos,
        s.wf(),
        final(vec)@ == resized(old(vec)@, (offset + required_capacity) as nat).take(offset as int)
            + final(s.output)@,
{
    vec_sink_for(vec, offset, pos, required_capacity)
}

/// `v` truncated or zero-extended to `n` bytes.
pub open spec fn resized(v: Seq<u8>, n: nat) -> Seq<u8> {
    if n <= v.len() {
        v.take(n as int)
    } else {
        v + Seq::new((n - v.len()) as nat, |i: int| 0u8)
    }
}

fn vec_sink_for(
    vec: &mut Vec<u8>,
    offset: usize,
    pos: usize,
    required_capacity: usize,
) -> (s: SliceSink<'_>)
    requires
        offset + required_capacity <= usize::MAX,
        pos <= required_capacity,
    ensures
        s.output@ == resized(old(vec)@, (offset + required_capacity) as nat).skip(offset as int),
        s.pos == pos,
        s.wf(),
        final(vec)@ == resized(old(vec)@, (offset + required_capacity) as nat).take(offset as int)
            + final(s.output)@,
{
    vec.resize(offset + required_capacity, 0);
    let ghost r = vec@;
    assert(r =~= resized(old(vec)@, (offset + required_capacity) as nat));
    let whole = vec.as_mut_slice();
    let (_head, tail) = whole.split_at_mut(offset);
    SliceSink::new(tail, pos)
}

} // verus!
