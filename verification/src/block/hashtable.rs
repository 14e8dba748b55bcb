//! Hash tables used by the compressor to remember where a group of input bytes was last seen.
//!
//! A table is a fixed number of slots. A 16 bit hash selects a slot (the hash is shifted right
//! so that it fits the table), and the slot holds a position, reduced to the width of the
//! table's entries.
use vstd::prelude::*;
use crate::block::compress::{get_batch, get_batch_arch};
use crate::block::{le_u32_at, le_u64_at};

verus! {

/// Multiplicative hash of four bytes, reduced to 16 bits.
pub open spec fn hash4_spec(sequence: u32) -> u32 {
    sequence.wrapping_mul(2654435761u32) >> 16u32
}

/// Multiplicative hash of the low five bytes of an eight byte word, reduced to 16 bits.
pub open spec fn hash5_spec(sequence: u64) -> u32 {
    (((sequence << 24u64).wrapping_mul(889523592379u64)) >> 48u64) as u32
}

/// Hashes four bytes and right shifts the result to a maximum value of 16 bit, 65535.
fn hash(sequence: u32) -> (r: u32)
    ensures
        r == hash4_spec(sequence),
        r < 65536,
{
    let w = sequence.wrapping_mul(2654435761u32);
    assert(w >> 16u32 < 65536u32) by (bit_vector);
    w >> 16u32
}

/// Hashes the low five bytes of `sequence` and right shifts the result to a maximum value of
/// 16 bit, 65535.
fn hash5(sequence: u64) -> (r: u32)
    ensures
        r == hash5_spec(sequence),
        r < 65536,
{
    let w = (sequence << 24u64).wrapping_mul(889523592379u64);
    assert(w >> 48u64 < 65536u64) by (bit_vector);
    (w >> 48u64) as u32
}

/// The 16 bit hash of the four bytes at `pos` in `input`.
pub fn get_hash4_at(input: &[u8], pos: usize) -> (r: usize)
    requires
        pos + 4 <= input@.len(),
    ensures
        r == hash4_spec(le_u32_at(input@, pos as int) as u32),
        r < 65536,
{
    hash(get_batch(input, pos)) as usize
}

/// The hash table used by the compression to map hashed bytes to their position.
///
/// A value stored in a slot is the position reduced modulo [`HashTable::value_modulus`], so
/// a value read back is never larger than the value that was stored.
pub trait HashTable: Sized {
    /// The slots of the table.
    spec fn entries(&self) -> Seq<usize>;

    /// The slot that the hash `hash` selects.
    spec fn slot(hash: usize) -> int;

    /// Stored values are reduced modulo this number.
    spec fn value_modulus() -> nat;

    /// The hash of the input bytes at `pos`.
    spec fn hash_at(input: Seq<u8>, pos: int) -> usize;

    /// The table has its full number of slots.
    spec fn wf(&self) -> bool;

    /// Every 16 bit hash selects a slot of a well-formed table.
    proof fn lemma_slots(&self)
        requires
            self.wf(),
        ensures
            forall|h: usize| h < 65536 ==> 0 <= #[trigger] Self::slot(h) < self.entries().len(),
            Self::value_modulus() > 0,
    ;

    /// Returns the value stored in the slot of `hash`.
    fn get_at(&self, hash: usize) -> (r: usize)
        requires
            self.wf(),
            hash < 65536,
        ensures
            r == self.entries()[Self::slot(hash)],
    ;

    /// Stores `val` in the slot of `hash`.
    fn put_at(&mut self, hash: usize, val: usize)
        requires
            old(self).wf(),
            hash < 65536,
        ensures
            final(self).wf(),
            final(self).entries() == old(self).entries().update(
                Self::slot(hash),
                (val as nat % Self::value_modulus()) as usize,
            ),
    ;

    /// Resets all entries to zero.
    fn clear(&mut self)
        requires
            old(self).wf(),
        ensures
            final(self).wf(),
            final(self).entries() == Seq::new(old(self).entries().len(), |i: int| 0usize),
    ;

    /// Computes the hash of the bytes at `pos` in `input`.
    fn get_hash_at(input: &[u8], pos: usize) -> (r: usize)
        requires
            pos + 8 <= input@.len(),
        ensures
            r == Self::hash_at(input@, pos as int),
            r < 65536,
    ;
}

/// Number of slots of the 4K tables.
pub const HASHTABLE_SIZE_4K: usize = 4096;

/// Number of slots of the 8K table.
pub const HASHTABLE_SIZE_8K: usize = 8192;

/// A 4K entry hash table using 16-bit values.
pub struct HashTable4KU16 {
    dict: Vec<u16>,
}

impl HashTable4KU16 {
    /// A well-formed table has 4096 slots.
    pub proof fn lemma_len(&self)
        requires
            self.wf(),
        ensures
            self.entries().len() == HASHTABLE_SIZE_4K,
    {
    }

    /// Creates a new zeroed hash table.
    pub fn new() -> (t: Self)
        ensures
            t.wf(),
            t.entries() == Seq::new(HASHTABLE_SIZE_4K as nat, |i: int| 0usize),
    {
        let t = Self { dict: vec![0u16; HASHTABLE_SIZE_4K] };
        assert(t.entries() =~= Seq::new(HASHTABLE_SIZE_4K as nat, |i: int| 0usize));
        t
    }
}

impl HashTable for HashTable4KU16 {
    closed spec fn entries(&self) -> Seq<usize> {
        Seq::new(self.dict@.len(), |i: int| self.dict@[i] as usize)
    }

    open spec fn slot(hash: usize) -> int {
        hash as int / 16
    }

    open spec fn value_modulus() -> nat {
        65536
    }

    open spec fn hash_at(input: Seq<u8>, pos: int) -> usize {
        hash4_spec(le_u32_at(input, pos) as u32) as usize
    }

    closed spec fn wf(&self) -> bool {
        self.dict@.len() == HASHTABLE_SIZE_4K
    }

    proof fn lemma_slots(&self) {
    }

    fn get_at(&self, hash: usize) -> (r: usize) {
        assert(hash >> 4usize == hash / 16) by (bit_vector);
        self.dict[hash >> 4usize] as usize
    }

    fn put_at(&mut self, hash: usize, val: usize) {
        assert(hash >> 4usize == hash / 16) by (bit_vector);
        assert(val as u16 == val % 65536) by (bit_vector);
        let i = hash >> 4usize;
        self.dict[i] = val as u16;
        assert(self.entries() =~= old(self).entries().update(Self::slot(hash), (val as nat % 65536) as usize));
    }

    fn clear(&mut self) {
        let mut i: usize = 0;
        while i < self.dict.len()
            invariant
                self.dict@.len() == HASHTABLE_SIZE_4K,
                i <= self.dict@.len(),
                forall|k: int| 0 <= k < i ==> self.dict@[k] == 0,
            decreases self.dict@.len() - i,
        {
            self.dict[i] = 0;
            i = i + 1;
        }
        assert(self.entries() =~= Seq::new(old(self).entries().len(), |i: int| 0usize));
    }

    fn get_hash_at(input: &[u8], pos: usize) -> (r: usize) {
        hash(get_batch(input, pos)) as usize
    }
}

/// A 4K entry hash table using 32-bit values.
pub struct HashTable4K {
    dict: Vec<u32>,
}

impl HashTable4K {
    /// A well-formed table has 4096 slots.
    pub proof fn lemma_len(&self)
        requires
            self.wf(),
        ensures
            self.entries().len() == HASHTABLE_SIZE_4K,
    {
    }

    /// Creates a new zeroed hash table.
    pub fn new() -> (t: Self)
        ensures
            t.wf(),
            t.entries() == Seq::new(HASHTABLE_SIZE_4K as nat, |i: int| 0usize),
    {
        let t = Self { dict: vec![0u32; HASHTABLE_SIZE_4K] };
        assert(t.entries() =~= Seq::new(HASHTABLE_SIZE_4K as nat, |i: int| 0usize));
        t
    }

    /// Shifts all entries down by `offset`, clamping at zero.
    pub fn reposition(&mut self, offset: u32)
        requires
            old(self).wf(),
        ensures
            final(self).wf(),
            final(self).entries() == Seq::new(
                old(self).entries().len(),
                |i: int| if old(self).entries()[i] >= offset { (old(self).entries()[i] - offset) as usize } else { 0usize },
            ),
    {
        let mut i: usize = 0;
        while i < self.dict.len()
            invariant
                self.dict@.len() == HASHTABLE_SIZE_4K,
                old(self).dict@.len() == HASHTABLE_SIZE_4K,
                i <= self.dict@.len(),
                forall|k: int| 0 <= k < i ==> self.dict@[k] == if old(self).dict@[k] >= offset { (old(self).dict@[k] - offset) as u32 } else { 0u32 },
                forall|k: int| i <= k < self.dict@.len() ==> self.dict@[k] == old(self).dict@[k],
            decreases self.dict@.len() - i,
        {
            let v = self.dict[i];
            self.dict[i] = v.saturating_sub(offset);
            i = i + 1;
        }
        assert(self.entries() =~= Seq::new(
            old(self).entries().len(),
            |i: int| if old(self).entries()[i] >= offset { (old(self).entries()[i] - offset) as usize } else { 0usize },
        ));
    }
}

impl HashTable for HashTable4K {
    closed spec fn entries(&self) -> Seq<usize> {
        Seq::new(self.dict@.len(), |i: int| self.dict@[i] as usize)
    }

    open spec fn slot(hash: usize) -> int {
        hash as int / 16
    }

    open spec fn value_modulus() -> nat {
        4294967296
    }

    open spec fn hash_at(input: Seq<u8>, pos: int) -> usize {
        hash5_spec(le_u64_at(input, pos) as u64) as usize
    }

    closed spec fn wf(&self) -> bool {
        self.dict@.len() == HASHTABLE_SIZE_4K
    }

    proof fn lemma_slots(&self) {
    }

    fn get_at(&self, hash: usize) -> (r: usize) {
        assert(hash >> 4usize == hash / 16) by (bit_vector);
        self.dict[hash >> 4usize] as usize
    }

    fn put_at(&mut self, hash: usize, val: usize) {
        assert(hash >> 4usize == hash / 16) by (bit_vector);
        let v64 = val as u64;
        assert(v64 as u32 == v64 % 0x1_0000_0000u64) by (bit_vector);
        assert(val as u32 == v64 as u32) by (bit_vector)
            requires
                v64 == val as u64,
        ;
        let i = hash >> 4usize;
        self.dict[i] = val as u32;
        assert(self.entries() =~= old(self).entries().update(Self::slot(hash), (val as nat % 4294967296) as usize));
    }

    fn clear(&mut self) {
        let mut i: usize = 0;
        while i < self.dict.len()
            invariant
                self.dict@.len() == HASHTABLE_SIZE_4K,
                i <= self.dict@.len(),
                forall|k: int| 0 <= k < i ==> self.dict@[k] == 0,
            decreases self.dict@.len() - i,
        {
            self.dict[i] = 0;
            i = i + 1;
        }
        assert(self.entries() =~= Seq::new(old(self).entries().len(), |i: int| 0usize));
    }

    fn get_hash_at(input: &[u8], pos: usize) -> (r: usize) {
        hash5(get_batch_arch(input, pos)) as usize
    }
}

/// An 8K entry hash table using 32-bit values.
pub struct HashTable8K {
    dict: Vec<u32>,
}

impl HashTable8K {
    /// Creates a new zeroed hash table.
    pub fn new() -> (t: Self)
        ensures
            t.wf(),
            t.entries() == Seq::new(HASHTABLE_SIZE_8K as nat, |i: int| 0usize),
    {
        let t = Self { dict: vec![0u32; HASHTABLE_SIZE_8K] };
        assert(t.entries() =~= Seq::new(HASHTABLE_SIZE_8K as nat, |i: int| 0usize));
        t
    }
}

impl HashTable for HashTable8K {
    closed spec fn entries(&self) -> Seq<usize> {
        Seq::new(self.dict@.len(), |i: int| self.dict@[i] as usize)
    }

    open spec fn slot(hash: usize) -> int {
        hash as int / 8
    }

    open spec fn value_modulus() -> nat {
        4294967296
    }

    open spec fn hash_at(input: Seq<u8>, pos: int) -> usize {
        hash5_spec(le_u64_at(input, pos) as u64) as usize
    }

    closed spec fn wf(&self) -> bool {
        self.dict@.len() == HASHTABLE_SIZE_8K
    }

    proof fn lemma_slots(&self) {
    }

    fn get_at(&self, hash: usize) -> (r: usize) {
        assert(hash >> 3usize == hash / 8) by (bit_vector);
        self.dict[hash >> 3usize] as usize
    }

    fn put_at(&mut self, hash: usize, val: usize) {
        assert(hash >> 3usize == hash / 8) by (bit_vector);
        let v64 = val as u64;
        assert(v64 as u32 == v64 % 0x1_0000_0000u64) by (bit_vector);
        assert(val as u32 == v64 as u32) by (bit_vector)
            requires
                v64 == val as u64,
        ;
        let i = hash >> 3usize;
        self.dict[i] = val as u32;
        assert(self.entries() =~= old(self).entries().update(Self::slot(hash), (val as nat % 4294967296) as usize));
    }

    fn clear(&mut self) {
        let mut i: usize = 0;
        while i < self.dict.len()
            invariant
                self.dict@.len() == HASHTABLE_SIZE_8K,
                i <= self.dict@.len(),
                forall|k: int| 0 <= k < i ==> self.dict@[k] == 0,
            decreases self.dict@.len() - i,
        {
            self.dict[i] = 0;
            i = i + 1;
        }
        assert(self.entries() =~= Seq::new(old(self).entries().len(), |i: int| 0usize));
    }

    fn get_hash_at(input: &[u8], pos: usize) -> (r: usize) {
        hash5(get_batch_arch(input, pos)) as usize
    }
}

} // verus!
