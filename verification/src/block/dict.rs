//! A dictionary for the compressor: data that comes before the input, with a hash table that
//! already holds the positions of its bytes.
//!
//! Maximum allowed size is 64 KiB minus two bytes, because the largest offset the format
//! allows is `u16::MAX`.
use vstd::prelude::*;
use crate::block::hashtable::{get_hash4_at, hash4_spec, HashTable, HashTable4KU16};
use crate::block::le_u32_at;

verus! {

/// Dictionary data is cut to this many bytes.
pub const DICT_MAX_LEN: usize = 65534;

/// The stored dictionary data is padded with zeros to this length.
pub const DICT_PADDED_LEN: usize = 65567;

/// The slot of the 4K table that the bytes at `pos` of `data` hash to.
pub open spec fn dict_slot(data: Seq<u8>, pos: int) -> int {
    HashTable4KU16::slot(hash4_spec(le_u32_at(data, pos) as u32) as usize)
}

/// The value in slot `k` after the positions `0..m` of `data` were put in turn: the last of
/// them that hashes to `k`, or zero when none does.
pub open spec fn last_position_in_slot(data: Seq<u8>, m: nat, k: int) -> usize
    decreases m,
{
    if m == 0 {
        0
    } else if dict_slot(data, m - 1) == k {
        (m - 1) as usize
    } else {
        last_position_in_slot(data, (m - 1) as nat, k)
    }
}

/// The number of positions of `data` that the dictionary hashes.
pub open spec fn hashed_positions(len: nat) -> nat {
    if len >= 4 {
        (len - 4) as nat
    } else {
        0
    }
}

/// The dictionary data and the hash table over it.
pub struct Dict {
    data: Vec<u8>,
    hashtable: HashTable4KU16,
}

impl Dict {
    /// The stored data.
    pub closed spec fn data_view(&self) -> Seq<u8> {
        self.data@
    }

    /// The hash table.
    pub closed spec fn table(&self) -> HashTable4KU16 {
        self.hashtable
    }

    /// Builds a dictionary from `data`: keeps at most [`DICT_MAX_LEN`] bytes, puts each position
    /// but the last four into the hash table, and pads the data with zeros to
    /// [`DICT_PADDED_LEN`] bytes.
    pub fn new(data: Vec<u8>) -> (d: Self)
        ensures
            ({
                let kept = if data@.len() <= DICT_MAX_LEN {
                    data@
                } else {
                    data@.take(DICT_MAX_LEN as int)
                };
                &&& d.data_view().len() == DICT_PADDED_LEN
                &&& d.data_view().take(kept.len() as int) == kept
                &&& forall|i: int| kept.len() <= i < DICT_PADDED_LEN ==> #[trigger] d.data_view()[i] == 0
                &&& d.table().wf()
                &&& forall|k: int|
                    0 <= k < HashTable4KU16::entries(&d.table()).len() ==> #[trigger] HashTable4KU16::entries(
                        &d.table(),
                    )[k] == last_position_in_slot(kept, hashed_positions(kept.len()), k)
            }),
    {
        let mut data = data;
        let ghost input = data@;
        data.truncate(DICT_MAX_LEN);
        let ghost kept = data@;
        assert(kept == if input.len() <= DICT_MAX_LEN {
            input
        } else {
            input.take(DICT_MAX_LEN as int)
        });
        let mut hashtable = HashTable4KU16::new();
        let end = if data.len() < 4 {
            0
        } else {
            data.len() - 4
        };
        let mut i: usize = 0;
        while i < end
            invariant
                data@ == kept,
                kept.len() <= DICT_MAX_LEN,
                end == hashed_positions(kept.len()),
                i <= end,
                hashtable.wf(),
                HashTable4KU16::entries(&hashtable).len() == 4096,
                forall|k: int|
                    0 <= k < 4096 ==> #[trigger] HashTable4KU16::entries(&hashtable)[k] == last_position_in_slot(
                        kept,
                        i as nat,
                        k,
                    ),
            decreases end - i,
        {
            let hash = get_hash4_at(&data, i);
            let ghost e0 = HashTable4KU16::entries(&hashtable);
            hashtable.put_at(hash, i);
            proof {
                assert forall|k: int| 0 <= k < 4096 implies #[trigger] HashTable4KU16::entries(&hashtable)[k]
                    == last_position_in_slot(kept, (i + 1) as nat, k) by {
                    assert(dict_slot(kept, i as int) == HashTable4KU16::slot(hash));
                }
            }
            i = i + 1;
        }
        let ghost old_len = data@.len();
        data.resize(DICT_PADDED_LEN, 0);
        proof {
            assert(data@.take(old_len as int) =~= kept);
            assert(data@.len() == DICT_PADDED_LEN);
            assert forall|i: int| kept.len() <= i < DICT_PADDED_LEN implies #[trigger] data@[i] == 0 by {
                assert(cloned::<u8>(0, data@[i]));
            }
        }
        Dict { data, hashtable }
    }

    /// The stored data, padded with zeros.
    pub fn get_data(&self) -> (r: &[u8])
        ensures
            r@ == self.data_view(),
    {
        self.data.as_slice()
    }

    /// The hash table over the data.
    pub fn get_hashtable(&self) -> (r: &HashTable4KU16)
        ensures
            *r == self.table(),
    {
        &self.hashtable
    }
}

} // verus!
