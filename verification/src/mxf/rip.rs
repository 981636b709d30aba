//! MXF random index packs (SMPTE ST 377-1 §11).
use vstd::prelude::*;

use super::error::MxfError;
use super::partition::be_at;
use crate::klv::ber::{read_u32_be, read_u64_be};
use crate::klv::MemoryTriplet;
use crate::types::ul::equal_under_mask;
use crate::types::{Auid, Ul};

verus! {

/// Random Index Pack key (SMPTE ST 377-1 §11).
const KEY: [u8; 16] = [
    0x06, 0x0E, 0x2B, 0x34, 0x02, 0x05, 0x01, 0x01, 0x0D, 0x01, 0x02, 0x01, 0x11, 0x01, 0x00, 0x00,
];

pub open spec fn rip_key() -> Seq<u8> {
    seq![0x06u8, 0x0E, 0x2B, 0x34, 0x02, 0x05, 0x01, 0x01, 0x0D, 0x01, 0x02, 0x01, 0x11, 0x01, 0x00, 0x00]
}

/// One entry in a Random Index Pack.
#[derive(Debug, Clone, Copy)]
pub struct RipEntry {
    pub body_sid: u32,
    pub byte_offset: u64,
}

/// MXF Random Index Pack — enables fast random access to partitions (ST 377-1 §11).
#[derive(Debug, Clone)]
pub struct RandomIndexPack {
    pub entries: Vec<RipEntry>,
}

/// The number of entries of a RIP with this UL key (by its bytes) and value,
/// or `None` where the triplet is no RIP: the value is 12-byte entries
/// (4-byte body SID, 8-byte offset) followed by a 4-byte overall length.
pub open spec fn spec_rip_count(key: Seq<u8>, v: Seq<u8>) -> Option<nat> {
    if !equal_under_mask(key, rip_key(), 0xFEFF) || v.len() < 4 || (v.len() - 4) % 12 != 0 {
        None
    } else {
        Some(((v.len() - 4) / 12) as nat)
    }
}

/// `e` is entry `i` of the RIP value `v`.
pub open spec fn rip_entry_matches(v: Seq<u8>, i: int, e: RipEntry) -> bool {
    e.body_sid == be_at(v, 12 * i, 4) && e.byte_offset == be_at(v, 12 * i + 4, 8)
}

impl RandomIndexPack {
    /// Parse a RIP from a [`MemoryTriplet`].
    ///
    /// Returns `None` if the triplet key does not match or the length is invalid.
    pub fn from_triplet(triplet: &MemoryTriplet) -> (r: Result<Option<RandomIndexPack>, MxfError>)
        ensures
            match triplet.key {
                Auid::Uuid(_) => r matches Ok(None),
                Auid::Ul(u) => match spec_rip_count(u@, triplet.value@) {
                    None => r matches Ok(None),
                    Some(n) => (r matches Ok(Some(rip)) && rip.entries@.len() == n && forall|i: int|
                        0 <= i < n ==> rip_entry_matches(triplet.value@, i, #[trigger] rip.entries@[i])),
                },
            },
    {
        let tpl = Ul::from_bytes(KEY);
        proof {
            assert(KEY@ == rip_key());
        }
        let ul = match triplet.key.as_ul() {
            Some(ul) => ul,
            None => return Ok(None),
        };
        if !ul.equals_with_mask(&tpl, 0xFEFF) {
            return Ok(None);
        }
        let len = triplet.value.len();
        if len < 4 || (len - 4) % 12 != 0 {
            return Ok(None);
        }
        let count = (len - 4) / 12;
        let ghost v = triplet.value@;
        let mut c = triplet.value_cursor();
        let mut entries: Vec<RipEntry> = Vec::new();
        let mut k: usize = 0;
        while k < count
            invariant
                v == triplet.value@,
                c.data@ == v,
                len == v.len(),
                count == (len - 4) / 12,
                k <= count,
                c.pos == 12 * k,
                entries@.len() == k,
                forall|i: int| 0 <= i < k ==> rip_entry_matches(v, i, #[trigger] entries@[i]),
            decreases count - k,
        {
            let body_sid = match read_u32_be(&mut c) {
                Ok(x) => x,
                Err(_) => return Err(MxfError::Io),
            };
            let byte_offset = match read_u64_be(&mut c) {
                Ok(x) => x,
                Err(_) => return Err(MxfError::Io),
            };
            entries.push(RipEntry { body_sid, byte_offset });
            k = k + 1;
        }
        Ok(Some(RandomIndexPack { entries }))
    }
}

} // verus!
