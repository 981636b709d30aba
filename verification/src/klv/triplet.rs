//! KLV triplets held in memory.
use vstd::prelude::*;

use super::reader::MemReader;
use crate::types::Auid;

verus! {

/// A KLV triplet whose value bytes are held in heap memory.
#[derive(Debug, Clone)]
pub struct MemoryTriplet {
    pub key: Auid,
    pub value: Vec<u8>,
}

impl MemoryTriplet {
    pub fn new(key: Auid, value: Vec<u8>) -> (r: MemoryTriplet)
        ensures
            r.key == key,
            r.value@ == value@,
    {
        MemoryTriplet { key, value }
    }

    /// A reader over a copy of the value bytes, positioned at their start.
    pub fn value_cursor(&self) -> (r: MemReader)
        ensures
            r.data@ == self.value@,
            r.pos == 0,
    {
        MemReader::new(copy_bytes(&self.value))
    }
}

/// A copy of a byte vector.
pub fn copy_bytes(v: &Vec<u8>) -> (r: Vec<u8>)
    ensures
        r@ == v@,
{
    let mut out: Vec<u8> = Vec::new();
    let mut i: usize = 0;
    while i < v.len()
        invariant
            i <= v@.len(),
            out@ == v@.take(i as int),
        decreases v.len() - i,
    {
        out.push(v[i]);
        i = i + 1;
        proof {
            assert(out@ =~= v@.take(i as int));
        }
    }
    proof {
        assert(v@.take(i as int) =~= v@);
    }
    out
}

/// The 16 bytes of a 16-byte vector as an array.
pub fn array16(v: &Vec<u8>) -> (r: [u8; 16])
    requires
        v@.len() == 16,
    ensures
        r@ == v@,
{
    let mut out = [0u8; 16];
    let mut i: usize = 0;
    while i < 16
        invariant
            v@.len() == 16,
            i <= 16,
            forall|j: int| 0 <= j < i ==> out@[j] == v@[j],
        decreases 16 - i,
    {
        out[i] = v[i];
        i = i + 1;
    }
    proof {
        assert(out@ =~= v@);
    }
    out
}

} // verus!
