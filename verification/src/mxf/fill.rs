//! KLV fill items.
use vstd::prelude::*;

use crate::klv::MemoryTriplet;
use crate::types::{Auid, Ul};

verus! {

/// KLV Fill Item key (SMPTE ST 336 §6.3.2).
pub const FILL_KEY: [u8; 16] = [
    0x06, 0x0E, 0x2B, 0x34, 0x01, 0x01, 0x01, 0x01, 0x03, 0x01, 0x02, 0x10, 0x01, 0x00, 0x00, 0x00,
];

pub open spec fn fill_key() -> Seq<u8> {
    seq![0x06u8, 0x0E, 0x2B, 0x34, 0x01, 0x01, 0x01, 0x01, 0x03, 0x01, 0x02, 0x10, 0x01, 0x00, 0x00, 0x00]
}

/// Whether an AUID is the fill item key, whatever its version byte.
pub open spec fn is_fill_key(k: Auid) -> bool {
    k matches Auid::Ul(u) && forall|i: int| 0 <= i < 16 && i != 7 ==> u@[i] == fill_key()[i]
}

/// Returns `true` if `triplet` is a KLV fill item.
pub fn is_fill_item(triplet: &MemoryTriplet) -> (r: bool)
    ensures
        r == is_fill_key(triplet.key),
{
    if let Some(ul) = triplet.key.as_ul() {
        let fill = Ul::from_bytes(FILL_KEY);
        proof {
            assert(FILL_KEY@ == fill_key());
        }
        ul.equals_ignore_version(&fill)
    } else {
        false
    }
}

} // verus!
