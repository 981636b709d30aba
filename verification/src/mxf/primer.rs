//! MXF primer packs (SMPTE ST 377-1 §8.1).
use vstd::prelude::*;

use super::error::MxfError;
use super::partition::be_at;
use crate::klv::ber::{read_u16_be, read_u32_be};
use crate::klv::triplet::array16;
use crate::klv::{KlvError, LocalTagRegister, MemoryTriplet};
use crate::types::ul::equal_under_mask;
use crate::types::{Auid, Ul};
use std::collections::HashMap;

verus! {

/// Primer Pack key (SMPTE ST 377-1 §8.1).
const KEY: [u8; 16] = [
    0x06, 0x0E, 0x2B, 0x34, 0x02, 0x05, 0x01, 0x01, 0x0D, 0x01, 0x02, 0x01, 0x01, 0x05, 0x01, 0x00,
];

pub open spec fn primer_key() -> Seq<u8> {
    seq![0x06u8, 0x0E, 0x2B, 0x34, 0x02, 0x05, 0x01, 0x01, 0x0D, 0x01, 0x02, 0x01, 0x01, 0x05, 0x01, 0x00]
}

/// MXF Primer Pack — maps 2-byte local tags to ULs (SMPTE ST 377-1 §8.1).
#[derive(Debug, Clone)]
pub struct PrimerPack {
    pub local_tag_register: LocalTagRegister,
}

/// The tag register after the first `k` entries of a primer value (each a
/// 2-byte tag and a 16-byte UL after the 8-byte header; a later entry for a
/// tag replaces an earlier one), or the error that the first short entry meets.
pub open spec fn spec_primer_entries(v: Seq<u8>, k: nat) -> Result<Map<u16, Seq<u8>>, MxfError>
    decreases k,
{
    if k == 0 {
        Ok(Map::empty())
    } else {
        match spec_primer_entries(v, (k - 1) as nat) {
            Err(e) => Err(e),
            Ok(m) => {
                let off = 8 + 18 * (k - 1);
                if v.len() < off + 2 {
                    Err(MxfError::Klv(KlvError::Io))
                } else if v.len() < off + 18 {
                    Err(MxfError::Io)
                } else {
                    Ok(m.insert(be_at(v, off, 2) as u16, v.subrange(off + 2, off + 18)))
                }
            },
        }
    }
}

/// The outcome of primer pack parsing for a UL key (by its bytes) and a value.
pub open spec fn spec_primer(key: Seq<u8>, v: Seq<u8>) -> Result<Option<Map<u16, Seq<u8>>>, MxfError> {
    if !equal_under_mask(key, primer_key(), 0xFEFF) {
        Ok(None)
    } else if v.len() < 8 {
        Err(MxfError::Klv(KlvError::Io))
    } else {
        match spec_primer_entries(v, be_at(v, 0, 4)) {
            Ok(m) => Ok(Some(m)),
            Err(e) => Err(e),
        }
    }
}

/// A register whose ULs have, tag by tag, the bytes that `m` gives.
pub open spec fn register_matches(reg: Map<u16, Ul>, m: Map<u16, Seq<u8>>) -> bool {
    &&& reg.dom() == m.dom()
    &&& forall|t: u16| #[trigger] reg.contains_key(t) ==> reg[t]@ == m[t]
}

impl PrimerPack {
    /// Parse a primer pack from a [`MemoryTriplet`].
    ///
    /// Returns `None` if the triplet key does not match the primer pack key.
    #[verifier::loop_isolation(false)]
    pub fn from_triplet(triplet: &MemoryTriplet) -> (r: Result<Option<PrimerPack>, MxfError>)
        ensures
            match triplet.key {
                Auid::Uuid(_) => r matches Ok(None),
                Auid::Ul(u) => match spec_primer(u@, triplet.value@) {
                    Ok(None) => r matches Ok(None),
                    Err(e) => r == Err::<Option<PrimerPack>, MxfError>(e),
                    Ok(Some(m)) => (r matches Ok(Some(p)) && register_matches(p.local_tag_register@, m)),
                },
            },
    {
        broadcast use vstd::std_specs::hash::group_hash_axioms;

        let tpl = Ul::from_bytes(KEY);
        proof {
            assert(KEY@ == primer_key());
        }
        let ul = match triplet.key.as_ul() {
            Some(ul) => ul,
            None => return Ok(None),
        };
        if !ul.equals_with_mask(&tpl, 0xFEFF) {
            return Ok(None);
        }
        let ghost v = triplet.value@;
        let mut c = triplet.value_cursor();
        if triplet.value.len() < 8 {
            return Err(MxfError::Klv(KlvError::Io));
        }
        let item_count = match read_u32_be(&mut c) {
            Ok(n) => n,
            Err(e) => return Err(MxfError::Klv(e)),
        };
        let _item_len = match read_u32_be(&mut c) {
            Ok(n) => n,
            Err(e) => return Err(MxfError::Klv(e)),
        };
        assert(c.pos == 8 && item_count == be_at(v, 0, 4));
        let mut register: LocalTagRegister = HashMap::new();
        let mut k: u32 = 0;
        while k < item_count
            invariant
                c.data@ == v,
                c.pos == 8 + 18 * k,
                c.pos <= v.len(),
                k <= item_count,
                spec_primer_entries(v, k as nat) matches Ok(m) && register_matches(register@, m),
            decreases item_count - k,
        {
            let ghost m = spec_primer_entries(v, k as nat)->Ok_0;
            let local_tag = match read_u16_be(&mut c) {
                Ok(t) => t,
                Err(e) => {
                    proof {
                        lemma_primer_entries_stable(v, (k + 1) as nat, item_count as nat);
                    }
                    return Err(MxfError::Klv(e));
                },
            };
            let ul_bytes = match c.read_exact(16) {
                Ok(b) => b,
                Err(_) => {
                    proof {
                        lemma_primer_entries_stable(v, (k + 1) as nat, item_count as nat);
                    }
                    return Err(MxfError::Io);
                },
            };
            let u = Ul::from_bytes(array16(&ul_bytes));
            register.insert(local_tag, u);
            k = k + 1;
            proof {
                let m2 = m.insert(be_at(v, 8 + 18 * (k - 1), 2) as u16, v.subrange(8 + 18 * (k - 1) + 2, 8 + 18 * (k - 1) + 18));
                assert(spec_primer_entries(v, k as nat) == Ok::<Map<u16, Seq<u8>>, MxfError>(m2));
                assert(register@.dom() =~= m2.dom());
            }
        }
        Ok(Some(PrimerPack { local_tag_register: register }))
    }
}

proof fn lemma_primer_entries_stable(v: Seq<u8>, k: nat, m: nat)
    requires
        k <= m,
        spec_primer_entries(v, k) is Err,
    ensures
        spec_primer_entries(v, m) == spec_primer_entries(v, k),
    decreases m - k,
{
    if k < m {
        lemma_primer_entries_stable(v, k, (m - 1) as nat);
    }
}

} // verus!
