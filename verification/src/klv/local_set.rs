//! KLV local sets keyed by 2-byte local tags (SMPTE ST 336 §6.3.3).
use vstd::prelude::*;

use super::ber::{lemma_be_value_bound, lemma_pow256_values, read_u16_be};
use super::error::KlvError;
use super::reader::{be_value, MemReader};
use super::triplet::MemoryTriplet;
use crate::types::{Auid, Ul};
use std::collections::HashMap;

verus! {

/// Maps 2-byte local tags to their corresponding [`Ul`] identifiers.
pub type LocalTagRegister = HashMap<u16, Ul>;

/// A KLV local set: a collection of items keyed by resolved [`Auid`]s.
#[derive(Debug, Clone)]
pub struct LocalSet {
    pub key: Auid,
    pub items: Vec<MemoryTriplet>,
}

/// The items of a local set value read from position `pos` on: each is a
/// 2-byte tag, a 2-byte length and that many value bytes; the tag is resolved
/// through `reg`.
pub open spec fn spec_local_items(v: Seq<u8>, pos: int, reg: Map<u16, Ul>) -> Result<
    Seq<(Ul, Seq<u8>)>,
    KlvError,
>
    decreases v.len() - pos,
{
    if pos < 0 || pos >= v.len() {
        Ok(Seq::empty())
    } else if pos + 4 > v.len() {
        Err(KlvError::Io)
    } else {
        let tag = be_value(v.subrange(pos, pos + 2)) as u16;
        let len = be_value(v.subrange(pos + 2, pos + 4));
        if pos + 4 + len > v.len() {
            Err(KlvError::Io)
        } else if !reg.contains_key(tag) {
            Err(KlvError::UnknownLocalTag(tag))
        } else {
            match spec_local_items(v, pos + 4 + len, reg) {
                Ok(rest) => Ok(seq![(reg[tag], v.subrange(pos + 4, pos + 4 + len))] + rest),
                Err(e) => Err(e),
            }
        }
    }
}

/// The (UL, value) view of local set items.
pub open spec fn items_view(items: Seq<MemoryTriplet>) -> Seq<(Auid, Seq<u8>)> {
    items.map_values(|t: MemoryTriplet| (t.key, t.value@))
}

/// The (UL, value) pairs as items keyed by the UL.
pub open spec fn ul_items_view(items: Seq<(Ul, Seq<u8>)>) -> Seq<(Auid, Seq<u8>)> {
    items.map_values(|p: (Ul, Seq<u8>)| (Auid::Ul(p.0), p.1))
}

impl LocalSet {
    /// Parse a local set from the value bytes of a KLV triplet, resolving
    /// local tags to ULs using `tag_register`.
    pub fn from_triplet(triplet: &MemoryTriplet, tag_register: &LocalTagRegister) -> (r: Result<
        LocalSet,
        KlvError,
    >)
        ensures
            match spec_local_items(triplet.value@, 0, tag_register@) {
                Ok(items) => (r matches Ok(s) && s.key == triplet.key && items_view(s.items@)
                    == ul_items_view(items)),
                Err(e) => r == Err::<LocalSet, KlvError>(e),
            },
    {
        broadcast use vstd::std_specs::hash::group_hash_axioms;

        let mut cursor = triplet.value_cursor();
        let total = triplet.value.len() as u64;
        let mut items: Vec<MemoryTriplet> = Vec::new();
        let ghost v = triplet.value@;
        while cursor.pos < total
            invariant
                v == triplet.value@,
                cursor.data@ == v,
                total == v.len(),
                cursor.pos <= total,
                match spec_local_items(v, 0, tag_register@) {
                    Ok(all) => (spec_local_items(v, cursor.pos as int, tag_register@) matches Ok(rest)
                        && ul_items_view(all) == items_view(items@) + ul_items_view(rest)),
                    Err(e) => spec_local_items(v, cursor.pos as int, tag_register@) == Err::<
                        Seq<(Ul, Seq<u8>)>,
                        KlvError,
                    >(e),
                },
            decreases total - cursor.pos,
        {
            let ghost p = cursor.pos as int;
            if total - cursor.pos < 4 {
                proof {
                    assert(spec_local_items(v, p, tag_register@) == Err::<Seq<(Ul, Seq<u8>)>, KlvError>(KlvError::Io));
                }
                return Err(KlvError::Io);
            }
            let local_tag = match read_u16_be(&mut cursor) {
                Ok(t) => t,
                Err(e) => {
                    return Err(e);
                },
            };
            let local_len = match read_u16_be(&mut cursor) {
                Ok(n) => n as u64,
                Err(e) => {
                    return Err(e);
                },
            };
            proof {
                lemma_be_value_bound(v.subrange(p, p + 2));
                lemma_be_value_bound(v.subrange(p + 2, p + 4));
                lemma_pow256_values();
                assert(cursor.data@.subrange(p, p + 2) == v.subrange(p, p + 2));
                assert(local_tag == be_value(v.subrange(p, p + 2)) as u16);
                assert(local_len == be_value(v.subrange(p + 2, p + 4)));
            }
            let local_val = match cursor.read_exact(local_len) {
                Ok(b) => b,
                Err(_) => {
                    return Err(KlvError::Io);
                },
            };
            let ul = match tag_register.get(&local_tag) {
                Some(u) => *u,
                None => {
                    proof {
                        assert(cursor.pos == p + 4 + local_len);
                        assert(spec_local_items(v, p, tag_register@) == Err::<Seq<(Ul, Seq<u8>)>, KlvError>(KlvError::UnknownLocalTag(local_tag)));
                    }
                    return Err(KlvError::UnknownLocalTag(local_tag));
                },
            };
            let ghost before = items@;
            items.push(MemoryTriplet { key: Auid::Ul(ul), value: local_val });
            proof {
                let rest = spec_local_items(v, cursor.pos as int, tag_register@);
                let here = spec_local_items(v, p, tag_register@);
                if let Ok(r2) = rest {
                    assert(here == Ok::<Seq<(Ul, Seq<u8>)>, KlvError>(
                        seq![(ul, local_val@)] + r2,
                    ));
                    assert(ul_items_view(seq![(ul, local_val@)] + r2) =~= seq![(Auid::Ul(ul), local_val@)]
                        + ul_items_view(r2));
                    assert(items_view(items@) =~= items_view(before) + seq![(Auid::Ul(ul), local_val@)]);
                }
            }
        }
        proof {
            assert(ul_items_view(Seq::empty()) =~= Seq::<(Auid, Seq<u8>)>::empty());
        }
        Ok(LocalSet { key: triplet.key, items })
    }
}

} // verus!
