//! MXF partition packs (SMPTE ST 377-1 §6.5).
use vstd::prelude::*;

use super::error::MxfError;
use crate::klv::ber::{read_u16_be, read_u32_be, read_u64_be};
use crate::klv::reader::{be_value, MemReader};
use crate::klv::triplet::array16;
use crate::klv::{KlvError, MemoryTriplet};
use crate::types::ul::equal_under_mask;
use crate::types::{Auid, Ul};

verus! {

/// Partition Pack key template (SMPTE ST 377-1 §6.5).
/// Byte[12] = 0x01 (Partition Pack sub-type, always constant).
/// Byte[13] = kind (0x02 Header / 0x03 Body / 0x04 Footer) — skipped by the mask.
/// Byte[14] = status (0x01–0x04) — skipped by the mask.
const KEY: [u8; 16] = [
    0x06, 0x0E, 0x2B, 0x34, 0x02, 0x05, 0x01, 0x01, 0x0D, 0x01, 0x02, 0x01, 0x01, 0x00, 0x00, 0x00,
];

/// `equals_with_mask` mask for partition pack detection.
/// Compares bytes 0-6, 8-12, 15; ignores byte 7 (version), 13 (kind), 14 (status).
pub const PARTITION_PACK_MASK: u16 = 0xFEF9;

/// Broad scan mask used during run-in scanning.
/// Compares bytes 0-6, 8-10; ignores byte 7 and bytes 11-15.
pub const SCAN_MASK: u16 = 0xFEE0;

pub open spec fn pp_key() -> Seq<u8> {
    seq![0x06u8, 0x0E, 0x2B, 0x34, 0x02, 0x05, 0x01, 0x01, 0x0D, 0x01, 0x02, 0x01, 0x01, 0x00, 0x00, 0x00]
}

/// The role of an MXF partition (SMPTE ST 377-1 §6.5).
#[derive(Debug, Clone, Copy, PartialEq, Eq)]
pub enum PartitionKind {
    Header,
    Body,
    Footer,
}

/// Open/closed + complete/incomplete status bits.
#[derive(Debug, Clone, Copy, PartialEq, Eq)]
pub enum PartitionStatus {
    OpenIncomplete,
    ClosedIncomplete,
    OpenComplete,
    ClosedComplete,
}

/// Parsed MXF partition pack (SMPTE ST 377-1 §6.5).
#[derive(Debug, Clone)]
pub struct PartitionPack {
    pub kind: PartitionKind,
    pub status: PartitionStatus,
    pub major_version: u16,
    pub minor_version: u16,
    pub kag_size: u32,
    pub this_partition: u64,
    pub previous_partition: u64,
    pub footer_partition: u64,
    pub header_byte_count: u64,
    pub index_byte_count: u64,
    pub index_sid: u32,
    pub body_offset: u64,
    pub body_sid: u32,
    pub operational_pattern: Ul,
    pub essence_containers: Vec<Ul>,
}

pub open spec fn spec_kind(b: u8) -> Option<PartitionKind> {
    if b == 2 {
        Some(PartitionKind::Header)
    } else if b == 3 {
        Some(PartitionKind::Body)
    } else if b == 4 {
        Some(PartitionKind::Footer)
    } else {
        None
    }
}

pub open spec fn spec_status(b: u8) -> Option<PartitionStatus> {
    if b == 1 {
        Some(PartitionStatus::OpenIncomplete)
    } else if b == 2 {
        Some(PartitionStatus::ClosedIncomplete)
    } else if b == 3 {
        Some(PartitionStatus::OpenComplete)
    } else if b == 4 {
        Some(PartitionStatus::ClosedComplete)
    } else {
        None
    }
}

/// Big-endian value of the `n` bytes of `v` at `off`.
pub open spec fn be_at(v: Seq<u8>, off: int, n: int) -> nat {
    be_value(v.subrange(off, off + n))
}

/// The outcome of partition pack parsing for a UL key (by its bytes) and a
/// value: `Ok(false)` when the key is no partition pack key, `Ok(true)` when
/// the pack parses.
pub open spec fn spec_pp_outcome(key: Seq<u8>, v: Seq<u8>) -> Result<bool, MxfError> {
    if !equal_under_mask(key, pp_key(), 0xFEF9) {
        Ok(false)
    } else if spec_kind(key[13]) is None || spec_status(key[14]) is None {
        Err(MxfError::InvalidPartitionKey)
    } else if v.len() < 64 {
        Err(MxfError::Klv(KlvError::Io))
    } else if v.len() < 80 {
        Err(MxfError::Io)
    } else if v.len() < 88 {
        Err(MxfError::Klv(KlvError::Io))
    } else if v.len() < 88 + 16 * be_at(v, 80, 4) {
        Err(MxfError::Io)
    } else {
        Ok(true)
    }
}

/// `pp` holds the fields that the key bytes and value denote.
pub open spec fn pp_matches(key: Seq<u8>, v: Seq<u8>, pp: PartitionPack) -> bool {
    &&& spec_kind(key[13]) == Some(pp.kind)
    &&& spec_status(key[14]) == Some(pp.status)
    &&& pp.major_version == be_at(v, 0, 2)
    &&& pp.minor_version == be_at(v, 2, 2)
    &&& pp.kag_size == be_at(v, 4, 4)
    &&& pp.this_partition == be_at(v, 8, 8)
    &&& pp.previous_partition == be_at(v, 16, 8)
    &&& pp.footer_partition == be_at(v, 24, 8)
    &&& pp.header_byte_count == be_at(v, 32, 8)
    &&& pp.index_byte_count == be_at(v, 40, 8)
    &&& pp.index_sid == be_at(v, 48, 4)
    &&& pp.body_offset == be_at(v, 52, 8)
    &&& pp.body_sid == be_at(v, 60, 4)
    &&& pp.operational_pattern@ == v.subrange(64, 80)
    &&& pp.essence_containers@.len() == be_at(v, 80, 4)
    &&& forall|i: int|
        0 <= i < pp.essence_containers@.len() ==> (#[trigger] pp.essence_containers@[i])@
            == v.subrange(88 + 16 * i, 104 + 16 * i)
}

/// A partition pack's kind and status are the ones that bytes 13 and 14 of
/// its key name (SMPTE ST 377-1): byte 13 is 0x02 for a header, 0x03 for a
/// body and 0x04 for a footer partition; byte 14 is 0x01 open and
/// incomplete, 0x02 closed and incomplete, 0x03 open and complete, 0x04
/// closed and complete.
pub proof fn lemma_partition_kind_and_status(key: Seq<u8>, v: Seq<u8>, pp: PartitionPack)
    requires
        pp_matches(key, v, pp),
    ensures
        key[13] == 2 <==> pp.kind == PartitionKind::Header,
        key[13] == 3 <==> pp.kind == PartitionKind::Body,
        key[13] == 4 <==> pp.kind == PartitionKind::Footer,
        key[14] == 1 <==> pp.status == PartitionStatus::OpenIncomplete,
        key[14] == 2 <==> pp.status == PartitionStatus::ClosedIncomplete,
        key[14] == 3 <==> pp.status == PartitionStatus::OpenComplete,
        key[14] == 4 <==> pp.status == PartitionStatus::ClosedComplete,
{
}

fn klv_err<T>(r: Result<T, KlvError>) -> (o: Result<T, MxfError>)
    ensures
        match r {
            Ok(x) => o == Ok::<T, MxfError>(x),
            Err(e) => o == Err::<T, MxfError>(MxfError::Klv(e)),
        },
{
    match r {
        Ok(x) => Ok(x),
        Err(e) => Err(MxfError::Klv(e)),
    }
}

impl PartitionPack {
    /// Return the template [`Ul`] used for partition pack detection.
    pub fn key() -> (r: Ul)
        ensures
            r@ == pp_key(),
    {
        proof {
            assert(KEY@ == pp_key());
        }
        Ul::from_bytes(KEY)
    }

    /// Parse a partition pack from a [`MemoryTriplet`].
    ///
    /// Returns `None` if the triplet key does not match the partition pack key.
    #[verifier::loop_isolation(false)]
    pub fn from_triplet(triplet: &MemoryTriplet) -> (r: Result<Option<PartitionPack>, MxfError>)
        ensures
            match triplet.key {
                Auid::Uuid(_) => r matches Ok(None),
                Auid::Ul(u) => match spec_pp_outcome(u@, triplet.value@) {
                    Ok(false) => r matches Ok(None),
                    Err(e) => r == Err::<Option<PartitionPack>, MxfError>(e),
                    Ok(true) => (r matches Ok(Some(pp)) && pp_matches(u@, triplet.value@, pp)),
                },
            },
    {
        let tpl = Ul::from_bytes(KEY);
        proof {
            assert(KEY@ == pp_key());
        }
        let ul = match triplet.key.as_ul() {
            Some(ul) => ul,
            None => return Ok(None),
        };
        if !ul.equals_with_mask(&tpl, PARTITION_PACK_MASK) {
            return Ok(None);
        }
        let kind_byte = ul.as_bytes()[13];
        let status_byte = ul.as_bytes()[14];
        let kind = match kind_byte {
            0x02 => PartitionKind::Header,
            0x03 => PartitionKind::Body,
            0x04 => PartitionKind::Footer,
            _ => return Err(MxfError::InvalidPartitionKey),
        };
        let status = match status_byte {
            0x01 => PartitionStatus::OpenIncomplete,
            0x02 => PartitionStatus::ClosedIncomplete,
            0x03 => PartitionStatus::OpenComplete,
            0x04 => PartitionStatus::ClosedComplete,
            _ => return Err(MxfError::InvalidPartitionKey),
        };
        let ghost v = triplet.value@;
        let mut c = triplet.value_cursor();
        if triplet.value.len() < 64 {
            // the first short numeric field fails
            return Err(MxfError::Klv(KlvError::Io));
        }
        let major_version = klv_err(read_u16_be(&mut c))?;
        assert(c.pos == 2 && major_version == be_at(v, 0, 2));
        let minor_version = klv_err(read_u16_be(&mut c))?;
        assert(c.pos == 4 && minor_version == be_at(v, 2, 2));
        let kag_size = klv_err(read_u32_be(&mut c))?;
        assert(c.pos == 8 && kag_size == be_at(v, 4, 4));
        let this_partition = klv_err(read_u64_be(&mut c))?;
        assert(c.pos == 16 && this_partition == be_at(v, 8, 8));
        let previous_partition = klv_err(read_u64_be(&mut c))?;
        assert(c.pos == 24 && previous_partition == be_at(v, 16, 8));
        let footer_partition = klv_err(read_u64_be(&mut c))?;
        assert(c.pos == 32 && footer_partition == be_at(v, 24, 8));
        let header_byte_count = klv_err(read_u64_be(&mut c))?;
        assert(c.pos == 40 && header_byte_count == be_at(v, 32, 8));
        let index_byte_count = klv_err(read_u64_be(&mut c))?;
        assert(c.pos == 48 && index_byte_count == be_at(v, 40, 8));
        let index_sid = klv_err(read_u32_be(&mut c))?;
        assert(c.pos == 52 && index_sid == be_at(v, 48, 4));
        let body_offset = klv_err(read_u64_be(&mut c))?;
        assert(c.pos == 60 && body_offset == be_at(v, 52, 8));
        let body_sid = klv_err(read_u32_be(&mut c))?;
        assert(c.pos == 64 && body_sid == be_at(v, 60, 4));
        let op_bytes = match c.read_exact(16) {
            Ok(b) => b,
            Err(_) => return Err(MxfError::Io),
        };
        assert(c.pos == 80 && op_bytes@ == v.subrange(64, 80));
        let operational_pattern = Ul::from_bytes(array16(&op_bytes));
        if triplet.value.len() < 88 {
            return Err(MxfError::Klv(KlvError::Io));
        }
        let ec_count = klv_err(read_u32_be(&mut c))?;
        assert(c.pos == 84 && ec_count == be_at(v, 80, 4));
        let _ec_item_len = klv_err(read_u32_be(&mut c))?;
        assert(c.pos == 88);
        let mut essence_containers: Vec<Ul> = Vec::new();
        let mut k: u32 = 0;
        while k < ec_count
            invariant
                c.data@ == v,
                v.len() >= 88,
                ec_count == be_at(v, 80, 4),
                k <= ec_count,
                c.pos == 88 + 16 * k,
                c.pos <= v.len(),
                essence_containers@.len() == k,
                forall|i: int|
                    0 <= i < k ==> (#[trigger] essence_containers@[i])@ == v.subrange(88 + 16 * i, 104 + 16 * i),
            decreases ec_count - k,
        {
            let ul_bytes = match c.read_exact(16) {
                Ok(b) => b,
                Err(_) => {
                    proof {
                        assert(v.len() < 88 + 16 * be_at(v, 80, 4));
                    }
                    return Err(MxfError::Io);
                },
            };
            essence_containers.push(Ul::from_bytes(array16(&ul_bytes)));
            k = k + 1;
        }
        Ok(
            Some(
                PartitionPack {
                    kind,
                    status,
                    major_version,
                    minor_version,
                    kag_size,
                    this_partition,
                    previous_partition,
                    footer_partition,
                    header_byte_count,
                    index_byte_count,
                    index_sid,
                    body_offset,
                    body_sid,
                    operational_pattern,
                    essence_containers,
                },
            ),
        )
    }
}

/// Returns `true` if `ul` looks like any partition pack key (broad scan).
pub fn is_partition_pack_key(ul: &Ul) -> (r: bool)
    ensures
        r == equal_under_mask(ul@, pp_key(), 0xFEE0),
{
    proof {
        assert(KEY@ == pp_key());
    }
    ul.equals_with_mask(&Ul::from_bytes(KEY), SCAN_MASK)
}

} // verus!
