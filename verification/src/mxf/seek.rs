//! Locating the header and footer partitions of an MXF file.
use vstd::prelude::*;

use super::error::MxfError;
use super::partition::{be_at, is_partition_pack_key, pp_key, pp_matches, spec_pp_outcome, PartitionPack};
use super::rip::{rip_entry_matches, spec_rip_count, RandomIndexPack, RipEntry};
use crate::klv::ber::read_u32_be;
use crate::klv::reader::MemReader;
use crate::klv::stream::{spec_next_triplet, DEFAULT_MAX_VALUE_LEN};
use crate::klv::triplet::array16;
use crate::klv::{KlvError, KlvStream};
use crate::types::auid::Auid;
use crate::types::ul::equal_under_mask;
use crate::types::Ul;

verus! {

/// Maximum run-in length before the first partition pack (SMPTE ST 377-1 §6.4).
pub const MAX_RUN_IN: u64 = 65536;

/// Whether 16 bytes at `o` look like a partition pack key (broad scan).
pub open spec fn pp_candidate_at(data: Seq<u8>, o: int) -> bool {
    o + 16 <= data.len() && equal_under_mask(data.subrange(o, o + 16), pp_key(), 0xFEE0)
}

/// The run-in scan from offset `o` on: the first offset up to `MAX_RUN_IN`
/// where a partition pack key starts; the scan stops where fewer than 16
/// bytes remain.
pub open spec fn first_pp_candidate(data: Seq<u8>, o: int) -> Option<int>
    decreases 65537 - o,
{
    if o > 65536 || o < 0 {
        None
    } else if o + 16 > data.len() {
        None
    } else if pp_candidate_at(data, o) {
        Some(o)
    } else {
        first_pp_candidate(data, o + 1)
    }
}

/// The outcome of partition pack parsing for a triplet whose raw key bytes are
/// `key`: keys with bit 7 of byte 0 set are UUIDs, which never are packs.
pub open spec fn pp_outcome_raw(key: Seq<u8>, v: Seq<u8>) -> Result<bool, MxfError> {
    if key[0] < 128 {
        spec_pp_outcome(key, v)
    } else {
        Ok(false)
    }
}

/// Where `seek_footer_partition` finds the footer partition in `data`.
pub open spec fn spec_seek_footer(data: Seq<u8>) -> Result<u64, MxfError> {
    match first_pp_candidate(data, 0) {
        None => Err(MxfError::PartitionNotFound),
        Some(h) => match spec_next_triplet(data, h, DEFAULT_MAX_VALUE_LEN) {
            Err(e) => Err(MxfError::Klv(e)),
            Ok(None) => Err(MxfError::Truncated("expected header partition pack triplet")),
            Ok(Some((key, length, after))) => {
                let v = data.subrange(after - length, after);
                match pp_outcome_raw(key, v) {
                    Err(e) => Err(e),
                    Ok(false) => Err(MxfError::Truncated("triplet is not a partition pack")),
                    Ok(true) => if be_at(v, 24, 8) != 0 {
                        Ok(be_at(v, 24, 8) as u64)
                    } else {
                        spec_footer_from_rip(data)
                    },
                }
            },
        },
    }
}

/// Where the header partition pack (the triplet at the offset where the
/// header seek finds a partition pack key) parses into `pp` and its
/// FooterPartition field is not zero, the footer seek gives that offset,
/// whatever the end of the file holds; only where the field is zero does the
/// Random Index Pack decide.
pub proof fn lemma_footer_from_header_pack(
    data: Seq<u8>,
    h: int,
    key: Seq<u8>,
    length: u64,
    after: int,
    pp: PartitionPack,
)
    requires
        first_pp_candidate(data, 0) == Some(h),
        spec_next_triplet(data, h, DEFAULT_MAX_VALUE_LEN) == Ok::<Option<(Seq<u8>, u64, int)>, KlvError>(
            Some((key, length, after)),
        ),
        key[0] < 128,
        spec_pp_outcome(key, data.subrange(after - length, after)) == Ok::<bool, MxfError>(true),
        pp_matches(key, data.subrange(after - length, after), pp),
    ensures
        pp.footer_partition != 0 ==> spec_seek_footer(data) == Ok::<u64, MxfError>(pp.footer_partition),
        pp.footer_partition == 0 ==> spec_seek_footer(data) == spec_footer_from_rip(data),
{
}

/// The footer offset from the Random Index Pack at the end of `data`: the last
/// 4 bytes give the RIP's overall length; its last entry gives the offset.
pub open spec fn spec_footer_from_rip(data: Seq<u8>) -> Result<u64, MxfError> {
    let file_len = data.len() as int;
    if file_len < 4 {
        Err(MxfError::Truncated("file too small to contain a RIP"))
    } else {
        let rip_len = be_at(data, file_len - 4, 4);
        if rip_len > file_len {
            Err(MxfError::Truncated("RIP length exceeds file size"))
        } else {
            match spec_next_triplet(data, file_len - rip_len, DEFAULT_MAX_VALUE_LEN) {
                Err(e) => Err(MxfError::Klv(e)),
                Ok(None) => Err(MxfError::Truncated("expected RIP triplet at end of file")),
                Ok(Some((key, length, after))) => {
                    let v = data.subrange(after - length, after);
                    let count = if key[0] < 128 {
                        spec_rip_count(key, v)
                    } else {
                        None
                    };
                    match count {
                        None => Err(MxfError::Truncated("triplet at end of file is not a RIP")),
                        Some(n) => if n == 0 {
                            Err(MxfError::Truncated("RIP has no entries"))
                        } else {
                            Ok(be_at(v, 12 * (n - 1) + 4, 8) as u64)
                        },
                    }
                },
            }
        }
    }
}

proof fn lemma_first_candidate_skip(data: Seq<u8>, o: int)
    requires
        0 <= o <= 65536,
        o + 16 <= data.len(),
        !pp_candidate_at(data, o),
    ensures
        first_pp_candidate(data, o) == first_pp_candidate(data, o + 1),
{
}

/// Seek `r` to the start of the header partition pack key.
///
/// Implements the run-in scan from SMPTE ST 377-1 §6.4: reads 16-byte windows
/// sliding forward one byte at a time until a partition pack key prefix is found.
///
/// Returns the byte offset where the partition pack key starts.
pub fn seek_header_partition(r: &mut MemReader) -> (res: Result<u64, MxfError>)
    ensures
        final(r).data == old(r).data,
        match first_pp_candidate(old(r).data@, 0) {
            Some(o) => (res matches Ok(x) && x == o) && final(r).pos == o,
            None => res == Err::<u64, MxfError>(MxfError::PartitionNotFound),
        },
{
    r.seek_start(0);
    let mut offset: u64 = 0;
    let ghost data = r.data@;
    while offset <= MAX_RUN_IN
        invariant
            r.data == old(r).data,
            r.data@ == data,
            data == old(r).data@,
            offset <= MAX_RUN_IN + 1,
            first_pp_candidate(data, 0) == first_pp_candidate(data, offset as int),
        decreases MAX_RUN_IN + 1 - offset,
    {
        r.seek_start(offset);
        let window = r.read_up_to(16);
        if window.len() != 16 {
            return Err(MxfError::PartitionNotFound);
        }
        let ul = Ul::from_bytes(array16(&window));
        if is_partition_pack_key(&ul) {
            r.seek_start(offset);
            return Ok(offset);
        }
        proof {
            lemma_first_candidate_skip(data, offset as int);
        }
        offset = offset + 1;
    }
    Err(MxfError::PartitionNotFound)
}

/// Where the last 4 bytes of the file give the length of a Random Index Pack
/// that parses into `entries`, at least one, the footer found from the RIP
/// is the byte offset of its last entry.
pub proof fn lemma_footer_is_last_rip_entry(data: Seq<u8>, key: Seq<u8>, length: u64, after: int, entries: Seq<RipEntry>)
    requires
        data.len() >= 4,
        be_at(data, data.len() - 4, 4) <= data.len(),
        spec_next_triplet(data, data.len() - be_at(data, data.len() - 4, 4), DEFAULT_MAX_VALUE_LEN)
            == Ok::<Option<(Seq<u8>, u64, int)>, KlvError>(Some((key, length, after))),
        key[0] < 128,
        spec_rip_count(key, data.subrange(after - length, after)) == Some(entries.len()),
        entries.len() > 0,
        forall|i: int| 0 <= i < entries.len() ==> rip_entry_matches(data.subrange(after - length, after), i, #[trigger] entries[i]),
    ensures
        spec_footer_from_rip(data) == Ok::<u64, MxfError>(entries.last().byte_offset),
{
    assert(rip_entry_matches(data.subrange(after - length, after), entries.len() - 1, entries[entries.len() - 1]));
}

/// Seek `r` to the start of the footer partition pack key.
///
/// Strategy:
/// 1. Parse the header partition pack and use its `footer_partition` field.
/// 2. If that is zero, read the last 4 bytes to locate a Random Index Pack,
///    then use the last entry's offset.
pub fn seek_footer_partition(r: &mut MemReader) -> (res: Result<u64, MxfError>)
    requires
        old(r).data@.len() <= i64::MAX,
    ensures
        final(r).data == old(r).data,
        res == spec_seek_footer(old(r).data@),
        res matches Ok(o) ==> final(r).pos == o,
{
    let ghost data = r.data@;
    let header_offset = seek_header_partition(r)?;
    r.seek_start(header_offset);
    let mut src = MemReader::new(Vec::new());
    std::mem::swap(&mut src, r);
    let mut stream = KlvStream::new(src);
    let t = stream.read_triplet();
    *r = stream.into_inner();
    let triplet = match t {
        Err(e) => return Err(MxfError::Klv(e)),
        Ok(None) => return Err(MxfError::Truncated("expected header partition pack triplet")),
        Ok(Some(t)) => t,
    };
    let pp = match PartitionPack::from_triplet(&triplet) {
        Err(e) => return Err(e),
        Ok(None) => return Err(MxfError::Truncated("triplet is not a partition pack")),
        Ok(Some(pp)) => pp,
    };
    if pp.footer_partition != 0 {
        r.seek_start(pp.footer_partition);
        return Ok(pp.footer_partition);
    }
    footer_from_rip(r)
}

/// Step 2 of [`seek_footer_partition`]: the footer offset from the RIP.
fn footer_from_rip(r: &mut MemReader) -> (res: Result<u64, MxfError>)
    requires
        old(r).data@.len() <= i64::MAX,
    ensures
        final(r).data == old(r).data,
        res == spec_footer_from_rip(old(r).data@),
        res matches Ok(o) ==> final(r).pos == o,
{
    let file_len = r.len();
    if file_len < 4 {
        return Err(MxfError::Truncated("file too small to contain a RIP"));
    }
    let _ = r.seek_end_back(4);
    let rip_overall_len = match read_u32_be(r) {
        Ok(x) => x as u64,
        Err(_) => return Err(MxfError::Io),
    };
    if rip_overall_len > file_len {
        return Err(MxfError::Truncated("RIP length exceeds file size"));
    }
    let rip_start = file_len - rip_overall_len;
    r.seek_start(rip_start);
    let mut src = MemReader::new(Vec::new());
    std::mem::swap(&mut src, r);
    let mut stream = KlvStream::new(src);
    let t = stream.read_triplet();
    *r = stream.into_inner();
    let triplet = match t {
        Err(e) => return Err(MxfError::Klv(e)),
        Ok(None) => return Err(MxfError::Truncated("expected RIP triplet at end of file")),
        Ok(Some(t)) => t,
    };
    let rip = match RandomIndexPack::from_triplet(&triplet) {
        Err(e) => return Err(e),
        Ok(None) => return Err(MxfError::Truncated("triplet at end of file is not a RIP")),
        Ok(Some(rip)) => rip,
    };
    if rip.entries.len() == 0 {
        return Err(MxfError::Truncated("RIP has no entries"));
    }
    let footer_offset = rip.entries[rip.entries.len() - 1].byte_offset;
    r.seek_start(footer_offset);
    Ok(footer_offset)
}

} // verus!
