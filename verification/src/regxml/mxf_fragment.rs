//! The MXF → RegXML pipeline: find a partition, read its header metadata,
//! pick the root object and build its fragment.
use vstd::prelude::*;

use super::error::{fragment_error_text, FragmentError};
use super::event::EventHandler;
use super::descriptor::{essence_descriptor_index, find_essence_descriptor, first_match, lemma_first_match, set_keys};
use super::fragment::{
    class_of_key, extends_balanced, group_element, instance_uid_ul, is_ul, namer_names, produced, AuidNamer,
    FragmentBuilder,
    classes_acyclic, group_fits, sets_view, MAX_NESTING, REGXML_NS, REG_PREFIX,
};
use crate::dict::definition::{ClassView, Definition, DefinitionView};
use crate::dict::resolver::DefinitionResolver;
use crate::klv::error::{klv_error_text, KlvError};
use crate::klv::local_set::{items_view, spec_local_items, ul_items_view, LocalSet};
use crate::klv::reader::MemReader;
use crate::klv::stream::{lemma_next_triplet_bounds, spec_next_triplet, KlvStream, DEFAULT_MAX_VALUE_LEN};
use crate::klv::triplet::MemoryTriplet;
use crate::mxf::error::{mxf_error_text, MxfError};
use crate::text::{append_str, push_lit, string_of};
use crate::mxf::fill::{is_fill_item, is_fill_key};
use crate::mxf::partition::{be_at, is_partition_pack_key, pp_key, spec_pp_outcome, PartitionPack};
use crate::mxf::primer::{register_matches, spec_primer, PrimerPack};
use crate::mxf::seek::{first_pp_candidate, seek_footer_partition, seek_header_partition, spec_seek_footer};
use crate::klv::triplet::copy_bytes;
use crate::types::auid::{auid_of_bytes, bytes_auid, lemma_auid_of_bytes_unique, Auid};
use crate::types::ul::{equal_under_mask, Ul};
use crate::xml::writer::{event_tuple, events_view, XmlEvent};

verus! {

// ── Public types ────────────────────────────────────────────────────────────

/// Target partition for MXF header metadata extraction.
#[derive(Debug, Clone, Copy, PartialEq, Eq)]
pub enum PartitionTarget {
    /// Try the footer partition first; fall back to header if unavailable or
    /// if the footer holds no header metadata.
    Auto,
    /// Use the header partition only.
    Header,
    /// Use the footer partition only.
    Footer,
}

impl Default for PartitionTarget {
    fn default() -> (r: Self)
        ensures
            r == PartitionTarget::Auto,
    {
        PartitionTarget::Auto
    }
}

/// Which object to use as the root of the RegXML output.
#[derive(Debug, Clone, Copy, PartialEq, Eq)]
pub enum RootMode {
    /// Emit the full Preface tree.
    Preface,
    /// Emit only the first EssenceDescriptor.
    EssenceDescriptor,
}

impl Default for RootMode {
    fn default() -> (r: Self)
        ensures
            r == RootMode::Preface,
    {
        RootMode::Preface
    }
}

/// Options for [`MxfFragmentBuilder`].
pub struct MxfFragmentOptions {
    pub partition: PartitionTarget,
    pub root_mode: RootMode,
    pub event_handler: Option<Box<dyn EventHandler>>,
    /// Optional UL → symbol resolver for ExtendibleEnumeration values.
    pub auid_namer: Option<Box<dyn AuidNamer>>,
}

impl MxfFragmentOptions {
    /// The default options: footer-or-header, the Preface tree, no handler
    /// and no namer.
    pub fn new() -> (o: Self)
        ensures
            o.partition == PartitionTarget::Auto,
            o.root_mode == RootMode::Preface,
            o.event_handler is None,
            o.auid_namer is None,
    {
        MxfFragmentOptions {
            partition: PartitionTarget::Auto,
            root_mode: RootMode::Preface,
            event_handler: None,
            auid_namer: None,
        }
    }
}

#[derive(Debug)]
pub enum MxfFragmentError {
    /// MXF error.
    Mxf(MxfError),
    /// Fragment error.
    Fragment(FragmentError),
    /// KLV error, with its message.
    Klv(String),
    /// XML error, with its message.
    Xml(String),
    /// I/O error, with its message.
    Io(String),
    /// No partition pack found.
    MissingPartitionPack,
    /// No primer pack found.
    MissingPrimerPack,
    /// No root object found in header metadata.
    MissingRootObject,
}

/// The message of an [`MxfFragmentError`].
pub open spec fn mxf_fragment_error_text(e: MxfFragmentError) -> Seq<char> {
    match e {
        MxfFragmentError::Mxf(m) => "MXF error: "@ + mxf_error_text(m),
        MxfFragmentError::Fragment(f) => "fragment error: "@ + fragment_error_text(f),
        MxfFragmentError::Klv(m) => "KLV error: "@ + m@,
        MxfFragmentError::Xml(m) => "XML error: "@ + m@,
        MxfFragmentError::Io(m) => "I/O error: "@ + m@,
        MxfFragmentError::MissingPartitionPack => "no partition pack found"@,
        MxfFragmentError::MissingPrimerPack => "no primer pack found"@,
        MxfFragmentError::MissingRootObject => "no root object found in header metadata"@,
    }
}

impl MxfFragmentError {
    /// The error's message.
    pub fn to_string(&self) -> (r: String)
        ensures
            r@ == mxf_fragment_error_text(*self),
    {
        let mut out: Vec<char> = Vec::new();
        match self {
            MxfFragmentError::Mxf(m) => {
                push_lit(&mut out, "MXF error: ");
                append_str(&mut out, m.to_string().as_str());
            },
            MxfFragmentError::Fragment(f) => {
                push_lit(&mut out, "fragment error: ");
                append_str(&mut out, f.to_string().as_str());
            },
            MxfFragmentError::Klv(m) => {
                push_lit(&mut out, "KLV error: ");
                append_str(&mut out, m.as_str());
            },
            MxfFragmentError::Xml(m) => {
                push_lit(&mut out, "XML error: ");
                append_str(&mut out, m.as_str());
            },
            MxfFragmentError::Io(m) => {
                push_lit(&mut out, "I/O error: ");
                append_str(&mut out, m.as_str());
            },
            MxfFragmentError::MissingPartitionPack => push_lit(&mut out, "no partition pack found"),
            MxfFragmentError::MissingPrimerPack => push_lit(&mut out, "no primer pack found"),
            MxfFragmentError::MissingRootObject => push_lit(&mut out, "no root object found in header metadata"),
        }
        string_of(&out)
    }
}

// ── Partition selection ─────────────────────────────────────────────────────

/// Whether the KLV triplet at `pos` is a partition pack with header
/// metadata (a header byte count above zero).
pub open spec fn footer_meta(data: Seq<u8>, pos: int) -> bool {
    match spec_next_triplet(data, pos, DEFAULT_MAX_VALUE_LEN) {
        Ok(Some((key, len, after))) => {
            let v = data.subrange(after - len, after);
            key[0] < 128 && spec_pp_outcome(key, v) == Ok::<bool, MxfError>(true) && be_at(v, 32, 8) > 0
        },
        _ => false,
    }
}

/// Move `reader` into a KLV stream for the duration of one triplet read.
fn read_one_triplet(reader: &mut MemReader) -> (r: Result<Option<MemoryTriplet>, KlvError>)
    requires
        old(reader).data@.len() <= i64::MAX,
        old(reader).pos <= old(reader).data@.len(),
    ensures
        final(reader).data == old(reader).data,
        match spec_next_triplet(old(reader).data@, old(reader).pos as int, DEFAULT_MAX_VALUE_LEN) {
            Err(e) => r == Err::<Option<MemoryTriplet>, KlvError>(e),
            Ok(None) => r matches Ok(None),
            Ok(Some((key, length, after))) => (r matches Ok(Some(t)) && auid_of_bytes(key, t.key)
                && t.value@ == old(reader).data@.subrange(after - length, after)) && final(reader).pos == after,
        },
{
    let mut src = MemReader::new(Vec::new());
    std::mem::swap(&mut src, reader);
    let mut stream = KlvStream::new(src);
    let t = stream.read_triplet();
    *reader = stream.into_inner();
    t
}

/// Peek at the triplet at the read position: whether it is a partition
/// pack with header metadata. The position is restored.
fn footer_has_metadata(reader: &mut MemReader) -> (r: bool)
    requires
        old(reader).data@.len() <= i64::MAX,
    ensures
        final(reader).data == old(reader).data,
        final(reader).pos == old(reader).pos,
        r == footer_meta(old(reader).data@, old(reader).pos as int),
{
    let pos = reader.position();
    if pos > reader.len() {
        return false;
    }
    let result = match read_one_triplet(reader) {
        Ok(Some(t)) => match PartitionPack::from_triplet(&t) {
            Ok(Some(pp)) => pp.header_byte_count > 0,
            _ => false,
        },
        _ => false,
    };
    reader.seek_start(pos);
    result
}

/// Where the header partition pack is, as [`seek_header_partition`] finds it.
pub open spec fn header_offset(data: Seq<u8>) -> Result<u64, MxfError> {
    match first_pp_candidate(data, 0) {
        Some(o) => Ok(o as u64),
        None => Err(MxfError::PartitionNotFound),
    }
}

/// The offset of the partition that `target` selects.
pub open spec fn partition_offset(data: Seq<u8>, target: PartitionTarget) -> Result<u64, MxfError> {
    match target {
        PartitionTarget::Header => header_offset(data),
        PartitionTarget::Footer => spec_seek_footer(data),
        PartitionTarget::Auto => match spec_seek_footer(data) {
            Ok(o) => if footer_meta(data, o as int) {
                Ok(o)
            } else {
                header_offset(data)
            },
            Err(_) => header_offset(data),
        },
    }
}

/// Seek `reader` to the start of the requested partition. `Auto` takes the
/// footer where it can be found and holds header metadata, else the header.
fn seek_to_partition(reader: &mut MemReader, target: PartitionTarget) -> (r: Result<(), MxfFragmentError>)
    requires
        old(reader).data@.len() <= i64::MAX,
    ensures
        final(reader).data == old(reader).data,
        match partition_offset(old(reader).data@, target) {
            Ok(o) => r is Ok && final(reader).pos == o,
            Err(e) => (r matches Err(MxfFragmentError::Mxf(x)) && x == e),
        },
{
    match target {
        PartitionTarget::Header => match seek_header_partition(reader) {
            Ok(_) => Ok(()),
            Err(e) => Err(MxfFragmentError::Mxf(e)),
        },
        PartitionTarget::Footer => match seek_footer_partition(reader) {
            Ok(_) => Ok(()),
            Err(e) => Err(MxfFragmentError::Mxf(e)),
        },
        PartitionTarget::Auto => {
            let start = reader.position();
            let footer_ok = match seek_footer_partition(reader) {
                Ok(_) => footer_has_metadata(reader),
                Err(_) => false,
            };
            if !footer_ok {
                reader.seek_start(start);
                match seek_header_partition(reader) {
                    Ok(_) => {},
                    Err(e) => return Err(MxfFragmentError::Mxf(e)),
                }
            }
            Ok(())
        },
    }
}

// ── Reading the header metadata ─────────────────────────────────────────────

/// Why reading header metadata stopped, as values.
pub enum ReadError {
    Klv(Seq<char>),
    Mxf(MxfError),
    MissingPartitionPack,
    MissingPrimerPack,
}

/// Whether `e` is the error `v` describes.
pub open spec fn read_error_is(e: MxfFragmentError, v: ReadError) -> bool {
    match v {
        ReadError::Klv(m) => e matches MxfFragmentError::Klv(x) && x@ == m,
        ReadError::Mxf(x) => e == MxfFragmentError::Mxf(x),
        ReadError::MissingPartitionPack => e is MissingPartitionPack,
        ReadError::MissingPrimerPack => e is MissingPrimerPack,
    }
}

/// The primer pack among the next `k` triplets from `pos` (fill items and
/// other triplets skipped): its local tag register and the position after it.
pub open spec fn primer_search(data: Seq<u8>, pos: int, k: nat) -> Result<(Map<u16, Seq<u8>>, int), ReadError>
    decreases k,
{
    if k == 0 {
        Err(ReadError::MissingPrimerPack)
    } else {
        match spec_next_triplet(data, pos, DEFAULT_MAX_VALUE_LEN) {
            Err(e) => Err(ReadError::Klv(klv_error_text(e))),
            Ok(None) => Err(ReadError::MissingPrimerPack),
            Ok(Some((key, len, after))) => {
                let v = data.subrange(after - len, after);
                if key[0] >= 128 || is_fill_key(choose|a: Auid| auid_of_bytes(key, a)) {
                    primer_search(data, after, (k - 1) as nat)
                } else {
                    match spec_primer(key, v) {
                        Err(e) => Err(ReadError::Mxf(e)),
                        Ok(None) => primer_search(data, after, (k - 1) as nat),
                        Ok(Some(m)) => Ok((m, after)),
                    }
                }
            },
        }
    }
}

proof fn lemma_key_auid(key: Seq<u8>, a: Auid)
    requires
        auid_of_bytes(key, a),
    ensures
        (choose|x: Auid| auid_of_bytes(key, x)) == a,
        key[0] < 128 <==> a is Ul,
{
    crate::types::auid::lemma_auid_of_bytes_unique(key, a);
}

/// Find the primer pack within the next 32 triplets.
fn find_primer_pack(reader: &mut MemReader) -> (r: Result<PrimerPack, MxfFragmentError>)
    requires
        old(reader).data@.len() <= i64::MAX,
    ensures
        final(reader).data == old(reader).data,
        match primer_search(old(reader).data@, old(reader).pos as int, 32) {
            Ok((m, after)) => (r matches Ok(p) && register_matches(p.local_tag_register@, m)) && final(reader).pos == after,
            Err(e) => (r matches Err(x) && read_error_is(x, e)),
        },
{
    let ghost data = reader.data@;
    let mut k: u32 = 32;
    while k > 0
        invariant
            reader.data@ == data,
            reader.data == old(reader).data,
            data.len() <= i64::MAX,
            primer_search(data, old(reader).pos as int, 32) == primer_search(data, reader.pos as int, k as nat),
        decreases k,
    {
        if reader.position() > reader.len() {
            proof {
                assert(spec_next_triplet(data, reader.pos as int, DEFAULT_MAX_VALUE_LEN) == Ok::<Option<(Seq<u8>, u64, int)>, KlvError>(None));
            }
            return Err(MxfFragmentError::MissingPrimerPack);
        }
        let t = match read_one_triplet(reader) {
            Err(e) => return Err(MxfFragmentError::Klv(e.to_string())),
            Ok(None) => return Err(MxfFragmentError::MissingPrimerPack),
            Ok(Some(t)) => t,
        };
        if !is_fill_item(&t) {
            match PrimerPack::from_triplet(&t) {
                Err(e) => return Err(MxfFragmentError::Mxf(e)),
                Ok(Some(p)) => return Ok(p),
                Ok(None) => {},
            }
        }
        k = k - 1;
    }
    Err(MxfFragmentError::MissingPrimerPack)
}

/// A local set as values: its key and its items.
pub type SetView = (Auid, Seq<(Auid, Seq<u8>)>);

pub open spec fn set_view(s: LocalSet) -> SetView {
    (s.key, items_view(s.items@))
}

/// Index Table Segment key.
pub open spec fn index_table_key() -> Seq<u8> {
    seq![0x06u8, 0x0E, 0x2B, 0x34, 0x02, 0x53, 0x01, 0x01, 0x0D, 0x01, 0x02, 0x01, 0x01, 0x10, 0x01, 0x00]
}

/// Whether a key is the Index Table Segment key, whatever its version byte.
pub open spec fn is_index_key(key: Seq<u8>) -> bool {
    key[0] < 128 && (key == index_table_key() || equal_under_mask(key, index_table_key(), 0xFEFF))
}

/// The local sets of the triplets from `pos`: fill items, partition packs
/// and triplets that are not local sets skipped; stopping at the end, at an
/// index table segment, or once `hbc` (when not zero) bytes were read, each
/// triplet counting as 16 key bytes, 4 length bytes and its value.
pub open spec fn sets_from(data: Seq<u8>, pos: int, reg: Map<u16, Ul>, hbc: u64, read: nat) -> Result<Seq<SetView>, ReadError>
    decreases data.len() - pos when 0 <= pos && data.len() <= u64::MAX
{
    if hbc > 0 && read >= hbc {
        Ok(Seq::empty())
    } else {
        match spec_next_triplet(data, pos, DEFAULT_MAX_VALUE_LEN) {
            Err(e) => Err(ReadError::Klv(klv_error_text(e))),
            Ok(None) => Ok(Seq::empty()),
            Ok(Some((key, len, after))) => if is_index_key(key) {
                Ok(Seq::empty())
            } else {
                proof {
                    lemma_next_triplet_bounds(data, pos, DEFAULT_MAX_VALUE_LEN);
                }
                let v = data.subrange(after - len, after);
                let a = choose|a: Auid| auid_of_bytes(key, a);
                let rest = sets_from(data, after, reg, hbc, (read + 20 + len) as nat);
                if is_fill_key(a) || (key[0] < 128 && equal_under_mask(key, pp_key(), 0xFEE0)) {
                    rest
                } else {
                    match spec_local_items(v, 0, reg) {
                        Ok(items) => match rest {
                            Ok(r) => Ok(seq![(a, ul_items_view(items))] + r),
                            Err(e) => Err(e),
                        },
                        Err(_) => rest,
                    }
                }
            },
        }
    }
}

fn index_key_bytes() -> (r: [u8; 16])
    ensures
        r@ == index_table_key(),
{
    let r = [0x06u8, 0x0E, 0x2B, 0x34, 0x02, 0x53, 0x01, 0x01, 0x0D, 0x01, 0x02, 0x01, 0x01, 0x10, 0x01, 0x00];
    proof {
        assert(r@ =~= index_table_key());
    }
    r
}

/// Collect the local sets of the header metadata from the read position on
/// (see [`sets_from`]).
#[verifier::rlimit(40)]
fn collect_local_sets(reader: &mut MemReader, primer: &PrimerPack, header_byte_count: u64) -> (r: Result<Vec<LocalSet>, MxfFragmentError>)
    requires
        old(reader).data@.len() <= i64::MAX,
    ensures
        final(reader).data == old(reader).data,
        match sets_from(old(reader).data@, old(reader).pos as int, primer.local_tag_register@, header_byte_count, 0) {
            Ok(ss) => (r matches Ok(v) && v@.map_values(|s: LocalSet| set_view(s)) == ss),
            Err(e) => (r matches Err(x) && read_error_is(x, e)),
        },
{
    let ghost data = reader.data@;
    let ghost reg = primer.local_tag_register@;
    let ghost p0 = reader.pos as int;
    let index_key = Ul::from_bytes(index_key_bytes());
    let mut sets: Vec<LocalSet> = Vec::new();
    let mut bytes_read: u64 = 0;
    if reader.position() > reader.len() {
        proof {
            assert(spec_next_triplet(data, p0, DEFAULT_MAX_VALUE_LEN) == Ok::<Option<(Seq<u8>, u64, int)>, KlvError>(None));
            assert(sets@.map_values(|s: LocalSet| set_view(s)) =~= Seq::<SetView>::empty());
        }
        return Ok(sets);
    }
    proof {
        assert(sets@.map_values(|s: LocalSet| set_view(s)) =~= Seq::<SetView>::empty());
        assert(Seq::<SetView>::empty() + Seq::<SetView>::empty() =~= Seq::<SetView>::empty());
    }
    loop
        invariant
            reader.data@ == data,
            reader.data == old(reader).data,
            data.len() <= i64::MAX,
            p0 == old(reader).pos,
            index_key@ == index_table_key(),
            p0 <= reader.pos <= data.len(),
            bytes_read <= 2 * (reader.pos - p0),
            reg == primer.local_tag_register@,
            sets_from(data, p0, reg, header_byte_count, 0) == match sets_from(data, reader.pos as int, reg, header_byte_count, bytes_read as nat) {
                Ok(rest) => Ok(sets@.map_values(|s: LocalSet| set_view(s)) + rest),
                Err(e) => Err::<Seq<SetView>, ReadError>(e),
            },
        decreases data.len() - reader.pos,
    {
        let ghost pos = reader.pos as int;
        let ghost acc = sets@.map_values(|s: LocalSet| set_view(s));
        if header_byte_count > 0 && bytes_read >= header_byte_count {
            proof {
                assert(acc + Seq::<SetView>::empty() =~= acc);
            }
            return Ok(sets);
        }
        let t = match read_one_triplet(reader) {
            Err(e) => return Err(MxfFragmentError::Klv(e.to_string())),
            Ok(None) => {
                proof {
                    assert(acc + Seq::<SetView>::empty() =~= acc);
                }
                return Ok(sets);
            },
            Ok(Some(t)) => t,
        };
        let ghost found = spec_next_triplet(data, pos, DEFAULT_MAX_VALUE_LEN)->Ok_0->0;
        let ghost key = found.0;
        let ghost len = found.1;
        let ghost after = found.2;
        proof {
            lemma_key_auid(key, t.key);
            lemma_next_triplet_bounds(data, pos, DEFAULT_MAX_VALUE_LEN);
        }
        let is_index = match t.key.as_ul() {
            Some(ul) => crate::types::auid::bytes16_eq(&ul.0, &index_key.0) || ul.equals_with_mask(&index_key, 0xFEFF),
            None => false,
        };
        proof {
            broadcast use vstd::array::group_array_axioms;
            if let Auid::Ul(u) = t.key {
                assert(u@ == key);
                if u@ == index_table_key() {
                    assert forall|i: int| 0 <= i < 16 implies u.0[i] == index_key.0[i] by {
                        assert(u.0@[i] == index_key.0@[i]);
                    }
                    assert(u.0 =~= index_key.0);
                }
                if u.0 == index_key.0 {
                    assert(u@ =~= index_table_key());
                }
            }
            assert(is_index == is_index_key(key));
        }
        if is_index {
            proof {
                assert(acc + Seq::<SetView>::empty() =~= acc);
            }
            return Ok(sets);
        }
        bytes_read = bytes_read + 16 + t.value.len() as u64 + 4;
        if is_fill_item(&t) {
        } else if match t.key.as_ul() {
            Some(ul) => is_partition_pack_key(ul),
            None => false,
        } {
        } else {
            match LocalSet::from_triplet(&t, &primer.local_tag_register) {
                Ok(set) => {
                    let ghost sv = set_view(set);
                    sets.push(set);
                    proof {
                        assert(sets@.map_values(|s: LocalSet| set_view(s)) =~= acc.push(sv));
                        let rest = sets_from(data, reader.pos as int, reg, header_byte_count, bytes_read as nat);
                        if let Ok(rr) = rest {
                            assert(acc + (seq![sv] + rr) =~= acc.push(sv) + rr);
                        }
                    }
                },
                Err(_) => {},
            }
        }
    }
}


/// The tag register whose ULs have, tag by tag, the bytes that `m` gives.
pub open spec fn ul_register(m: Map<u16, Seq<u8>>) -> Map<u16, Ul> {
    Map::new(|t: u16| m.contains_key(t), |t: u16| choose|u: Ul| u@ == m[t])
}

/// A register is determined by the bytes of its ULs.
proof fn lemma_register_matches(reg: Map<u16, Ul>, m: Map<u16, Seq<u8>>)
    requires
        register_matches(reg, m),
    ensures
        reg == ul_register(m),
{
    broadcast use vstd::array::group_array_axioms;

    assert forall|t: u16| #[trigger] reg.contains_key(t) implies reg[t] == ul_register(m)[t] by {
        let u = choose|u: Ul| u@ == m[t];
        assert(reg[t]@ == m[t]);
        assert(u@ == m[t]);
        assert(u.0 =~= reg[t].0);
    }
    assert(reg =~= ul_register(m));
}

/// What the partition whose pack is at `pos` holds: the register of its
/// primer pack (tag → UL bytes) and its local sets. The pack must be a
/// partition pack; the primer pack is looked for among the 32 triplets that
/// follow; the sets are read up to the pack's header byte count.
pub open spec fn partition_metadata(data: Seq<u8>, pos: int) -> Result<(Map<u16, Seq<u8>>, Seq<SetView>), ReadError> {
    match spec_next_triplet(data, pos, DEFAULT_MAX_VALUE_LEN) {
        Err(e) => Err(ReadError::Klv(klv_error_text(e))),
        Ok(None) => Err(ReadError::MissingPartitionPack),
        Ok(Some((key, len, after))) => {
            let v = data.subrange(after - len, after);
            if key[0] >= 128 {
                Err(ReadError::MissingPartitionPack)
            } else {
                match spec_pp_outcome(key, v) {
                    Err(e) => Err(ReadError::Mxf(e)),
                    Ok(false) => Err(ReadError::MissingPartitionPack),
                    Ok(true) => match primer_search(data, after, 32) {
                        Err(e) => Err(e),
                        Ok((m, p)) => match sets_from(data, p, ul_register(m), be_at(v, 32, 8) as u64, 0) {
                            Ok(ss) => Ok((m, ss)),
                            Err(e) => Err(e),
                        },
                    },
                }
            }
        },
    }
}

/// Read the partition pack, the primer pack and the local sets from the
/// read position on (see [`partition_metadata`]).
fn extract_partition_metadata(reader: &mut MemReader) -> (r: Result<(PrimerPack, Vec<LocalSet>), MxfFragmentError>)
    requires
        old(reader).data@.len() <= i64::MAX,
    ensures
        final(reader).data == old(reader).data,
        match partition_metadata(old(reader).data@, old(reader).pos as int) {
            Ok((m, ss)) => (r matches Ok((p, sets)) && register_matches(p.local_tag_register@, m)
                && sets@.map_values(|s: LocalSet| set_view(s)) == ss),
            Err(e) => (r matches Err(x) && read_error_is(x, e)),
        },
{
    let ghost data = reader.data@;
    let ghost pos = reader.pos as int;
    if reader.position() > reader.len() {
        return Err(MxfFragmentError::MissingPartitionPack);
    }
    let pp_triplet = match read_one_triplet(reader) {
        Err(e) => return Err(MxfFragmentError::Klv(e.to_string())),
        Ok(None) => return Err(MxfFragmentError::MissingPartitionPack),
        Ok(Some(t)) => t,
    };
    proof {
        let found = spec_next_triplet(data, pos, DEFAULT_MAX_VALUE_LEN)->Ok_0->0;
        lemma_key_auid(found.0, pp_triplet.key);
    }
    let pp = match PartitionPack::from_triplet(&pp_triplet) {
        Err(e) => return Err(MxfFragmentError::Mxf(e)),
        Ok(None) => return Err(MxfFragmentError::MissingPartitionPack),
        Ok(Some(pp)) => pp,
    };
    let primer = match find_primer_pack(reader) {
        Err(e) => return Err(e),
        Ok(p) => p,
    };
    proof {
        let pp_found = spec_next_triplet(data, pos, DEFAULT_MAX_VALUE_LEN)->Ok_0->0;
        let found = primer_search(data, pp_found.2, 32)->Ok_0;
        lemma_register_matches(primer.local_tag_register@, found.0);
    }
    let sets = match collect_local_sets(reader, &primer, pp.header_byte_count) {
        Err(e) => return Err(e),
        Ok(s) => s,
    };
    Ok((primer, sets))
}

// ── Writing RegXML ──────────────────────────────────────────────────────────

/// Preface class key: `060e2b34.02530101.0d010101.01012f00`.
pub open spec fn preface_ul() -> Seq<u8> {
    seq![0x06u8, 0x0E, 0x2B, 0x34, 0x02, 0x53, 0x01, 0x01, 0x0D, 0x01, 0x01, 0x01, 0x01, 0x01, 0x2F, 0x00]
}

/// A UL equal to the Preface key but for the version byte.
pub open spec fn is_preface(k: Auid) -> bool {
    k matches Auid::Ul(u) && equal_under_mask(u@, preface_ul(), 0xFEFF)
}

pub open spec fn preface_pred() -> spec_fn(Auid) -> bool {
    |k: Auid| is_preface(k)
}

/// The keys of local sets given as values.
pub open spec fn view_keys(ss: Seq<SetView>) -> Seq<Auid> {
    ss.map_values(|v: SetView| v.0)
}

/// The position of the set that `mode` makes the root.
pub open spec fn root_index<R: DefinitionResolver>(r: &R, keys: Seq<Auid>, mode: RootMode) -> Option<int> {
    match mode {
        RootMode::Preface => first_match(keys, preface_pred()),
        RootMode::EssenceDescriptor => essence_descriptor_index(r, keys),
    }
}

/// The value of the first InstanceUID item.
pub open spec fn first_uid_value(items: Seq<(Auid, Seq<u8>)>) -> Option<Seq<u8>>
    decreases items.len(),
{
    if items.len() == 0 {
        None
    } else if is_ul(items[0].0, instance_uid_ul()) {
        Some(items[0].1)
    } else {
        first_uid_value(items.drop_first())
    }
}

/// The instance UID of a set: its first InstanceUID item, where that holds
/// 16 bytes.
pub open spec fn set_uid(s: SetView) -> Option<Auid> {
    match first_uid_value(s.1) {
        Some(v) => if v.len() == 16 {
            Some(bytes_auid(v))
        } else {
            None
        },
        None => None,
    }
}

/// The sets by instance UID; of two sets with one UID the later is kept.
pub open spec fn uid_index(ss: Seq<SetView>) -> Map<Auid, SetView>
    decreases ss.len(),
{
    if ss.len() == 0 {
        Map::empty()
    } else {
        let m = uid_index(ss.drop_last());
        match set_uid(ss.last()) {
            Some(u) => m.insert(u, ss.last()),
            None => m,
        }
    }
}

/// An error of the fragment builder.
pub open spec fn fragment_error(res: Result<Vec<XmlEvent>, MxfFragmentError>) -> bool {
    res matches Err(MxfFragmentError::Fragment(_))
}

/// The fragment builder's error that a handler's abort makes.
pub open spec fn fatal_error(res: Result<Vec<XmlEvent>, MxfFragmentError>) -> bool {
    res matches Err(MxfFragmentError::Fragment(FragmentError::Fatal(_)))
}

/// What holds of the RegXML written for local sets `ss`: without a root
/// object, `MissingRootObject`; else an XML declaration followed by
/// well-nested events: the root's element (see [`group_element`]), or
/// nothing more where the root's key names no class. The only errors are
/// the fragment's: a handler's abort (`Fatal`), or values nested deeper than
/// [`MAX_NESTING`] levels (see [`group_fits`]); without a handler, the
/// conversion succeeds exactly where the root fits.
pub open spec fn regxml_outcome<R: DefinitionResolver>(
    r: &R,
    ss: Seq<SetView>,
    mode: RootMode,
    has_handler: bool,
    names: spec_fn(Auid) -> Option<Seq<char>>,
    res: Result<Vec<XmlEvent>, MxfFragmentError>,
) -> bool {
    match root_index(r, view_keys(ss), mode) {
        None => res matches Err(MxfFragmentError::MissingRootObject),
        Some(i) => {
            &&& res is Ok ==> extends_balanced(seq![XmlEvent::Decl], res->Ok_0@)
            &&& res is Err ==> fragment_error(res)
            &&& !has_handler ==> !fatal_error(res)
            &&& class_of_key(r, ss[i].0) is None ==> (res is Ok ==> res->Ok_0@ == seq![XmlEvent::Decl])
            &&& class_of_key(r, ss[i].0) is None && !has_handler ==> res is Ok
            &&& res is Ok ==> group_fits(r, uid_index(ss), ss[i].0, ss[i].1, Seq::<Auid>::empty(), MAX_NESTING as nat)
            &&& group_fits(r, uid_index(ss), ss[i].0, ss[i].1, Seq::<Auid>::empty(), MAX_NESTING as nat)
                ==> (res is Ok || fatal_error(res))
            &&& !has_handler && group_fits(r, uid_index(ss), ss[i].0, ss[i].1, Seq::<Auid>::empty(), MAX_NESTING as nat)
                ==> res is Ok
            &&& res is Ok ==> match class_of_key(r, ss[i].0) {
                Some(c) => group_element(
                    r,
                    uid_index(ss),
                    Seq::<Auid>::empty(),
                    names,
                    produced(seq![XmlEvent::Decl], res->Ok_0@),
                    seq![(REGXML_NS@, REG_PREFIX@)],
                    c,
                    ss[i].1,
                    MAX_NESTING as nat,
                ),
                None => true,
            }
        },
    }
}

fn preface_key() -> (r: Ul)
    ensures
        r@ == preface_ul(),
{
    let b = [0x06u8, 0x0E, 0x2B, 0x34, 0x02, 0x53, 0x01, 0x01, 0x0D, 0x01, 0x01, 0x01, 0x01, 0x01, 0x2F, 0x00];
    proof {
        assert(b@ =~= preface_ul());
    }
    Ul::from_bytes(b)
}

fn instance_uid_key() -> (r: [u8; 16])
    ensures
        r@ == instance_uid_ul(),
{
    let r = [0x06u8, 0x0E, 0x2B, 0x34, 0x01, 0x01, 0x01, 0x01, 0x01, 0x01, 0x15, 0x02, 0x00, 0x00, 0x00, 0x00];
    proof {
        assert(r@ =~= instance_uid_ul());
    }
    r
}

/// The position of the first Preface set.
fn find_preface(all_sets: &Vec<LocalSet>) -> (r: Option<usize>)
    ensures
        match first_match(set_keys(all_sets@), preface_pred()) {
            Some(i) => 0 <= i < all_sets@.len() && r == Some(i as usize),
            None => r is None,
        },
        r matches Some(i) ==> i < all_sets@.len(),
{
    let ghost keys = set_keys(all_sets@);
    let key = preface_key();
    let mut i: usize = 0;
    while i < all_sets.len()
        invariant
            i <= all_sets@.len(),
            keys == set_keys(all_sets@),
            key@ == preface_ul(),
            forall|j: int| 0 <= j < i ==> !is_preface(#[trigger] keys[j]),
        decreases all_sets.len() - i,
    {
        proof {
            assert(keys[i as int] == all_sets@[i as int].key);
        }
        if let Some(ul) = all_sets[i].key.as_ul() {
            if ul.equals_with_mask(&key, 0xFEFF) {
                proof {
                    assert(preface_pred()(keys[i as int]));
                    lemma_first_match(keys, preface_pred());
                    match first_match(keys, preface_pred()) {
                        Some(i0) => {
                            if i0 < i {
                                assert(!is_preface(keys[i0]));
                            }
                        },
                        None => {},
                    }
                }
                return Some(i);
            }
        }
        i = i + 1;
    }
    proof {
        lemma_first_match(keys, preface_pred());
        assert forall|j: int| 0 <= j < keys.len() implies !preface_pred()(#[trigger] keys[j]) by {}
    }
    None
}

/// A copy of a local set.
fn copy_set(s: &LocalSet) -> (r: LocalSet)
    ensures
        set_view(r) == set_view(*s),
{
    let mut items: Vec<MemoryTriplet> = Vec::new();
    let mut i: usize = 0;
    while i < s.items.len()
        invariant
            i <= s.items@.len(),
            items@.len() == i,
            forall|j: int| 0 <= j < i ==> #[trigger] items@[j].key == s.items@[j].key && items@[j].value@
                == s.items@[j].value@,
        decreases s.items.len() - i,
    {
        items.push(MemoryTriplet::new(s.items[i].key, copy_bytes(&s.items[i].value)));
        i = i + 1;
    }
    let r = LocalSet { key: s.key, items };
    proof {
        assert(items_view(r.items@) =~= items_view(s.items@));
    }
    r
}

/// The instance UID of a set (see [`set_uid`]).
fn instance_uid_of(s: &LocalSet) -> (r: Option<Auid>)
    ensures
        r == set_uid(set_view(*s)),
{
    let key = instance_uid_key();
    let ghost iv = items_view(s.items@);
    proof {
        assert(iv.skip(0) =~= iv);
    }
    let mut i: usize = 0;
    while i < s.items.len()
        invariant
            i <= s.items@.len(),
            iv == items_view(s.items@),
            key@ == instance_uid_ul(),
            first_uid_value(iv) == first_uid_value(iv.skip(i as int)),
        decreases s.items.len() - i,
    {
        let item = &s.items[i];
        proof {
            assert(iv.skip(i as int).drop_first() =~= iv.skip(i as int + 1));
            assert(iv.skip(i as int)[0] == (item.key, item.value@));
        }
        if super::fragment::auid_is_ul(&item.key, &key) {
            if item.value.len() == 16 {
                let b = crate::klv::triplet::array16(&item.value);
                let a = Auid::from_bytes(b);
                proof {
                    lemma_auid_of_bytes_unique(item.value@, a);
                }
                return Some(a);
            }
            return None;
        }
        i = i + 1;
    }
    proof {
        assert(iv.skip(i as int) =~= Seq::<(Auid, Seq<u8>)>::empty());
    }
    None
}

/// Convert the local sets to RegXML: pick the root, index the sets by
/// instance UID and build the root's fragment after an XML declaration.
fn write_regxml<R: DefinitionResolver>(all_sets: &Vec<LocalSet>, dictionaries: &R, options: MxfFragmentOptions) -> (r:
    Result<Vec<XmlEvent>, MxfFragmentError>)
    requires
        classes_acyclic(dictionaries),
    ensures
        regxml_outcome(
            dictionaries,
            all_sets@.map_values(|s: LocalSet| set_view(s)),
            options.root_mode,
            options.event_handler is Some,
            namer_names(&options.auid_namer),
            r,
        ),
{
    let ghost ss = all_sets@.map_values(|s: LocalSet| set_view(s));
    proof {
        assert(view_keys(ss) =~= set_keys(all_sets@));
    }
    let found = match options.root_mode {
        RootMode::Preface => find_preface(all_sets),
        RootMode::EssenceDescriptor => find_essence_descriptor(all_sets, dictionaries),
    };

    let idx = match found {
        Some(i) => i,
        None => return Err(MxfFragmentError::MissingRootObject),
    };
    let ghost has_handler = options.event_handler is Some;
    let ghost names = namer_names(&options.auid_namer);
    let n_sets = all_sets.len();
    assert(n_sets == all_sets@.len());
    assert(root_index(dictionaries, view_keys(ss), options.root_mode) == Some(idx as int));
    let mut builder = FragmentBuilder::new(dictionaries);
    if let Some(h) = options.event_handler {
        builder = builder.with_event_handler(h);
    }
    builder = builder.with_namer_option(options.auid_namer);
    let mut i: usize = 0;
    while i < all_sets.len()
        invariant
            i <= all_sets@.len(),
            ss == all_sets@.map_values(|s: LocalSet| set_view(s)),
            builder.wf(),
            builder.resolver() == dictionaries,
            builder.has_handler() == has_handler,
            builder.names() == names,
            builder.prefixes() == seq![(REGXML_NS@, REG_PREFIX@)],
            builder.sets().dom() == uid_index(ss.take(i as int)).dom(),
            forall|u: Auid| #[trigger] builder.sets().contains_key(u) ==> set_view(builder.sets()[u])
                == uid_index(ss.take(i as int))[u],
        decreases all_sets.len() - i,
    {
        let uid = instance_uid_of(&all_sets[i]);
        proof {
            assert(ss.take(i as int + 1).drop_last() =~= ss.take(i as int));
            assert(ss.take(i as int + 1).last() == set_view(all_sets@[i as int]));
        }
        if let Some(u) = uid {
            builder.add_set(u, copy_set(&all_sets[i]));
        }
        i = i + 1;
    }
    proof {
        assert(ss.take(i as int) =~= ss);
        assert(sets_view(builder.sets()) =~= uid_index(ss)) by {
            assert forall|u: Auid| #[trigger] builder.sets().contains_key(u) implies sets_view(builder.sets())[u] == uid_index(ss)[u] by {
                assert(set_view(builder.sets()[u]) == uid_index(ss)[u]);
            }
        }
    }
    let root = copy_set(&all_sets[idx]);
    let mut out: Vec<XmlEvent> = Vec::new();
    out.push(XmlEvent::Decl);
    proof {
        assert(root.key == ss[idx as int].0);
        assert(out@ == seq![XmlEvent::Decl]);
    }
    let r = match builder.from_triplet(&root, &mut out) {
        Ok(()) => Ok(out),
        Err(e) => Err(MxfFragmentError::Fragment(e)),
    };
    assert(r is Ok ==> extends_balanced(seq![XmlEvent::Decl], r->Ok_0@));
    assert(r is Err ==> fragment_error(r));
    assert(!has_handler ==> !fatal_error(r));
    assert(class_of_key(dictionaries, ss[idx as int].0) is None ==> (r is Ok ==> r->Ok_0@ == seq![XmlEvent::Decl]));
    r
}

/// Orchestrates a complete MXF → RegXML conversion pipeline.
pub struct MxfFragmentBuilder;

impl MxfFragmentBuilder {
    /// Read MXF from `reader` and convert its header metadata to RegXML
    /// events using `dictionaries`: seek to the partition that the options
    /// select, read its primer pack and local sets, and build the fragment
    /// of the root object.
    pub fn from_reader<R: DefinitionResolver>(
        reader: &mut MemReader,
        dictionaries: &R,
        options: MxfFragmentOptions,
    ) -> (r: Result<Vec<XmlEvent>, MxfFragmentError>)
        requires
            old(reader).data@.len() <= i64::MAX,
            classes_acyclic(dictionaries),
        ensures
            final(reader).data == old(reader).data,
            match partition_offset(old(reader).data@, options.partition) {
                Err(e) => (r matches Err(MxfFragmentError::Mxf(x)) && x == e),
                Ok(o) => match partition_metadata(old(reader).data@, o as int) {
                    Err(e) => (r matches Err(x) && read_error_is(x, e)),
                    Ok((m, ss)) => regxml_outcome(
                        dictionaries,
                        ss,
                        options.root_mode,
                        options.event_handler is Some,
                        namer_names(&options.auid_namer),
                        r,
                    ),
                },
            },
    {
        match seek_to_partition(reader, options.partition) {
            Ok(()) => {},
            Err(e) => return Err(e),
        }
        let (_primer, all_sets) = match extract_partition_metadata(reader) {
            Ok(v) => v,
            Err(e) => return Err(e),
        };
        write_regxml(&all_sets, dictionaries, options)
    }
}

} // verus!
