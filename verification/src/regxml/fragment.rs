//! Converting KLV local sets (MXF header metadata groups) into RegXML
//! fragments (SMPTE ST 2001-1 Rules 3–5).
use vstd::prelude::*;

use super::error::FragmentError;
use super::event::{EventCode, EventHandler, EventHandlerDecision, EventSeverity, EventView, FragmentEvent};
use super::values::{
    auid_value_text, byte_order_name, date_value_text, decode_byte_order, enumeration_value_text,
    format_umid_bytes, format_uuid_bytes, hex_bytes, hex_bytes_compact, integer_value_text,
    package_id_value_text, rational_value_text, read_characters_ascii, read_characters_utf16be,
    read_characters_utf16le, read_characters_utf8, time_value_text, timestamp_value_text,
    uuid_value_text, version_value_text, array16, slice_of, enumeration_text, hex_spaced,
    integer_text, ascii_chars, auid_text, uuid_urn, umid_urn, date_text, escape_text, package_id_text, rational_text, time_text,
    timestamp_text, utf16_text, utf8_chars, uuid_text, version_text,
};
use crate::dict::assoc::{assoc_map, keys_unique, lemma_assoc_absent, lemma_assoc_first, lemma_assoc_push, lemma_assoc_update};
use crate::dict::definition::{
    ClassDefinition, ClassView, Definition, DefinitionView, PropertyDefinition, PropertyView,
    TypeDefView, TypeDefinition, def_common, enum_elements_view, record_members_view, type_common,
};
use crate::dict::labels::LabelsRegister;
use crate::dict::meta_dictionary::MetaDictionary;
use crate::dict::resolver::DefinitionResolver;
use crate::klv::local_set::{items_view, LocalSet};
use crate::klv::reader::be_value;
use crate::klv::triplet::MemoryTriplet;
use crate::text::{append_str, decimal, hex_compact, push_decimal, push_lit, signed_decimal, str_eq, string_of};
use crate::types::auid::{
    auid_key, auid_of_key, bytes_auid, lemma_auid_key, lemma_auid_of_bytes_unique, spec_auid_urn, Auid,
};
use crate::types::ul::Ul;
use crate::xml::writer::{attrs_view, event_tuple, events_view, no_floats, EventTuple, XmlEvent};

verus! {

/// RegXML baseline namespace (SMPTE ST 2001-1).
pub const REGXML_NS: &'static str = "http://www.smpte-ra.org/schemas/2001-1b/2013/baseline";

pub const REG_PREFIX: &'static str = "reg";

/// How many levels of groups and values the builder writes, one inside
/// another, before it gives up with "values nested too deeply" (see
/// [`group_fits`] for exactly which inputs reach it). Each level is a call
/// on the stack, so the limit lies far beyond any depth that the stack
/// holds: the writer nests values as deep as the input does, and only a
/// cycle of references between sets that hold no instance UID, or of type
/// definitions, goes on until the stack runs out.
pub const MAX_NESTING: u32 = 0xFFFF_FFFF;

// ── Well-known labels ───────────────────────────────────────────────────────

/// A SMPTE UL `06 0e 2b 34`, eight given bytes, then four zero bytes.
pub open spec fn smpte_ul(b: Seq<u8>) -> Seq<u8> {
    seq![0x06u8, 0x0e, 0x2b, 0x34] + b + seq![0u8, 0, 0, 0]
}

fn make_ul(b4: u8, b5: u8, b6: u8, b7: u8, b8: u8, b9: u8, b10: u8, b11: u8) -> (r: [u8; 16])
    ensures
        r@ == smpte_ul(seq![b4, b5, b6, b7, b8, b9, b10, b11]),
{
    let r = [0x06u8, 0x0e, 0x2b, 0x34, b4, b5, b6, b7, b8, b9, b10, b11, 0, 0, 0, 0];
    proof {
        assert(r@ =~= smpte_ul(seq![b4, b5, b6, b7, b8, b9, b10, b11]));
    }
    r
}

/// InstanceID property (SMPTE ST 335 §8.1).
pub open spec fn instance_uid_ul() -> Seq<u8> {
    smpte_ul(seq![1u8, 1, 1, 1, 1, 1, 0x15, 2])
}

/// ByteOrder property.
pub open spec fn byte_order_ul() -> Seq<u8> {
    smpte_ul(seq![1u8, 1, 1, 1, 3, 1, 2, 1]).update(12, 2)
}

/// LinkedGenerationID, GenerationID and ApplicationProductID: UUID-valued
/// properties written as `urn:uuid:` text.
pub open spec fn uuid_override_ul(b12: u8) -> Seq<u8> {
    smpte_ul(seq![1u8, 1, 1, 2, 5, 0x20, 7, 1]).update(12, b12)
}

/// Type labels with a dedicated text form.
pub open spec fn type_ul(b8: u8, b9: u8, b10: u8) -> Seq<u8> {
    smpte_ul(seq![1u8, 4, 1, 1, b8, b9, b10, 0])
}

/// Whether `a` is the UL with bytes `b`.
pub open spec fn is_ul(a: Auid, b: Seq<u8>) -> bool {
    a matches Auid::Ul(u) && u@ == b
}

fn uuid_override_key(b12: u8) -> (r: [u8; 16])
    ensures
        r@ == uuid_override_ul(b12),
{
    let r = [0x06u8, 0x0e, 0x2b, 0x34, 1, 1, 1, 2, 5, 0x20, 7, 1, b12, 0, 0, 0];
    proof {
        assert(r@ =~= uuid_override_ul(b12));
    }
    r
}

fn byte_order_key() -> (r: [u8; 16])
    ensures
        r@ == byte_order_ul(),
{
    let r = [0x06u8, 0x0e, 0x2b, 0x34, 1, 1, 1, 1, 3, 1, 2, 1, 2, 0, 0, 0];
    proof {
        assert(r@ =~= byte_order_ul());
    }
    r
}

pub(crate) fn auid_is_ul(a: &Auid, b: &[u8; 16]) -> (r: bool)
    ensures
        r == is_ul(*a, b@),
{
    match a {
        Auid::Ul(u) => {
            let e = crate::types::auid::bytes16_eq(&u.0, b);
            proof {
                broadcast use vstd::array::group_array_axioms;
                if u@ == b@ {
                    assert(u.0 =~= *b);
                }
            }
            e
        },
        Auid::Uuid(_) => false,
    }
}

// ── Keys ────────────────────────────────────────────────────────────────────

/// A UL with its version byte (byte 7) zeroed; a UUID unchanged.
pub open spec fn zero_version(a: Auid) -> Auid {
    match a {
        Auid::Ul(u) => auid_of_key((true, u@.update(7, 0))),
        Auid::Uuid(_) => a,
    }
}

/// Normalise a property AUID for version-agnostic lookup: SMPTE UL byte 7
/// is the version byte, which differs between MXF primers and the registers.
pub fn ul_zero_version(auid: Auid) -> (r: Auid)
    ensures
        r == zero_version(auid),
{
    match auid {
        Auid::Ul(ul) => {
            let mut bytes = ul.0;
            bytes.set(7, 0);
            let r = Auid::Ul(Ul(bytes));
            proof {
                lemma_auid_key(r);
                assert(bytes@ =~= ul@.update(7, 0));
            }
            r
        },
        other => other,
    }
}

/// A group key in the register's form: byte 5 set to `0x7f` where byte 4 is
/// `0x02` (a group key) and byte 5 is not `0x7f` already.
pub open spec fn normalized_key(a: Auid) -> Option<Auid> {
    match a {
        Auid::Ul(u) => if u@[4] == 0x02 && u@[5] != 0x7f {
            Some(auid_of_key((true, u@.update(5, 0x7f))))
        } else {
            None
        },
        Auid::Uuid(_) => None,
    }
}

/// Normalize a group key for dictionary lookup: MXF local set keys encode
/// the coding in byte 5 (`0x53` for two-byte tags and lengths) where the
/// Groups register has `0x7f`.
pub fn normalize_class_key(auid: &Auid) -> (r: Option<Auid>)
    ensures
        r == normalized_key(*auid),
{
    match auid {
        Auid::Ul(ul) => {
            let mut bytes = ul.0;
            if bytes[4] != 0x02 || bytes[5] == 0x7F {
                return None;
            }
            bytes.set(5, 0x7F);
            let r = Auid::Ul(Ul(bytes));
            proof {
                lemma_auid_key(r);
                assert(bytes@ =~= ul@.update(5, 0x7f));
            }
            Some(r)
        },
        Auid::Uuid(_) => None,
    }
}

/// The class that a group key names: looked up as it is, or, where it is
/// not known at all, in the register's form.
pub open spec fn class_of_key<R: DefinitionResolver>(r: &R, key: Auid) -> Option<ClassView> {
    match r.spec_definition(key) {
        Some(DefinitionView::Class(c)) => Some(c),
        Some(_) => None,
        None => match normalized_key(key) {
            Some(k) => match r.spec_definition(k) {
                Some(DefinitionView::Class(c)) => Some(c),
                _ => None,
            },
            None => None,
        },
    }
}

pub fn lookup_class<'a, R: DefinitionResolver>(r: &'a R, key: &Auid) -> (c: Option<&'a ClassDefinition>)
    ensures
        match class_of_key(r, *key) {
            Some(v) => (c matches Some(x) && x@ == v),
            None => c is None,
        },
{
    match r.get_definition(key) {
        Some(Definition::Class(c)) => Some(c),
        Some(_) => None,
        None => match normalize_class_key(key) {
            Some(k) => match r.get_definition(&k) {
                Some(Definition::Class(c)) => Some(c),
                _ => None,
            },
            None => None,
        },
    }
}

// ── Types ───────────────────────────────────────────────────────────────────

/// The type at the end of a Rename chain, following at most `n` renames.
pub open spec fn base_type<R: DefinitionResolver>(r: &R, td: TypeDefView, n: nat) -> TypeDefView
    decreases n,
{
    if n == 0 {
        td
    } else {
        match td {
            TypeDefView::Rename(_, a) => match r.spec_definition(a) {
                Some(DefinitionView::Type(b)) => base_type(r, b, (n - 1) as nat),
                _ => td,
            },
            _ => td,
        }
    }
}

/// Unwrap a Rename chain (at most 32 renames) to reach the base type.
pub fn find_base_definition<'a, R: DefinitionResolver>(r: &'a R, td: &'a TypeDefinition) -> (b: &'a TypeDefinition)
    ensures
        b@ == base_type(r, td@, 32),
{
    let mut current: &TypeDefinition = td;
    let mut i: u32 = 0;
    while i < 32
        invariant
            i <= 32,
            base_type(r, td@, 32) == base_type(r, current@, (32 - i) as nat),
        decreases 32 - i,
    {
        match current {
            TypeDefinition::Rename(rn) => match r.get_definition(&rn.renamed_type) {
                Some(Definition::Type(base)) => {
                    current = base;
                },
                _ => {
                    return current;
                },
            },
            _ => {
                return current;
            },
        }
        i = i + 1;
    }
    current
}

/// The fixed byte size of a type, or `None` for variable-size types (and
/// where the definitions nest more than `fuel` deep).
pub open spec fn type_size<R: DefinitionResolver>(r: &R, td: TypeDefView, fuel: nat) -> Option<nat>
    decreases fuel, 0nat,
{
    match td {
        TypeDefView::Integer(_, size, _) => Some(size as nat),
        TypeDefView::Float(_, size) => Some(size as nat),
        TypeDefView::Character(_) => Some(2),
        TypeDefView::StrongReference(..) => Some(16),
        TypeDefView::WeakReference(..) => Some(16),
        TypeDefView::Rename(_, a) => if fuel == 0 {
            None
        } else {
            match r.spec_definition(a) {
                Some(DefinitionView::Type(t)) => type_size(r, t, (fuel - 1) as nat),
                _ => None,
            }
        },
        TypeDefView::Record(_, ms) => if fuel == 0 {
            None
        } else {
            members_size(r, ms, (fuel - 1) as nat)
        },
        TypeDefView::FixedArray(_, a, n) => if fuel == 0 {
            None
        } else {
            match r.spec_definition(a) {
                Some(DefinitionView::Type(t)) => match type_size(r, t, (fuel - 1) as nat) {
                    Some(s) => Some(capped(s * (n as nat))),
                    None => None,
                },
                _ => None,
            }
        },
        TypeDefView::Enumeration(_, a, _) => if fuel == 0 {
            None
        } else {
            match r.spec_definition(a) {
                Some(DefinitionView::Type(t)) => type_size(r, t, (fuel - 1) as nat),
                _ => None,
            }
        },
        _ => None,
    }
}

/// The total size of record members, if each has a fixed size.
pub open spec fn members_size<R: DefinitionResolver>(r: &R, ms: Seq<(Seq<char>, Auid)>, fuel: nat) -> Option<nat>
    decreases fuel, ms.len(),
{
    if ms.len() == 0 {
        Some(0)
    } else {
        match members_size(r, ms.drop_last(), fuel) {
            None => None,
            Some(acc) => match r.spec_definition(ms.last().1) {
                Some(DefinitionView::Type(t)) => match type_size(r, t, fuel) {
                    Some(s) => Some(capped(acc + s)),
                    None => None,
                },
                _ => None,
            },
        }
    }
}

/// Sizes too large for a `usize` all count as `usize::MAX + 1`.
pub open spec fn capped(n: nat) -> nat {
    if n > usize::MAX + 1 {
        (usize::MAX + 1) as nat
    } else {
        n
    }
}

/// The fixed byte size of a type where it fits a `usize`, else `None`.
pub open spec fn size_fits(s: Option<nat>) -> Option<usize> {
    match s {
        Some(n) => if n <= usize::MAX {
            Some(n as usize)
        } else {
            None
        },
        None => None,
    }
}

proof fn lemma_type_size_bound<R: DefinitionResolver>(r: &R, td: TypeDefView, fuel: nat)
    ensures
        type_size(r, td, fuel) matches Some(n) ==> n <= usize::MAX + 1,
    decreases fuel, 0nat,
{
    match td {
        TypeDefView::Rename(_, a) => if fuel > 0 {
            if let Some(DefinitionView::Type(t)) = r.spec_definition(a) {
                lemma_type_size_bound(r, t, (fuel - 1) as nat);
            }
        },
        TypeDefView::Record(_, ms) => if fuel > 0 {
            lemma_members_size_bound(r, ms, (fuel - 1) as nat);
        },
        TypeDefView::Enumeration(_, a, _) => if fuel > 0 {
            if let Some(DefinitionView::Type(t)) = r.spec_definition(a) {
                lemma_type_size_bound(r, t, (fuel - 1) as nat);
            }
        },
        _ => {},
    }
}

proof fn lemma_members_size_bound<R: DefinitionResolver>(r: &R, ms: Seq<(Seq<char>, Auid)>, fuel: nat)
    ensures
        members_size(r, ms, fuel) matches Some(n) ==> n <= usize::MAX + 1,
    decreases fuel, ms.len(),
{
    if ms.len() > 0 {
        lemma_members_size_bound(r, ms.drop_last(), fuel);
    }
}

/// The fixed size of a type (capped as [`capped`] says), following at most
/// `fuel` nested definitions.
fn type_size_of<R: DefinitionResolver>(r: &R, td: &TypeDefinition, fuel: u32) -> (s: Option<u128>)
    ensures
        match type_size(r, td@, fuel as nat) {
            Some(n) => s == Some(n as u128),
            None => s is None,
        },
    decreases fuel,
{
    let cap: u128 = (usize::MAX as u128) + 1;
    match td {
        TypeDefinition::Integer(d) => Some(d.size as u128),
        TypeDefinition::Float(d) => Some(d.size as u128),
        TypeDefinition::Character(_) => Some(2),
        TypeDefinition::StrongReference(_) => Some(16),
        TypeDefinition::WeakReference(_) => Some(16),
        TypeDefinition::Rename(d) => {
            if fuel == 0 {
                return None;
            }
            match r.get_definition(&d.renamed_type) {
                Some(Definition::Type(t)) => type_size_of(r, t, fuel - 1),
                _ => None,
            }
        },
        TypeDefinition::Enumeration(d) => {
            if fuel == 0 {
                return None;
            }
            match r.get_definition(&d.element_type) {
                Some(Definition::Type(t)) => type_size_of(r, t, fuel - 1),
                _ => None,
            }
        },
        TypeDefinition::FixedArray(d) => {
            if fuel == 0 {
                return None;
            }
            match r.get_definition(&d.element_type) {
                Some(Definition::Type(t)) => match type_size_of(r, t, fuel - 1) {
                    Some(es) => {
                        proof {
                            lemma_type_size_bound(r, t@, (fuel - 1) as nat);
                        }
                        assert(es * (d.element_count as u128) <= 0x1_0000_0000_0000_0000 * 0x1_0000_0000) by (nonlinear_arith)
                            requires
                                es <= 0x1_0000_0000_0000_0000,
                                d.element_count <= 0xffff_ffff,
                        ;
                        let p = es * (d.element_count as u128);
                        Some(if p > cap {
                            cap
                        } else {
                            p
                        })
                    },
                    None => None,
                },
                _ => None,
            }
        },
        TypeDefinition::Record(d) => {
            if fuel == 0 {
                return None;
            }
            let ghost ms = crate::dict::definition::record_members_view(d.members@);
            let mut acc: u128 = 0;
            let mut i: usize = 0;
            proof {
                assert(type_size(r, td@, fuel as nat) == members_size(r, ms, (fuel - 1) as nat));
                assert(ms.take(0) =~= Seq::<(Seq<char>, Auid)>::empty());
            }
            while i < d.members.len()
                invariant
                    fuel > 0,
                    type_size(r, td@, fuel as nat) == members_size(r, ms, (fuel - 1) as nat),
                    ms == crate::dict::definition::record_members_view(d.members@),
                    i <= d.members@.len(),
                    cap == usize::MAX + 1,
                    members_size(r, ms.take(i as int), (fuel - 1) as nat) == Some(acc as nat),
                decreases d.members.len() - i,
            {
                proof {
                    assert(ms.take(i + 1).drop_last() =~= ms.take(i as int));
                    lemma_members_size_bound(r, ms.take(i as int), (fuel - 1) as nat);
                }
                match r.get_definition(&d.members[i].field_type) {
                    Some(Definition::Type(t)) => match type_size_of(r, t, fuel - 1) {
                        Some(ms_i) => {
                            proof {
                                lemma_type_size_bound(r, t@, (fuel - 1) as nat);
                            }
                            let sum = acc + ms_i;
                            acc = if sum > cap {
                                cap
                            } else {
                                sum
                            };
                        },
                        None => {
                            proof {
                                lemma_members_none(r, ms, (fuel - 1) as nat, i as int + 1);
                            }
                            return None;
                        },
                    },
                    _ => {
                        proof {
                            lemma_members_none(r, ms, (fuel - 1) as nat, i as int + 1);
                        }
                        return None;
                    },
                }
                i = i + 1;
            }
            proof {
                assert(ms.take(i as int) =~= ms);
            }
            Some(acc)
        },
        _ => None,
    }
}

proof fn lemma_members_none<R: DefinitionResolver>(r: &R, ms: Seq<(Seq<char>, Auid)>, fuel: nat, i: int)
    requires
        0 < i <= ms.len(),
        members_size(r, ms.take(i), fuel) is None,
    ensures
        members_size(r, ms, fuel) is None,
    decreases ms.len() - i,
{
    if i < ms.len() {
        assert(ms.take(i + 1).drop_last() =~= ms.take(i));
        lemma_members_none(r, ms, fuel, i + 1);
    } else {
        assert(ms.take(i) =~= ms);
    }
}

/// Return the fixed byte-size of a type definition, or None for
/// variable-size types (and for types nested more than [`MAX_NESTING`] deep).
pub fn type_size_bytes<R: DefinitionResolver>(td: &TypeDefinition, r: &R) -> (s: Option<usize>)
    ensures
        s == size_fits(type_size(r, td@, MAX_NESTING as nat)),
{
    proof {
        lemma_type_size_bound(r, td@, MAX_NESTING as nat);
    }
    match type_size_of(r, td, MAX_NESTING) {
        Some(v) => if v <= usize::MAX as u128 {
            Some(v as usize)
        } else {
            None
        },
        None => None,
    }
}

// ── Class members ───────────────────────────────────────────────────────────

/// `m` with the properties among `ids` added, keyed by their
/// version-normalised identification (a later one replacing an earlier one).
pub open spec fn own_props<R: DefinitionResolver>(r: &R, ids: Seq<Auid>, m: Map<Auid, PropertyView>) -> Map<Auid, PropertyView>
    decreases ids.len(),
{
    if ids.len() == 0 {
        m
    } else {
        let m2 = own_props(r, ids.drop_last(), m);
        match r.spec_definition(ids.last()) {
            Some(DefinitionView::Property(p)) => m2.insert(zero_version(ids.last()), p),
            _ => m2,
        }
    }
}

/// Every property of a class, inherited ones included (a class's own
/// replacing its parent's), keyed by version-normalised identification;
/// at most `fuel` ancestors are followed.
pub open spec fn all_props<R: DefinitionResolver>(r: &R, c: ClassView, fuel: nat) -> Map<Auid, PropertyView>
    decreases fuel,
{
    let inherited = match c.parent {
        Some(p) => if fuel > 0 {
            match r.spec_definition(p) {
                Some(DefinitionView::Class(pc)) => all_props(r, pc, (fuel - 1) as nat),
                _ => Map::empty(),
            }
        } else {
            Map::empty()
        },
        None => Map::empty(),
    };
    own_props(r, r.spec_members(c.common.id), inherited)
}

/// Whether the chain of parents from class `c` ends within `n` steps: the
/// last class has no parent, or one that names no class.
pub open spec fn chain_ends<R: DefinitionResolver>(r: &R, c: ClassView, n: nat) -> bool
    decreases n,
{
    match c.parent {
        Some(p) => match r.spec_definition(p) {
            Some(DefinitionView::Class(pc)) => n > 0 && chain_ends(r, pc, (n - 1) as nat),
            _ => true,
        },
        None => true,
    }
}

/// Whether the chain of parents from class `c` ends: no class on it is its
/// own ancestor.
pub open spec fn chain_finite<R: DefinitionResolver>(r: &R, c: ClassView) -> bool {
    exists|n: nat| chain_ends(r, c, n)
}

/// Whether every class that the resolver defines has a chain of parents that
/// ends.
pub open spec fn classes_acyclic<R: DefinitionResolver>(r: &R) -> bool {
    forall|k: Auid| #[trigger] r.spec_definition(k) matches Some(DefinitionView::Class(c)) ==> chain_finite(r, c)
}

/// The parent of class `c`, where the resolver defines it as a class.
pub open spec fn parent_class_of<R: DefinitionResolver>(r: &R, c: ClassView) -> Option<ClassView> {
    match c.parent {
        Some(p) => match r.spec_definition(p) {
            Some(DefinitionView::Class(pc)) => Some(pc),
            _ => None,
        },
        None => None,
    }
}

/// The class `k` steps up the chain of parents from `c`, where the chain
/// goes that far.
pub open spec fn ancestor<R: DefinitionResolver>(r: &R, c: ClassView, k: nat) -> Option<ClassView>
    decreases k,
{
    if k == 0 {
        Some(c)
    } else {
        match ancestor(r, c, (k - 1) as nat) {
            Some(a) => parent_class_of(r, a),
            None => None,
        }
    }
}

/// A chain that ends within `n` steps, seen from an ancestor `k` steps up,
/// ends within `n - k`.
proof fn lemma_chain_up<R: DefinitionResolver>(r: &R, c: ClassView, n: nat, k: nat, y: ClassView)
    requires
        chain_ends(r, c, n),
        ancestor(r, c, k) == Some(y),
    ensures
        k <= n,
        chain_ends(r, y, (n - k) as nat),
    decreases k,
{
    if k > 0 {
        let a = ancestor(r, c, (k - 1) as nat)->0;
        lemma_chain_up(r, c, n, (k - 1) as nat, a);
    }
}

/// Where the chain from an ancestor `k` steps up ends within `m` steps, the
/// chain from `c` ends within `k + m`.
proof fn lemma_chain_down<R: DefinitionResolver>(r: &R, c: ClassView, k: nat, y: ClassView, m: nat)
    requires
        ancestor(r, c, k) == Some(y),
        chain_ends(r, y, m),
    ensures
        chain_ends(r, c, k + m),
    decreases k,
{
    if k > 0 {
        let a = ancestor(r, c, (k - 1) as nat)->0;
        assert(chain_ends(r, a, m + 1));
        lemma_chain_down(r, c, (k - 1) as nat, a, m + 1);
    }
}

/// Going up `j` steps and then `t` more is going up `j + t` steps.
proof fn lemma_ancestor_add<R: DefinitionResolver>(r: &R, c: ClassView, j: nat, t: nat, x: ClassView)
    requires
        ancestor(r, c, j) == Some(x),
    ensures
        ancestor(r, x, t) == ancestor(r, c, j + t),
    decreases t,
{
    if t > 0 {
        lemma_ancestor_add(r, c, j, (t - 1) as nat, x);
    }
}

/// A class that is its own ancestor has a chain that never ends.
proof fn lemma_cycle_never_ends<R: DefinitionResolver>(r: &R, x: ClassView, j: nat, n: nat)
    requires
        j >= 1,
        ancestor(r, x, j) == Some(x),
    ensures
        !chain_ends(r, x, n),
    decreases n,
{
    if chain_ends(r, x, n) {
        lemma_chain_up(r, x, n, j, x);
        lemma_cycle_never_ends(r, x, j, (n - j) as nat);
    }
}

/// Whether the chain of parents from class `c` of `dict` ends: it follows
/// the chain until it ends or comes back to a class it has passed.
pub fn class_chain_ends(dict: &MetaDictionary, c: &ClassDefinition) -> (b: bool)
    requires
        dict.wf(),
    ensures
        b == chain_finite(dict, c@),
{
    let n = dict.definition_count();
    let ghost dom = dict.defs().dom();
    let mut visited: Vec<Auid> = Vec::new();
    let mut cur: &ClassDefinition = c;
    loop
        invariant
            dict.wf(),
            dom == dict.defs().dom(),
            dom.finite(),
            n == dom.len(),
            ancestor(dict, c@, visited@.len() as nat) == Some(cur@),
            visited@.no_duplicates(),
            visited@.len() <= n,
            forall|i: int| 0 <= i < visited@.len() ==> dom.contains(#[trigger] visited@[i])
                && dict.defs()[visited@[i]] == DefinitionView::Class(ancestor(dict, c@, (i + 1) as nat)->0)
                && ancestor(dict, c@, (i + 1) as nat) is Some,
        decreases n - visited@.len(),
    {
        let k = visited.len();
        match cur.parent_class {
            None => {
                proof {
                    lemma_chain_down(dict, c@, k as nat, cur@, 0);
                }
                return true;
            },
            Some(p) => match dict.get_definition(&p) {
                Some(Definition::Class(pc)) => {
                    proof {
                        assert(parent_class_of(dict, cur@) == Some(pc@));
                        assert(ancestor(dict, c@, (k + 1) as nat) == Some(pc@));
                    }
                    if contains_auid(&visited, &p) {
                        proof {
                            let j = choose|j: int| 0 <= j < visited@.len() && visited@[j] == p;
                            let x = pc@;
                            assert(ancestor(dict, c@, (j + 1) as nat) == Some(x));
                            lemma_ancestor_add(dict, c@, (j + 1) as nat, (k - j) as nat, x);
                            assert((j + 1) + (k - j) == k + 1);
                            if chain_finite(dict, c@) {
                                let m = choose|m: nat| chain_ends(dict, c@, m);
                                lemma_chain_up(dict, c@, m, (j + 1) as nat, x);
                                lemma_cycle_never_ends(dict, x, (k - j) as nat, (m - (j + 1)) as nat);
                            }
                        }
                        return false;
                    }
                    proof {
                        let v2 = visited@.push(p);
                        assert(v2.no_duplicates()) by {
                            assert forall|a: int, b: int| 0 <= a < v2.len() && 0 <= b < v2.len() && a != b implies v2[a] != v2[b] by {
                                if a < visited@.len() && b < visited@.len() {
                                } else if a == visited@.len() {
                                    assert(!visited@.contains(p));
                                } else {
                                    assert(!visited@.contains(p));
                                }
                            }
                        }
                        assert(v2.to_set().subset_of(dom)) by {
                            assert forall|a: Auid| v2.to_set().contains(a) implies dom.contains(a) by {
                                let i = choose|i: int| 0 <= i < v2.len() && v2[i] == a;
                                if i < visited@.len() {
                                    assert(dom.contains(visited@[i]));
                                }
                            }
                        }
                        v2.unique_seq_to_set();
                        vstd::set_lib::lemma_len_subset(v2.to_set(), dom);
                    }
                    visited.push(p);
                    cur = pc;
                },
                _ => {
                    proof {
                        assert(parent_class_of(dict, cur@) is None);
                        lemma_chain_down(dict, c@, k as nat, cur@, 0);
                    }
                    return true;
                },
            },
        }
    }
}

/// Whether `d`, where it is a class, has a chain of parents that ends.
pub open spec fn def_chain_ends<R: DefinitionResolver>(r: &R, d: DefinitionView) -> bool {
    match d {
        DefinitionView::Class(c) => chain_finite(r, c),
        _ => true,
    }
}

/// Whether every class of `dict` has a chain of parents that ends (see
/// [`classes_acyclic`]).
pub fn check_classes_acyclic(dict: &MetaDictionary) -> (b: bool)
    requires
        dict.wf(),
    ensures
        b == classes_acyclic(dict),
{
    let defs = dict.all_definitions();
    let mut i: usize = 0;
    while i < defs.len()
        invariant
            dict.wf(),
            i <= defs@.len(),
            defs@.len() == dict.def_list().len(),
            forall|j: int| 0 <= j < defs@.len() ==> dict.defs().contains_key(def_common(defs@[j]@).id)
                && dict.defs()[def_common(defs@[j]@).id] == (#[trigger] defs@[j])@,
            forall|k: Auid| #[trigger] dict.defs().contains_key(k) ==> exists|j: int|
                0 <= j < defs@.len() && def_common(defs@[j]@).id == k,
            forall|j: int| 0 <= j < i ==> def_chain_ends(dict, (#[trigger] defs@[j])@),
        decreases defs.len() - i,
    {
        if let Definition::Class(c) = defs[i] {
            if !class_chain_ends(dict, c) {
                proof {
                    let k = def_common(defs@[i as int]@).id;
                    assert(dict.spec_definition(k) == Some(DefinitionView::Class(c@)));
                }
                return false;
            }
        }
        i = i + 1;
    }
    proof {
        assert forall|k: Auid| #[trigger] dict.spec_definition(k) is Some implies def_chain_ends(dict, dict.spec_definition(k)->0) by {
            assert(dict.defs().contains_key(k));
            let j = choose|j: int| 0 <= j < defs@.len() && def_common(defs@[j]@).id == k;
            assert(defs@[j]@ == dict.defs()[k]);
        }
    }
    true
}

/// Every property of class `c`, inherited ones included (a class's own
/// replacing its ancestors'), keyed by version-normalised identification,
/// all ancestors followed.
pub open spec fn class_props<R: DefinitionResolver>(r: &R, c: ClassView) -> Map<Auid, PropertyView> {
    all_props(r, c, choose|n: nat| chain_ends(r, c, n))
}

spec fn prop_entries(s: Seq<(Auid, PropertyDefinition)>) -> Seq<(Auid, PropertyView)> {
    s.map_values(|p: (Auid, PropertyDefinition)| (p.0, p.1@))
}

/// Properties by version-normalised identification.
pub struct PropMap {
    entries: Vec<(Auid, PropertyDefinition)>,
}

impl PropMap {
    pub closed spec fn map(&self) -> Map<Auid, PropertyView> {
        assoc_map(prop_entries(self.entries@))
    }

    pub closed spec fn wf(&self) -> bool {
        keys_unique(prop_entries(self.entries@))
    }

    pub fn new() -> (r: PropMap)
        ensures
            r.wf(),
            r.map() == Map::<Auid, PropertyView>::empty(),
    {
        let r = PropMap { entries: Vec::new() };
        proof {
            assert(prop_entries(r.entries@) =~= Seq::empty());
        }
        r
    }

    fn find(&self, id: &Auid) -> (r: Option<usize>)
        ensures
            match r {
                Some(i) => i < self.entries@.len() && self.entries@[i as int].0 == *id && forall|j: int|
                    0 <= j < i ==> self.entries@[j].0 != *id,
                None => forall|j: int| 0 <= j < self.entries@.len() ==> self.entries@[j].0 != *id,
            },
    {
        let mut i: usize = 0;
        while i < self.entries.len()
            invariant
                i <= self.entries@.len(),
                forall|j: int| 0 <= j < i ==> self.entries@[j].0 != *id,
            decreases self.entries.len() - i,
        {
            if self.entries[i].0.same(id) {
                return Some(i);
            }
            i = i + 1;
        }
        None
    }

    pub fn insert(&mut self, id: Auid, p: PropertyDefinition)
        requires
            old(self).wf(),
        ensures
            final(self).wf(),
            final(self).map() == old(self).map().insert(id, p@),
    {
        let ghost s = prop_entries(self.entries@);
        let ghost pv = p@;
        match self.find(&id) {
            Some(i) => {
                self.entries.set(i, (id, p));
                proof {
                    lemma_assoc_update(s, i as int, pv);
                    assert(prop_entries(self.entries@) =~= s.update(i as int, (s[i as int].0, pv)));
                    assert forall|a: int, b: int| 0 <= a < b < prop_entries(self.entries@).len() implies
                        #[trigger] prop_entries(self.entries@)[a].0 != #[trigger] prop_entries(self.entries@)[b].0 by {
                        assert(s[a].0 != s[b].0);
                    }
                }
            },
            None => {
                self.entries.push((id, p));
                proof {
                    lemma_assoc_push(s, id, pv);
                    assert(prop_entries(self.entries@) =~= s.push((id, pv)));
                }
            },
        }
    }

    pub fn get(&self, id: &Auid) -> (r: Option<&PropertyDefinition>)
        requires
            self.wf(),
        ensures
            match self.map().get(*id) {
                Some(v) => (r matches Some(x) && x@ == v),
                None => r is None,
            },
    {
        let ghost s = prop_entries(self.entries@);
        match self.find(id) {
            Some(i) => {
                proof {
                    lemma_assoc_first(s, i as int);
                }
                Some(&self.entries[i].1)
            },
            None => {
                proof {
                    lemma_assoc_absent(s, *id);
                }
                None
            },
        }
    }
}

/// Every property of a class, inherited ones included; the chain of
/// parents ends within `fuel` steps.
fn all_members_of<R: DefinitionResolver>(r: &R, cd: &ClassDefinition, Ghost(fuel): Ghost<nat>) -> (m: PropMap)
    requires
        chain_ends(r, cd@, fuel),
    ensures
        m.wf(),
        m.map() == all_props(r, cd@, fuel),
    decreases fuel,
{
    let mut result = match cd.parent_class {
        Some(parent_id) => match r.get_definition(&parent_id) {
            Some(Definition::Class(parent)) => all_members_of(r, parent, Ghost((fuel - 1) as nat)),
            _ => PropMap::new(),
        },
        None => PropMap::new(),
    };
    let ghost base = result.map();
    let members = r.get_members_of(cd);
    let mut i: usize = 0;
    while i < members.len()
        invariant
            result.wf(),
            i <= members@.len(),
            result.map() == own_props(r, members@.take(i as int), base),
        decreases members.len() - i,
    {
        proof {
            assert(members@.take(i + 1).drop_last() =~= members@.take(i as int));
        }
        match r.get_definition(&members[i]) {
            Some(Definition::Property(pd)) => {
                let key = ul_zero_version(members[i]);
                result.insert(key, pd.clone_def());
            },
            _ => {},
        }
        i = i + 1;
    }
    proof {
        assert(members@.take(i as int) =~= members@);
    }
    result
}

/// Recursively collect all properties of a class including inherited ones,
/// keyed by version-normalised identification (see [`ul_zero_version`]).
pub fn get_all_members_of<R: DefinitionResolver>(r: &R, cd: &ClassDefinition) -> (m: PropMap)
    requires
        chain_finite(r, cd@),
    ensures
        m.wf(),
        m.map() == class_props(r, cd@),
{
    let ghost n = choose|n: nat| chain_ends(r, cd@, n);
    all_members_of(r, cd, Ghost(n))
}

// ── Well-nested output ──────────────────────────────────────────────────────

/// The open elements after one event, or `None` where an end tag does not
/// close the innermost open element.
pub open spec fn nest_step(e: EventTuple, open: Seq<Seq<char>>) -> Option<Seq<Seq<char>>> {
    if e.0 == 1 {
        Some(open.push(e.1))
    } else if e.0 == 3 {
        if open.len() > 0 && open.last() == e.1 {
            Some(open.drop_last())
        } else {
            None
        }
    } else {
        Some(open)
    }
}

/// The open elements after `evs`, starting from `open`.
pub open spec fn nest(evs: Seq<EventTuple>, open: Seq<Seq<char>>) -> Option<Seq<Seq<char>>>
    decreases evs.len(),
{
    if evs.len() == 0 {
        Some(open)
    } else {
        match nest_step(evs[0], open) {
            None => None,
            Some(o2) => nest(evs.drop_first(), o2),
        }
    }
}

/// Every element that `evs` opens it closes, in order.
pub open spec fn balanced(evs: Seq<EventTuple>) -> bool {
    nest(evs, Seq::empty()) == Some(Seq::<Seq<char>>::empty())
}

/// `new` is `old` followed by a well-nested run of events.
pub open spec fn extends_balanced(old: Seq<XmlEvent>, new: Seq<XmlEvent>) -> bool {
    &&& old.len() <= new.len()
    &&& new.take(old.len() as int) == old
    &&& balanced(events_view(new.skip(old.len() as int)))
}

pub proof fn lemma_nest_concat(a: Seq<EventTuple>, b: Seq<EventTuple>, open: Seq<Seq<char>>)
    ensures
        nest(a + b, open) == match nest(a, open) {
            Some(o) => nest(b, o),
            None => None,
        },
    decreases a.len(),
{
    if a.len() > 0 {
        assert((a + b).drop_first() =~= a.drop_first() + b);
        assert((a + b)[0] == a[0]);
        match nest_step(a[0], open) {
            Some(o2) => lemma_nest_concat(a.drop_first(), b, o2),
            None => {},
        }
    } else {
        assert(a + b =~= b);
    }
}

/// Nesting does not depend on what is open below.
pub proof fn lemma_nest_under(evs: Seq<EventTuple>, below: Seq<Seq<char>>, open: Seq<Seq<char>>)
    requires
        nest(evs, open) is Some,
    ensures
        nest(evs, below + open) == Some(below + nest(evs, open)->0),
    decreases evs.len(),
{
    if evs.len() > 0 {
        let e = evs[0];
        if e.0 == 1 {
            assert((below + open).push(e.1) =~= below + open.push(e.1));
            lemma_nest_under(evs.drop_first(), below, open.push(e.1));
        } else if e.0 == 3 {
            assert((below + open).drop_last() =~= below + open.drop_last());
            assert((below + open).last() == open.last());
            lemma_nest_under(evs.drop_first(), below, open.drop_last());
        } else {
            lemma_nest_under(evs.drop_first(), below, open);
        }
    } else {
    }
}

pub proof fn lemma_balanced_concat(a: Seq<EventTuple>, b: Seq<EventTuple>)
    requires
        balanced(a),
        balanced(b),
    ensures
        balanced(a + b),
{
    lemma_nest_concat(a, b, Seq::empty());
}

/// `<n>` then a well-nested run then `</n>` is well-nested.
pub proof fn lemma_balanced_wrap(n: Seq<char>, start: EventTuple, inner: Seq<EventTuple>, end: EventTuple)
    requires
        start.0 == 1 && start.1 == n,
        end.0 == 3 && end.1 == n,
        balanced(inner),
    ensures
        balanced(seq![start] + inner + seq![end]),
{
    let open = seq![n];
    lemma_nest_under(inner, open, Seq::empty());
    assert(open + Seq::<Seq<char>>::empty() =~= open);
    lemma_nest_concat(seq![start], inner, Seq::empty());
    assert(nest(seq![start], Seq::empty()) == Some(Seq::<Seq<char>>::empty().push(n))) by {
        reveal_with_fuel(nest, 2);
        assert(seq![start].drop_first() =~= Seq::<EventTuple>::empty());
    }
    assert(Seq::<Seq<char>>::empty().push(n) =~= open);
    lemma_nest_concat(seq![start] + inner, seq![end], Seq::empty());
    assert(nest(seq![end], open) == Some(Seq::<Seq<char>>::empty())) by {
        reveal_with_fuel(nest, 2);
        assert(seq![end].drop_first() =~= Seq::<EventTuple>::empty());
        assert(open.drop_last() =~= Seq::<Seq<char>>::empty());
    }
}

/// One event that opens and closes nothing is well-nested.
pub proof fn lemma_balanced_single(e: EventTuple)
    requires
        e.0 != 1 && e.0 != 3,
    ensures
        balanced(seq![e]),
{
    reveal_with_fuel(nest, 2);
    assert(seq![e].drop_first() =~= Seq::<EventTuple>::empty());
}

/// Extending by two well-nested runs in turn is extending by a well-nested run.
pub proof fn lemma_extends_trans(a: Seq<XmlEvent>, b: Seq<XmlEvent>, c: Seq<XmlEvent>)
    requires
        extends_balanced(a, b),
        extends_balanced(b, c),
    ensures
        extends_balanced(a, c),
{
    let x = events_view(b.skip(a.len() as int));
    let y = events_view(c.skip(b.len() as int));
    assert(c.take(a.len() as int) =~= b.take(a.len() as int)) by {
        assert forall|i: int| 0 <= i < a.len() implies c.take(a.len() as int)[i] == b.take(a.len() as int)[i] by {
            assert(c[i] == c.take(b.len() as int)[i]);
        }
    }
    assert(c.skip(a.len() as int) =~= b.skip(a.len() as int) + c.skip(b.len() as int)) by {
        assert forall|i: int| 0 <= i < c.len() - a.len() implies c.skip(a.len() as int)[i] == (b.skip(a.len() as int) + c.skip(b.len() as int))[i] by {
            if i < b.len() - a.len() {
                assert(c[a.len() + i] == c.take(b.len() as int)[a.len() + i]);
            }
        }
    }
    assert(events_view(c.skip(a.len() as int)) =~= x + y);
    lemma_balanced_concat(x, y);
}

pub proof fn lemma_extends_refl(a: Seq<XmlEvent>)
    ensures
        extends_balanced(a, a),
{
    assert(a.take(a.len() as int) =~= a);
    assert(events_view(a.skip(a.len() as int)) =~= Seq::<EventTuple>::empty());
}

/// Wrapping a well-nested extension in a start and a matching end tag.
pub proof fn lemma_extends_wrap(before: Seq<XmlEvent>, st: XmlEvent, inner: Seq<XmlEvent>, en: XmlEvent)
    requires
        extends_balanced(before.push(st), inner),
        event_tuple(st).0 == 1,
        event_tuple(en).0 == 3,
        event_tuple(st).1 == event_tuple(en).1,
    ensures
        extends_balanced(before, inner.push(en)),
{
    let mid = before.push(st);
    let fin = inner.push(en);
    let body = events_view(inner.skip(mid.len() as int));
    assert(fin.take(before.len() as int) =~= before) by {
        assert forall|i: int| 0 <= i < before.len() implies fin.take(before.len() as int)[i] == before[i] by {
            assert(inner[i] == inner.take(mid.len() as int)[i]);
            assert(mid[i] == before[i]);
        }
    }
    assert(inner[before.len() as int] == st) by {
        assert(inner[before.len() as int] == inner.take(mid.len() as int)[before.len() as int]);
    }
    assert(events_view(fin.skip(before.len() as int)) =~= seq![event_tuple(st)] + body + seq![event_tuple(en)]) by {
        assert forall|i: int| 0 <= i < fin.len() - before.len() implies events_view(fin.skip(before.len() as int))[i]
            == (seq![event_tuple(st)] + body + seq![event_tuple(en)])[i] by {
            if i == 0 {
            } else if i < fin.len() - before.len() - 1 {
                assert(fin[before.len() + i] == inner[before.len() + i]);
            }
        }
    }
    lemma_balanced_wrap(event_tuple(st).1, event_tuple(st), body, event_tuple(en));
}

/// Appending one event that opens and closes nothing.
pub proof fn lemma_extends_single(before: Seq<XmlEvent>, e: XmlEvent)
    requires
        event_tuple(e).0 != 1,
        event_tuple(e).0 != 3,
    ensures
        extends_balanced(before, before.push(e)),
        events_view(before.push(e).skip(before.len() as int)) == seq![event_tuple(e)],
{
    assert(before.push(e).take(before.len() as int) =~= before);
    assert(events_view(before.push(e).skip(before.len() as int)) =~= seq![event_tuple(e)]);
    lemma_balanced_single(event_tuple(e));
}

/// What a run of output after `old` holds.
pub open spec fn produced(old: Seq<XmlEvent>, new: Seq<XmlEvent>) -> Seq<EventTuple> {
    events_view(new.skip(old.len() as int))
}

/// A local set as values: its key and its items.
pub type GroupView = (Auid, Seq<(Auid, Seq<u8>)>);

/// The local sets by instance UID, as values.
pub open spec fn sets_view(m: Map<Auid, LocalSet>) -> Map<Auid, GroupView> {
    m.map_values(|s: LocalSet| (s.key, items_view(s.items@)))
}

/// Nothing written after `out`: nothing produced.
proof fn lemma_produced_none(out: Seq<XmlEvent>)
    ensures
        produced(out, out) == Seq::<EventTuple>::empty(),
{
    assert(out.skip(out.len() as int) =~= Seq::<XmlEvent>::empty());
    assert(events_view(out.skip(out.len() as int)) =~= Seq::<EventTuple>::empty());
}

pub open spec fn tx(t: Seq<char>) -> EventTuple {
    (4, t, Seq::empty(), Seq::empty())
}

/// Append a text event.
fn write_text(out: &mut Vec<XmlEvent>, t: String)
    ensures
        extends_balanced(old(out)@, final(out)@),
        produced(old(out)@, final(out)@) == seq![tx(t@)],
{
    let ghost before = out@;
    let e = XmlEvent::Text(t);
    out.push(e);
    proof {
        lemma_extends_single(before, e);
    }
}

// ── Naming ExtendibleEnumeration values ─────────────────────────────────────

/// Optional callback for resolving an [`Auid`] to a human-readable symbol name.
pub trait AuidNamer {
    /// The name that this namer gives `id`, if it knows one.
    spec fn label_of(&self, id: Auid) -> Option<Seq<char>>;

    fn name_of(&self, id: &Auid) -> (r: Option<&str>)
        ensures
            match self.label_of(*id) {
                Some(s) => (r matches Some(x) && x@ == s),
                None => r is None,
            },
    ;
}

impl AuidNamer for LabelsRegister {
    open spec fn label_of(&self, id: Auid) -> Option<Seq<char>> {
        self.labels().get(id)
    }

    fn name_of(&self, id: &Auid) -> (r: Option<&str>) {
        self.get(id)
    }
}

/// The names that an optional namer gives: none without a namer.
pub open spec fn namer_names(n: &Option<Box<dyn AuidNamer>>) -> spec_fn(Auid) -> Option<Seq<char>> {
    match n {
        Some(b) => |a: Auid| b.label_of(a),
        None => |a: Auid| None::<Seq<char>>,
    }
}

// ── Builder state ───────────────────────────────────────────────────────────

/// What stays fixed while a fragment is built.
struct Context<'dict, R: DefinitionResolver> {
    resolver: &'dict R,
    /// Instance UID → local set, for strong and weak references.
    sets: Vec<(Auid, LocalSet)>,
    namer: Option<Box<dyn AuidNamer>>,
}

/// What a build changes: the namespace prefixes handed out, and the handler.
struct State {
    /// namespace URI → prefix, in the order they were handed out
    prefixes: Vec<(String, String)>,
    handler: Option<Box<dyn EventHandler>>,
    /// the events reported so far (to the handler, where there is one), in order
    events: Ghost<Seq<EventView>>,
}

/// The prefix list as values.
pub open spec fn prefix_entries(s: Seq<(String, String)>) -> Seq<(Seq<char>, Seq<char>)> {
    s.map_values(|p: (String, String)| (p.0@, p.1@))
}

/// The prefix of the first entry for namespace `ns`.
pub open spec fn prefix_lookup(s: Seq<(Seq<char>, Seq<char>)>, ns: Seq<char>) -> Option<Seq<char>>
    decreases s.len(),
{
    if s.len() == 0 {
        None
    } else if s[0].0 == ns {
        Some(s[0].1)
    } else {
        prefix_lookup(s.drop_first(), ns)
    }
}

/// The prefix that namespace `ns` gets: the one it has, or `ns` followed
/// by the number of prefixes handed out so far.
pub open spec fn prefix_for(s: Seq<(Seq<char>, Seq<char>)>, ns: Seq<char>) -> Seq<char> {
    match prefix_lookup(s, ns) {
        Some(p) => p,
        None => "ns"@ + decimal(s.len()),
    }
}

proof fn lemma_prefix_lookup_push(s: Seq<(Seq<char>, Seq<char>)>, e: (Seq<char>, Seq<char>), k: Seq<char>)
    ensures
        prefix_lookup(s.push(e), k) == match prefix_lookup(s, k) {
            Some(p) => Some(p),
            None => if e.0 == k {
                Some(e.1)
            } else {
                None
            },
        },
    decreases s.len(),
{
    if s.len() > 0 {
        assert(s.push(e)[0] == s[0]);
        assert(s.push(e).drop_first() =~= s.drop_first().push(e));
        lemma_prefix_lookup_push(s.drop_first(), e, k);
    } else {
        assert(s.push(e)[0] == e);
        assert(s.push(e).drop_first() =~= s);
    }
}

/// A namespace keeps the prefix it was first given: handing out the prefix
/// of `ns` again gives the same one, and changes no other namespace's.
pub proof fn lemma_prefix_stable(s: Seq<(Seq<char>, Seq<char>)>, ns: Seq<char>, other: Seq<char>)
    ensures
        ({
            let after = match prefix_lookup(s, ns) {
                Some(_) => s,
                None => s.push((ns, prefix_for(s, ns))),
            };
            &&& prefix_for(after, ns) == prefix_for(s, ns)
            &&& prefix_lookup(s, other) is Some ==> prefix_lookup(after, other) == prefix_lookup(s, other)
        }),
{
    lemma_prefix_lookup_push(s, (ns, prefix_for(s, ns)), ns);
    lemma_prefix_lookup_push(s, (ns, prefix_for(s, ns)), other);
}

/// Hand out the prefix for `ns`.
fn ns_prefix(st: &mut State, ns: &str) -> (r: String)
    ensures
        r@ == prefix_for(prefix_entries(old(st).prefixes@), ns@),
        prefix_entries(final(st).prefixes@) == match prefix_lookup(prefix_entries(old(st).prefixes@), ns@) {
            Some(_) => prefix_entries(old(st).prefixes@),
            None => prefix_entries(old(st).prefixes@).push((ns@, r@)),
        },
        (final(st).handler is None) == (old(st).handler is None),
        final(st).events == old(st).events,
{
    let ghost s = prefix_entries(st.prefixes@);
    let mut i: usize = 0;
    proof {
        assert(s.skip(0) =~= s);
    }
    while i < st.prefixes.len()
        invariant
            s == prefix_entries(st.prefixes@),
            i <= st.prefixes@.len(),
            prefix_lookup(s, ns@) == prefix_lookup(s.skip(i as int), ns@),
        decreases st.prefixes.len() - i,
    {
        proof {
            assert(s.skip(i as int)[0] == s[i as int]);
            assert(s.skip(i as int).drop_first() =~= s.skip(i + 1));
        }
        if str_eq(st.prefixes[i].0.as_str(), ns) {
            return st.prefixes[i].1.clone();
        }
        i = i + 1;
    }
    proof {
        assert(s.skip(i as int) =~= Seq::<(Seq<char>, Seq<char>)>::empty());
    }
    let mut o: Vec<char> = Vec::new();
    push_lit(&mut o, "ns");
    push_decimal(&mut o, st.prefixes.len() as u64);
    let p = string_of(&o);
    st.prefixes.push((String::from_str(ns), p.clone()));
    proof {
        assert(prefix_entries(st.prefixes@) =~= s.push((ns@, p@)));
    }
    p
}

/// What a handler's decision on an event makes of the build: it goes on, or
/// fails with the event's reason.
pub fn decision_outcome(d: EventHandlerDecision, reason: &str) -> (r: Result<(), FragmentError>)
    ensures
        d == EventHandlerDecision::Continue ==> r is Ok,
        d == EventHandlerDecision::Abort ==> (r matches Err(FragmentError::Fatal(m)) && m@ == reason@),
{
    match d {
        EventHandlerDecision::Abort => Err(FragmentError::Fatal(String::from_str(reason))),
        EventHandlerDecision::Continue => Ok(()),
    }
}

/// Report an event to the handler; a handler that aborts makes the build fail.
/// What the handler decides is its own (see [`decision_outcome`]).
fn fire_event(st: &mut State, code: EventCode, severity: EventSeverity, location: String, reason: &str) -> (r: Result<(), FragmentError>)
    ensures
        final(st).prefixes == old(st).prefixes,
        (final(st).handler is None) == (old(st).handler is None),
        old(st).handler is None ==> r is Ok,
        r matches Err(e) ==> (e matches FragmentError::Fatal(m) && m@ == reason@),
        final(st).events@ == old(st).events@.push((code, severity, location@, reason@)),
{
    let ev = FragmentEvent::new(code, severity, location, reason);
    proof {
        st.events@ = st.events@.push(ev.view_tuple());
    }
    match &mut st.handler {
        Some(h) => {
            let d = h.handle(&ev);
            decision_outcome(d, reason)
        },
        None => Ok(()),
    }
}

// ── Rules 3–5 ───────────────────────────────────────────────────────────────

/// `prefix:local`.
fn qualified(prefix: &str, local: &str) -> (r: String)
    ensures
        r@ == prefix@ + seq![':'] + local@,
{
    let mut o: Vec<char> = Vec::new();
    append_str(&mut o, prefix);
    o.push(':');
    append_str(&mut o, local);
    string_of(&o)
}

/// The namespace declarations that an element of namespace `ns`, written
/// with prefix `p`, carries: none for the RegXML baseline, else `xmlns:p`.
pub open spec fn ns_decls(ns: Seq<char>, p: Seq<char>) -> Seq<(Seq<char>, Seq<char>)> {
    if ns == REGXML_NS@ {
        Seq::empty()
    } else {
        seq![("xmlns:"@ + p, ns)]
    }
}

/// The namespace declaration an element of namespace `ns` carries: none for
/// the RegXML baseline, else `xmlns:prefix`.
fn ns_attrs(ns: &str, prefix: &str) -> (r: Vec<(String, String)>)
    ensures
        attrs_view(r@) == ns_decls(ns@, prefix@),
{
    let mut a: Vec<(String, String)> = Vec::new();
    if !str_eq(ns, REGXML_NS) {
        let mut o: Vec<char> = Vec::new();
        push_lit(&mut o, "xmlns:");
        append_str(&mut o, prefix);
        a.push((string_of(&o), String::from_str(ns)));
    }
    proof {
        assert(attrs_view(a@) =~= ns_decls(ns@, prefix@));
    }
    a
}

/// The position, from `i` on, of the first item whose version-normalised
/// key is `k`.
pub open spec fn first_item_at(items: Seq<MemoryTriplet>, k: Auid, i: int) -> Option<int>
    decreases items.len() - i,
{
    if i < 0 || i >= items.len() {
        None
    } else if zero_version(items[i].key) == k {
        Some(i)
    } else {
        first_item_at(items, k, i + 1)
    }
}

/// The version-normalised InstanceUID key.
pub open spec fn instance_uid_key() -> Auid {
    zero_version(bytes_auid(instance_uid_ul()))
}

/// The instance UID of a group: the value of its first InstanceUID item,
/// where that holds 16 bytes.
pub open spec fn group_uid(items: Seq<MemoryTriplet>) -> Option<Auid> {
    match first_item_at(items, instance_uid_key(), 0) {
        Some(i) => if items[i].value@.len() == 16 {
            Some(bytes_auid(items[i].value@))
        } else {
            None
        },
        None => None,
    }
}

/// The first item from `i` on with version-normalised key `k` is one.
proof fn lemma_first_item_at(items: Seq<MemoryTriplet>, k: Auid, i: int)
    ensures
        first_item_at(items, k, i) matches Some(j) ==> i <= j < items.len() && zero_version(items[j].key) == k,
    decreases items.len() - i,
{
    if 0 <= i < items.len() && zero_version(items[i].key) != k {
        lemma_first_item_at(items, k, i + 1);
    }
}

/// The item of a local set whose version-normalised key is `key`.
fn find_item<'a>(items: &'a Vec<MemoryTriplet>, key: &Auid) -> (r: Option<&'a MemoryTriplet>)
    ensures
        match first_item_at(items@, *key, 0) {
            Some(i) => r == Some(&items@[i]),
            None => r is None,
        },
{
    let mut i: usize = 0;
    while i < items.len()
        invariant
            i <= items@.len(),
            first_item_at(items@, *key, 0) == first_item_at(items@, *key, i as int),
        decreases items.len() - i,
    {
        let k = ul_zero_version(items[i].key);
        if k.same(key) {
            return Some(&items[i]);
        }
        i = i + 1;
    }
    None
}

/// The set with instance UID `uid`, if any.
fn find_set<'a, 'dict, R: DefinitionResolver>(ctx: &'a Context<'dict, R>, uid: &Auid) -> (r: Option<&'a LocalSet>)
    ensures
        match r {
            Some(s) => assoc_map(ctx.sets@).contains_key(*uid) && *s == assoc_map(ctx.sets@)[*uid],
            None => !assoc_map(ctx.sets@).contains_key(*uid),
        },
{
    let mut i: usize = 0;
    while i < ctx.sets.len()
        invariant
            i <= ctx.sets@.len(),
            forall|j: int| 0 <= j < i ==> ctx.sets@[j].0 != *uid,
        decreases ctx.sets.len() - i,
    {
        if ctx.sets[i].0.same(uid) {
            proof {
                lemma_assoc_first(ctx.sets@, i as int);
            }
            return Some(&ctx.sets[i].1);
        }
        i = i + 1;
    }
    proof {
        lemma_assoc_absent(ctx.sets@, *uid);
    }
    None
}

/// The text of the first item, from `i` on, that holds a unique identifier
/// other than InstanceID (its property is flagged as one in `props`) in 32
/// bytes (a UMID URN) or 16 (an AUID URN where `as_auid`, else a UUID URN).
pub open spec fn unique_id_at(props: Map<Auid, PropertyView>, items: Seq<(Auid, Seq<u8>)>, as_auid: bool, i: int) -> Option<Seq<char>>
    decreases items.len() - i,
{
    if i < 0 || i >= items.len() {
        None
    } else {
        let k = zero_version(items[i].0);
        let v = items[i].1;
        let rest = unique_id_at(props, items, as_auid, i + 1);
        match props.get(k) {
            Some(pd) => if pd.is_unique_identifier && k != instance_uid_key() {
                if v.len() == 32 {
                    Some(umid_urn(v))
                } else if v.len() == 16 {
                    Some(if as_auid { spec_auid_urn(bytes_auid(v)) } else { uuid_urn(v) })
                } else {
                    rest
                }
            } else {
                rest
            },
            None => rest,
        }
    }
}

/// The text of the unique-identifier item among `items` (see [`unique_id_at`]).
fn unique_id_text(items: &Vec<MemoryTriplet>, props: &PropMap, iuid_norm: &Auid, as_auid: bool) -> (r: Option<String>)
    requires
        props.wf(),
        *iuid_norm == instance_uid_key(),
    ensures
        match unique_id_at(props.map(), items_view(items@), as_auid, 0) {
            Some(t) => (r matches Some(x) && x@ == t),
            None => r is None,
        },
{
    let ghost iv = items_view(items@);
    let mut i: usize = 0;
    while i < items.len()
        invariant
            props.wf(),
            *iuid_norm == instance_uid_key(),
            iv == items_view(items@),
            i <= items@.len(),
            unique_id_at(props.map(), iv, as_auid, 0) == unique_id_at(props.map(), iv, as_auid, i as int),
        decreases items.len() - i,
    {
        proof {
            assert(iv[i as int] == (items@[i as int].key, items@[i as int].value@));
        }
        let k = ul_zero_version(items[i].key);
        match props.get(&k) {
            Some(pd) => {
                if pd.is_unique_identifier && !k.same(iuid_norm) {
                    let v = &items[i].value;
                    if v.len() == 32 {
                        return Some(format_umid_bytes(v.as_slice()));
                    } else if v.len() == 16 {
                        if as_auid {
                            let b = array16(v.as_slice());
                            let a = crate::types::auid::Auid::from_bytes(b);
                            proof {
                                assert(b@ =~= v@);
                                lemma_auid_of_bytes_unique(b@, a);
                            }
                            return Some(a.to_string());
                        } else {
                            return Some(format_uuid_bytes(v.as_slice()));
                        }
                    }
                }
            },
            None => {},
        }
        i = i + 1;
    }
    None
}

fn contains_auid(v: &Vec<Auid>, x: &Auid) -> (r: bool)
    ensures
        r == v@.contains(*x),
{
    let mut k: usize = 0;
    while k < v.len()
        invariant
            k <= v@.len(),
            forall|j: int| 0 <= j < k ==> v@[j] != *x,
        decreases v.len() - k,
    {
        if v[k].same(x) {
            return true;
        }
        k = k + 1;
    }
    false
}

fn nesting_error() -> (r: FragmentError)
    ensures
        r matches FragmentError::UnsupportedType(m) && m@ == "values nested too deeply"@,
{
    FragmentError::UnsupportedType(String::from_str("values nested too deeply"))
}

/// Whether the group's instance UID is among `visited`: a strong reference
/// back to an object that is being written.
pub open spec fn circular(items: Seq<MemoryTriplet>, visited: Seq<Auid>) -> bool {
    group_uid(items) matches Some(u) && visited.contains(u)
}

/// The element name of a group of class `c`: the prefix of the class's
/// namespace, a colon, the class symbol.
pub open spec fn group_element_name(prefixes: Seq<(Seq<char>, Seq<char>)>, c: ClassView) -> Seq<char> {
    prefix_for(prefixes, c.common.namespace) + seq![':'] + c.common.symbol
}

/// The events `p` of the property elements of `items`, in order: `p` splits
/// at `cuts` into one run per item whose version-normalised key names one of
/// `props`, each that property's element (see [`property_element`]) under
/// the prefixes `pfx` handed out by then; items naming no property give
/// nothing.
pub open spec fn items_output<R: DefinitionResolver>(
    r: &R,
    sets: Map<Auid, GroupView>,
    visited: Seq<Auid>,
    names: spec_fn(Auid) -> Option<Seq<char>>,
    props: Map<Auid, PropertyView>,
    items: Seq<(Auid, Seq<u8>)>,
    p: Seq<EventTuple>,
    pfx: Seq<Seq<(Seq<char>, Seq<char>)>>,
    cuts: Seq<int>,
    fuel: nat,
) -> bool
    decreases fuel, items.len() + 7,
{
    if items.len() == 0 {
        p.len() == 0 && pfx.len() == 0 && cuts.len() == 0
    } else {
        match props.get(zero_version(items.last().0)) {
            None => items_output(r, sets, visited, names, props, items.drop_last(), p, pfx, cuts, fuel),
            Some(pd) => {
                &&& cuts.len() > 0
                &&& pfx.len() > 0
                &&& 0 <= cuts.last() <= p.len()
                &&& items_output(r, sets, visited, names, props, items.drop_last(), p.take(cuts.last()), pfx.drop_last(), cuts.drop_last(), fuel)
                &&& property_element(r, sets, visited, names, p.skip(cuts.last()), pfx.last(), pd, items.last().1, fuel)
            },
        }
    }
}

/// The events of a group of class `c`: a start tag named after the class
/// that declares the RegXML namespace and the class's own, and gives the
/// group's unique identifier as `reg:uid` where it has one, the elements of the group's properties in
/// order (see [`items_output`]; `props` are the class's properties,
/// inherited ones included), the end tag.
pub open spec fn group_element<R: DefinitionResolver>(
    r: &R,
    sets: Map<Auid, GroupView>,
    visited: Seq<Auid>,
    names: spec_fn(Auid) -> Option<Seq<char>>,
    p: Seq<EventTuple>,
    prefixes: Seq<(Seq<char>, Seq<char>)>,
    c: ClassView,
    items: Seq<(Auid, Seq<u8>)>,
    fuel: nat,
) -> bool
    decreases fuel, items.len() + 8,
{
    let name = group_element_name(prefixes, c);
    let decls = seq![("xmlns:reg"@, REGXML_NS@)] + ns_decls(c.common.namespace, prefix_for(prefixes, c.common.namespace));
    &&& p.len() >= 2
    &&& p[0].0 == 1
    &&& p[0].1 == name
    &&& p[0].2 == decls + match unique_id_at(class_props(r, c), items, false, 0) {
        Some(u) => seq![("reg:uid"@, u)],
        None => Seq::empty(),
    }
    &&& p.last() == (3nat, name, Seq::<(Seq<char>, Seq<char>)>::empty(), Seq::<u8>::empty())
    &&& exists|pfx: Seq<Seq<(Seq<char>, Seq<char>)>>, cuts: Seq<int>|
        #[trigger] property_split(pfx, cuts)
            && items_output(r, sets, inner_visited(visited, items), names, class_props(r, c), items, p.subrange(1, p.len() - 1), pfx, cuts, fuel)
}

/// The instance UIDs of the objects being written while the properties of a
/// group with items `items` are: those around it, and its own where it has
/// one.
pub open spec fn inner_visited(visited: Seq<Auid>, items: Seq<(Auid, Seq<u8>)>) -> Seq<Auid> {
    match group_uid_view(items) {
        Some(u) => visited.push(u),
        None => visited,
    }
}

/// Holds of every list of prefix lists and list of positions; it names those
/// that [`group_element`] speaks of, so that a proof can point at them.
pub open spec fn property_split(pfx: Seq<Seq<(Seq<char>, Seq<char>)>>, cuts: Seq<int>) -> bool {
    cuts.len() >= 0 && pfx.len() >= 0
}

/// Holds of every prefix list; it names the one that [`strong_ref_output`]
/// speaks of, so that a proof can point at it.
pub open spec fn prefixes_then(prefixes: Seq<(Seq<char>, Seq<char>)>) -> bool {
    prefixes.len() >= 0
}

/// The events of a strong reference: shorter data than an instance UID in
/// hex; the reference's URN where no set in `sets` has that instance UID;
/// else the object it names: nothing where the set's key names no class, or
/// where the set's own instance UID is among `visited` (the objects being
/// written around the reference: a reference back), else the set's element
/// (see [`group_element`]), with the prefixes handed out by then.
pub open spec fn strong_ref_output<R: DefinitionResolver>(
    r: &R,
    sets: Map<Auid, GroupView>,
    visited: Seq<Auid>,
    names: spec_fn(Auid) -> Option<Seq<char>>,
    data: Seq<u8>,
    p: Seq<EventTuple>,
    fuel: nat,
) -> bool
    decreases fuel, 0nat,
{
    if data.len() < 16 {
        p == seq![tx(hex_spaced(data))]
    } else if !sets.contains_key(bytes_auid(data.take(16))) {
        p == seq![tx(auid_text(data))]
    } else {
        let g = sets[bytes_auid(data.take(16))];
        match class_of_key(r, g.0) {
            Some(c) => if group_uid_view(g.1) matches Some(u) && visited.contains(u) {
                p.len() == 0
            } else {
                fuel == 0 || exists|prefixes: Seq<(Seq<char>, Seq<char>)>|
                    #[trigger] prefixes_then(prefixes) && group_element(r, sets, visited, names, p, prefixes, c, g.1, (fuel - 1) as nat)
            },
            None => p.len() == 0,
        }
    }
}

/// Runs of events after `a`: those up to `b`, then those after `b`.
proof fn lemma_produced_split(a: Seq<XmlEvent>, b: Seq<XmlEvent>, c: Seq<XmlEvent>)
    requires
        a.len() <= b.len() <= c.len(),
        b.take(a.len() as int) == a,
        c.take(b.len() as int) == b,
    ensures
        produced(a, c) == produced(a, b) + produced(b, c),
        produced(a, c).take(b.len() - a.len()) == produced(a, b),
        produced(a, c).skip(b.len() - a.len()) == produced(b, c),
{
    assert(c.skip(a.len() as int) =~= b.skip(a.len() as int) + c.skip(b.len() as int)) by {
        assert forall|i: int| 0 <= i < b.len() - a.len() implies c.skip(a.len() as int)[i] == b.skip(a.len() as int)[i] by {
            assert(c.take(b.len() as int)[a.len() + i] == b[a.len() + i]);
        }
    }
    assert(produced(a, c) =~= produced(a, b) + produced(b, c));
    assert(produced(a, c).take(b.len() - a.len()) =~= produced(a, b));
    assert(produced(a, c).skip(b.len() - a.len()) =~= produced(b, c));
}

/// Rule 3: a group becomes an element named after its class, holding one
/// element per property.
#[verifier::rlimit(60)]
fn apply_rule3<'dict, R: DefinitionResolver>(
    ctx: &Context<'dict, R>,
    st: &mut State,
    group: &LocalSet,
    out: &mut Vec<XmlEvent>,
    visited: &mut Vec<Auid>,
    depth: u32,
) -> (r: Result<(), FragmentError>)
    requires
        classes_acyclic(ctx.resolver),
        depth <= MAX_NESTING,
    ensures
        r is Ok ==> extends_balanced(old(out)@, final(out)@),
        r is Ok ==> final(visited)@ == old(visited)@,
        (final(st).handler is None) == (old(st).handler is None),
        old(st).handler is None ==> !(r matches Err(FragmentError::Fatal(_))),
        class_of_key(ctx.resolver, group.key) is None ==> (r is Ok ==> final(out)@ == old(out)@),
        class_of_key(ctx.resolver, group.key) is None && old(st).handler is None ==> r is Ok,
        r is Ok && circular(group.items@, old(visited)@) ==> final(out)@ == old(out)@,
        r is Ok && !circular(group.items@, old(visited)@) ==> match class_of_key(ctx.resolver, group.key) {
            Some(c) => group_element(
                ctx.resolver,
                sets_view(assoc_map(ctx.sets@)),
                old(visited)@, namer_names(&ctx.namer),
                produced(old(out)@, final(out)@),
                prefix_entries(old(st).prefixes@),
                c,
                items_view(group.items@),
                (MAX_NESTING - depth) as nat,
            ),
            None => true,
        },
        r is Ok ==> group_fits(ctx.resolver, sets_view(assoc_map(ctx.sets@)), group.key, items_view(group.items@), old(visited)@, (MAX_NESTING - depth) as nat),
        group_fits(ctx.resolver, sets_view(assoc_map(ctx.sets@)), group.key, items_view(group.items@), old(visited)@, (MAX_NESTING - depth) as nat) ==> (r is Ok || r matches Err(FragmentError::Fatal(_))),
        class_of_key(ctx.resolver, group.key) is None ==> final(st).events@ == old(st).events@.push(
            (EventCode::UnknownGroup, EventSeverity::Warn, spec_auid_urn(group.key), "group key not found in dictionary"@),
        ),
        class_of_key(ctx.resolver, group.key) is Some && depth < MAX_NESTING && circular(group.items@, old(visited)@)
            ==> final(st).events@ == old(st).events@.push(
            (EventCode::CircularStrongReference, EventSeverity::Warn, spec_auid_urn(group_uid(group.items@)->0),
                "circular strong reference detected"@),
        ),
        class_of_key(ctx.resolver, group.key) is None ==> final(out)@ == old(out)@,
        (class_of_key(ctx.resolver, group.key) is None && r is Err)
            ==> (r->Err_0 matches FragmentError::Fatal(m) && m@ == "group key not found in dictionary"@),
    decreases MAX_NESTING - depth, 9nat,
{
    proof {
        lemma_extends_refl(out@);
    }
    let ghost p0 = prefix_entries(st.prefixes@);
    let cd = match lookup_class(ctx.resolver, &group.key) {
        Some(c) => c,
        None => {
            return fire_event(st, EventCode::UnknownGroup, EventSeverity::Warn, group.key.to_string(), "group key not found in dictionary");
        },
    };
    if depth >= MAX_NESTING {
        return Err(nesting_error());
    }
    let iuid_bytes = make_ul(1, 1, 1, 1, 1, 1, 0x15, 2);
    let iuid_auid = Auid::from_bytes(iuid_bytes);
    proof {
        lemma_auid_of_bytes_unique(iuid_bytes@, iuid_auid);
    }
    let iuid_norm = ul_zero_version(iuid_auid);
    let instance_uid: Option<Auid> = match find_item(&group.items, &iuid_norm) {
        Some(item) => if item.value.len() == 16 {
            let b = array16(item.value.as_slice());
            let a = Auid::from_bytes(b);
            proof {
                assert(b@ =~= item.value@);
                lemma_auid_of_bytes_unique(b@, a);
            }
            Some(a)
        } else {
            None
        },
        None => None,
    };
    proof {
        assert(iuid_bytes@ == instance_uid_ul());
        assert(iuid_norm == instance_uid_key());
    }
    assert(instance_uid == group_uid(group.items@));
    let ghost v0 = visited@;
    proof {
        lemma_group_uid_view(group.items@);
    }
    if let Some(uid) = instance_uid {
        if contains_auid(visited, &uid) {
            return fire_event(st, EventCode::CircularStrongReference, EventSeverity::Warn, uid.to_string(), "circular strong reference detected");
        }
        visited.push(uid);
    }
    let all_props = get_all_members_of(ctx.resolver, cd);
    let reg_uid = unique_id_text(&group.items, &all_props, &iuid_norm, false);
    let prefix = ns_prefix(st, cd.namespace.as_str());
    let elem_name = qualified(prefix.as_str(), cd.symbol.as_str());
    let mut attrs: Vec<(String, String)> = Vec::new();
    attrs.push((String::from_str("xmlns:reg"), String::from_str(REGXML_NS)));
    let mut more = ns_attrs(cd.namespace.as_str(), prefix.as_str());
    attrs.append(&mut more);
    if let Some(u) = reg_uid {
        attrs.push((String::from_str("reg:uid"), u));
    }
    proof {
        let c = cd@;
        let decls = seq![("xmlns:reg"@, REGXML_NS@)] + ns_decls(c.common.namespace, prefix_for(p0, c.common.namespace));
        reveal_strlit("reg:uid");
        assert(attrs_view(attrs@) =~= decls + match unique_id_at(all_props.map(), items_view(group.items@), false, 0) {
            Some(u) => seq![("reg:uid"@, u)],
            None => Seq::empty(),
        });
    }
    let ghost before = out@;
    let st_ev = XmlEvent::Start(elem_name.clone(), attrs);
    out.push(st_ev);
    let ghost mid = out@;
    proof {
        lemma_extends_refl(mid);
    }
    let ghost iv = items_view(group.items@);
    let ghost props = all_props.map();
    let ghost sv = sets_view(assoc_map(ctx.sets@));
    let ghost d: nat = (MAX_NESTING - depth) as nat;
    let ghost gf = group_fits(ctx.resolver, sv, group.key, iv, v0, d);
    proof {
        assert(class_of_key(ctx.resolver, group.key) == Some(cd@));
        assert(props == class_props(ctx.resolver, cd@));
        assert(!(group_uid_view(iv) matches Some(u) && v0.contains(u)));
        assert(visited@ == match group_uid_view(iv) {
            Some(u) => v0.push(u),
            None => v0,
        });
    }
    let ghost mut pfx: Seq<Seq<(Seq<char>, Seq<char>)>> = Seq::empty();
    let ghost mut cuts: Seq<int> = Seq::empty();
    proof {
        assert(produced(mid, out@) =~= Seq::<EventTuple>::empty());
    }
    let mut i: usize = 0;
    while i < group.items.len()
        invariant
            all_props.wf(),
            props == all_props.map(),
            iv == items_view(group.items@),
            i <= group.items@.len(),
            extends_balanced(mid, out@),
            visited@ == (if instance_uid is Some { v0.push(instance_uid->0) } else { v0 }),
            (st.handler is None) == (old(st).handler is None),
            depth < MAX_NESTING,
            classes_acyclic(ctx.resolver),
            class_of_key(ctx.resolver, group.key) is Some,
            items_output(ctx.resolver, sets_view(assoc_map(ctx.sets@)), visited@, namer_names(&ctx.namer), props, iv.take(i as int), produced(mid, out@), pfx, cuts, (MAX_NESTING - depth) as nat),
            sv == sets_view(assoc_map(ctx.sets@)),
            d == MAX_NESTING - depth,
            gf == group_fits(ctx.resolver, sv, group.key, iv, v0, d),
            v0 == old(visited)@,
            !circular(group.items@, v0),
            gf ==> forall|j: int| #[trigger] picked(j) && 0 <= j < iv.len()
                ==> (props.get(zero_version(iv[j].0)) matches Some(pd) ==> property_fits(ctx.resolver, sv, pd, iv[j].1, visited@, d)),
            forall|j: int| #[trigger] picked(j) && 0 <= j < i
                ==> (props.get(zero_version(iv[j].0)) matches Some(pd) ==> property_fits(ctx.resolver, sv, pd, iv[j].1, visited@, d)),
        decreases group.items.len() - i,
    {
        let item = &group.items[i];
        let key = ul_zero_version(item.key);
        let ghost o1 = out@;
        let ghost pf1 = prefix_entries(st.prefixes@);
        proof {
            assert(iv.take(i + 1).drop_last() =~= iv.take(i as int));
            assert(iv.take(i + 1).last() == (item.key, item.value@));
        }
        proof {
            assert(picked(i as int));
            assert(iv[i as int] == (item.key, item.value@));
        }
        match all_props.get(&key) {
            Some(pd) => {
                proof {
                    assert(props.get(zero_version(item.key)) == Some(pd@));
                    assert(gf ==> property_fits(ctx.resolver, sv, pd@, item.value@, visited@, d));
                }
                let ghost vb = visited@;
                let rr = apply_rule4(ctx, st, pd, item.value.as_slice(), out, visited, depth);
                proof {
                    assert(gf ==> property_fits(ctx.resolver, sv, pd@, item.value@, vb, d));
                    assert(gf ==> (rr is Ok || rr matches Err(FragmentError::Fatal(_))));
                }
                match rr {
                    Ok(()) => {
                        proof {
                            lemma_extends_trans(mid, o1, out@);
                            let k = o1.len() - mid.len();
                            lemma_produced_split(mid, o1, out@);
                            let old_pfx = pfx;
                            let old_cuts = cuts;
                            pfx = pfx.push(pf1);
                            cuts = cuts.push(k);
                            assert(pfx.drop_last() =~= old_pfx);
                            assert(cuts.drop_last() =~= old_cuts);
                            let pp = produced(mid, out@);
                            assert(pp.take(k) == produced(mid, o1));
                            assert(pp.skip(k) == produced(o1, out@));
                            assert(props.get(zero_version(item.key)) == Some(pd@));
                            assert(items_output(ctx.resolver, sets_view(assoc_map(ctx.sets@)), visited@, namer_names(&ctx.namer), props, iv.take(i + 1), pp, pfx, cuts, (MAX_NESTING - depth) as nat));
                        }
                    },
                    Err(e) => return Err(e),
                }
            },
            None => {
                match fire_event(st, EventCode::UnknownProperty, EventSeverity::Warn, item.key.to_string(), "property key not found in dictionary") {
                    Ok(()) => {},
                    Err(e) => return Err(e),
                }
                proof {
                    assert(props.get(zero_version(item.key)) is None);
                    assert(items_output(ctx.resolver, sets_view(assoc_map(ctx.sets@)), visited@, namer_names(&ctx.namer), props, iv.take(i + 1), produced(mid, out@), pfx, cuts, (MAX_NESTING - depth) as nat));
                }
            },
        }
        i = i + 1;
    }
    proof {
        assert(iv.take(i as int) =~= iv);
    }
    let ghost inner = out@;
    let en_ev = XmlEvent::End(elem_name);
    out.push(en_ev);
    proof {
        lemma_extends_wrap(before, st_ev, inner, en_ev);
        let fin = out@;
        assert(fin[before.len() as int] == st_ev) by {
            assert(inner.take(mid.len() as int)[before.len() as int] == mid[before.len() as int]);
        }
        let p = produced(before, fin);
        assert(p[0] == event_tuple(st_ev));
        assert(p.last() == event_tuple(en_ev));
        assert(inner.take(before.len() as int + 1) =~= before.push(st_ev)) by {
            assert(inner.take(mid.len() as int) == mid);
        }
        lemma_wrapped_parts(before, st_ev, inner, en_ev);
        assert(props == class_props(ctx.resolver, cd@));
        assert(items_output(ctx.resolver, sets_view(assoc_map(ctx.sets@)), visited@, namer_names(&ctx.namer), props, iv, p.subrange(1, p.len() - 1), pfx, cuts, (MAX_NESTING - depth) as nat));
        assert(property_split(pfx, cuts));
        assert(group_fits(ctx.resolver, sv, group.key, iv, v0, d));
    }
    if instance_uid.is_some() {
        visited.pop();
    }
    Ok(())
}

/// The element name of property `pd`: the prefix of its namespace, a colon,
/// its symbol.
pub open spec fn property_name(prefixes: Seq<(Seq<char>, Seq<char>)>, pd: PropertyView) -> Seq<char> {
    prefix_for(prefixes, pd.common.namespace) + seq![':'] + pd.common.symbol
}

/// LinkedGenerationID, GenerationID and ApplicationProductID, written as
/// `urn:uuid:` text whatever their type.
pub open spec fn is_uuid_override(id: Auid) -> bool {
    is_ul(id, uuid_override_ul(8)) || is_ul(id, uuid_override_ul(1)) || is_ul(id, uuid_override_ul(7))
}

/// What the value of property `pd` becomes inside its element: the bytes
/// in hex where the property's type is unknown; `urn:uuid:` text for the
/// UUID-valued identifiers; `BigEndian`/`LittleEndian` for ByteOrder; else
/// the value by its type's base type (see [`value_output`]).
pub open spec fn property_value_output<R: DefinitionResolver>(
    r: &R,
    sets: Map<Auid, GroupView>,
    visited: Seq<Auid>,
    names: spec_fn(Auid) -> Option<Seq<char>>,
    pd: PropertyView,
    data: Seq<u8>,
    inner: Seq<EventTuple>,
    fuel: nat,
) -> bool
    decreases fuel, 5nat,
{
    match r.spec_definition(pd.property_type) {
        Some(DefinitionView::Type(t)) => if is_uuid_override(pd.common.id) {
            inner == seq![tx(if data.len() == 16 { uuid_urn(data) } else { hex_spaced(data) })]
        } else if zero_version(pd.common.id) == zero_version(bytes_auid(byte_order_ul())) {
            inner == seq![tx(match byte_order_name(data) {
                Some(n) => n,
                None => hex_spaced(data),
            })]
        } else {
            value_output(r, sets, visited, names, base_type(r, t, 32), data, inner, fuel)
        },
        _ => inner == seq![tx(hex_spaced(data))],
    }
}

/// The events of the element of property `pd`: a start tag named after the
/// property (declaring the property's namespace, where its type is known),
/// the value's events (see [`property_value_output`]), the end tag.
pub open spec fn property_element<R: DefinitionResolver>(
    r: &R,
    sets: Map<Auid, GroupView>,
    visited: Seq<Auid>,
    names: spec_fn(Auid) -> Option<Seq<char>>,
    p: Seq<EventTuple>,
    prefixes: Seq<(Seq<char>, Seq<char>)>,
    pd: PropertyView,
    data: Seq<u8>,
    fuel: nat,
) -> bool
    decreases fuel, 6nat,
{
    let name = property_name(prefixes, pd);
    let decls = if r.spec_definition(pd.property_type) matches Some(DefinitionView::Type(_)) {
        ns_decls(pd.common.namespace, prefix_for(prefixes, pd.common.namespace))
    } else {
        Seq::empty()
    };
    &&& p.len() >= 2
    &&& p[0] == (1nat, name, decls, Seq::<u8>::empty())
    &&& p.last() == (3nat, name, Seq::<(Seq<char>, Seq<char>)>::empty(), Seq::<u8>::empty())
    &&& property_value_output(r, sets, visited, names, pd, data, p.subrange(1, p.len() - 1), fuel)
}

/// A start tag, what follows it, and an end tag: the events produced are the
/// start tag's, those after it, and the end tag's.
proof fn lemma_wrapped_parts(before: Seq<XmlEvent>, st: XmlEvent, inner: Seq<XmlEvent>, en: XmlEvent)
    requires
        before.len() + 1 <= inner.len(),
        inner.take(before.len() as int + 1) == before.push(st),
    ensures
        ({
            let p = produced(before, inner.push(en));
            &&& p.len() >= 2
            &&& p[0] == event_tuple(st)
            &&& p.last() == event_tuple(en)
            &&& p.subrange(1, p.len() - 1) == produced(before.push(st), inner)
        }),
{
    let p = produced(before, inner.push(en));
    assert(inner.push(en)[before.len() as int] == st) by {
        assert(inner.take(before.len() as int + 1)[before.len() as int] == st);
    }
    assert(p.subrange(1, p.len() - 1) =~= produced(before.push(st), inner));
}

/// Rule 4: a property becomes an element named after it, holding its value.
fn apply_rule4<'dict, R: DefinitionResolver>(
    ctx: &Context<'dict, R>,
    st: &mut State,
    pd: &PropertyDefinition,
    data: &[u8],
    out: &mut Vec<XmlEvent>,
    visited: &mut Vec<Auid>,
    depth: u32,
) -> (r: Result<(), FragmentError>)
    requires
        classes_acyclic(ctx.resolver),
        depth < MAX_NESTING,
    ensures
        r is Ok ==> extends_balanced(old(out)@, final(out)@),
        r is Ok ==> final(visited)@ == old(visited)@,
        (final(st).handler is None) == (old(st).handler is None),
        old(st).handler is None ==> !(r matches Err(FragmentError::Fatal(_))),
        r is Ok ==> property_element(
            ctx.resolver,
            sets_view(assoc_map(ctx.sets@)),
            old(visited)@, namer_names(&ctx.namer),
            produced(old(out)@, final(out)@),
            prefix_entries(old(st).prefixes@),
            pd@,
            data@,
            (MAX_NESTING - depth) as nat,
        ),
        r is Ok ==> property_fits(ctx.resolver, sets_view(assoc_map(ctx.sets@)), pd@, data@, old(visited)@, (MAX_NESTING - depth) as nat),
        property_fits(ctx.resolver, sets_view(assoc_map(ctx.sets@)), pd@, data@, old(visited)@, (MAX_NESTING - depth) as nat) ==> (r is Ok || r matches Err(FragmentError::Fatal(_))),
        (match ctx.resolver.spec_definition(pd.property_type) {
            Some(DefinitionView::Type(_)) => is_uuid_override(pd.identification)
                || zero_version(pd.identification) == zero_version(bytes_auid(byte_order_ul())),
            _ => true,
        }) ==> final(st).events@ == old(st).events@,
    decreases MAX_NESTING - depth, 8nat,
{
    let is_uuid_override = auid_is_ul(&pd.identification, &uuid_override_key(8))
        || auid_is_ul(&pd.identification, &uuid_override_key(1))
        || auid_is_ul(&pd.identification, &uuid_override_key(7));
    let ghost before = out@;
    let td = match ctx.resolver.get_definition(&pd.property_type) {
        Some(Definition::Type(td)) => td,
        _ => {
            // Unknown type: the raw bytes in hex.
            let prefix = ns_prefix(st, pd.namespace.as_str());
            let elem_name = qualified(prefix.as_str(), pd.symbol.as_str());
            let a: Vec<(String, String)> = Vec::new();
            let st_ev = XmlEvent::Start(elem_name.clone(), a);
            out.push(st_ev);
            let ghost mid = out@;
            write_text(out, hex_bytes(data));
            let ghost inner = out@;
            let en_ev = XmlEvent::End(elem_name);
            out.push(en_ev);
            proof {
                lemma_extends_wrap(before, st_ev, inner, en_ev);
                assert(inner.take(before.len() as int + 1) =~= before.push(st_ev));
                lemma_wrapped_parts(before, st_ev, inner, en_ev);
                assert(attrs_view(a@) =~= Seq::<(Seq<char>, Seq<char>)>::empty());
            }
            return Ok(());
        },
    };
    let prefix = ns_prefix(st, pd.namespace.as_str());
    let elem_name = qualified(prefix.as_str(), pd.symbol.as_str());
    let st_ev = XmlEvent::Start(elem_name.clone(), ns_attrs(pd.namespace.as_str(), prefix.as_str()));
    out.push(st_ev);
    let ghost mid = out@;
    let bo_norm = ul_zero_version(Auid::from_bytes(byte_order_key()));
    if is_uuid_override {
        let t = if data.len() == 16 {
            format_uuid_bytes(data)
        } else {
            hex_bytes(data)
        };
        write_text(out, t);
    } else if ul_zero_version(pd.identification).same(&bo_norm) {
        let t = match decode_byte_order(data) {
            Some(t) => t,
            None => hex_bytes(data),
        };
        write_text(out, t);
    } else {
        match apply_rule5(ctx, st, td, data, out, visited, depth) {
            Ok(()) => {},
            Err(e) => return Err(e),
        }
    }
    let ghost inner = out@;
    let en_ev = XmlEvent::End(elem_name);
    out.push(en_ev);
    proof {
        lemma_extends_wrap(before, st_ev, inner, en_ev);
        assert(inner.take(before.len() as int + 1) =~= before.push(st_ev)) by {
            assert(inner.take(mid.len() as int) == mid);
        }
        lemma_wrapped_parts(before, st_ev, inner, en_ev);
    }
    Ok(())
}

/// The text of a Character value: UTF-16BE for the `Character` type, ASCII
/// for `Char`, UTF-8 otherwise.
pub open spec fn character_text(id: Auid, data: Seq<u8>) -> Seq<char> {
    if is_ul(id, type_ul(1, 0x10, 1)) {
        utf16_text(data, true, false)
    } else if is_ul(id, type_ul(1, 0x10, 3)) {
        escape_text(ascii_chars(data, false))
    } else {
        escape_text(utf8_chars(data, false))
    }
}

/// The text of a String value by its element type: ASCII for `Char`
/// elements, UTF-8 for `UTF8Character` ones, UTF-16BE otherwise; trailing
/// NULs removed.
pub open spec fn string_text(element_type: Auid, data: Seq<u8>) -> Seq<char> {
    if is_ul(element_type, type_ul(1, 0x10, 3)) {
        escape_text(ascii_chars(data, true))
    } else if is_ul(element_type, type_ul(1, 0x10, 5)) {
        escape_text(utf8_chars(data, true))
    } else {
        utf16_text(data, true, true)
    }
}

/// The text of a record of one of the types with a text form of their own
/// (AUID, UUID, PackageID, Rational, DateStruct, TimeStruct, TimeStamp,
/// VersionType), or `None` for another record type.
pub open spec fn record_text(id: Auid, data: Seq<u8>) -> Option<Seq<char>> {
    if is_ul(id, smpte_ul(seq![1u8, 4, 1, 1, 1, 3, 1, 0])) {
        Some(auid_text(data))
    } else if is_ul(id, smpte_ul(seq![1u8, 4, 1, 1, 1, 3, 3, 0])) {
        Some(uuid_text(data))
    } else if is_ul(id, smpte_ul(seq![1u8, 4, 1, 1, 1, 3, 2, 0])) {
        Some(package_id_text(data))
    } else if is_ul(id, smpte_ul(seq![1u8, 4, 1, 1, 3, 1, 1, 0])) {
        Some(rational_text(data))
    } else if is_ul(id, smpte_ul(seq![1u8, 4, 1, 1, 3, 1, 5, 0])) {
        Some(date_text(data))
    } else if is_ul(id, smpte_ul(seq![1u8, 4, 1, 1, 3, 1, 6, 0])) {
        Some(time_text(data))
    } else if is_ul(id, smpte_ul(seq![1u8, 4, 1, 1, 3, 1, 7, 0])) {
        Some(timestamp_text(data))
    } else if is_ul(id, smpte_ul(seq![1u8, 4, 1, 1, 3, 1, 3, 0])) {
        Some(version_text(data))
    } else {
        None
    }
}

/// The UL of the UUID type.
pub open spec fn uuid_type_ul() -> Seq<u8> {
    smpte_ul(seq![1u8, 4, 1, 1, 1, 3, 3, 0])
}

/// `n` items of `size` bytes each, from the start of `data`, each as an
/// element `tag` (declaring `decls`) that holds the item's value of type
/// `t` (see [`value_output`]); item `k`'s events begin at `cuts[k]` in `p`.
pub open spec fn wrapped_items<R: DefinitionResolver>(
    r: &R,
    sets: Map<Auid, GroupView>,
    visited: Seq<Auid>,
    names: spec_fn(Auid) -> Option<Seq<char>>,
    t: TypeDefView,
    data: Seq<u8>,
    size: nat,
    n: nat,
    tag: Seq<char>,
    decls: Seq<(Seq<char>, Seq<char>)>,
    p: Seq<EventTuple>,
    cuts: Seq<int>,
    fuel: nat,
) -> bool
    decreases fuel, n + 4,
{
    if n == 0 {
        p.len() == 0 && cuts.len() == 0
    } else {
        let q = p.skip(cuts.last());
        &&& cuts.len() == n
        &&& 0 <= cuts.last() <= p.len()
        &&& wrapped_items(r, sets, visited, names, t, data, size, (n - 1) as nat, tag, decls, p.take(cuts.last()), cuts.drop_last(), fuel)
        &&& q.len() >= 2
        &&& q[0] == (1nat, tag, decls, Seq::<u8>::empty())
        &&& q.last() == (3nat, tag, Seq::<(Seq<char>, Seq<char>)>::empty(), Seq::<u8>::empty())
        &&& value_output(r, sets, visited, names, base_type(r, t, 32), data.subrange(((n - 1) * size) as int, (n * size) as int), q.subrange(1, q.len() - 1), fuel)
    }
}

/// The events of `n` items of type `t`, `size` bytes each, from the start of
/// `data`: each item an element named after the type (a namespace prefix, a
/// colon, the type's symbol) that holds its value; nothing is stated of
/// items that are strong references.
pub open spec fn items_value<R: DefinitionResolver>(
    r: &R,
    sets: Map<Auid, GroupView>,
    visited: Seq<Auid>,
    names: spec_fn(Auid) -> Option<Seq<char>>,
    t: TypeDefView,
    data: Seq<u8>,
    size: nat,
    n: nat,
    p: Seq<EventTuple>,
    fuel: nat,
) -> bool
    decreases fuel, 0nat,
{
    if fuel == 0 {
        true
    } else if base_type(r, t, 32) is StrongReference {
        exists|cuts: Seq<int>| #[trigger] ref_split(cuts) && refs_items(r, sets, visited, names, data, size, n, p, cuts, (fuel - 1) as nat)
    } else {
        exists|pre: Seq<char>, cuts: Seq<int>|
            #[trigger] split_at(pre, cuts) && wrapped_items(
                r,
                sets,
                visited, names,
                t,
                data,
                size,
                n,
                pre + seq![':'] + type_common(t).symbol,
                ns_decls(type_common(t).namespace, pre),
                p,
                cuts,
                (fuel - 1) as nat,
            )
    }
}

/// The events of `n` strong references of `size` bytes each, from the start
/// of `data`, one after another (see [`strong_ref_output`]); reference `k`'s
/// events are those of `p` from `cuts[k]` up to `cuts[k + 1]`.
pub open spec fn refs_items<R: DefinitionResolver>(
    r: &R,
    sets: Map<Auid, GroupView>,
    visited: Seq<Auid>,
    names: spec_fn(Auid) -> Option<Seq<char>>,
    data: Seq<u8>,
    size: nat,
    n: nat,
    p: Seq<EventTuple>,
    cuts: Seq<int>,
    fuel: nat,
) -> bool
    decreases fuel, 1nat,
{
    &&& cuts.len() == n + 1
    &&& cuts[0] == 0
    &&& cuts[n as int] == p.len()
    &&& forall|k: int| #[trigger] picked(k) && 0 <= k < n ==> {
        &&& 0 <= cuts[k] <= cuts[k + 1] <= p.len()
        &&& strong_ref_output(r, sets, visited, names, data.subrange(k * size, (k + 1) * size), p.subrange(cuts[k], cuts[k + 1]), fuel)
    }
}

/// Holds of every list of positions; it names the positions where strong
/// references begin that [`value_output`] speaks of, so that a proof can
/// point at them.
pub open spec fn ref_split(cuts: Seq<int>) -> bool {
    cuts.len() >= 0
}

/// One more strong reference: its events, after those of the references
/// before it.
proof fn lemma_refs_step<R: DefinitionResolver>(
    r: &R,
    sets: Map<Auid, GroupView>,
    visited: Seq<Auid>,
    names: spec_fn(Auid) -> Option<Seq<char>>,
    data: Seq<u8>,
    size: nat,
    i: nat,
    p: Seq<EventTuple>,
    q: Seq<EventTuple>,
    cuts: Seq<int>,
    fuel: nat,
)
    requires
        refs_items(r, sets, visited, names, data, size, i, p, cuts, fuel),
        p.len() <= q.len(),
        q.take(p.len() as int) == p,
        strong_ref_output(r, sets, visited, names, data.subrange((i * size) as int, ((i + 1) * size) as int), q.skip(p.len() as int), fuel),
    ensures
        refs_items(r, sets, visited, names, data, size, i + 1, q, cuts.push(q.len() as int), fuel),
{
    let c2 = cuts.push(q.len() as int);
    assert forall|k: int| #[trigger] picked(k) && 0 <= k < i + 1 implies {
        &&& 0 <= c2[k] <= c2[k + 1] <= q.len()
        &&& strong_ref_output(r, sets, visited, names, data.subrange(k * size, (k + 1) * size), q.subrange(c2[k], c2[k + 1]), fuel)
    } by {
        if k < i {
            assert(picked(k));
            assert(q.subrange(cuts[k], cuts[k + 1]) =~= p.subrange(cuts[k], cuts[k + 1])) by {
                assert forall|x: int| 0 <= x < cuts[k + 1] - cuts[k] implies #[trigger] q.subrange(cuts[k], cuts[k + 1])[x] == p.subrange(cuts[k], cuts[k + 1])[x] by {
                    assert(q.take(p.len() as int)[cuts[k] + x] == p[cuts[k] + x]);
                }
            }
        } else {
            assert(q.subrange(p.len() as int, q.len() as int) =~= q.skip(p.len() as int));
        }
    }
}

/// Holds of every namespace prefix and list of positions; it names the
/// prefix and the positions where items begin that [`items_value`] speaks of,
/// so that a proof can point at them.
pub open spec fn split_at(pre: Seq<char>, cuts: Seq<int>) -> bool {
    cuts.len() >= 0 && pre.len() >= 0
}

/// Where member `i` of a record ends when it begins at `cursor` (the data
/// being `dl` bytes): after its type's fixed size, or at the end for the
/// last member and for a member of no fixed size; `None` where the member's
/// type is unknown or the data ends first (the member is not written).
pub open spec fn member_end<R: DefinitionResolver>(r: &R, ms: Seq<(Seq<char>, Auid)>, i: int, cursor: nat, dl: nat) -> Option<nat> {
    match r.spec_definition(ms[i].1) {
        Some(DefinitionView::Type(t)) => if i == ms.len() - 1 {
            if cursor >= dl {
                None
            } else {
                Some(dl)
            }
        } else {
            match size_fits(type_size(r, t, MAX_NESTING as nat)) {
                Some(s) => if cursor + s > dl {
                    None
                } else {
                    Some((cursor + s) as nat)
                },
                None => Some(dl),
            }
        },
        _ => None,
    }
}

/// Whether the members after member `i` are looked at: not after a member,
/// other than the last, of no fixed size.
pub open spec fn member_goes_on<R: DefinitionResolver>(r: &R, ms: Seq<(Seq<char>, Auid)>, i: int) -> bool {
    i == ms.len() - 1 || (r.spec_definition(ms[i].1) matches Some(DefinitionView::Type(t))
        && size_fits(type_size(r, t, MAX_NESTING as nat)) is Some)
}

/// Where member `i` of a record begins, or `None` where the members before
/// it ended the record.
pub open spec fn member_start<R: DefinitionResolver>(r: &R, ms: Seq<(Seq<char>, Auid)>, i: nat, dl: nat) -> Option<nat>
    decreases i,
{
    if i == 0 {
        Some(0)
    } else {
        match member_start(r, ms, (i - 1) as nat, dl) {
            Some(c) => match member_end(r, ms, i - 1, c, dl) {
                Some(e) => if member_goes_on(r, ms, i - 1) {
                    Some(e)
                } else {
                    None
                },
                None => None,
            },
            None => None,
        }
    }
}

/// The events of members `0..n` of a record of namespace `ns`: each member
/// that is written (see [`member_end`]) as an element named after it (a
/// prefix from `pres`, a colon, its name) that holds its value; `cuts` are
/// where their events begin in `p`.
pub open spec fn record_items<R: DefinitionResolver>(
    r: &R,
    sets: Map<Auid, GroupView>,
    visited: Seq<Auid>,
    names: spec_fn(Auid) -> Option<Seq<char>>,
    ns: Seq<char>,
    ms: Seq<(Seq<char>, Auid)>,
    data: Seq<u8>,
    n: nat,
    p: Seq<EventTuple>,
    pres: Seq<Seq<char>>,
    cuts: Seq<int>,
    fuel: nat,
) -> bool
    decreases fuel, n + 4,
{
    if n == 0 {
        p.len() == 0 && pres.len() == 0 && cuts.len() == 0
    } else {
        let i = n - 1;
        match member_start(r, ms, i as nat, data.len()) {
            Some(c) => match member_end(r, ms, i, c, data.len()) {
                Some(e) => {
                    let q = p.skip(cuts.last());
                    let tag = pres.last() + seq![':'] + ms[i].0;
                    &&& cuts.len() > 0
                    &&& pres.len() == cuts.len()
                    &&& 0 <= cuts.last() <= p.len()
                    &&& record_items(r, sets, visited, names, ns, ms, data, i as nat, p.take(cuts.last()), pres.drop_last(), cuts.drop_last(), fuel)
                    &&& q.len() >= 2
                    &&& q[0] == (1nat, tag, ns_decls(ns, pres.last()), Seq::<u8>::empty())
                    &&& q.last() == (3nat, tag, Seq::<(Seq<char>, Seq<char>)>::empty(), Seq::<u8>::empty())
                    &&& r.spec_definition(ms[i].1) matches Some(DefinitionView::Type(t))
                        && value_output(r, sets, visited, names, base_type(r, t, 32), data.subrange(c as int, e as int), q.subrange(1, q.len() - 1), fuel)
                },
                None => record_items(r, sets, visited, names, ns, ms, data, i as nat, p, pres, cuts, fuel),
            },
            None => record_items(r, sets, visited, names, ns, ms, data, i as nat, p, pres, cuts, fuel),
        }
    }
}

/// Holds of every list of prefixes and list of positions; it names those
/// that [`value_output`] speaks of for a record, so that a proof can point
/// at them.
pub open spec fn member_split(pres: Seq<Seq<char>>, cuts: Seq<int>) -> bool {
    cuts.len() >= 0 && pres.len() >= 0
}

/// The number of items a batch gives: its count, or as many whole items of
/// `len` bytes as `body_len` bytes hold, where that is fewer.
pub open spec fn batch_items(count: nat, len: nat, body_len: nat) -> nat {
    if count <= body_len / len {
        count
    } else {
        body_len / len
    }
}

/// The events of a batch of items of type `et` (a 4-byte count, a 4-byte
/// item length, the items): shorter data in hex; nothing for items of no
/// length; the whole value in hex where `et` is no known type; else the
/// items (see [`items_value`]).
pub open spec fn batch_output<R: DefinitionResolver>(
    r: &R,
    sets: Map<Auid, GroupView>,
    visited: Seq<Auid>,
    names: spec_fn(Auid) -> Option<Seq<char>>,
    et: Auid,
    data: Seq<u8>,
    p: Seq<EventTuple>,
    fuel: nat,
) -> bool
    decreases fuel, 1nat,
{
    if data.len() < 8 {
        p == seq![tx(hex_spaced(data))]
    } else {
        let count = be_value(data.subrange(0, 4));
        let len = be_value(data.subrange(4, 8));
        let body = data.subrange(8, data.len() as int);
        if len == 0 {
            p == Seq::<EventTuple>::empty()
        } else {
            match r.spec_definition(et) {
                Some(DefinitionView::Type(t)) => items_value(r, sets, visited, names, t, body, len, batch_items(count, len, body.len()), p, fuel),
                _ => p == seq![tx(hex_spaced(data))],
            }
        }
    }
}

/// The events of a variable array whose element type is `et`: the bytes in
/// compact hex where the element's base type is a one-byte integer, else a
/// batch (see [`batch_output`]).
pub open spec fn variable_array_output<R: DefinitionResolver>(
    r: &R,
    sets: Map<Auid, GroupView>,
    visited: Seq<Auid>,
    names: spec_fn(Auid) -> Option<Seq<char>>,
    et: Auid,
    data: Seq<u8>,
    p: Seq<EventTuple>,
    fuel: nat,
) -> bool
    decreases fuel, 2nat,
{
    if r.spec_definition(et) matches Some(DefinitionView::Type(t)) && base_type(r, t, 32) matches TypeDefView::Integer(_, 1, _) {
        p == seq![tx(hex_compact(data, false))]
    } else {
        batch_output(r, sets, visited, names, et, data, p, fuel)
    }
}

/// The 16 bytes of an indirect value's type identifier `b` as an AUID's
/// bytes: reordered where the value is little-endian (`L`).
pub open spec fn indirect_type_bytes(order: u8, b: Seq<u8>) -> Seq<u8> {
    if order == 0x4C {
        seq![b[8], b[9], b[10], b[11], b[12], b[13], b[14], b[15], b[3], b[2], b[1], b[0], b[5], b[4], b[7], b[6]]
    } else {
        b
    }
}

/// The events of an indirect value (a byte-order byte, a 16-byte type
/// identifier, the value): shorter data in hex; the value in hex where the
/// identifier names no type; a little-endian string as UTF-16LE text; else
/// the value by its type.
pub open spec fn indirect_output<R: DefinitionResolver>(
    r: &R,
    sets: Map<Auid, GroupView>,
    visited: Seq<Auid>,
    names: spec_fn(Auid) -> Option<Seq<char>>,
    data: Seq<u8>,
    p: Seq<EventTuple>,
    fuel: nat,
) -> bool
    decreases fuel, 2nat,
{
    if data.len() < 17 {
        p == seq![tx(hex_spaced(data))]
    } else {
        let order = data[0];
        let value = data.subrange(17, data.len() as int);
        match r.spec_definition(bytes_auid(indirect_type_bytes(order, data.subrange(1, 17)))) {
            Some(DefinitionView::Type(t)) => if order == 0x4C && base_type(r, t, 32) is String {
                p == seq![tx(utf16_text(value, false, true))]
            } else {
                fuel > 0 ==> value_output(r, sets, visited, names, base_type(r, t, 32), value, p, (fuel - 1) as nat)
            },
            _ => p == seq![tx(hex_spaced(value))],
        }
    }
}

/// Holds of every position; it names the position that the depth conditions
/// below speak of, so that a proof can point at it.
pub open spec fn picked(j: int) -> bool {
    j >= 0 || j < 0
}

/// The position, from `i` on, of the first item (as values) whose
/// version-normalised key is `k`.
pub open spec fn first_item_view(items: Seq<(Auid, Seq<u8>)>, k: Auid, i: int) -> Option<int>
    decreases items.len() - i,
{
    if i < 0 || i >= items.len() {
        None
    } else if zero_version(items[i].0) == k {
        Some(i)
    } else {
        first_item_view(items, k, i + 1)
    }
}

/// The instance UID of a group given as values (see [`group_uid`]).
pub open spec fn group_uid_view(items: Seq<(Auid, Seq<u8>)>) -> Option<Auid> {
    match first_item_view(items, instance_uid_key(), 0) {
        Some(i) => if items[i].1.len() == 16 {
            Some(bytes_auid(items[i].1))
        } else {
            None
        },
        None => None,
    }
}

/// The first item with a key, found on the items or on their values, is the
/// same one.
proof fn lemma_first_item_view(items: Seq<MemoryTriplet>, k: Auid, i: int)
    ensures
        first_item_at(items, k, i) == first_item_view(items_view(items), k, i),
    decreases items.len() - i,
{
    if 0 <= i < items.len() {
        assert(items_view(items)[i] == (items[i].key, items[i].value@));
        lemma_first_item_view(items, k, i + 1);
    }
}

/// A group's instance UID, found on its items or on their values, is the
/// same.
proof fn lemma_group_uid_view(items: Seq<MemoryTriplet>)
    ensures
        group_uid(items) == group_uid_view(items_view(items)),
{
    lemma_first_item_view(items, instance_uid_key(), 0);
    lemma_first_item_at(items, instance_uid_key(), 0);
    if first_item_at(items, instance_uid_key(), 0) is Some {
        let j = first_item_at(items, instance_uid_key(), 0)->0;
        assert(items_view(items)[j] == (items[j].key, items[j].value@));
    }
}

/// Whether writing a group with key `key` and items `items`, with the
/// instance UIDs `visited` of the objects being written around it, stays
/// within `d` levels of nesting ([`MAX_NESTING`] at the top): a group of a
/// known class takes a level, and so do the values of its properties and the
/// objects they reference (see [`value_fits`]). A group of no known class, or
/// one that is being written already, writes nothing and fits.
pub open spec fn group_fits<R: DefinitionResolver>(
    r: &R,
    sets: Map<Auid, GroupView>,
    key: Auid,
    items: Seq<(Auid, Seq<u8>)>,
    visited: Seq<Auid>,
    d: nat,
) -> bool
    decreases d, 5nat,
{
    match class_of_key(r, key) {
        None => true,
        Some(c) => if d == 0 {
            false
        } else if group_uid_view(items) matches Some(u) && visited.contains(u) {
            true
        } else {
            let inner = match group_uid_view(items) {
                Some(u) => visited.push(u),
                None => visited,
            };
            forall|j: int| #[trigger] picked(j) && 0 <= j < items.len() ==>
                (class_props(r, c).get(zero_version(items[j].0)) matches Some(pd)
                    ==> property_fits(r, sets, pd, items[j].1, inner, d))
        },
    }
}

/// Whether the value of property `pd` fits in `d` levels (see
/// [`group_fits`]): values written as text right away always do.
pub open spec fn property_fits<R: DefinitionResolver>(
    r: &R,
    sets: Map<Auid, GroupView>,
    pd: PropertyView,
    data: Seq<u8>,
    visited: Seq<Auid>,
    d: nat,
) -> bool
    decreases d, 4nat,
{
    match r.spec_definition(pd.property_type) {
        Some(DefinitionView::Type(t)) => is_uuid_override(pd.common.id)
            || zero_version(pd.common.id) == zero_version(bytes_auid(byte_order_ul()))
            || value_fits(r, sets, base_type(r, t, 32), data, visited, d),
        _ => true,
    }
}

/// Whether a value of base type `base` fits in `d` levels: the value takes
/// one, and its members, items, indirect value or referenced object are
/// written one level further in.
pub open spec fn value_fits<R: DefinitionResolver>(
    r: &R,
    sets: Map<Auid, GroupView>,
    base: TypeDefView,
    data: Seq<u8>,
    visited: Seq<Auid>,
    d: nat,
) -> bool
    decreases d, 3nat,
{
    if d == 0 {
        false
    } else {
        match base {
            TypeDefView::Record(c, ms) => record_text(c.id, data) is Some || forall|i: int|
                #[trigger] picked(i) && 0 <= i < ms.len() ==> (member_start(r, ms, i as nat, data.len()) matches Some(c0)
                    ==> (member_end(r, ms, i, c0, data.len()) matches Some(e)
                    ==> (r.spec_definition(ms[i].1) matches Some(DefinitionView::Type(t))
                    ==> value_fits(r, sets, base_type(r, t, 32), data.subrange(c0 as int, e as int), visited, (d - 1) as nat)))),
            TypeDefView::FixedArray(c, et, count) => is_ul(c.id, uuid_type_ul()) || count == 0 || data.len() == 0
                || match r.spec_definition(et) {
                Some(DefinitionView::Type(t)) => {
                    let size = data.len() / (count as nat);
                    forall|i: int| #[trigger] picked(i) && 0 <= i < count ==> {
                        let slice = data.subrange(i * size, (i + 1) * size);
                        if base_type(r, t, 32) is StrongReference {
                            strong_ref_fits(r, sets, slice, visited, d)
                        } else {
                            value_fits(r, sets, base_type(r, t, 32), slice, visited, (d - 1) as nat)
                        }
                    }
                },
                _ => true,
            },
            TypeDefView::VariableArray(_, et) => (r.spec_definition(et) matches Some(DefinitionView::Type(t))
                && base_type(r, t, 32) matches TypeDefView::Integer(_, 1, _)) || batch_fits(r, sets, et, data, visited, d),
            TypeDefView::SetType(_, et) => batch_fits(r, sets, et, data, visited, d),
            TypeDefView::StrongReference(_, _) => strong_ref_fits(r, sets, data, visited, d),
            TypeDefView::Indirect(_) => indirect_fits(r, sets, data, visited, d),
            _ => true,
        }
    }
}

/// Whether the value of an indirect value fits one level further in than
/// the indirect value (`d` levels).
pub open spec fn indirect_fits<R: DefinitionResolver>(
    r: &R,
    sets: Map<Auid, GroupView>,
    data: Seq<u8>,
    visited: Seq<Auid>,
    d: nat,
) -> bool
    decreases d, 2nat,
{
    data.len() < 17 || {
        let order = data[0];
        let value = data.subrange(17, data.len() as int);
        match r.spec_definition(bytes_auid(indirect_type_bytes(order, data.subrange(1, 17)))) {
            Some(DefinitionView::Type(t)) => (order == 0x4C && base_type(r, t, 32) is String)
                || (d > 0 && value_fits(r, sets, base_type(r, t, 32), value, visited, (d - 1) as nat)),
            _ => true,
        }
    }
}

/// Whether the items of a batch of type `et` fit, each one level further in
/// than the batch (`d` levels).
pub open spec fn batch_fits<R: DefinitionResolver>(
    r: &R,
    sets: Map<Auid, GroupView>,
    et: Auid,
    data: Seq<u8>,
    visited: Seq<Auid>,
    d: nat,
) -> bool
    decreases d, 2nat,
{
    data.len() < 8 || be_value(data.subrange(4, 8)) == 0 || match r.spec_definition(et) {
        Some(DefinitionView::Type(t)) => {
            let len = be_value(data.subrange(4, 8));
            let body = data.subrange(8, data.len() as int);
            d > 0 && forall|i: int| #[trigger] picked(i) && 0 <= i < batch_items(be_value(data.subrange(0, 4)), len, body.len())
                ==> value_fits(r, sets, base_type(r, t, 32), body.subrange(i * len, (i + 1) * len), visited, (d - 1) as nat)
        },
        _ => true,
    }
}

/// Whether the object that a strong reference names fits one level further
/// in than the reference (`d` levels).
pub open spec fn strong_ref_fits<R: DefinitionResolver>(
    r: &R,
    sets: Map<Auid, GroupView>,
    data: Seq<u8>,
    visited: Seq<Auid>,
    d: nat,
) -> bool
    decreases d, 1nat,
{
    data.len() < 16 || !sets.contains_key(bytes_auid(data.take(16))) || (d > 0 && group_fits(
        r,
        sets,
        sets[bytes_auid(data.take(16))].0,
        sets[bytes_auid(data.take(16))].1,
        visited,
        (d - 1) as nat,
    ))
}

/// What the value of a property of base type `base` becomes: the events `p`.
/// `sets` are the sets that references can name, by instance UID; `visited`
/// the instance UIDs of the objects being written around the value; `names`
/// the names that the namer gives labels (none without a namer); `fuel`
/// bounds how deep values nest.
pub open spec fn value_output<R: DefinitionResolver>(
    r: &R,
    sets: Map<Auid, GroupView>,
    visited: Seq<Auid>,
    names: spec_fn(Auid) -> Option<Seq<char>>,
    base: TypeDefView,
    data: Seq<u8>,
    p: Seq<EventTuple>,
    fuel: nat,
) -> bool
    decreases fuel, 3nat,
{
    match base {
        TypeDefView::Integer(_, size, signed) => p == seq![tx(integer_text(size, signed, data))],
        TypeDefView::Enumeration(_, _, es) => p == seq![tx(enumeration_text(es, data))],
        TypeDefView::Opaque(_) => p == seq![tx(hex_spaced(data))],
        TypeDefView::Stream(_) => p == seq![tx(hex_spaced(data))],
        TypeDefView::LensSerialFloat(_) => p == seq![tx(hex_spaced(data))],
        TypeDefView::Character(c) => p == seq![tx(character_text(c.id, data))],
        TypeDefView::String(_, et) => p == seq![tx(string_text(et, data))],
        TypeDefView::Float(_, size) => p == float_events(size, data),
        TypeDefView::Record(c, ms) => match record_text(c.id, data) {
            Some(t) => p == seq![tx(t)],
            None => fuel == 0 || exists|pres: Seq<Seq<char>>, cuts: Seq<int>|
                #[trigger] member_split(pres, cuts)
                    && record_items(r, sets, visited, names, c.namespace, ms, data, ms.len(), p, pres, cuts, (fuel - 1) as nat),
        },
        TypeDefView::FixedArray(c, et, count) => if is_ul(c.id, uuid_type_ul()) {
            p == seq![tx(uuid_text(data))]
        } else if count == 0 || data.len() == 0 {
            p == Seq::<EventTuple>::empty()
        } else {
            match r.spec_definition(et) {
                Some(DefinitionView::Type(t)) => if base_type(r, t, 32) is StrongReference {
                    exists|cuts: Seq<int>| #[trigger] ref_split(cuts)
                        && refs_items(r, sets, visited, names, data, data.len() / (count as nat), count as nat, p, cuts, fuel)
                } else {
                    items_value(r, sets, visited, names, t, data, data.len() / (count as nat), count as nat, p, fuel)
                },
                _ => p == seq![tx(hex_spaced(data))],
            }
        },
        TypeDefView::VariableArray(_, et) => variable_array_output(r, sets, visited, names, et, data, p, fuel),
        TypeDefView::SetType(_, et) => batch_output(r, sets, visited, names, et, data, p, fuel),
        TypeDefView::ExtendibleEnumeration(_, es) => if data.len() < 16 {
            p == seq![tx(hex_spaced(data))]
        } else {
            p == seq![tx(ext_enum_name(es, names, data))]
        },
        TypeDefView::StrongReference(_, _) => strong_ref_output(r, sets, visited, names, data, p, fuel),
        TypeDefView::WeakReference(_, _, _) => if data.len() != 16 {
            p == seq![tx(hex_spaced(data))]
        } else {
            p == seq![tx(weak_target_text(r, sets, data))]
        },
        TypeDefView::Indirect(_) => indirect_output(r, sets, visited, names, data, p, fuel),
        TypeDefView::Rename(_, _) => p == seq![tx(hex_spaced(data))],
    }
}

/// What a namer's answer for a label makes of an ExtendibleEnumeration
/// value: the name it gave, else the value's URN.
pub open spec fn ext_name_of(answer: Option<Seq<char>>, data: Seq<u8>) -> Seq<char> {
    match answer {
        Some(n) => n,
        None => auid_text(data),
    }
}

/// The name of an ExtendibleEnumeration value of 16 bytes or more: the
/// name of the first inline element that matches it, else what the namer's
/// `names` make of the label (see [`ext_name_of`]).
pub open spec fn ext_enum_name(
    es: Seq<(Seq<char>, i64)>,
    names: spec_fn(Auid) -> Option<Seq<char>>,
    data: Seq<u8>,
) -> Seq<char> {
    match ext_element_named(es, auid_text(data), 0) {
        Some(n) => n,
        None => ext_name_of(names(bytes_auid(data.take(16))), data),
    }
}

/// The events of a Float value: the value's bytes for a float event where
/// their count is the type's size (2, 4 or 8), else the bytes in hex.
pub open spec fn float_events(size: u8, data: Seq<u8>) -> Seq<EventTuple> {
    if (size == 2 || size == 4 || size == 8) && data.len() == size {
        seq![(5nat, Seq::<char>::empty(), Seq::<(Seq<char>, Seq<char>)>::empty(), data)]
    } else {
        seq![tx(hex_spaced(data))]
    }
}

/// One more item: its element, after the events of the items before it.
proof fn lemma_wrapped_step<R: DefinitionResolver>(
    r: &R,
    sets: Map<Auid, GroupView>,
    visited: Seq<Auid>,
    names: spec_fn(Auid) -> Option<Seq<char>>,
    t: TypeDefView,
    data: Seq<u8>,
    size: nat,
    i: nat,
    tag: Seq<char>,
    decls: Seq<(Seq<char>, Seq<char>)>,
    start: Seq<XmlEvent>,
    before: Seq<XmlEvent>,
    st: XmlEvent,
    inner: Seq<XmlEvent>,
    en: XmlEvent,
    cuts: Seq<int>,
    fuel: nat,
)
    requires
        wrapped_items(r, sets, visited, names, t, data, size, i, tag, decls, produced(start, before), cuts, fuel),
        extends_balanced(start, before),
        extends_balanced(before.push(st), inner),
        event_tuple(st) == (1nat, tag, decls, Seq::<u8>::empty()),
        event_tuple(en) == (3nat, tag, Seq::<(Seq<char>, Seq<char>)>::empty(), Seq::<u8>::empty()),
        value_output(r, sets, visited, names, base_type(r, t, 32), data.subrange((i * size) as int, ((i + 1) * size) as int), produced(before.push(st), inner), fuel),
    ensures
        wrapped_items(
            r,
            sets,
            visited, names,
            t,
            data,
            size,
            i + 1,
            tag,
            decls,
            produced(start, inner.push(en)),
            cuts.push(before.len() - start.len()),
            fuel,
        ),
{
    let fin = inner.push(en);
    let mid = before.push(st);
    assert(inner.take(mid.len() as int) == mid);
    assert(fin.take(before.len() as int) =~= before) by {
        assert forall|j: int| 0 <= j < before.len() implies fin[j] == before[j] by {
            assert(inner.take(mid.len() as int)[j] == mid[j]);
        }
    }
    lemma_wrapped_parts(before, st, inner, en);
    lemma_produced_split(start, before, fin);
    let p = produced(start, fin);
    let c2 = cuts.push(before.len() - start.len());
    assert(c2.drop_last() =~= cuts);
    assert(produced(start, before).len() == before.len() - start.len());
    assert(p.take(c2.last()) == produced(start, before));
    assert(p.skip(c2.last()) == produced(before, fin));
    assert(((i + 1 - 1) * size) as int == (i * size) as int);
}

/// Rule 5: a value, by its base type.
fn apply_rule5<'dict, R: DefinitionResolver>(
    ctx: &Context<'dict, R>,
    st: &mut State,
    td: &TypeDefinition,
    data: &[u8],
    out: &mut Vec<XmlEvent>,
    visited: &mut Vec<Auid>,
    depth: u32,
) -> (r: Result<(), FragmentError>)
    requires
        classes_acyclic(ctx.resolver),
        depth <= MAX_NESTING,
    ensures
        r is Ok ==> extends_balanced(old(out)@, final(out)@),
        r is Ok ==> final(visited)@ == old(visited)@,
        (final(st).handler is None) == (old(st).handler is None),
        old(st).handler is None ==> !(r matches Err(FragmentError::Fatal(_))),
        r is Ok ==> value_output(ctx.resolver, sets_view(assoc_map(ctx.sets@)), old(visited)@, namer_names(&ctx.namer), base_type(ctx.resolver, td@, 32), data@, produced(old(out)@, final(out)@), (MAX_NESTING - depth) as nat),
        r is Ok ==> value_fits(ctx.resolver, sets_view(assoc_map(ctx.sets@)), base_type(ctx.resolver, td@, 32), data@, old(visited)@, (MAX_NESTING - depth) as nat),
        value_fits(ctx.resolver, sets_view(assoc_map(ctx.sets@)), base_type(ctx.resolver, td@, 32), data@, old(visited)@, (MAX_NESTING - depth) as nat) ==> (r is Ok || r matches Err(FragmentError::Fatal(_))),
    decreases MAX_NESTING - depth, 7nat,
{
    if depth >= MAX_NESTING {
        return Err(nesting_error());
    }
    let base = find_base_definition(ctx.resolver, td);
    match base {
        TypeDefinition::Integer(d) => {
            write_text(out, integer_value_text(d.size, d.is_signed, data));
            Ok(())
        },
        TypeDefinition::Character(d) => {
            let t = if auid_is_ul(&d.identification, &make_ul(1, 4, 1, 1, 1, 0x10, 1, 0)) {
                read_characters_utf16be(data, false)
            } else if auid_is_ul(&d.identification, &make_ul(1, 4, 1, 1, 1, 0x10, 3, 0)) {
                read_characters_ascii(data, false)
            } else {
                read_characters_utf8(data, false)
            };
            write_text(out, t);
            Ok(())
        },
        TypeDefinition::String(d) => {
            let t = if auid_is_ul(&d.element_type, &make_ul(1, 4, 1, 1, 1, 0x10, 3, 0)) {
                read_characters_ascii(data, true)
            } else if auid_is_ul(&d.element_type, &make_ul(1, 4, 1, 1, 1, 0x10, 5, 0)) {
                read_characters_utf8(data, true)
            } else {
                read_characters_utf16be(data, true)
            };
            write_text(out, t);
            Ok(())
        },
        TypeDefinition::Record(d) => rule5_record(ctx, st, d, data, out, visited, depth),
        TypeDefinition::Enumeration(d) => {
            write_text(out, enumeration_value_text(&d.elements, data));
            Ok(())
        },
        TypeDefinition::ExtendibleEnumeration(d) => {
            write_text(out, ext_enum_text(ctx, d, data));
            Ok(())
        },
        TypeDefinition::FixedArray(d) => rule5_fixed_array(ctx, st, d, data, out, visited, depth),
        TypeDefinition::VariableArray(d) => rule5_variable_array(ctx, st, d, data, out, visited, depth),
        TypeDefinition::SetType(d) => rule5_batch_or_array(ctx, st, &d.element_type, data, out, visited, depth),
        TypeDefinition::StrongReference(_) => rule5_strong_ref(ctx, st, data, out, visited, depth),
        TypeDefinition::WeakReference(_) => {
            write_text(out, weak_ref_text(ctx, data));
            Ok(())
        },
        TypeDefinition::Float(d) => {
            let n = data.len();
            if (d.size == 2 && n == 2) || (d.size == 4 && n == 4) || (d.size == 8 && n == 8) {
                let ghost before = out@;
                let bytes = slice_of(data, 0, n);
                proof {
                    assert(bytes@ =~= data@);
                }
                let e = XmlEvent::Float(bytes);
                out.push(e);
                proof {
                    lemma_extends_single(before, e);
                }
            } else {
                write_text(out, hex_bytes(data));
            }
            Ok(())
        },
        TypeDefinition::Indirect(_) => rule5_indirect(ctx, st, data, out, visited, depth),
        _ => {
            // Opaque, Stream, LensSerialFloat, and a Rename chain too long to follow.
            write_text(out, hex_bytes(data));
            Ok(())
        },
    }
}

/// Rule 5.8: a record, by its type.
fn rule5_record<'dict, R: DefinitionResolver>(
    ctx: &Context<'dict, R>,
    st: &mut State,
    td: &crate::dict::definition::RecordTypeDef,
    data: &[u8],
    out: &mut Vec<XmlEvent>,
    visited: &mut Vec<Auid>,
    depth: u32,
) -> (r: Result<(), FragmentError>)
    requires
        classes_acyclic(ctx.resolver),
        depth < MAX_NESTING,
    ensures
        r is Ok ==> extends_balanced(old(out)@, final(out)@),
        r is Ok ==> final(visited)@ == old(visited)@,
        (final(st).handler is None) == (old(st).handler is None),
        old(st).handler is None ==> !(r matches Err(FragmentError::Fatal(_))),
        r is Ok ==> value_output(ctx.resolver, sets_view(assoc_map(ctx.sets@)), old(visited)@, namer_names(&ctx.namer), td@, data@, produced(old(out)@, final(out)@), (MAX_NESTING - depth) as nat),
        r is Ok ==> value_fits(ctx.resolver, sets_view(assoc_map(ctx.sets@)), td@, data@, old(visited)@, (MAX_NESTING - depth) as nat),
        value_fits(ctx.resolver, sets_view(assoc_map(ctx.sets@)), td@, data@, old(visited)@, (MAX_NESTING - depth) as nat) ==> (r is Ok || r matches Err(FragmentError::Fatal(_))),
    decreases MAX_NESTING - depth, 6nat,
{
    let id = &td.identification;
    if auid_is_ul(id, &make_ul(1, 4, 1, 1, 1, 3, 1, 0)) {
        write_text(out, auid_value_text(data));
    } else if auid_is_ul(id, &make_ul(1, 4, 1, 1, 1, 3, 3, 0)) {
        write_text(out, uuid_value_text(data));
    } else if auid_is_ul(id, &make_ul(1, 4, 1, 1, 1, 3, 2, 0)) {
        write_text(out, package_id_value_text(data));
    } else if auid_is_ul(id, &make_ul(1, 4, 1, 1, 3, 1, 1, 0)) {
        write_text(out, rational_value_text(data));
    } else if auid_is_ul(id, &make_ul(1, 4, 1, 1, 3, 1, 5, 0)) {
        write_text(out, date_value_text(data));
    } else if auid_is_ul(id, &make_ul(1, 4, 1, 1, 3, 1, 6, 0)) {
        write_text(out, time_value_text(data));
    } else if auid_is_ul(id, &make_ul(1, 4, 1, 1, 3, 1, 7, 0)) {
        write_text(out, timestamp_value_text(data));
    } else if auid_is_ul(id, &make_ul(1, 4, 1, 1, 3, 1, 3, 0)) {
        write_text(out, version_value_text(data));
    } else {
        return rule5_record_general(ctx, st, td, data, out, visited, depth);
    }
    Ok(())
}

/// A record of no special type: one element per member, in order, each
/// taking its type's fixed size (the last one taking all that is left).
fn rule5_record_general<'dict, R: DefinitionResolver>(
    ctx: &Context<'dict, R>,
    st: &mut State,
    td: &crate::dict::definition::RecordTypeDef,
    data: &[u8],
    out: &mut Vec<XmlEvent>,
    visited: &mut Vec<Auid>,
    depth: u32,
) -> (r: Result<(), FragmentError>)
    requires
        classes_acyclic(ctx.resolver),
        depth < MAX_NESTING,
        record_text(td.identification, data@) is None,
    ensures
        r is Ok ==> extends_balanced(old(out)@, final(out)@),
        r is Ok ==> final(visited)@ == old(visited)@,
        (final(st).handler is None) == (old(st).handler is None),
        old(st).handler is None ==> !(r matches Err(FragmentError::Fatal(_))),
        r is Ok ==> exists|pres: Seq<Seq<char>>, cuts: Seq<int>|
            #[trigger] member_split(pres, cuts) && record_items(
                ctx.resolver,
                sets_view(assoc_map(ctx.sets@)),
                old(visited)@, namer_names(&ctx.namer),
                td.namespace@,
                record_members_view(td.members@),
                data@,
                td.members@.len(),
                produced(old(out)@, final(out)@),
                pres,
                cuts,
                (MAX_NESTING - depth - 1) as nat,
            ),
        r is Ok ==> value_fits(ctx.resolver, sets_view(assoc_map(ctx.sets@)), td@, data@, old(visited)@, (MAX_NESTING - depth) as nat),
        value_fits(ctx.resolver, sets_view(assoc_map(ctx.sets@)), td@, data@, old(visited)@, (MAX_NESTING - depth) as nat) ==> (r is Ok || r matches Err(FragmentError::Fatal(_))),
    decreases MAX_NESTING - depth, 5nat,
{
    let ghost start = out@;
    let ghost v0 = visited@;
    let ghost sets = sets_view(assoc_map(ctx.sets@));
    let ghost ms = record_members_view(td.members@);
    let ghost ns = td.namespace@;
    let ghost dl = data@.len();
    let ghost f1: nat = (MAX_NESTING - depth - 1) as nat;
    let ghost mut pres: Seq<Seq<char>> = Seq::empty();
    let ghost mut cuts: Seq<int> = Seq::empty();
    proof {
        lemma_extends_refl(start);
        lemma_produced_none(start);
    }
    let ghost dd: nat = (MAX_NESTING - depth) as nat;
    let ghost vf = value_fits(ctx.resolver, sets, td@, data@, v0, dd);
    let n = td.members.len();
    let mut cursor: usize = 0;
    let mut i: usize = 0;
    while i < n
        invariant_except_break
            i < n ==> member_start(ctx.resolver, ms, i as nat, dl) == Some(cursor as nat),
            record_items(ctx.resolver, sets, v0, namer_names(&ctx.namer), ns, ms, data@, i as nat, produced(start, out@), pres, cuts, f1),
            forall|j: int| #[trigger] picked(j) && 0 <= j < i ==> (member_start(ctx.resolver, ms, j as nat, dl) matches Some(c1)
                ==> (member_end(ctx.resolver, ms, j, c1, dl) matches Some(e1)
                ==> (ctx.resolver.spec_definition(ms[j].1) matches Some(DefinitionView::Type(t1))
                ==> value_fits(ctx.resolver, sets, base_type(ctx.resolver, t1, 32), data@.subrange(c1 as int, e1 as int), v0, (dd - 1) as nat)))),
        invariant
            dd == MAX_NESTING - depth,
            v0 == old(visited)@,
            vf == value_fits(ctx.resolver, sets, td@, data@, v0, dd),
            vf ==> forall|j: int| #[trigger] picked(j) && 0 <= j < n ==> (member_start(ctx.resolver, ms, j as nat, dl) matches Some(c1)
                ==> (member_end(ctx.resolver, ms, j, c1, dl) matches Some(e1)
                ==> (ctx.resolver.spec_definition(ms[j].1) matches Some(DefinitionView::Type(t1))
                ==> value_fits(ctx.resolver, sets, base_type(ctx.resolver, t1, 32), data@.subrange(c1 as int, e1 as int), v0, (dd - 1) as nat)))),
            n == td.members@.len(),
            i <= n,
            cursor <= data@.len(),
            depth < MAX_NESTING,
            classes_acyclic(ctx.resolver),
            extends_balanced(start, out@),
            visited@ == v0,
            (st.handler is None) == (old(st).handler is None),
            sets == sets_view(assoc_map(ctx.sets@)),
            ms == record_members_view(td.members@),
            ns == td.namespace@,
            dl == data@.len(),
            f1 == MAX_NESTING - depth - 1,
        ensures
            record_items(ctx.resolver, sets, v0, namer_names(&ctx.namer), ns, ms, data@, n as nat, produced(start, out@), pres, cuts, f1),
            forall|j: int| #[trigger] picked(j) && 0 <= j < n ==> (member_start(ctx.resolver, ms, j as nat, dl) matches Some(c1)
                ==> (member_end(ctx.resolver, ms, j, c1, dl) matches Some(e1)
                ==> (ctx.resolver.spec_definition(ms[j].1) matches Some(DefinitionView::Type(t1))
                ==> value_fits(ctx.resolver, sets, base_type(ctx.resolver, t1, 32), data@.subrange(c1 as int, e1 as int), v0, (dd - 1) as nat)))),
        decreases n - i,
    {
        let member = &td.members[i];
        let is_last = i == n - 1;
        proof {
            assert(ms[i as int] == (member.name@, member.field_type));
        }
        let field_td = match ctx.resolver.get_definition(&member.field_type) {
            Some(Definition::Type(t)) => t,
            _ => {
                proof {
                    lemma_record_rest(ctx.resolver, sets, v0, namer_names(&ctx.namer), ns, ms, data@, i as nat, n as nat, produced(start, out@), pres, cuts, f1);
                    lemma_members_after(ctx.resolver, ms, (i + 1) as nat, dl);
                }
                break;
            },
        };
        let size = type_size_bytes(field_td, ctx.resolver);
        let slice: Vec<u8>;
        let ghost c0 = cursor as nat;
        if is_last {
            if cursor >= data.len() {
                proof {
                    lemma_record_rest(ctx.resolver, sets, v0, namer_names(&ctx.namer), ns, ms, data@, i as nat, n as nat, produced(start, out@), pres, cuts, f1);
                    lemma_members_after(ctx.resolver, ms, (i + 1) as nat, dl);
                }
                break;
            }
            slice = slice_of(data, cursor, data.len());
        } else {
            match size {
                Some(s) => {
                    if s > data.len() - cursor {
                        proof {
                            lemma_record_rest(ctx.resolver, sets, v0, namer_names(&ctx.namer), ns, ms, data@, i as nat, n as nat, produced(start, out@), pres, cuts, f1);
                            lemma_members_after(ctx.resolver, ms, (i + 1) as nat, dl);
                    lemma_members_after(ctx.resolver, ms, (i + 1) as nat, dl);
                        }
                        break;
                    }
                    slice = slice_of(data, cursor, cursor + s);
                    cursor = cursor + s;
                },
                None => {
                    slice = slice_of(data, cursor, data.len());
                    cursor = data.len();
                },
            }
        }
        let ghost e: nat = if is_last { dl } else { cursor as nat };
        proof {
            assert(member_end(ctx.resolver, ms, i as int, c0, dl) == Some(e));
            assert(slice@ == data@.subrange(c0 as int, e as int));
        }
        let prefix = ns_prefix(st, td.namespace.as_str());
        let elem_name = qualified(prefix.as_str(), member.name.as_str());
        let ghost before = out@;
        proof {
            assert(picked(i as int));
            assert(ctx.resolver.spec_definition(ms[i as int].1) == Some(DefinitionView::Type(field_td@)));
        }
        let st_ev = XmlEvent::Start(elem_name.clone(), ns_attrs(td.namespace.as_str(), prefix.as_str()));
        out.push(st_ev);
        match apply_rule5(ctx, st, field_td, slice.as_slice(), out, visited, depth + 1) {
            Ok(()) => {},
            Err(e) => return Err(e),
        }
        let ghost inner = out@;
        let en_ev = XmlEvent::End(elem_name);
        out.push(en_ev);
        proof {
            lemma_extends_wrap(before, st_ev, inner, en_ev);
            lemma_extends_trans(start, before, out@);
            lemma_record_step(
                ctx.resolver, sets, v0, namer_names(&ctx.namer), ns, ms, data@, i as nat, c0, e, prefix@,
                start, before, st_ev, inner, en_ev, pres, cuts, f1,
            );
            pres = pres.push(prefix@);
            cuts = cuts.push(before.len() - start.len());
        }
        if !is_last && size.is_none() {
            proof {
                assert(member_start(ctx.resolver, ms, (i + 1) as nat, dl) is None);
                lemma_record_rest(ctx.resolver, sets, v0, namer_names(&ctx.namer), ns, ms, data@, (i + 1) as nat, n as nat, produced(start, out@), pres, cuts, f1);
                lemma_members_after(ctx.resolver, ms, (i + 1) as nat, dl);
            }
            break;
        }
        i = i + 1;
    }
    proof {
        assert(member_split(pres, cuts));
        assert(value_fits(ctx.resolver, sets, td@, data@, v0, dd));
    }
    Ok(())
}

/// Once a member ends the record, no member after it begins.
proof fn lemma_members_after<R: DefinitionResolver>(r: &R, ms: Seq<(Seq<char>, Auid)>, k: nat, dl: nat)
    requires
        member_start(r, ms, k, dl) is None,
    ensures
        forall|m: nat| k <= m ==> #[trigger] member_start(r, ms, m, dl) is None,
{
    assert forall|m: nat| k <= m implies #[trigger] member_start(r, ms, m, dl) is None by {
        lemma_member_start_none(r, ms, k, m, dl);
    }
}

proof fn lemma_member_start_none<R: DefinitionResolver>(r: &R, ms: Seq<(Seq<char>, Auid)>, k: nat, m: nat, dl: nat)
    requires
        member_start(r, ms, k, dl) is None,
        k <= m,
    ensures
        member_start(r, ms, m, dl) is None,
    decreases m - k,
{
    if k < m {
        lemma_member_start_none(r, ms, k, (m - 1) as nat, dl);
    }
}

/// Members from `k` on are not written once the record has ended before `k`.
proof fn lemma_record_rest<R: DefinitionResolver>(
    r: &R,
    sets: Map<Auid, GroupView>,
    visited: Seq<Auid>,
    names: spec_fn(Auid) -> Option<Seq<char>>,
    ns: Seq<char>,
    ms: Seq<(Seq<char>, Auid)>,
    data: Seq<u8>,
    k: nat,
    m: nat,
    p: Seq<EventTuple>,
    pres: Seq<Seq<char>>,
    cuts: Seq<int>,
    fuel: nat,
)
    requires
        k <= m,
        record_items(r, sets, visited, names, ns, ms, data, k, p, pres, cuts, fuel),
        member_start(r, ms, k, data.len()) is None || (member_start(r, ms, k, data.len()) matches Some(c)
            && k < ms.len() && member_end(r, ms, k as int, c, data.len()) is None),
    ensures
        record_items(r, sets, visited, names, ns, ms, data, m, p, pres, cuts, fuel),
    decreases m - k,
{
    if k < m {
        assert(member_start(r, ms, k + 1, data.len()) is None);
        assert(record_items(r, sets, visited, names, ns, ms, data, k + 1, p, pres, cuts, fuel));
        lemma_record_rest(r, sets, visited, names, ns, ms, data, k + 1, m, p, pres, cuts, fuel);
    }
}

/// One more member written: its element, after the events of the members
/// before it.
proof fn lemma_record_step<R: DefinitionResolver>(
    r: &R,
    sets: Map<Auid, GroupView>,
    visited: Seq<Auid>,
    names: spec_fn(Auid) -> Option<Seq<char>>,
    ns: Seq<char>,
    ms: Seq<(Seq<char>, Auid)>,
    data: Seq<u8>,
    i: nat,
    c: nat,
    e: nat,
    pre: Seq<char>,
    start: Seq<XmlEvent>,
    before: Seq<XmlEvent>,
    st: XmlEvent,
    inner: Seq<XmlEvent>,
    en: XmlEvent,
    pres: Seq<Seq<char>>,
    cuts: Seq<int>,
    fuel: nat,
)
    requires
        i < ms.len(),
        record_items(r, sets, visited, names, ns, ms, data, i, produced(start, before), pres, cuts, fuel),
        member_start(r, ms, i, data.len()) == Some(c),
        member_end(r, ms, i as int, c, data.len()) == Some(e),
        extends_balanced(start, before),
        extends_balanced(before.push(st), inner),
        event_tuple(st) == (1nat, pre + seq![':'] + ms[i as int].0, ns_decls(ns, pre), Seq::<u8>::empty()),
        event_tuple(en) == (3nat, pre + seq![':'] + ms[i as int].0, Seq::<(Seq<char>, Seq<char>)>::empty(), Seq::<u8>::empty()),
        r.spec_definition(ms[i as int].1) matches Some(DefinitionView::Type(t))
            && value_output(r, sets, visited, names, base_type(r, t, 32), data.subrange(c as int, e as int), produced(before.push(st), inner), fuel),
    ensures
        record_items(
            r,
            sets,
            visited, names,
            ns,
            ms,
            data,
            i + 1,
            produced(start, inner.push(en)),
            pres.push(pre),
            cuts.push(before.len() - start.len()),
            fuel,
        ),
{
    let fin = inner.push(en);
    let mid = before.push(st);
    assert(inner.take(mid.len() as int) == mid);
    assert(fin.take(before.len() as int) =~= before) by {
        assert forall|j: int| 0 <= j < before.len() implies fin[j] == before[j] by {
            assert(inner.take(mid.len() as int)[j] == mid[j]);
        }
    }
    lemma_wrapped_parts(before, st, inner, en);
    lemma_produced_split(start, before, fin);
    let p = produced(start, fin);
    let c2 = cuts.push(before.len() - start.len());
    let p2 = pres.push(pre);
    assert(c2.drop_last() =~= cuts);
    assert(p2.drop_last() =~= pres);
    assert(produced(start, before).len() == before.len() - start.len());
    assert(p.take(c2.last()) == produced(start, before));
    assert(p.skip(c2.last()) == produced(before, fin));
}

/// The name of the first element, from `i` on, whose name, or value in
/// decimal, is `t`.
pub open spec fn ext_element_named(es: Seq<(Seq<char>, i64)>, t: Seq<char>, i: int) -> Option<Seq<char>>
    decreases es.len() - i,
{
    if i < 0 || i >= es.len() {
        None
    } else if es[i].0 == t || signed_decimal(es[i].1 as int) == t {
        Some(es[i].0)
    } else {
        ext_element_named(es, t, i + 1)
    }
}

/// Rule 5.2a: an ExtendibleEnumeration value names a label: the name of an
/// inline element that matches it, else the namer's name for it, else its URN.
fn ext_enum_text<'dict, R: DefinitionResolver>(ctx: &Context<'dict, R>, td: &crate::dict::definition::ExtEnumTypeDef, data: &[u8]) -> (r: String)
    ensures
        data@.len() < 16 ==> r@ == hex_spaced(data@),
        data@.len() >= 16 ==> r@ == ext_enum_name(enum_elements_view(td.elements@), namer_names(&ctx.namer), data@),
{
    if data.len() < 16 {
        return hex_bytes(data);
    }
    let auid = Auid::from_bytes(array16(data));
    proof {
        crate::types::auid::lemma_auid_of_bytes_unique(data@.take(16), auid);
    }
    let auid_str = auid.to_string();
    let ghost es = enum_elements_view(td.elements@);
    let mut i: usize = 0;
    while i < td.elements.len()
        invariant
            i <= td.elements@.len(),
            data@.len() >= 16,
            es == enum_elements_view(td.elements@),
            auid_str@ == auid_text(data@),
            ext_element_named(es, auid_str@, 0) == ext_element_named(es, auid_str@, i as int),
        decreases td.elements.len() - i,
    {
        let e = &td.elements[i];
        let mut v: Vec<char> = Vec::new();
        crate::text::push_signed_decimal(&mut v, e.value);
        let vs = string_of(&v);
        proof {
            assert(v@ =~= signed_decimal(e.value as int));
            assert(es[i as int] == (e.name@, e.value));
        }
        if str_eq(e.name.as_str(), auid_str.as_str()) || str_eq(vs.as_str(), auid_str.as_str()) {
            return e.name.clone();
        }
        i = i + 1;
    }
    match &ctx.namer {
        Some(n) => ext_name_or_urn(n.name_of(&auid), auid_str),
        None => auid_str,
    }
}

/// The text of an ExtendibleEnumeration value that no inline element names,
/// from the namer's answer: the name it gave, else the value's URN `urn`.
pub fn ext_name_or_urn(answer: Option<&str>, urn: String) -> (r: String)
    ensures
        match answer {
            Some(n) => r@ == n@,
            None => r@ == urn@,
        },
{
    match answer {
        Some(name) => String::from_str(name),
        None => urn,
    }
}

/// Rule 5.4: a fixed array: UUIDs as their URN, strong references as the
/// objects they name, other elements as one element each.
fn rule5_fixed_array<'dict, R: DefinitionResolver>(
    ctx: &Context<'dict, R>,
    st: &mut State,
    td: &crate::dict::definition::FixedArrayTypeDef,
    data: &[u8],
    out: &mut Vec<XmlEvent>,
    visited: &mut Vec<Auid>,
    depth: u32,
) -> (r: Result<(), FragmentError>)
    requires
        classes_acyclic(ctx.resolver),
        depth < MAX_NESTING,
    ensures
        r is Ok ==> extends_balanced(old(out)@, final(out)@),
        r is Ok ==> final(visited)@ == old(visited)@,
        (final(st).handler is None) == (old(st).handler is None),
        old(st).handler is None ==> !(r matches Err(FragmentError::Fatal(_))),
        r is Ok ==> value_output(ctx.resolver, sets_view(assoc_map(ctx.sets@)), old(visited)@, namer_names(&ctx.namer), td@, data@, produced(old(out)@, final(out)@), (MAX_NESTING - depth) as nat),
        r is Ok ==> value_fits(ctx.resolver, sets_view(assoc_map(ctx.sets@)), td@, data@, old(visited)@, (MAX_NESTING - depth) as nat),
        value_fits(ctx.resolver, sets_view(assoc_map(ctx.sets@)), td@, data@, old(visited)@, (MAX_NESTING - depth) as nat) ==> (r is Ok || r matches Err(FragmentError::Fatal(_))),
    decreases MAX_NESTING - depth, 5nat,
{
    let ghost start = out@;
    let ghost v0 = visited@;
    proof {
        lemma_extends_refl(start);
        lemma_produced_none(start);
    }
    if auid_is_ul(&td.identification, &make_ul(1, 4, 1, 1, 1, 3, 3, 0)) {
        write_text(out, uuid_value_text(data));
        return Ok(());
    }
    let count = td.element_count as usize;
    if count == 0 || data.len() == 0 {
        return Ok(());
    }
    let elem_size = data.len() / count;
    let elem_td = match ctx.resolver.get_definition(&td.element_type) {
        Some(Definition::Type(t)) => t,
        _ => {
            write_text(out, hex_bytes(data));
            return Ok(());
        },
    };
    let base_elem = find_base_definition(ctx.resolver, elem_td);
    let is_strong = match base_elem {
        TypeDefinition::StrongReference(_) => true,
        _ => false,
    };
    let item_ns = elem_td.namespace();
    let item_sym = elem_td.symbol();
    let prefix = if is_strong {
        String::new()
    } else {
        ns_prefix(st, item_ns)
    };
    let item_tag = qualified(prefix.as_str(), item_sym);
    let dlen = data.len();
    assert(count * elem_size <= dlen) by (nonlinear_arith)
        requires
            count > 0,
            elem_size == dlen / count,
    ;
    let ghost sets = sets_view(assoc_map(ctx.sets@));
    let ghost t = elem_td@;
    let ghost decls = ns_decls(item_ns@, prefix@);
    let ghost f1: nat = (MAX_NESTING - depth - 1) as nat;
    let ghost mut cuts: Seq<int> = Seq::empty();
    let ghost mut rcuts: Seq<int> = seq![0int];
    proof {
        assert(base_type(ctx.resolver, t, 32) is StrongReference == is_strong);
    }
    let ghost dd: nat = (MAX_NESTING - depth) as nat;
    let ghost sz: nat = data@.len() / (td.element_count as nat);
    let ghost vf = value_fits(ctx.resolver, sets, td@, data@, v0, dd);
    proof {
        assert(sz == elem_size);
        assert(!is_ul(td.identification, uuid_type_ul()));
    }
    let mut i: usize = 0;
    while i < count
        invariant
            dd == MAX_NESTING - depth,
            sz == elem_size,
            count == td.element_count,
            vf == value_fits(ctx.resolver, sets, td@, data@, v0, dd),
            is_strong ==> refs_items(ctx.resolver, sets, v0, namer_names(&ctx.namer), data@, elem_size as nat, i as nat, produced(start, out@), rcuts, dd),
            v0 == old(visited)@,
            vf ==> forall|j: int| #[trigger] picked(j) && 0 <= j < count ==> (if is_strong {
                strong_ref_fits(ctx.resolver, sets, data@.subrange(j * sz, (j + 1) * sz), v0, dd)
            } else {
                value_fits(ctx.resolver, sets, base_type(ctx.resolver, t, 32), data@.subrange(j * sz, (j + 1) * sz), v0, (dd - 1) as nat)
            }),
            forall|j: int| #[trigger] picked(j) && 0 <= j < i ==> (if is_strong {
                strong_ref_fits(ctx.resolver, sets, data@.subrange(j * sz, (j + 1) * sz), v0, dd)
            } else {
                value_fits(ctx.resolver, sets, base_type(ctx.resolver, t, 32), data@.subrange(j * sz, (j + 1) * sz), v0, (dd - 1) as nat)
            }),
            i <= count,
            count > 0,
            count * elem_size <= dlen,
            dlen == data@.len(),
            depth < MAX_NESTING,
            classes_acyclic(ctx.resolver),
            extends_balanced(start, out@),
            visited@ == v0,
            (st.handler is None) == (old(st).handler is None),
            sets == sets_view(assoc_map(ctx.sets@)),
            t == elem_td@,
            f1 == MAX_NESTING - depth - 1,
            !is_strong ==> item_tag@ == prefix@ + seq![':'] + type_common(t).symbol,
            !is_strong ==> decls == ns_decls(type_common(t).namespace, prefix@),
            item_ns@ == type_common(t).namespace,
            !is_strong ==> wrapped_items(ctx.resolver, sets, v0, namer_names(&ctx.namer), t, data@, elem_size as nat, i as nat, item_tag@, decls, produced(start, out@), cuts, f1),
        decreases count - i,
    {
        assert(i * elem_size <= (i + 1) * elem_size && (i + 1) * elem_size <= count * elem_size) by (nonlinear_arith)
            requires
                i < count,
        ;
        let slice = slice_of(data, i * elem_size, (i + 1) * elem_size);
        proof {
            assert(picked(i as int));
            assert(slice@ == data@.subrange(i * sz, (i + 1) * sz));
        }
        let ghost before = out@;
        if is_strong {
            match rule5_strong_ref(ctx, st, slice.as_slice(), out, visited, depth) {
                Ok(()) => {},
                Err(e) => return Err(e),
            }
            proof {
                lemma_extends_trans(start, before, out@);
                lemma_produced_split(start, before, out@);
                assert(slice@ == data@.subrange((i as nat * elem_size as nat) as int, ((i as nat + 1) * elem_size as nat) as int));
                lemma_refs_step(ctx.resolver, sets, v0, namer_names(&ctx.namer), data@, elem_size as nat, i as nat, produced(start, before), produced(start, out@), rcuts, dd);
                rcuts = rcuts.push(produced(start, out@).len() as int);
            }
        } else {
            let st_ev = XmlEvent::Start(item_tag.clone(), ns_attrs(item_ns, prefix.as_str()));
            out.push(st_ev);
            match apply_rule5(ctx, st, elem_td, slice.as_slice(), out, visited, depth + 1) {
                Ok(()) => {},
                Err(e) => return Err(e),
            }
            let ghost inner = out@;
            let en_ev = XmlEvent::End(item_tag.clone());
            out.push(en_ev);
            proof {
                lemma_extends_wrap(before, st_ev, inner, en_ev);
                lemma_extends_trans(start, before, out@);
                assert(slice@ == data@.subrange((i as nat * elem_size as nat) as int, ((i as nat + 1) * elem_size as nat) as int));
                lemma_wrapped_step(
                    ctx.resolver, sets, v0, namer_names(&ctx.namer), t, data@, elem_size as nat, i as nat, item_tag@, decls,
                    start, before, st_ev, inner, en_ev, cuts, f1,
                );
                cuts = cuts.push(before.len() - start.len());
            }
        }
        i = i + 1;
    }
    proof {
        let fuel = (MAX_NESTING - depth) as nat;
        if !is_strong {
            assert(wrapped_items(
                ctx.resolver, sets, v0, namer_names(&ctx.namer), t, data@, elem_size as nat, count as nat,
                prefix@ + seq![':'] + type_common(t).symbol, ns_decls(type_common(t).namespace, prefix@),
                produced(start, out@), cuts, (fuel - 1) as nat,
            ));
        }
        assert(split_at(prefix@, cuts));
        assert(ref_split(rcuts));
        if !is_strong {
            assert(items_value(ctx.resolver, sets, v0, namer_names(&ctx.namer), t, data@, elem_size as nat, count as nat, produced(start, out@), fuel));
        }
        assert(ctx.resolver.spec_definition(td.element_type) == Some(DefinitionView::Type(t)));
        assert(value_fits(ctx.resolver, sets, td@, data@, v0, dd));
    }
    Ok(())
}

/// Rule 5.14: a variable array: bytes as compact hex, else a batch.
fn rule5_variable_array<'dict, R: DefinitionResolver>(
    ctx: &Context<'dict, R>,
    st: &mut State,
    td: &crate::dict::definition::VariableArrayTypeDef,
    data: &[u8],
    out: &mut Vec<XmlEvent>,
    visited: &mut Vec<Auid>,
    depth: u32,
) -> (r: Result<(), FragmentError>)
    requires
        classes_acyclic(ctx.resolver),
        depth < MAX_NESTING,
    ensures
        r is Ok ==> extends_balanced(old(out)@, final(out)@),
        r is Ok ==> final(visited)@ == old(visited)@,
        (final(st).handler is None) == (old(st).handler is None),
        old(st).handler is None ==> !(r matches Err(FragmentError::Fatal(_))),
        r is Ok ==> variable_array_output(ctx.resolver, sets_view(assoc_map(ctx.sets@)), old(visited)@, namer_names(&ctx.namer), td.element_type, data@, produced(old(out)@, final(out)@), (MAX_NESTING - depth) as nat),
        r is Ok ==> value_fits(ctx.resolver, sets_view(assoc_map(ctx.sets@)), td@, data@, old(visited)@, (MAX_NESTING - depth) as nat),
        value_fits(ctx.resolver, sets_view(assoc_map(ctx.sets@)), td@, data@, old(visited)@, (MAX_NESTING - depth) as nat) ==> (r is Ok || r matches Err(FragmentError::Fatal(_))),
    decreases MAX_NESTING - depth, 6nat,
{
    if let Some(Definition::Type(elem_td)) = ctx.resolver.get_definition(&td.element_type) {
        let base = find_base_definition(ctx.resolver, elem_td);
        if let TypeDefinition::Integer(int_def) = base {
            if int_def.size == 1 {
                write_text(out, hex_bytes_compact(data));
                return Ok(());
            }
        }
    }
    rule5_batch_or_array(ctx, st, &td.element_type, data, out, visited, depth)
}

/// The batch format: a 4-byte count, a 4-byte item length, then the items.
fn rule5_batch_or_array<'dict, R: DefinitionResolver>(
    ctx: &Context<'dict, R>,
    st: &mut State,
    elem_type_id: &Auid,
    data: &[u8],
    out: &mut Vec<XmlEvent>,
    visited: &mut Vec<Auid>,
    depth: u32,
) -> (r: Result<(), FragmentError>)
    requires
        classes_acyclic(ctx.resolver),
        depth < MAX_NESTING,
    ensures
        r is Ok ==> extends_balanced(old(out)@, final(out)@),
        r is Ok ==> final(visited)@ == old(visited)@,
        (final(st).handler is None) == (old(st).handler is None),
        old(st).handler is None ==> !(r matches Err(FragmentError::Fatal(_))),
        r is Ok ==> batch_output(ctx.resolver, sets_view(assoc_map(ctx.sets@)), old(visited)@, namer_names(&ctx.namer), *elem_type_id, data@, produced(old(out)@, final(out)@), (MAX_NESTING - depth) as nat),
        r is Ok ==> batch_fits(ctx.resolver, sets_view(assoc_map(ctx.sets@)), *elem_type_id, data@, old(visited)@, (MAX_NESTING - depth) as nat),
        batch_fits(ctx.resolver, sets_view(assoc_map(ctx.sets@)), *elem_type_id, data@, old(visited)@, (MAX_NESTING - depth) as nat) ==> (r is Ok || r matches Err(FragmentError::Fatal(_))),
    decreases MAX_NESTING - depth, 5nat,
{
    let ghost start = out@;
    let ghost v0 = visited@;
    proof {
        lemma_extends_refl(start);
    }
    if data.len() < 8 {
        write_text(out, hex_bytes(data));
        return Ok(());
    }
    let head = slice_of(data, 0, 4);
    let len_bytes = slice_of(data, 4, 8);
    let count = super::values::be_u64(head.as_slice());
    let item_len = super::values::be_u64(len_bytes.as_slice());
    let body = slice_of(data, 8, data.len());
    if item_len == 0 {
        proof {
            lemma_produced_none(start);
        }
        return Ok(());
    }
    let elem_td = match ctx.resolver.get_definition(elem_type_id) {
        Some(Definition::Type(t)) => t,
        _ => {
            write_text(out, hex_bytes(data));
            return Ok(());
        },
    };
    let base_elem = find_base_definition(ctx.resolver, elem_td);
    let is_strong = match base_elem {
        TypeDefinition::StrongReference(_) => true,
        _ => false,
    };
    let item_ns = elem_td.namespace();
    let item_sym = elem_td.symbol();
    let prefix = ns_prefix(st, item_ns);
    let item_tag = qualified(prefix.as_str(), item_sym);
    let ghost sets = sets_view(assoc_map(ctx.sets@));
    let ghost t = elem_td@;
    let ghost decls = ns_decls(item_ns@, prefix@);
    let ghost f1: nat = (MAX_NESTING - depth - 1) as nat;
    let ghost mut cuts: Seq<int> = Seq::empty();
    let ghost mut rcuts: Seq<int> = seq![0int];
    let ghost bl: nat = body@.len();
    proof {
        assert(base_type(ctx.resolver, t, 32) is StrongReference == is_strong);
        lemma_produced_none(start);
    }
    let ghost dd: nat = (MAX_NESTING - depth) as nat;
    let ghost bf = batch_fits(ctx.resolver, sets, *elem_type_id, data@, v0, dd);
    proof {
        assert(item_len as nat == be_value(data@.subrange(4, 8)));
        assert(count as nat == be_value(data@.subrange(0, 4)));
        assert(body@ == data@.subrange(8, data@.len() as int));
    }
    let mut i: u64 = 0;
    let mut pos: usize = 0;
    while i < count
        invariant
            dd == MAX_NESTING - depth,
            v0 == old(visited)@,
            bf == batch_fits(ctx.resolver, sets, *elem_type_id, data@, v0, dd),
            is_strong ==> refs_items(ctx.resolver, sets, v0, namer_names(&ctx.namer), body@, item_len as nat, i as nat, produced(start, out@), rcuts, f1),
            (base_type(ctx.resolver, t, 32) is StrongReference) == is_strong,
            bf ==> forall|j: int| #[trigger] picked(j) && 0 <= j < batch_items(count as nat, item_len as nat, bl) ==> value_fits(ctx.resolver, sets, base_type(ctx.resolver, t, 32), body@.subrange(j * (item_len as nat), (j + 1) * (item_len as nat)), v0, (dd - 1) as nat),
            forall|j: int| #[trigger] picked(j) && 0 <= j < i ==> value_fits(ctx.resolver, sets, base_type(ctx.resolver, t, 32), body@.subrange(j * (item_len as nat), (j + 1) * (item_len as nat)), v0, (dd - 1) as nat),
            item_len > 0,
            pos <= body@.len(),
            bl == body@.len(),
            pos as int == i as int * item_len as int,
            i <= count,
            i as int <= bl as int / item_len as int,
            depth < MAX_NESTING,
            classes_acyclic(ctx.resolver),
            extends_balanced(start, out@),
            visited@ == v0,
            (st.handler is None) == (old(st).handler is None),
            sets == sets_view(assoc_map(ctx.sets@)),
            t == elem_td@,
            f1 == MAX_NESTING - depth - 1,
            item_tag@ == prefix@ + seq![':'] + type_common(t).symbol,
            decls == ns_decls(type_common(t).namespace, prefix@),
            item_ns@ == type_common(t).namespace,
            !is_strong ==> wrapped_items(ctx.resolver, sets, v0, namer_names(&ctx.namer), t, body@, item_len as nat, i as nat, item_tag@, decls, produced(start, out@), cuts, f1),
        ensures
            i as nat == batch_items(count as nat, item_len as nat, bl),
        decreases count - i,
    {
        if item_len > (body.len() - pos) as u64 {
            proof {
                let b = bl as int;
                let l = item_len as int;
                let k = i as int;
                assert(b / l == k) by (nonlinear_arith)
                    requires
                        l > 0,
                        k * l <= b,
                        b < k * l + l,
                ;
            }
            break;
        }
        let end = pos + item_len as usize;
        proof {
            let l = item_len as int;
            let k = i as int;
            assert((k + 1) * l == k * l + l) by (nonlinear_arith);
            assert(k + 1 <= bl as int / l) by (nonlinear_arith)
                requires
                    l > 0,
                    (k + 1) * l <= bl as int,
            ;
        }
        let slice = slice_of(body.as_slice(), pos, end);
        proof {
            assert(picked(i as int));
            assert((i as int) < batch_items(count as nat, item_len as nat, bl));
            assert(slice@ == body@.subrange(i * (item_len as nat), (i + 1) * (item_len as nat)));
        }
        pos = end;
        let ghost before = out@;
        if is_strong {
            match apply_rule5(ctx, st, elem_td, slice.as_slice(), out, visited, depth + 1) {
                Ok(()) => {},
                Err(e) => return Err(e),
            }
            proof {
                lemma_extends_trans(start, before, out@);
                lemma_produced_split(start, before, out@);
                assert(base_type(ctx.resolver, t, 32) is StrongReference);
                assert(strong_ref_output(ctx.resolver, sets, v0, namer_names(&ctx.namer), slice@, produced(before, out@), f1));
                assert(slice@ == body@.subrange((i as nat * item_len as nat) as int, ((i as nat + 1) * item_len as nat) as int));
                lemma_refs_step(ctx.resolver, sets, v0, namer_names(&ctx.namer), body@, item_len as nat, i as nat, produced(start, before), produced(start, out@), rcuts, f1);
                rcuts = rcuts.push(produced(start, out@).len() as int);
            }
        } else {
            let st_ev = XmlEvent::Start(item_tag.clone(), ns_attrs(item_ns, prefix.as_str()));
            out.push(st_ev);
            match apply_rule5(ctx, st, elem_td, slice.as_slice(), out, visited, depth + 1) {
                Ok(()) => {},
                Err(e) => return Err(e),
            }
            let ghost inner = out@;
            let en_ev = XmlEvent::End(item_tag.clone());
            out.push(en_ev);
            proof {
                lemma_extends_wrap(before, st_ev, inner, en_ev);
                lemma_extends_trans(start, before, out@);
                assert(slice@ == body@.subrange((i as nat * item_len as nat) as int, ((i as nat + 1) * item_len as nat) as int));
                lemma_wrapped_step(
                    ctx.resolver, sets, v0, namer_names(&ctx.namer), t, body@, item_len as nat, i as nat, item_tag@, decls,
                    start, before, st_ev, inner, en_ev, cuts, f1,
                );
                cuts = cuts.push(before.len() - start.len());
            }
        }
        i = i + 1;
    }
    proof {
        let fuel = (MAX_NESTING - depth) as nat;
        assert(split_at(prefix@, cuts));
        assert(ref_split(rcuts));
        assert(items_value(ctx.resolver, sets, v0, namer_names(&ctx.namer), t, body@, item_len as nat, i as nat, produced(start, out@), fuel));
        assert(ctx.resolver.spec_definition(*elem_type_id) == Some(DefinitionView::Type(t)));
        assert(body@ == data@.subrange(8, data@.len() as int));
        assert(batch_fits(ctx.resolver, sets, *elem_type_id, data@, v0, dd));
    }
    Ok(())
}

/// Rule 5.13: a strong reference is the object it names, or its URN where
/// no set has that instance UID.
fn rule5_strong_ref<'dict, R: DefinitionResolver>(
    ctx: &Context<'dict, R>,
    st: &mut State,
    data: &[u8],
    out: &mut Vec<XmlEvent>,
    visited: &mut Vec<Auid>,
    depth: u32,
) -> (r: Result<(), FragmentError>)
    requires
        classes_acyclic(ctx.resolver),
        depth < MAX_NESTING,
    ensures
        r is Ok ==> extends_balanced(old(out)@, final(out)@),
        r is Ok ==> final(visited)@ == old(visited)@,
        (final(st).handler is None) == (old(st).handler is None),
        old(st).handler is None ==> !(r matches Err(FragmentError::Fatal(_))),
        r is Ok ==> strong_ref_output(ctx.resolver, sets_view(assoc_map(ctx.sets@)), old(visited)@, namer_names(&ctx.namer), data@, produced(old(out)@, final(out)@), (MAX_NESTING - depth) as nat),
        r is Ok ==> strong_ref_fits(ctx.resolver, sets_view(assoc_map(ctx.sets@)), data@, old(visited)@, (MAX_NESTING - depth) as nat),
        strong_ref_fits(ctx.resolver, sets_view(assoc_map(ctx.sets@)), data@, old(visited)@, (MAX_NESTING - depth) as nat) ==> (r is Ok || r matches Err(FragmentError::Fatal(_))),
    decreases MAX_NESTING - depth, 4nat,
{
    if data.len() < 16 {
        write_text(out, hex_bytes(data));
        return Ok(());
    }
    let uid = Auid::from_bytes(array16(data));
    proof {
        crate::types::auid::lemma_auid_of_bytes_unique(data@.take(16), uid);
    }
    match find_set(ctx, &uid) {
        Some(target) => {
            let ghost p0 = prefix_entries(st.prefixes@);
            let ghost v0 = visited@;
            let ghost before = out@;
            let r = apply_rule3(ctx, st, target, out, visited, depth + 1);
            proof {
                assert(prefixes_then(p0));
                if r is Ok && out@ == before {
                    lemma_produced_none(before);
                }
                lemma_group_uid_view(target.items@);
                assert(sets_view(assoc_map(ctx.sets@))[uid] == (target.key, items_view(target.items@)));
            }
            r
        },
        None => {
            write_text(out, uid.to_string());
            Ok(())
        },
    }
}

/// The text of a weak reference of 16 bytes: the unique identifier of the
/// set it names (see [`unique_id_at`]; a UMID, else an AUID URN), else the
/// reference's own URN.
pub open spec fn weak_target_text<R: DefinitionResolver>(r: &R, sets: Map<Auid, GroupView>, data: Seq<u8>) -> Seq<char> {
    let uid = bytes_auid(data.take(16));
    if sets.contains_key(uid) && class_of_key(r, sets[uid].0) is Some {
        match unique_id_at(class_props(r, class_of_key(r, sets[uid].0)->0), sets[uid].1, true, 0) {
            Some(u) => u,
            None => auid_text(data),
        }
    } else {
        auid_text(data)
    }
}

/// Rule 5.15: a weak reference is written as its target's unique
/// identifier (such as a PackageID), else as the URN of the reference.
fn weak_ref_text<'dict, R: DefinitionResolver>(ctx: &Context<'dict, R>, data: &[u8]) -> (r: String)
    requires
        classes_acyclic(ctx.resolver),
    ensures
        data@.len() != 16 ==> r@ == hex_spaced(data@),
        data@.len() == 16 ==> r@ == weak_target_text(ctx.resolver, sets_view(assoc_map(ctx.sets@)), data@),
{
    if data.len() != 16 {
        return hex_bytes(data);
    }
    let lookup_uid = Auid::from_bytes(array16(data));
    proof {
        crate::types::auid::lemma_auid_of_bytes_unique(data@.take(16), lookup_uid);
    }
    if let Some(target) = find_set(ctx, &lookup_uid) {
        let cd = match lookup_class(ctx.resolver, &target.key) {
            Some(c) => c,
            None => return lookup_uid.to_string(),
        };
        let all_props = get_all_members_of(ctx.resolver, cd);
        let iuid_bytes = make_ul(1, 1, 1, 1, 1, 1, 0x15, 2);
        let iuid_auid = Auid::from_bytes(iuid_bytes);
        proof {
            lemma_auid_of_bytes_unique(iuid_bytes@, iuid_auid);
            assert(iuid_bytes@ == instance_uid_ul());
        }
        let iuid_norm = ul_zero_version(iuid_auid);
        if let Some(s) = unique_id_text(&target.items, &all_props, &iuid_norm, true) {
            return s;
        }
    }
    lookup_uid.to_string()
}

/// Rule 5.6: an indirect value: a byte-order byte, a 16-byte type
/// identifier (stored little-endian where the byte is `L`), then the value.
fn rule5_indirect<'dict, R: DefinitionResolver>(
    ctx: &Context<'dict, R>,
    st: &mut State,
    data: &[u8],
    out: &mut Vec<XmlEvent>,
    visited: &mut Vec<Auid>,
    depth: u32,
) -> (r: Result<(), FragmentError>)
    requires
        classes_acyclic(ctx.resolver),
        depth < MAX_NESTING,
    ensures
        r is Ok ==> extends_balanced(old(out)@, final(out)@),
        r is Ok ==> final(visited)@ == old(visited)@,
        (final(st).handler is None) == (old(st).handler is None),
        old(st).handler is None ==> !(r matches Err(FragmentError::Fatal(_))),
        r is Ok ==> indirect_output(ctx.resolver, sets_view(assoc_map(ctx.sets@)), old(visited)@, namer_names(&ctx.namer), data@, produced(old(out)@, final(out)@), (MAX_NESTING - depth) as nat),
        r is Ok ==> indirect_fits(ctx.resolver, sets_view(assoc_map(ctx.sets@)), data@, old(visited)@, (MAX_NESTING - depth) as nat),
        indirect_fits(ctx.resolver, sets_view(assoc_map(ctx.sets@)), data@, old(visited)@, (MAX_NESTING - depth) as nat) ==> (r is Ok || r matches Err(FragmentError::Fatal(_))),
    decreases MAX_NESTING - depth, 5nat,
{
    if data.len() < 17 {
        write_text(out, hex_bytes(data));
        return Ok(());
    }
    let byte_order = data[0];
    let value = slice_of(data, 17, data.len());
    let b = slice_of(data, 1, 17);
    let type_bytes: [u8; 16] = if byte_order == 0x4C {
        [b[8], b[9], b[10], b[11], b[12], b[13], b[14], b[15], b[3], b[2], b[1], b[0], b[5], b[4], b[7], b[6]]
    } else {
        array16(b.as_slice())
    };
    proof {
        assert(b@ == data@.subrange(1, 17));
        assert(type_bytes@ =~= indirect_type_bytes(byte_order, data@.subrange(1, 17)));
        assert(value@ == data@.subrange(17, data@.len() as int));
    }
    let type_auid = Auid::from_bytes(type_bytes);
    proof {
        lemma_auid_of_bytes_unique(type_bytes@, type_auid);
    }
    let type_def = match ctx.resolver.get_definition(&type_auid) {
        Some(Definition::Type(t)) => t,
        _ => {
            write_text(out, hex_bytes(value.as_slice()));
            return Ok(());
        },
    };
    if byte_order == 0x4C {
        let base = find_base_definition(ctx.resolver, type_def);
        if let TypeDefinition::String(_) = base {
            write_text(out, read_characters_utf16le(value.as_slice(), true));
            return Ok(());
        }
    }
    apply_rule5(ctx, st, type_def, value.as_slice(), out, visited, depth + 1)
}

// ── The builder ─────────────────────────────────────────────────────────────

/// Converts KLV local sets (MXF header metadata groups) into RegXML XML
/// fragments conforming to SMPTE ST 2001-1 Rules 3–5.
pub struct FragmentBuilder<'dict, R: DefinitionResolver> {
    ctx: Context<'dict, R>,
    state: State,
}

impl<'dict, R: DefinitionResolver> FragmentBuilder<'dict, R> {
    pub closed spec fn resolver(&self) -> &'dict R {
        self.ctx.resolver
    }

    /// The local sets by instance UID, for strong and weak references.
    pub closed spec fn sets(&self) -> Map<Auid, LocalSet> {
        assoc_map(self.ctx.sets@)
    }

    /// The namespace prefixes handed out, in order.
    pub closed spec fn prefixes(&self) -> Seq<(Seq<char>, Seq<char>)> {
        prefix_entries(self.state.prefixes@)
    }

    pub closed spec fn has_handler(&self) -> bool {
        self.state.handler is Some
    }

    /// The events reported so far, in order: code, severity, location, reason.
    pub closed spec fn events(&self) -> Seq<EventView> {
        self.state.events@
    }

    pub closed spec fn has_namer(&self) -> bool {
        self.ctx.namer is Some
    }

    /// The names that the namer gives, where there is one (else none).
    pub closed spec fn names(&self) -> spec_fn(Auid) -> Option<Seq<char>> {
        namer_names(&self.ctx.namer)
    }

    /// No instance UID is held twice.
    pub closed spec fn wf(&self) -> bool {
        keys_unique(self.ctx.sets@)
    }

    pub fn new(resolver: &'dict R) -> (b: Self)
        ensures
            b.wf(),
            b.resolver() == resolver,
            b.sets() == Map::<Auid, LocalSet>::empty(),
            b.prefixes() == seq![(REGXML_NS@, REG_PREFIX@)],
            !b.has_handler(),
            !b.has_namer(),
            b.names() == namer_names(&None),
            b.events() == Seq::<EventView>::empty(),
    {
        let mut prefixes: Vec<(String, String)> = Vec::new();
        prefixes.push((String::from_str(REGXML_NS), String::from_str(REG_PREFIX)));
        let b = FragmentBuilder {
            ctx: Context { resolver, sets: Vec::new(), namer: None },
            state: State { prefixes, handler: None, events: Ghost(Seq::empty()) },
        };
        proof {
            assert(b.ctx.sets@ =~= Seq::<(Auid, LocalSet)>::empty());
            assert(prefix_entries(b.state.prefixes@) =~= seq![(REGXML_NS@, REG_PREFIX@)]);
        }
        b
    }

    pub fn with_event_handler(self, h: Box<dyn EventHandler>) -> (b: Self)
        ensures
            b.wf() == self.wf(),
            b.resolver() == self.resolver(),
            b.sets() == self.sets(),
            b.prefixes() == self.prefixes(),
            b.has_handler(),
            b.has_namer() == self.has_namer(),
            b.names() == self.names(),
            b.events() == self.events(),
    {
        let mut b = self;
        b.state.handler = Some(h);
        b
    }

    pub fn with_auid_namer(self, n: Box<dyn AuidNamer>) -> (b: Self)
        ensures
            b.wf() == self.wf(),
            b.resolver() == self.resolver(),
            b.sets() == self.sets(),
            b.prefixes() == self.prefixes(),
            b.has_handler() == self.has_handler(),
            b.has_namer(),
            b.names() == namer_names(&Some(n)),
            b.events() == self.events(),
    {
        let mut b = self;
        b.ctx.namer = Some(n);
        b
    }

    /// The builder with namer `n`, where there is one (else none).
    pub(crate) fn with_namer_option(self, n: Option<Box<dyn AuidNamer>>) -> (b: Self)
        ensures
            b.wf() == self.wf(),
            b.resolver() == self.resolver(),
            b.sets() == self.sets(),
            b.prefixes() == self.prefixes(),
            b.has_handler() == self.has_handler(),
            b.names() == namer_names(&n),
            b.events() == self.events(),
    {
        let mut b = self;
        b.ctx.namer = n;
        b
    }

    /// Record `set` as the object with instance UID `id`, replacing another.
    #[verifier::loop_isolation(false)]
    pub fn add_set(&mut self, id: Auid, set: LocalSet)
        requires
            old(self).wf(),
        ensures
            final(self).wf(),
            final(self).sets() == old(self).sets().insert(id, set),
            final(self).resolver() == old(self).resolver(),
            final(self).prefixes() == old(self).prefixes(),
            final(self).has_handler() == old(self).has_handler(),
            final(self).has_namer() == old(self).has_namer(),
            final(self).names() == old(self).names(),
            final(self).events() == old(self).events(),
    {
        let ghost s = self.ctx.sets@;
        let mut i: usize = 0;
        while i < self.ctx.sets.len()
            invariant
                s == self.ctx.sets@,
                i <= s.len(),
                forall|j: int| 0 <= j < i ==> s[j].0 != id,
                self.ctx.resolver == old(self).ctx.resolver,
                self.ctx.namer == old(self).ctx.namer,
                self.state == old(self).state,
            decreases self.ctx.sets.len() - i,
        {
            if self.ctx.sets[i].0.same(&id) {
                self.ctx.sets.set(i, (id, set));
                proof {
                    lemma_assoc_update(s, i as int, set);
                    assert(self.ctx.sets@ =~= s.update(i as int, (s[i as int].0, set)));
                    assert forall|a: int, b: int| 0 <= a < b < self.ctx.sets@.len() implies
                        #[trigger] self.ctx.sets@[a].0 != #[trigger] self.ctx.sets@[b].0 by {
                        assert(s[a].0 != s[b].0);
                    }
                }
                return;
            }
            i = i + 1;
        }
        self.ctx.sets.push((id, set));
        proof {
            lemma_assoc_push(s, id, set);
        }
    }

    /// Convert `group` to a RegXML fragment, appending its events to `out`.
    ///
    /// The events appended are well-nested: for a group whose key names a
    /// class, an element named after the class (see [`group_element`]) that
    /// holds the group's properties. A group whose key names no class adds
    /// nothing (and is reported to the handler as `UnknownGroup`). Without a
    /// handler nothing is fatal.
    pub fn from_triplet(&mut self, group: &LocalSet, out: &mut Vec<XmlEvent>) -> (r: Result<(), FragmentError>)
        requires
            classes_acyclic(old(self).resolver()),
        ensures
            final(self).wf() == old(self).wf(),
            final(self).resolver() == old(self).resolver(),
            final(self).sets() == old(self).sets(),
            final(self).has_handler() == old(self).has_handler(),
            final(self).has_namer() == old(self).has_namer(),
            final(self).names() == old(self).names(),
            r is Ok ==> extends_balanced(old(out)@, final(out)@),
            !old(self).has_handler() ==> !(r matches Err(FragmentError::Fatal(_))),
            class_of_key(old(self).resolver(), group.key) is None ==> (r is Ok ==> final(out)@ == old(out)@),
            class_of_key(old(self).resolver(), group.key) is None && !old(self).has_handler() ==> r is Ok,
            r is Ok ==> match class_of_key(old(self).resolver(), group.key) {
                Some(c) => group_element(
                    old(self).resolver(),
                    sets_view(old(self).sets()),
                    Seq::<Auid>::empty(), old(self).names(),
                    produced(old(out)@, final(out)@),
                    old(self).prefixes(),
                    c,
                    items_view(group.items@),
                    MAX_NESTING as nat,
                ),
                None => true,
            },
            class_of_key(old(self).resolver(), group.key) is None ==> final(self).events() == old(self).events().push(
                (EventCode::UnknownGroup, EventSeverity::Warn, spec_auid_urn(group.key), "group key not found in dictionary"@),
            ),
            r is Ok ==> group_fits(
                old(self).resolver(),
                sets_view(old(self).sets()),
                group.key,
                items_view(group.items@),
                Seq::<Auid>::empty(),
                MAX_NESTING as nat,
            ),
            group_fits(
                old(self).resolver(),
                sets_view(old(self).sets()),
                group.key,
                items_view(group.items@),
                Seq::<Auid>::empty(),
                MAX_NESTING as nat,
            ) ==> (r is Ok || r matches Err(FragmentError::Fatal(_))),
            !old(self).has_handler() && group_fits(
                old(self).resolver(),
                sets_view(old(self).sets()),
                group.key,
                items_view(group.items@),
                Seq::<Auid>::empty(),
                MAX_NESTING as nat,
            ) ==> r is Ok,
            class_of_key(old(self).resolver(), group.key) is None ==> final(out)@ == old(out)@,
            (class_of_key(old(self).resolver(), group.key) is None && r is Err)
                ==> (r->Err_0 matches FragmentError::Fatal(m) && m@ == "group key not found in dictionary"@),
    {
        let mut visited: Vec<Auid> = Vec::new();
        assert(!circular(group.items@, visited@));
        apply_rule3(&self.ctx, &mut self.state, group, out, &mut visited, 0)
    }
}

} // verus!
