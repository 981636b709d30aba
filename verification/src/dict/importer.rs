//! SMPTE register XML importer.
//!
//! Reads Types, Elements, Groups, and Labels register XMLs (produced by the
//! SMPTE Metadata Registry) into a [`MetaDictionary`].
//!
//! Register namespaces:
//! - TypesRegister:    `http://www.smpte-ra.org/schemas/2003/2012`
//! - ElementsRegister: `http://www.smpte-ra.org/schemas/335/2012`
//! - GroupsRegister:   `http://www.smpte-ra.org/ns/395/2016`
//! - LabelsRegister:   `http://www.smpte-ra.org/schemas/400/2012`
use vstd::prelude::*;

use super::assoc::{assoc_map, keys_unique, lemma_assoc_absent, lemma_assoc_first, lemma_assoc_push, lemma_assoc_update};
use super::definition::{
    CharacterTypeDef, ClassDefinition, ClassView, CommonView, Definition, DefinitionView,
    EnumerationElement, EnumerationTypeDef, ExtEnumTypeDef, FixedArrayTypeDef, FloatTypeDef,
    IndirectTypeDef, IntegerTypeDef, LensSerialFloatTypeDef, OpaqueTypeDef, PropertyDefinition,
    PropertyView, RecordMember, RecordTypeDef, RenameTypeDef, SetTypeDef, StreamTypeDef,
    StringTypeDef, StrongReferenceTypeDef, TypeDefView, TypeDefinition, VariableArrayTypeDef,
    WeakReferenceTypeDef, enum_elements_view, record_members_view,
};
use super::error::{DictError, DictErrorView};
use super::meta_dictionary::{empty_model, model_add_all, MetaDictionary};
use crate::number::{
    ascii_lower_seq, eq_ascii_lower, lead_ws, parse_i64, parse_int, parse_uint, parse_unsigned, trail_ws, trim, trim_str,
};
use crate::text::{append_str, contains, push_lit, starts_with, str_contains, str_eq, str_starts_with, string_of, utf8_error_message, utf8_text};
use crate::types::auid::{auid_error_text, spec_auid_parse, urn_auid, Auid};
use crate::xml::tree::{
    child, child_text, in_range, kids, named, root_element, text_or_empty, xml_document, NodeView,
    XmlDoc,
};

verus! {

/// What an Elements register entry says of a property: symbol, namespace, type.
pub type ElementView = (Seq<char>, Seq<char>, Auid);

/// Property information harvested from an Elements register entry.
struct ElementEntry {
    symbol: String,
    namespace: String,
    type_auid: Auid,
}

impl View for ElementEntry {
    type V = ElementView;

    closed spec fn view(&self) -> ElementView {
        (self.symbol@, self.namespace@, self.type_auid)
    }
}

spec fn element_entries(s: Seq<(Auid, ElementEntry)>) -> Seq<(Auid, ElementView)> {
    s.map_values(|p: (Auid, ElementEntry)| (p.0, p.1@))
}

/// The property index: element UL → what the Elements register says of it.
struct ElementIndex {
    entries: Vec<(Auid, ElementEntry)>,
}

impl ElementIndex {
    spec fn map(&self) -> Map<Auid, ElementView> {
        assoc_map(element_entries(self.entries@))
    }

    spec fn wf(&self) -> bool {
        keys_unique(element_entries(self.entries@))
    }

    fn new() -> (r: ElementIndex)
        ensures
            r.wf(),
            r.map() == Map::<Auid, ElementView>::empty(),
    {
        let r = ElementIndex { entries: Vec::new() };
        proof {
            assert(element_entries(r.entries@) =~= Seq::empty());
        }
        r
    }

    fn find(&self, id: &Auid) -> (r: Option<usize>)
        ensures
            match r {
                Some(i) => i < self.entries@.len() && self.entries@[i as int].0 == *id && forall|j: int|
                    0 <= j < i ==> self.entries@[j].0 != *id,
                None => forall|j: int| 0 <= j < self.entries@.len() ==> self.entries@[j].0 != *id,
            },
    {
        let mut i: usize = 0;
        while i < self.entries.len()
            invariant
                i <= self.entries@.len(),
                forall|j: int| 0 <= j < i ==> self.entries@[j].0 != *id,
            decreases self.entries.len() - i,
        {
            if self.entries[i].0.same(id) {
                return Some(i);
            }
            i = i + 1;
        }
        None
    }

    /// Record `e` for `id`, replacing an earlier entry.
    fn insert(&mut self, id: Auid, e: ElementEntry)
        requires
            old(self).wf(),
        ensures
            final(self).wf(),
            final(self).map() == old(self).map().insert(id, e@),
    {
        let ghost s = element_entries(self.entries@);
        let ghost ev = e@;
        match self.find(&id) {
            Some(i) => {
                self.entries.set(i, (id, e));
                proof {
                    lemma_assoc_update(s, i as int, ev);
                    assert(element_entries(self.entries@) =~= s.update(i as int, (s[i as int].0, ev)));
                    assert forall|a: int, b: int| 0 <= a < b < element_entries(self.entries@).len() implies
                        #[trigger] element_entries(self.entries@)[a].0 != #[trigger] element_entries(self.entries@)[b].0 by {
                        assert(s[a].0 != s[b].0);
                    }
                }
            },
            None => {
                self.entries.push((id, e));
                proof {
                    lemma_assoc_push(s, id, ev);
                    assert(element_entries(self.entries@) =~= s.push((id, ev)));
                }
            },
        }
    }

    fn get(&self, id: &Auid) -> (r: Option<&ElementEntry>)
        requires
            self.wf(),
        ensures
            match self.map().get(*id) {
                Some(v) => (r matches Some(x) && x@ == v),
                None => r is None,
            },
    {
        let ghost s = element_entries(self.entries@);
        match self.find(id) {
            Some(i) => {
                proof {
                    lemma_assoc_first(s, i as int);
                }
                Some(&self.entries[i].1)
            },
            None => {
                proof {
                    lemma_assoc_absent(s, *id);
                }
                None
            },
        }
    }
}

// ── Reading fields ──────────────────────────────────────────────────────────

/// A register flag: its trimmed text is `true`, `1` or `yes` in any ASCII case.
pub open spec fn register_flag(t: Option<Seq<char>>, dflt: bool) -> bool {
    match t {
        Some(s) => {
            let l = ascii_lower_seq(trim(s));
            l == "true"@ || l == "1"@ || l == "yes"@
        },
        None => dflt,
    }
}

pub open spec fn size_or(t: Option<Seq<char>>, max: nat, dflt: nat) -> nat {
    match t {
        Some(s) => match parse_uint(s, 10, max) {
            Some(v) => v,
            None => dflt,
        },
        None => dflt,
    }
}

/// A required AUID field of a register entry.
pub open spec fn reg_req_auid(ns: Seq<NodeView>, k: usize, field: Seq<char>, ctx: Seq<char>) -> Result<Auid, DictErrorView> {
    match child_text(ns, k, field) {
        None => Err(DictErrorView::Xml(ctx + ": missing <"@ + field + ">"@)),
        Some(s) => match spec_auid_parse(s) {
            Ok(_) => Ok(urn_auid(s)->0),
            Err(e) => Err(DictErrorView::Xml(ctx + ": <"@ + field + ">: "@ + auid_error_text(e))),
        },
    }
}

/// An optional AUID field of a register entry.
pub open spec fn reg_opt_auid(ns: Seq<NodeView>, k: usize, field: Seq<char>) -> Result<Option<Auid>, DictErrorView> {
    match child_text(ns, k, field) {
        None => Ok(None),
        Some(s) => match spec_auid_parse(s) {
            Ok(_) => Ok(urn_auid(s)),
            Err(e) => Err(DictErrorView::Xml(auid_error_text(e))),
        },
    }
}

/// The root element's tag is `name`.
pub open spec fn root_is(ns: Seq<NodeView>, name: Seq<char>) -> bool {
    match root_element(ns) {
        Some(r) => ns[r as int].2 == name,
        None => false,
    }
}

/// The `Entry` children of the root's `Entries` whose `Kind` is not `NODE`.
pub open spec fn leaf_entries(ns: Seq<NodeView>) -> Seq<usize> {
    match root_element(ns) {
        None => Seq::empty(),
        Some(r) => match child(ns, r, "Entries"@) {
            None => Seq::empty(),
            Some(e) => leaves(ns, kids(ns, e)),
        },
    }
}

pub open spec fn leaves(ns: Seq<NodeView>, ks: Seq<usize>) -> Seq<usize>
    decreases ks.len(),
{
    if ks.len() == 0 {
        Seq::empty()
    } else {
        let rest = leaves(ns, ks.drop_last());
        let k = ks.last();
        if ns[k as int].2 == "Entry"@ && child_text(ns, k, "Kind"@) != Some("NODE"@) {
            rest.push(k)
        } else {
            rest
        }
    }
}

/// The identification and symbol of a register entry, where it has a `UL`
/// that reads as an AUID and a `Symbol`.
pub open spec fn entry_head(ns: Seq<NodeView>, k: usize) -> Option<(Seq<char>, Auid, Seq<char>)> {
    match child_text(ns, k, "UL"@) {
        None => None,
        Some(u) => match urn_auid(u) {
            None => None,
            Some(id) => match child_text(ns, k, "Symbol"@) {
                None => None,
                Some(sym) => Some((u, id, sym)),
            },
        },
    }
}

// ── ElementsRegister ────────────────────────────────────────────────────────

/// What an Elements register entry adds to the property index.
pub open spec fn element_entry(ns: Seq<NodeView>, k: usize) -> Result<Option<(Auid, ElementView)>, DictErrorView> {
    match entry_head(ns, k) {
        None => Ok(None),
        Some((_, id, sym)) => {
            let nsn = text_or_empty(child_text(ns, k, "NamespaceName"@));
            match reg_opt_auid(ns, k, "Type"@) {
                Err(e) => Err(e),
                Ok(None) => Ok(None),
                Ok(Some(t)) => Ok(Some((id, (sym, nsn, t)))),
            }
        },
    }
}

/// The property index after the entries `es`, starting from `idx`.
pub open spec fn elements_fold(ns: Seq<NodeView>, es: Seq<usize>, idx: Map<Auid, ElementView>) -> Result<Map<Auid, ElementView>, DictErrorView>
    decreases es.len(),
{
    if es.len() == 0 {
        Ok(idx)
    } else {
        match elements_fold(ns, es.drop_last(), idx) {
            Err(e) => Err(e),
            Ok(m) => match element_entry(ns, es.last()) {
                Err(e) => Err(e),
                Ok(None) => Ok(m),
                Ok(Some((id, v))) => Ok(m.insert(id, v)),
            },
        }
    }
}

// ── TypesRegister ───────────────────────────────────────────────────────────

/// The `Facet` children of an entry's `Facets`.
pub open spec fn facets(ns: Seq<NodeView>, k: usize) -> Seq<usize> {
    match child(ns, k, "Facets"@) {
        None => Seq::empty(),
        Some(f) => named(ns, kids(ns, f), "Facet"@),
    }
}

/// The facet values that read as AUIDs (a weak reference's target set).
pub open spec fn facet_auids(ns: Seq<NodeView>, fs: Seq<usize>) -> Seq<Auid>
    decreases fs.len(),
{
    if fs.len() == 0 {
        Seq::empty()
    } else {
        let rest = facet_auids(ns, fs.drop_last());
        match child_text(ns, fs.last(), "Value"@) {
            Some(v) => match urn_auid(v) {
                Some(a) => rest.push(a),
                None => rest,
            },
            None => rest,
        }
    }
}

/// Record members from the facets that have a `Symbol`.
pub open spec fn record_facets(ns: Seq<NodeView>, fs: Seq<usize>, ctx: Seq<char>) -> Result<Seq<(Seq<char>, Auid)>, DictErrorView>
    decreases fs.len(),
{
    if fs.len() == 0 {
        Ok(Seq::empty())
    } else {
        match record_facets(ns, fs.drop_last(), ctx) {
            Err(e) => Err(e),
            Ok(ms) => match child_text(ns, fs.last(), "Symbol"@) {
                None => Ok(ms),
                Some(name) => match reg_req_auid(ns, fs.last(), "Type"@, ctx) {
                    Err(e) => Err(e),
                    Ok(t) => Ok(ms.push((name, t))),
                },
            },
        }
    }
}

pub open spec fn facet_value(t: Option<Seq<char>>) -> i64 {
    match t {
        Some(s) => match parse_int(s, i64::MIN as int, i64::MAX as int) {
            Some(v) => v as i64,
            None => 0,
        },
        None => 0,
    }
}

/// Enumeration elements from the facets that have a `Symbol`.
pub open spec fn enum_facets(ns: Seq<NodeView>, fs: Seq<usize>) -> Seq<(Seq<char>, i64)>
    decreases fs.len(),
{
    if fs.len() == 0 {
        Seq::empty()
    } else {
        let rest = enum_facets(ns, fs.drop_last());
        match child_text(ns, fs.last(), "Symbol"@) {
            None => rest,
            Some(name) => rest.push((name, facet_value(child_text(ns, fs.last(), "Value"@)))),
        }
    }
}

/// Whether an enumeration's first facet value is a URN, which makes it extendible.
pub open spec fn first_facet_is_urn(ns: Seq<NodeView>, k: usize) -> bool {
    match child(ns, k, "Facets"@) {
        None => false,
        Some(f) => match child(ns, f, "Facet"@) {
            None => false,
            Some(x) => match child_text(ns, x, "Value"@) {
                Some(v) => starts_with(v, "urn:"@),
                None => false,
            },
        },
    }
}

pub open spec fn base_typed(ns: Seq<NodeView>, k: usize, ctx: Seq<char>, f: spec_fn(Auid) -> TypeDefView) -> Result<Option<TypeDefView>, DictErrorView> {
    match reg_req_auid(ns, k, "BaseType"@, ctx) {
        Err(e) => Err(e),
        Ok(a) => Ok(Some(f(a))),
    }
}

/// The type definition of a TypesRegister entry of kind `kind`.
pub open spec fn type_of_kind(ns: Seq<NodeView>, k: usize, kind: Seq<char>, ctx: Seq<char>, c: CommonView) -> Result<Option<TypeDefView>, DictErrorView> {
    if kind == "Integer"@ {
        Ok(Some(TypeDefView::Integer(
            c,
            size_or(child_text(ns, k, "TypeSize"@), 255, 1) as u8,
            contains(text_or_empty(child_text(ns, k, "TypeQualifiers"@)), "isSigned"@),
        )))
    } else if kind == "Rename"@ {
        base_typed(ns, k, ctx, |a: Auid| TypeDefView::Rename(c, a))
    } else if kind == "FixedArray"@ {
        base_typed(ns, k, ctx, |a: Auid| TypeDefView::FixedArray(
            c,
            a,
            size_or(child_text(ns, k, "TypeSize"@), u32::MAX as nat, 0) as u32,
        ))
    } else if kind == "VariableArray"@ {
        base_typed(ns, k, ctx, |a: Auid| TypeDefView::VariableArray(c, a))
    } else if kind == "Set"@ {
        base_typed(ns, k, ctx, |a: Auid| TypeDefView::SetType(c, a))
    } else if kind == "String"@ {
        base_typed(ns, k, ctx, |a: Auid| TypeDefView::String(c, a))
    } else if kind == "Character"@ {
        Ok(Some(TypeDefView::Character(c)))
    } else if kind == "Stream"@ {
        Ok(Some(TypeDefView::Stream(c)))
    } else if kind == "Indirect"@ {
        Ok(Some(TypeDefView::Indirect(c)))
    } else if kind == "Opaque"@ {
        Ok(Some(TypeDefView::Opaque(c)))
    } else if kind == "Float"@ {
        Ok(Some(TypeDefView::Float(c, size_or(child_text(ns, k, "TypeSize"@), 255, 4) as u8)))
    } else if kind == "LensSerialFloat"@ {
        Ok(Some(TypeDefView::LensSerialFloat(c)))
    } else if kind == "StrongReference"@ {
        base_typed(ns, k, ctx, |a: Auid| TypeDefView::StrongReference(c, a))
    } else if kind == "WeakReference"@ {
        base_typed(ns, k, ctx, |a: Auid| TypeDefView::WeakReference(c, a, facet_auids(ns, facets(ns, k))))
    } else if kind == "Record"@ {
        match record_facets(ns, facets(ns, k), ctx) {
            Err(e) => Err(e),
            Ok(ms) => Ok(Some(TypeDefView::Record(c, ms))),
        }
    } else if kind == "Enumeration"@ {
        if first_facet_is_urn(ns, k) {
            Ok(Some(TypeDefView::ExtendibleEnumeration(c, Seq::empty())))
        } else {
            base_typed(ns, k, ctx, |a: Auid| TypeDefView::Enumeration(c, a, enum_facets(ns, facets(ns, k))))
        }
    } else {
        Ok(None)
    }
}

/// The type definition of a TypesRegister entry, if it gives one.
pub open spec fn type_entry(ns: Seq<NodeView>, k: usize) -> Result<Option<TypeDefView>, DictErrorView> {
    match entry_head(ns, k) {
        None => Ok(None),
        Some((u, id, sym)) => {
            let nsn = text_or_empty(child_text(ns, k, "NamespaceName"@));
            match child_text(ns, k, "TypeKind"@) {
                None => Ok(None),
                Some(kind) => type_of_kind(
                    ns,
                    k,
                    kind,
                    kind + ":"@ + u,
                    CommonView { id, symbol: sym, namespace: nsn },
                ),
            }
        },
    }
}

/// The type definitions of the entries `es`, in order.
pub open spec fn types_fold(ns: Seq<NodeView>, es: Seq<usize>) -> Result<Seq<DefinitionView>, DictErrorView>
    decreases es.len(),
{
    if es.len() == 0 {
        Ok(Seq::empty())
    } else {
        match types_fold(ns, es.drop_last()) {
            Err(e) => Err(e),
            Ok(ds) => match type_entry(ns, es.last()) {
                Err(e) => Err(e),
                Ok(None) => Ok(ds),
                Ok(Some(t)) => Ok(ds.push(DefinitionView::Type(t))),
            },
        }
    }
}

// ── GroupsRegister ──────────────────────────────────────────────────────────

/// The property that a group's `Contents` `Record` names, where the element
/// index knows its UL.
pub open spec fn record_property(ns: Seq<NodeView>, rec: usize, owner: Auid, idx: Map<Auid, ElementView>) -> Option<PropertyView> {
    match child_text(ns, rec, "UL"@) {
        None => None,
        Some(u) => match urn_auid(u) {
            None => None,
            Some(id) => if !idx.contains_key(id) {
                None
            } else {
                let e = idx[id];
                Some(PropertyView {
                    common: CommonView { id, symbol: e.0, namespace: e.1 },
                    member_of: owner,
                    property_type: e.2,
                    is_optional: register_flag(child_text(ns, rec, "IsOptional"@), true),
                    is_unique_identifier: register_flag(child_text(ns, rec, "IsUniqueID"@), false),
                    local_identification: match child_text(ns, rec, "LocalTag"@) {
                        Some(s) => match parse_uint(trim(s), 16, 65535) {
                            Some(v) => v as u16,
                            None => 0,
                        },
                        None => 0,
                    },
                })
            },
        },
    }
}

/// A property that a group's record names is optional unless the record
/// says otherwise: without an `IsOptional` element it imports as optional,
/// and without an `IsUniqueID` element as no unique identifier. It belongs
/// to the group's class and takes its symbol, namespace and type from the
/// element index.
pub proof fn lemma_record_defaults(ns: Seq<NodeView>, rec: usize, owner: Auid, idx: Map<Auid, ElementView>)
    requires
        record_property(ns, rec, owner, idx) is Some,
    ensures
        ({
            let p = record_property(ns, rec, owner, idx)->0;
            &&& child_text(ns, rec, "IsOptional"@) is None ==> p.is_optional
            &&& child_text(ns, rec, "IsOptional"@) == Some("true"@) ==> p.is_optional
            &&& child_text(ns, rec, "IsOptional"@) == Some("false"@) ==> !p.is_optional
            &&& child_text(ns, rec, "IsUniqueID"@) is None ==> !p.is_unique_identifier
            &&& child_text(ns, rec, "LocalTag"@) is None ==> p.local_identification == 0
            &&& p.member_of == owner
            &&& idx.contains_key(p.common.id)
            &&& p.common.symbol == idx[p.common.id].0
            &&& p.property_type == idx[p.common.id].2
        }),
{
    lemma_flag_words();
}

/// A register flag that reads `true` is set and one that reads `false` is
/// not, whatever the default.
proof fn lemma_flag_words()
    ensures
        forall|d: bool| #[trigger] register_flag(Some("true"@), d),
        forall|d: bool| !#[trigger] register_flag(Some("false"@), d),
{
    reveal_strlit("true");
    reveal_strlit("false");
    reveal_strlit("1");
    reveal_strlit("yes");
    let t = "true"@;
    let f = "false"@;
    assert(lead_ws(t) == 0);
    assert(lead_ws(f) == 0);
    assert(t.skip(0) =~= t);
    assert(f.skip(0) =~= f);
    assert(trail_ws(t) == 0);
    assert(trail_ws(f) == 0);
    assert(t.take(4) =~= t);
    assert(f.take(5) =~= f);
    assert(trim(t) =~= t);
    assert(trim(f) =~= f);
    assert(ascii_lower_seq(t) =~= t);
    assert(ascii_lower_seq(f) =~= f);
    assert(f != "1"@ && f != "yes"@ && f != t) by {
        assert(f.len() != "1"@.len());
        assert(f.len() != "yes"@.len());
        assert(f.len() != t.len());
    }
}

pub open spec fn record_properties(ns: Seq<NodeView>, rs: Seq<usize>, owner: Auid, idx: Map<Auid, ElementView>) -> Seq<DefinitionView>
    decreases rs.len(),
{
    if rs.len() == 0 {
        Seq::empty()
    } else {
        let rest = record_properties(ns, rs.drop_last(), owner, idx);
        match record_property(ns, rs.last(), owner, idx) {
            Some(p) => rest.push(DefinitionView::Property(p)),
            None => rest,
        }
    }
}

/// The `Record` children of an entry's `Contents`.
pub open spec fn records(ns: Seq<NodeView>, k: usize) -> Seq<usize> {
    match child(ns, k, "Contents"@) {
        None => Seq::empty(),
        Some(c) => named(ns, kids(ns, c), "Record"@),
    }
}

/// The class of a GroupsRegister entry followed by its properties.
pub open spec fn group_entry(ns: Seq<NodeView>, k: usize, idx: Map<Auid, ElementView>) -> Result<Seq<DefinitionView>, DictErrorView> {
    match entry_head(ns, k) {
        None => Ok(Seq::empty()),
        Some((_, id, sym)) => {
            let nsn = text_or_empty(child_text(ns, k, "NamespaceName"@));
            match reg_opt_auid(ns, k, "Parent"@) {
                Err(e) => Err(e),
                Ok(parent) => Ok(seq![DefinitionView::Class(ClassView {
                    common: CommonView { id, symbol: sym, namespace: nsn },
                    parent,
                    is_concrete: register_flag(child_text(ns, k, "IsConcrete"@), true),
                })] + record_properties(ns, records(ns, k), id, idx)),
            }
        },
    }
}

/// A GroupsRegister entry gives its class first, concrete unless the entry
/// says `false`, then the properties of its records, each a member of that
/// class.
pub proof fn lemma_group_entry_class(ns: Seq<NodeView>, k: usize, idx: Map<Auid, ElementView>)
    ensures
        match group_entry(ns, k, idx) {
            Ok(ds) => ds.len() > 0 ==> {
                &&& ds[0] is Class
                &&& (child_text(ns, k, "IsConcrete"@) is None ==> ds[0]->Class_0.is_concrete)
                &&& (child_text(ns, k, "IsConcrete"@) == Some("true"@) ==> ds[0]->Class_0.is_concrete)
                &&& (child_text(ns, k, "IsConcrete"@) == Some("false"@) ==> !ds[0]->Class_0.is_concrete)
                &&& forall|i: int| 1 <= i < ds.len() ==> (#[trigger] ds[i] matches DefinitionView::Property(p)
                    && p.member_of == ds[0]->Class_0.common.id)
            },
            Err(_) => true,
        },
{
    lemma_flag_words();
    if let Some((_, id, sym)) = entry_head(ns, k) {
        lemma_record_properties_members(ns, records(ns, k), id, idx);
    }
}

proof fn lemma_record_properties_members(ns: Seq<NodeView>, rs: Seq<usize>, owner: Auid, idx: Map<Auid, ElementView>)
    ensures
        forall|i: int| 0 <= i < record_properties(ns, rs, owner, idx).len() ==> (#[trigger] record_properties(
            ns,
            rs,
            owner,
            idx,
        )[i] matches DefinitionView::Property(p) && p.member_of == owner),
    decreases rs.len(),
{
    if rs.len() > 0 {
        lemma_record_properties_members(ns, rs.drop_last(), owner, idx);
        let front = record_properties(ns, rs.drop_last(), owner, idx);
        assert forall|i: int| 0 <= i < record_properties(ns, rs, owner, idx).len() implies (#[trigger] record_properties(
            ns,
            rs,
            owner,
            idx,
        )[i] matches DefinitionView::Property(p) && p.member_of == owner) by {
            if i < front.len() {
                assert(record_properties(ns, rs, owner, idx)[i] == front[i]);
            }
        }
    }
}

/// Defaults of a TypesRegister entry where a field is absent: an integer
/// is one byte, and unsigned unless its qualifiers say `isSigned`; a float
/// is four bytes; a fixed array has no elements.
pub proof fn lemma_type_defaults(ns: Seq<NodeView>, k: usize, kind: Seq<char>, ctx: Seq<char>, c: CommonView)
    ensures
        type_of_kind(ns, k, kind, ctx, c) matches Ok(Some(TypeDefView::Integer(tc, size, signed))) ==> {
            &&& tc == c
            &&& child_text(ns, k, "TypeSize"@) is None ==> size == 1
            &&& child_text(ns, k, "TypeQualifiers"@) is None ==> !signed
        },
        type_of_kind(ns, k, kind, ctx, c) matches Ok(Some(TypeDefView::Float(tc, size))) ==> (tc == c
            && (child_text(ns, k, "TypeSize"@) is None ==> size == 4)),
        type_of_kind(ns, k, kind, ctx, c) matches Ok(Some(TypeDefView::FixedArray(tc, _, count))) ==> (tc == c
            && (child_text(ns, k, "TypeSize"@) is None ==> count == 0)),
{
    if child_text(ns, k, "TypeQualifiers"@) is None {
        reveal_strlit("isSigned");
        assert(text_or_empty(child_text(ns, k, "TypeQualifiers"@)) == Seq::<char>::empty());
        assert(!contains(Seq::<char>::empty(), "isSigned"@));
    }
}

pub open spec fn groups_fold(ns: Seq<NodeView>, es: Seq<usize>, idx: Map<Auid, ElementView>) -> Result<Seq<DefinitionView>, DictErrorView>
    decreases es.len(),
{
    if es.len() == 0 {
        Ok(Seq::empty())
    } else {
        match groups_fold(ns, es.drop_last(), idx) {
            Err(e) => Err(e),
            Ok(ds) => match group_entry(ns, es.last(), idx) {
                Err(e) => Err(e),
                Ok(more) => Ok(ds + more),
            },
        }
    }
}

// ── All registers ───────────────────────────────────────────────────────────

/// The sources as text, or the error of the first that is not UTF-8.
pub open spec fn decoded(srcs: Seq<Seq<u8>>) -> Result<Seq<Seq<char>>, DictErrorView>
    decreases srcs.len(),
{
    if srcs.len() == 0 {
        Ok(Seq::empty())
    } else {
        match decoded(srcs.drop_last()) {
            Err(e) => Err(e),
            Ok(ts) => if vstd::utf8::valid_utf8(srcs.last()) {
                Ok(ts.push(vstd::utf8::decode_utf8(srcs.last())))
            } else {
                Err(DictErrorView::Xml(utf8_error_message(srcs.last())))
            },
        }
    }
}

/// Every text parsed, and the property index of the Elements registers.
pub open spec fn parsed(texts: Seq<Seq<char>>) -> Result<(Seq<Seq<NodeView>>, Map<Auid, ElementView>), DictErrorView>
    decreases texts.len(),
{
    if texts.len() == 0 {
        Ok((Seq::empty(), Map::empty()))
    } else {
        match parsed(texts.drop_last()) {
            Err(e) => Err(e),
            Ok((docs, idx)) => match xml_document(texts.last()) {
                Err(m) => Err(DictErrorView::Xml(m)),
                Ok(ns) => if root_is(ns, "ElementsRegister"@) {
                    match elements_fold(ns, leaf_entries(ns), idx) {
                        Err(e) => Err(e),
                        Ok(idx2) => Ok((docs.push(ns), idx2)),
                    }
                } else {
                    Ok((docs.push(ns), idx))
                },
            },
        }
    }
}

/// The type definitions of every Types register, in order.
pub open spec fn all_types(docs: Seq<Seq<NodeView>>) -> Result<Seq<DefinitionView>, DictErrorView>
    decreases docs.len(),
{
    if docs.len() == 0 {
        Ok(Seq::empty())
    } else {
        match all_types(docs.drop_last()) {
            Err(e) => Err(e),
            Ok(ds) => if root_is(docs.last(), "TypesRegister"@) {
                match types_fold(docs.last(), leaf_entries(docs.last())) {
                    Err(e) => Err(e),
                    Ok(more) => Ok(ds + more),
                }
            } else {
                Ok(ds)
            },
        }
    }
}

/// The class and property definitions of every Groups register, in order.
pub open spec fn all_groups(docs: Seq<Seq<NodeView>>, idx: Map<Auid, ElementView>) -> Result<Seq<DefinitionView>, DictErrorView>
    decreases docs.len(),
{
    if docs.len() == 0 {
        Ok(Seq::empty())
    } else {
        match all_groups(docs.drop_last(), idx) {
            Err(e) => Err(e),
            Ok(ds) => if root_is(docs.last(), "GroupsRegister"@) {
                match groups_fold(docs.last(), leaf_entries(docs.last()), idx) {
                    Err(e) => Err(e),
                    Ok(more) => Ok(ds + more),
                }
            } else {
                Ok(ds)
            },
        }
    }
}

/// The definitions that [`import_registers`] adds, in order, or its error.
pub open spec fn spec_import(srcs: Seq<Seq<u8>>) -> Result<Seq<DefinitionView>, DictErrorView> {
    match decoded(srcs) {
        Err(e) => Err(e),
        Ok(ts) => match parsed(ts) {
            Err(e) => Err(e),
            Ok((docs, idx)) => match all_types(docs) {
                Err(e) => Err(e),
                Ok(a) => match all_groups(docs, idx) {
                    Err(e) => Err(e),
                    Ok(b) => Ok(a + b),
                },
            },
        },
    }
}

/// Two sources decode to their two texts, in order.
proof fn lemma_decoded_two(a: Seq<u8>, b: Seq<u8>)
    requires
        vstd::utf8::valid_utf8(a),
        vstd::utf8::valid_utf8(b),
    ensures
        decoded(seq![a, b]) == Ok::<Seq<Seq<char>>, DictErrorView>(seq![vstd::utf8::decode_utf8(a), vstd::utf8::decode_utf8(b)]),
{
    assert(seq![a, b].drop_last() =~= seq![a]);
    assert(seq![a].drop_last() =~= Seq::<Seq<u8>>::empty());
    assert(decoded(Seq::<Seq<u8>>::empty()) == Ok::<Seq<Seq<char>>, DictErrorView>(Seq::empty()));
    assert(seq![a].last() == a);
    assert(seq![a, b].last() == b);
    assert(decoded(seq![a]) == Ok::<Seq<Seq<char>>, DictErrorView>(Seq::empty().push(vstd::utf8::decode_utf8(a))));
    assert(Seq::<Seq<char>>::empty().push(vstd::utf8::decode_utf8(a)).push(vstd::utf8::decode_utf8(b))
        =~= seq![vstd::utf8::decode_utf8(a), vstd::utf8::decode_utf8(b)]);
}

/// Two parsed texts, of which one is an Elements register and the other no
/// register that indexes or defines anything of its own here: the index is
/// the Elements register's, in either order.
proof fn lemma_parsed_two(te: Seq<char>, tg: Seq<char>, de: Seq<NodeView>, dg: Seq<NodeView>)
    requires
        xml_document(te) == Ok::<Seq<NodeView>, Seq<char>>(de),
        xml_document(tg) == Ok::<Seq<NodeView>, Seq<char>>(dg),
        root_is(de, "ElementsRegister"@),
        !root_is(dg, "ElementsRegister"@),
    ensures
        parsed(seq![te, tg]) == match elements_fold(de, leaf_entries(de), Map::empty()) {
            Err(x) => Err(x),
            Ok(idx) => Ok::<(Seq<Seq<NodeView>>, Map<Auid, ElementView>), DictErrorView>((seq![de, dg], idx)),
        },
        parsed(seq![tg, te]) == match elements_fold(de, leaf_entries(de), Map::empty()) {
            Err(x) => Err(x),
            Ok(idx) => Ok::<(Seq<Seq<NodeView>>, Map<Auid, ElementView>), DictErrorView>((seq![dg, de], idx)),
        },
{
    assert(seq![te, tg].drop_last() =~= seq![te]);
    assert(seq![tg, te].drop_last() =~= seq![tg]);
    assert(seq![te].drop_last() =~= Seq::<Seq<char>>::empty());
    assert(seq![tg].drop_last() =~= Seq::<Seq<char>>::empty());
    assert(seq![te].last() == te && seq![tg].last() == tg);
    assert(seq![te, tg].last() == tg && seq![tg, te].last() == te);
    assert(parsed(Seq::<Seq<char>>::empty()) == Ok::<(Seq<Seq<NodeView>>, Map<Auid, ElementView>), DictErrorView>((Seq::empty(), Map::empty())));
    assert(parsed(seq![tg]) == Ok::<(Seq<Seq<NodeView>>, Map<Auid, ElementView>), DictErrorView>((Seq::empty().push(dg), Map::empty())));
    assert(parsed(seq![te]) == match elements_fold(de, leaf_entries(de), Map::empty()) {
        Err(x) => Err(x),
        Ok(idx) => Ok::<(Seq<Seq<NodeView>>, Map<Auid, ElementView>), DictErrorView>((Seq::empty().push(de), idx)),
    });
    assert(Seq::<Seq<NodeView>>::empty().push(de).push(dg) =~= seq![de, dg]);
    assert(Seq::<Seq<NodeView>>::empty().push(dg).push(de) =~= seq![dg, de]);
}

/// [`import_registers`] of an Elements register and a Groups register (each
/// valid UTF-8 and well-formed XML) gives the same result, the same
/// dictionary or the same error, in either order: the Elements registers are
/// indexed before any Groups register is read.
pub proof fn lemma_import_order(e: Seq<u8>, g: Seq<u8>)
    requires
        vstd::utf8::valid_utf8(e),
        vstd::utf8::valid_utf8(g),
        xml_document(vstd::utf8::decode_utf8(e)) is Ok,
        xml_document(vstd::utf8::decode_utf8(g)) is Ok,
        root_is(xml_document(vstd::utf8::decode_utf8(e))->Ok_0, "ElementsRegister"@),
        root_is(xml_document(vstd::utf8::decode_utf8(g))->Ok_0, "GroupsRegister"@),
    ensures
        spec_import(seq![e, g]) == spec_import(seq![g, e]),
{
    let te = vstd::utf8::decode_utf8(e);
    let tg = vstd::utf8::decode_utf8(g);
    let de = xml_document(te)->Ok_0;
    let dg = xml_document(tg)->Ok_0;
    reveal_strlit("ElementsRegister");
    reveal_strlit("GroupsRegister");
    reveal_strlit("TypesRegister");
    assert(!root_is(dg, "ElementsRegister"@)) by {
        assert("ElementsRegister"@[0] != "GroupsRegister"@[0]);
    }
    assert(!root_is(de, "GroupsRegister"@)) by {
        assert("ElementsRegister"@[0] != "GroupsRegister"@[0]);
    }
    assert(!root_is(de, "TypesRegister"@)) by {
        assert("TypesRegister"@[0] != "ElementsRegister"@[0]);
    }
    assert(!root_is(dg, "TypesRegister"@)) by {
        assert("TypesRegister"@[0] != "GroupsRegister"@[0]);
    }
    lemma_decoded_two(e, g);
    lemma_decoded_two(g, e);
    lemma_parsed_two(te, tg, de, dg);
    if let Ok(idx) = elements_fold(de, leaf_entries(de), Map::empty()) {
        lemma_registers_two(de, dg, idx);
    }
}

/// The types and groups of an Elements register and a Groups register are
/// the Groups register's, in either order.
proof fn lemma_registers_two(de: Seq<NodeView>, dg: Seq<NodeView>, idx: Map<Auid, ElementView>)
    requires
        !root_is(de, "TypesRegister"@),
        !root_is(dg, "TypesRegister"@),
        !root_is(de, "GroupsRegister"@),
        root_is(dg, "GroupsRegister"@),
    ensures
        all_types(seq![de, dg]) == Ok::<Seq<DefinitionView>, DictErrorView>(Seq::empty()),
        all_types(seq![dg, de]) == Ok::<Seq<DefinitionView>, DictErrorView>(Seq::empty()),
        all_groups(seq![de, dg], idx) == all_groups(seq![dg, de], idx),
{
    assert(seq![de, dg].drop_last() =~= seq![de]);
    assert(seq![dg, de].drop_last() =~= seq![dg]);
    assert(seq![de].drop_last() =~= Seq::<Seq<NodeView>>::empty());
    assert(seq![dg].drop_last() =~= Seq::<Seq<NodeView>>::empty());
    assert(seq![de].last() == de && seq![dg].last() == dg);
    assert(seq![de, dg].last() == dg && seq![dg, de].last() == de);
    assert(all_types(Seq::<Seq<NodeView>>::empty()) == Ok::<Seq<DefinitionView>, DictErrorView>(Seq::empty()));
    assert(all_types(seq![de]) == Ok::<Seq<DefinitionView>, DictErrorView>(Seq::empty()));
    assert(all_types(seq![dg]) == Ok::<Seq<DefinitionView>, DictErrorView>(Seq::empty()));
    assert(all_groups(Seq::<Seq<NodeView>>::empty(), idx) == Ok::<Seq<DefinitionView>, DictErrorView>(Seq::empty()));
    assert(all_groups(seq![de], idx) == Ok::<Seq<DefinitionView>, DictErrorView>(Seq::empty()));
    let gd = all_groups(seq![dg], idx);
    assert(gd == match groups_fold(dg, leaf_entries(dg), idx) {
        Err(x) => Err(x),
        Ok(more) => Ok::<Seq<DefinitionView>, DictErrorView>(Seq::empty() + more),
    });
    assert(all_groups(seq![de, dg], idx) == gd);
    assert(all_groups(seq![dg, de], idx) == gd);
}

// ── Executable readers ──────────────────────────────────────────────────────

fn flag_of(doc: &XmlDoc, k: usize, name: &str, dflt: bool) -> (r: bool)
    requires
        doc.wf(),
        k < doc.nodes@.len(),
    ensures
        r == register_flag(child_text(doc.view_nodes(), k, name@), dflt),
{
    match doc.child_text(k, name) {
        Some(t) => {
            let l = trim_str(t.as_str());
            eq_ascii_lower(l.as_str(), "true") || eq_ascii_lower(l.as_str(), "1") || eq_ascii_lower(l.as_str(), "yes")
        },
        None => dflt,
    }
}

fn size_of_field(doc: &XmlDoc, k: usize, name: &str, max: u64, dflt: u64) -> (r: u64)
    requires
        doc.wf(),
        k < doc.nodes@.len(),
        dflt <= max,
    ensures
        r == size_or(child_text(doc.view_nodes(), k, name@), max as nat, dflt as nat),
        r <= max,
{
    match doc.child_text(k, name) {
        Some(t) => match parse_unsigned(t.as_str(), 10, max) {
            Some(v) => v,
            None => dflt,
        },
        None => dflt,
    }
}

fn req_auid(doc: &XmlDoc, k: usize, field: &str, ctx: &String) -> (r: Result<Auid, DictError>)
    requires
        doc.wf(),
        k < doc.nodes@.len(),
    ensures
        match reg_req_auid(doc.view_nodes(), k, field@, ctx@) {
            Ok(a) => (r matches Ok(x) && x == a),
            Err(e) => (r matches Err(x) && x@ == e),
        },
{
    match doc.child_text(k, field) {
        None => {
            let mut o: Vec<char> = Vec::new();
            append_str(&mut o, ctx.as_str());
            push_lit(&mut o, ": missing <");
            append_str(&mut o, field);
            push_lit(&mut o, ">");
            Err(DictError::Xml(string_of(&o)))
        },
        Some(s) => match Auid::from_urn(s.as_str()) {
            Ok(a) => Ok(a),
            Err(e) => {
                let m = e.to_string();
                let mut o: Vec<char> = Vec::new();
                append_str(&mut o, ctx.as_str());
                push_lit(&mut o, ": <");
                append_str(&mut o, field);
                push_lit(&mut o, ">: ");
                append_str(&mut o, m.as_str());
                Err(DictError::Xml(string_of(&o)))
            },
        },
    }
}

fn opt_auid(doc: &XmlDoc, k: usize, field: &str) -> (r: Result<Option<Auid>, DictError>)
    requires
        doc.wf(),
        k < doc.nodes@.len(),
    ensures
        match reg_opt_auid(doc.view_nodes(), k, field@) {
            Ok(a) => (r matches Ok(x) && x == a),
            Err(e) => (r matches Err(x) && x@ == e),
        },
{
    match doc.child_text(k, field) {
        None => Ok(None),
        Some(s) => match Auid::from_urn(s.as_str()) {
            Ok(a) => Ok(Some(a)),
            Err(e) => Err(DictError::Xml(e.to_string())),
        },
    }
}

fn root_named(doc: &XmlDoc, name: &str) -> (r: bool)
    requires
        doc.wf(),
    ensures
        r == root_is(doc.view_nodes(), name@),
{
    match doc.root_element() {
        Some(r) => str_eq(doc.nodes[r].name.as_str(), name),
        None => false,
    }
}

/// The leaf `Entry` elements of a register.
fn leaf_entry_nodes(doc: &XmlDoc) -> (r: Vec<usize>)
    requires
        doc.wf(),
    ensures
        r@ == leaf_entries(doc.view_nodes()),
        in_range(doc.view_nodes(), r@),
{
    let ghost ns = doc.view_nodes();
    let mut out: Vec<usize> = Vec::new();
    let root = match doc.root_element() {
        Some(r) => r,
        None => return out,
    };
    let e = match doc.child(root, "Entries") {
        Some(e) => e,
        None => return out,
    };
    let ks = &doc.kids[e];
    let total = doc.nodes.len();
    proof {
        assert(ns.len() == total);
        crate::xml::tree::lemma_kids_in_range(ns, e, ns.len() as int);
    }
    let mut i: usize = 0;
    while i < ks.len()
        invariant
            doc.wf(),
            ns == doc.view_nodes(),
            ks@ == kids(ns, e),
            in_range(ns, ks@),
            i <= ks@.len(),
            out@ == leaves(ns, ks@.take(i as int)),
            in_range(ns, out@),
        decreases ks.len() - i,
    {
        let k = ks[i];
        proof {
            assert(ks@.take(i + 1).drop_last() =~= ks@.take(i as int));
        }
        if str_eq(doc.nodes[k].name.as_str(), "Entry") {
            let node = match doc.child_text(k, "Kind") {
                Some(t) => str_eq(t.as_str(), "NODE"),
                None => false,
            };
            if !node {
                out.push(k);
            }
        }
        i = i + 1;
    }
    proof {
        assert(ks@.take(i as int) =~= ks@);
    }
    out
}

fn entry_head_of(doc: &XmlDoc, k: usize) -> (r: Option<(String, Auid, String)>)
    requires
        doc.wf(),
        k < doc.nodes@.len(),
    ensures
        match entry_head(doc.view_nodes(), k) {
            Some((u, id, sym)) => (r matches Some(x) && x.0@ == u && x.1 == id && x.2@ == sym),
            None => r is None,
        },
{
    let u = match doc.child_text(k, "UL") {
        Some(u) => u,
        None => return None,
    };
    let id = match Auid::from_urn(u.as_str()) {
        Ok(a) => a,
        Err(_) => return None,
    };
    let sym = match doc.child_text(k, "Symbol") {
        Some(s) => s,
        None => return None,
    };
    Some((u, id, sym))
}

fn text_or_new(t: Option<String>) -> (r: String)
    ensures
        r@ == text_or_empty(match t {
            Some(s) => Some(s@),
            None => None,
        }),
{
    match t {
        Some(s) => s,
        None => String::new(),
    }
}

/// Add the properties of an Elements register to the index.
fn collect_elements(doc: &XmlDoc, index: &mut ElementIndex) -> (r: Result<(), DictError>)
    requires
        doc.wf(),
        old(index).wf(),
    ensures
        final(index).wf(),
        match elements_fold(doc.view_nodes(), leaf_entries(doc.view_nodes()), old(index).map()) {
            Ok(m) => r is Ok && final(index).map() == m,
            Err(e) => (r matches Err(x) && x@ == e),
        },
{
    let ghost ns = doc.view_nodes();
    let ghost start = index.map();
    let es = leaf_entry_nodes(doc);
    proof {
        assert(es@.take(0) =~= Seq::<usize>::empty());
    }
    let mut i: usize = 0;
    while i < es.len()
        invariant
            doc.wf(),
            ns == doc.view_nodes(),
            in_range(ns, es@),
            es@ == leaf_entries(ns),
            i <= es@.len(),
            index.wf(),
            elements_fold(ns, es@.take(i as int), start) == Ok::<Map<Auid, ElementView>, DictErrorView>(index.map()),
            start == old(index).map(),
        decreases es.len() - i,
    {
        let k = es[i];
        proof {
            assert(es@.take(i + 1).drop_last() =~= es@.take(i as int));
        }
        match entry_head_of(doc, k) {
            None => {},
            Some((_, id, symbol)) => {
                let namespace = text_or_new(doc.child_text(k, "NamespaceName"));
                match opt_auid(doc, k, "Type") {
                    Err(e) => {
                        proof {
                            assert(es@.take(i + 1).last() == k);
                            lemma_elements_err(ns, es@, start, i as int + 1);
                        }
                        return Err(e);
                    },
                    Ok(None) => {},
                    Ok(Some(type_auid)) => {
                        index.insert(id, ElementEntry { symbol, namespace, type_auid });
                    },
                }
            },
        }
        i = i + 1;
    }
    proof {
        assert(es@.take(i as int) =~= es@);
    }
    Ok(())
}

proof fn lemma_elements_err(ns: Seq<NodeView>, es: Seq<usize>, idx: Map<Auid, ElementView>, i: int)
    requires
        0 < i <= es.len(),
        elements_fold(ns, es.take(i), idx) is Err,
    ensures
        elements_fold(ns, es, idx) == elements_fold(ns, es.take(i), idx),
    decreases es.len() - i,
{
    if i < es.len() {
        assert(es.take(i + 1).drop_last() =~= es.take(i));
        lemma_elements_err(ns, es, idx, i + 1);
    } else {
        assert(es.take(i) =~= es);
    }
}

fn facet_nodes(doc: &XmlDoc, k: usize) -> (r: Vec<usize>)
    requires
        doc.wf(),
        k < doc.nodes@.len(),
    ensures
        r@ == facets(doc.view_nodes(), k),
        in_range(doc.view_nodes(), r@),
{
    match doc.child(k, "Facets") {
        None => Vec::new(),
        Some(f) => doc.children_named(f, "Facet"),
    }
}

/// Collect `<Facets><Facet><Value>` as AUIDs (for WeakReference target sets).
fn parse_facet_values_as_auids(doc: &XmlDoc, fs: &Vec<usize>) -> (r: Vec<Auid>)
    requires
        doc.wf(),
        in_range(doc.view_nodes(), fs@),
    ensures
        r@ == facet_auids(doc.view_nodes(), fs@),
{
    let ghost ns = doc.view_nodes();
    let mut out: Vec<Auid> = Vec::new();
    let mut i: usize = 0;
    while i < fs.len()
        invariant
            doc.wf(),
            ns == doc.view_nodes(),
            in_range(ns, fs@),
            i <= fs@.len(),
            out@ == facet_auids(ns, fs@.take(i as int)),
        decreases fs.len() - i,
    {
        proof {
            assert(fs@.take(i + 1).drop_last() =~= fs@.take(i as int));
        }
        match doc.child_text(fs[i], "Value") {
            Some(v) => match Auid::from_urn(v.as_str()) {
                Ok(a) => out.push(a),
                Err(_) => {},
            },
            None => {},
        }
        i = i + 1;
    }
    proof {
        assert(fs@.take(i as int) =~= fs@);
    }
    out
}

/// Collect `<Facets><Facet>` as Record members (Symbol + Type UL).
fn parse_record_facets(doc: &XmlDoc, fs: &Vec<usize>, ctx: &String) -> (r: Result<Vec<RecordMember>, DictError>)
    requires
        doc.wf(),
        in_range(doc.view_nodes(), fs@),
    ensures
        match record_facets(doc.view_nodes(), fs@, ctx@) {
            Ok(ms) => (r matches Ok(v) && record_members_view(v@) == ms),
            Err(e) => (r matches Err(x) && x@ == e),
        },
{
    let ghost ns = doc.view_nodes();
    let mut out: Vec<RecordMember> = Vec::new();
    proof {
        assert(record_members_view(out@) =~= Seq::empty());
        assert(fs@.take(0) =~= Seq::<usize>::empty());
    }
    let mut i: usize = 0;
    while i < fs.len()
        invariant
            doc.wf(),
            ns == doc.view_nodes(),
            in_range(ns, fs@),
            i <= fs@.len(),
            record_facets(ns, fs@.take(i as int), ctx@) == Ok::<Seq<(Seq<char>, Auid)>, DictErrorView>(record_members_view(out@)),
        decreases fs.len() - i,
    {
        let k = fs[i];
        proof {
            assert(fs@.take(i + 1).drop_last() =~= fs@.take(i as int));
            assert(fs@.take(i + 1).last() == k);
        }
        match doc.child_text(k, "Symbol") {
            None => {},
            Some(name) => match req_auid(doc, k, "Type", ctx) {
                Err(e) => {
                    proof {
                        lemma_record_facets_err(ns, fs@, ctx@, i as int + 1);
                    }
                    return Err(e);
                },
                Ok(t) => {
                    let ghost before = out@;
                    out.push(RecordMember { name, field_type: t });
                    proof {
                        assert(record_members_view(out@) =~= record_members_view(before).push((name@, t)));
                    }
                },
            },
        }
        i = i + 1;
    }
    proof {
        assert(fs@.take(i as int) =~= fs@);
    }
    Ok(out)
}

proof fn lemma_record_facets_err(ns: Seq<NodeView>, fs: Seq<usize>, ctx: Seq<char>, i: int)
    requires
        0 < i <= fs.len(),
        record_facets(ns, fs.take(i), ctx) is Err,
    ensures
        record_facets(ns, fs, ctx) == record_facets(ns, fs.take(i), ctx),
    decreases fs.len() - i,
{
    if i < fs.len() {
        assert(fs.take(i + 1).drop_last() =~= fs.take(i));
        lemma_record_facets_err(ns, fs, ctx, i + 1);
    } else {
        assert(fs.take(i) =~= fs);
    }
}

/// Collect `<Facets><Facet>` as Enumeration elements (Symbol + integer Value).
fn parse_enum_facets(doc: &XmlDoc, fs: &Vec<usize>) -> (r: Vec<EnumerationElement>)
    requires
        doc.wf(),
        in_range(doc.view_nodes(), fs@),
    ensures
        enum_elements_view(r@) == enum_facets(doc.view_nodes(), fs@),
{
    let ghost ns = doc.view_nodes();
    let mut out: Vec<EnumerationElement> = Vec::new();
    proof {
        assert(enum_elements_view(out@) =~= Seq::empty());
        assert(fs@.take(0) =~= Seq::<usize>::empty());
    }
    let mut i: usize = 0;
    while i < fs.len()
        invariant
            doc.wf(),
            ns == doc.view_nodes(),
            in_range(ns, fs@),
            i <= fs@.len(),
            enum_elements_view(out@) == enum_facets(ns, fs@.take(i as int)),
        decreases fs.len() - i,
    {
        let k = fs[i];
        proof {
            assert(fs@.take(i + 1).drop_last() =~= fs@.take(i as int));
            assert(fs@.take(i + 1).last() == k);
        }
        match doc.child_text(k, "Symbol") {
            None => {},
            Some(name) => {
                let value: i64 = match doc.child_text(k, "Value") {
                    Some(v) => match parse_i64(v.as_str()) {
                        Some(x) => x,
                        None => 0,
                    },
                    None => 0,
                };
                let ghost before = out@;
                out.push(EnumerationElement { name, value });
                proof {
                    assert(enum_elements_view(out@) =~= enum_elements_view(before).push((name@, value)));
                }
            },
        }
        i = i + 1;
    }
    proof {
        assert(fs@.take(i as int) =~= fs@);
    }
    out
}

fn first_facet_urn(doc: &XmlDoc, k: usize) -> (r: bool)
    requires
        doc.wf(),
        k < doc.nodes@.len(),
    ensures
        r == first_facet_is_urn(doc.view_nodes(), k),
{
    match doc.child(k, "Facets") {
        None => false,
        Some(f) => match doc.child(f, "Facet") {
            None => false,
            Some(x) => match doc.child_text(x, "Value") {
                Some(v) => str_starts_with(v.as_str(), "urn:"),
                None => false,
            },
        },
    }
}

/// The type definition of a TypesRegister entry of kind `kind`.
fn parse_type_of_kind(
    doc: &XmlDoc,
    k: usize,
    kind: &str,
    ctx: &String,
    identification: Auid,
    symbol: String,
    namespace: String,
) -> (r: Result<Option<TypeDefinition>, DictError>)
    requires
        doc.wf(),
        k < doc.nodes@.len(),
    ensures
        match type_of_kind(doc.view_nodes(), k, kind@, ctx@, CommonView { id: identification, symbol: symbol@, namespace: namespace@ }) {
            Ok(Some(t)) => (r matches Ok(Some(x)) && x@ == t),
            Ok(None) => (r matches Ok(None)),
            Err(e) => (r matches Err(x) && x@ == e),
        },
{
    if str_eq(kind, "Integer") {
        let size = size_of_field(doc, k, "TypeSize", 255, 1) as u8;
        let q = text_or_new(doc.child_text(k, "TypeQualifiers"));
        let is_signed = str_contains(q.as_str(), "isSigned");
        Ok(Some(TypeDefinition::Integer(IntegerTypeDef { identification, symbol, namespace, size, is_signed })))
    } else if str_eq(kind, "Rename") {
        match req_auid(doc, k, "BaseType", ctx) {
            Ok(renamed_type) => Ok(Some(TypeDefinition::Rename(RenameTypeDef { identification, symbol, namespace, renamed_type }))),
            Err(e) => Err(e),
        }
    } else if str_eq(kind, "FixedArray") {
        match req_auid(doc, k, "BaseType", ctx) {
            Ok(element_type) => {
                let element_count = size_of_field(doc, k, "TypeSize", 0xffff_ffff, 0) as u32;
                Ok(Some(TypeDefinition::FixedArray(FixedArrayTypeDef { identification, symbol, namespace, element_type, element_count })))
            },
            Err(e) => Err(e),
        }
    } else if str_eq(kind, "VariableArray") {
        match req_auid(doc, k, "BaseType", ctx) {
            Ok(element_type) => Ok(Some(TypeDefinition::VariableArray(VariableArrayTypeDef { identification, symbol, namespace, element_type }))),
            Err(e) => Err(e),
        }
    } else if str_eq(kind, "Set") {
        match req_auid(doc, k, "BaseType", ctx) {
            Ok(element_type) => Ok(Some(TypeDefinition::SetType(SetTypeDef { identification, symbol, namespace, element_type }))),
            Err(e) => Err(e),
        }
    } else if str_eq(kind, "String") {
        match req_auid(doc, k, "BaseType", ctx) {
            Ok(element_type) => Ok(Some(TypeDefinition::String(StringTypeDef { identification, symbol, namespace, element_type }))),
            Err(e) => Err(e),
        }
    } else if str_eq(kind, "Character") {
        Ok(Some(TypeDefinition::Character(CharacterTypeDef { identification, symbol, namespace })))
    } else if str_eq(kind, "Stream") {
        Ok(Some(TypeDefinition::Stream(StreamTypeDef { identification, symbol, namespace })))
    } else if str_eq(kind, "Indirect") {
        Ok(Some(TypeDefinition::Indirect(IndirectTypeDef { identification, symbol, namespace })))
    } else if str_eq(kind, "Opaque") {
        Ok(Some(TypeDefinition::Opaque(OpaqueTypeDef { identification, symbol, namespace })))
    } else if str_eq(kind, "Float") {
        let size = size_of_field(doc, k, "TypeSize", 255, 4) as u8;
        Ok(Some(TypeDefinition::Float(FloatTypeDef { identification, symbol, namespace, size })))
    } else if str_eq(kind, "LensSerialFloat") {
        Ok(Some(TypeDefinition::LensSerialFloat(LensSerialFloatTypeDef { identification, symbol, namespace })))
    } else if str_eq(kind, "StrongReference") {
        match req_auid(doc, k, "BaseType", ctx) {
            Ok(referenced_type) => Ok(Some(TypeDefinition::StrongReference(StrongReferenceTypeDef { identification, symbol, namespace, referenced_type }))),
            Err(e) => Err(e),
        }
    } else if str_eq(kind, "WeakReference") {
        match req_auid(doc, k, "BaseType", ctx) {
            Ok(referenced_type) => {
                let fs = facet_nodes(doc, k);
                let target_set = parse_facet_values_as_auids(doc, &fs);
                Ok(Some(TypeDefinition::WeakReference(WeakReferenceTypeDef { identification, symbol, namespace, referenced_type, target_set })))
            },
            Err(e) => Err(e),
        }
    } else if str_eq(kind, "Record") {
        let fs = facet_nodes(doc, k);
        match parse_record_facets(doc, &fs, ctx) {
            Ok(members) => Ok(Some(TypeDefinition::Record(RecordTypeDef { identification, symbol, namespace, members }))),
            Err(e) => Err(e),
        }
    } else if str_eq(kind, "Enumeration") {
        if first_facet_urn(doc, k) {
            let elements: Vec<EnumerationElement> = Vec::new();
            proof {
                assert(enum_elements_view(elements@) =~= Seq::empty());
            }
            Ok(Some(TypeDefinition::ExtendibleEnumeration(ExtEnumTypeDef { identification, symbol, namespace, elements })))
        } else {
            match req_auid(doc, k, "BaseType", ctx) {
                Ok(element_type) => {
                    let fs = facet_nodes(doc, k);
                    let elements = parse_enum_facets(doc, &fs);
                    Ok(Some(TypeDefinition::Enumeration(EnumerationTypeDef { identification, symbol, namespace, element_type, elements })))
                },
                Err(e) => Err(e),
            }
        }
    } else {
        Ok(None)
    }
}

/// The type definition of a TypesRegister entry, if it gives one.
fn parse_type_entry(doc: &XmlDoc, k: usize) -> (r: Result<Option<TypeDefinition>, DictError>)
    requires
        doc.wf(),
        k < doc.nodes@.len(),
    ensures
        match type_entry(doc.view_nodes(), k) {
            Ok(Some(t)) => (r matches Ok(Some(x)) && x@ == t),
            Ok(None) => (r matches Ok(None)),
            Err(e) => (r matches Err(x) && x@ == e),
        },
{
    let (u, id, sym) = match entry_head_of(doc, k) {
        Some(h) => h,
        None => return Ok(None),
    };
    let nsn = text_or_new(doc.child_text(k, "NamespaceName"));
    let kind = match doc.child_text(k, "TypeKind") {
        Some(t) => t,
        None => return Ok(None),
    };
    let mut o: Vec<char> = Vec::new();
    append_str(&mut o, kind.as_str());
    push_lit(&mut o, ":");
    append_str(&mut o, u.as_str());
    let ctx = string_of(&o);
    parse_type_of_kind(doc, k, kind.as_str(), &ctx, id, sym, nsn)
}

/// Add the type definitions of a Types register to `dict`.
fn parse_types(doc: &XmlDoc, dict: &mut MetaDictionary, Ghost(done): Ghost<Seq<DefinitionView>>) -> (r: Result<(), DictError>)
    requires
        doc.wf(),
        old(dict).wf(),
        old(dict).model() == model_add_all(empty_model(), done),
    ensures
        final(dict).wf(),
        final(dict).scheme_uri_view() == old(dict).scheme_uri_view(),
        final(dict).scheme_id_view() == old(dict).scheme_id_view(),
        match types_fold(doc.view_nodes(), leaf_entries(doc.view_nodes())) {
            Ok(ds) => r is Ok && final(dict).model() == model_add_all(empty_model(), done + ds),
            Err(e) => (r matches Err(x) && x@ == e),
        },
{
    let ghost ns = doc.view_nodes();
    let es = leaf_entry_nodes(doc);
    proof {
        assert(es@.take(0) =~= Seq::<usize>::empty());
        assert(done + Seq::<DefinitionView>::empty() =~= done);
    }
    let mut i: usize = 0;
    while i < es.len()
        invariant
            doc.wf(),
            ns == doc.view_nodes(),
            in_range(ns, es@),
            es@ == leaf_entries(ns),
            i <= es@.len(),
            dict.wf(),
            dict.scheme_uri_view() == old(dict).scheme_uri_view(),
            dict.scheme_id_view() == old(dict).scheme_id_view(),
            types_fold(ns, es@.take(i as int)) matches Ok(ds) && dict.model() == model_add_all(empty_model(), done + ds),
        decreases es.len() - i,
    {
        let k = es[i];
        proof {
            assert(es@.take(i + 1).drop_last() =~= es@.take(i as int));
            assert(es@.take(i + 1).last() == k);
        }
        match parse_type_entry(doc, k) {
            Err(e) => {
                proof {
                    lemma_types_err(ns, es@, i as int + 1);
                }
                return Err(e);
            },
            Ok(None) => {},
            Ok(Some(td)) => {
                let ghost ds = types_fold(ns, es@.take(i as int))->Ok_0;
                let def = Definition::Type(td);
                let ghost dv = def@;
                let _ = dict.add(def);
                proof {
                    assert((done + ds.push(dv)).drop_last() =~= done + ds);
                    assert(done + ds.push(dv) =~= (done + ds).push(dv));
                }
            },
        }
        i = i + 1;
    }
    proof {
        assert(es@.take(i as int) =~= es@);
    }
    Ok(())
}

proof fn lemma_types_err(ns: Seq<NodeView>, es: Seq<usize>, i: int)
    requires
        0 < i <= es.len(),
        types_fold(ns, es.take(i)) is Err,
    ensures
        types_fold(ns, es) == types_fold(ns, es.take(i)),
    decreases es.len() - i,
{
    if i < es.len() {
        assert(es.take(i + 1).drop_last() =~= es.take(i));
        lemma_types_err(ns, es, i + 1);
    } else {
        assert(es.take(i) =~= es);
    }
}

/// Build a `PropertyDefinition` from a Groups `<Contents><Record>` entry;
/// `None` if its UL is not in the element index (a proprietary or dark property).
fn parse_property_from_record(doc: &XmlDoc, rec: usize, member_of: Auid, index: &ElementIndex) -> (r: Option<PropertyDefinition>)
    requires
        doc.wf(),
        rec < doc.nodes@.len(),
        index.wf(),
    ensures
        match record_property(doc.view_nodes(), rec, member_of, index.map()) {
            Some(p) => (r matches Some(x) && x@ == p),
            None => r is None,
        },
{
    let u = match doc.child_text(rec, "UL") {
        Some(u) => u,
        None => return None,
    };
    let identification = match Auid::from_urn(u.as_str()) {
        Ok(a) => a,
        Err(_) => return None,
    };
    let elem = match index.get(&identification) {
        Some(e) => e,
        None => return None,
    };
    let is_optional = flag_of(doc, rec, "IsOptional", true);
    let is_unique_identifier = flag_of(doc, rec, "IsUniqueID", false);
    let local_identification: u16 = match doc.child_text(rec, "LocalTag") {
        Some(s) => {
            let t = trim_str(s.as_str());
            match parse_unsigned(t.as_str(), 16, 65535) {
                Some(v) => v as u16,
                None => 0,
            }
        },
        None => 0,
    };
    Some(PropertyDefinition {
        identification,
        symbol: elem.symbol.clone(),
        namespace: elem.namespace.clone(),
        member_of,
        property_type: elem.type_auid,
        is_optional,
        is_unique_identifier,
        local_identification,
    })
}

/// Add the class of a Groups register entry and its properties to `dict`.
fn parse_group_entry(
    doc: &XmlDoc,
    k: usize,
    index: &ElementIndex,
    dict: &mut MetaDictionary,
    Ghost(done): Ghost<Seq<DefinitionView>>,
) -> (r: Result<(), DictError>)
    requires
        doc.wf(),
        k < doc.nodes@.len(),
        index.wf(),
        old(dict).wf(),
        old(dict).model() == model_add_all(empty_model(), done),
    ensures
        final(dict).wf(),
        final(dict).scheme_uri_view() == old(dict).scheme_uri_view(),
        final(dict).scheme_id_view() == old(dict).scheme_id_view(),
        match group_entry(doc.view_nodes(), k, index.map()) {
            Ok(ds) => r is Ok && final(dict).model() == model_add_all(empty_model(), done + ds),
            Err(e) => (r matches Err(x) && x@ == e),
        },
{
    let ghost ns = doc.view_nodes();
    let (_, identification, symbol) = match entry_head_of(doc, k) {
        Some(h) => h,
        None => {
            proof {
                assert(done + Seq::<DefinitionView>::empty() =~= done);
            }
            return Ok(());
        },
    };
    let namespace = text_or_new(doc.child_text(k, "NamespaceName"));
    let parent_class = match opt_auid(doc, k, "Parent") {
        Ok(p) => p,
        Err(e) => return Err(e),
    };
    let is_concrete = flag_of(doc, k, "IsConcrete", true);
    let class = Definition::Class(ClassDefinition { identification, symbol, namespace, parent_class, is_concrete });
    let ghost cv = class@;
    let _ = dict.add(class);
    let ghost acc = done.push(cv);
    proof {
        assert(acc.drop_last() =~= done);
    }
    let rs = match doc.child(k, "Contents") {
        None => Vec::new(),
        Some(c) => doc.children_named(c, "Record"),
    };
    proof {
        assert(rs@ == records(ns, k));
        assert(rs@.take(0) =~= Seq::<usize>::empty());
        assert(acc + record_properties(ns, rs@.take(0), identification, index.map()) =~= acc);
    }
    let mut i: usize = 0;
    while i < rs.len()
        invariant
            doc.wf(),
            ns == doc.view_nodes(),
            in_range(ns, rs@),
            rs@ == records(ns, k),
            i <= rs@.len(),
            index.wf(),
            dict.wf(),
            dict.scheme_uri_view() == old(dict).scheme_uri_view(),
            dict.scheme_id_view() == old(dict).scheme_id_view(),
            dict.model() == model_add_all(empty_model(), acc + record_properties(ns, rs@.take(i as int), identification, index.map())),
        decreases rs.len() - i,
    {
        let rec = rs[i];
        let ghost before = record_properties(ns, rs@.take(i as int), identification, index.map());
        proof {
            assert(rs@.take(i + 1).drop_last() =~= rs@.take(i as int));
            assert(rs@.take(i + 1).last() == rec);
        }
        match parse_property_from_record(doc, rec, identification, index) {
            Some(p) => {
                let def = Definition::Property(p);
                let ghost dv = def@;
                let _ = dict.add(def);
                proof {
                    assert((acc + before.push(dv)).drop_last() =~= acc + before);
                    assert(acc + before.push(dv) =~= (acc + before).push(dv));
                }
            },
            None => {},
        }
        i = i + 1;
    }
    proof {
        assert(rs@.take(i as int) =~= rs@);
        assert(acc + record_properties(ns, rs@, identification, index.map()) =~= done + (seq![cv] + record_properties(ns, rs@, identification, index.map())));
    }
    Ok(())
}

/// Add the classes and properties of a Groups register to `dict`.
fn parse_groups(doc: &XmlDoc, index: &ElementIndex, dict: &mut MetaDictionary, Ghost(done): Ghost<Seq<DefinitionView>>) -> (r: Result<(), DictError>)
    requires
        doc.wf(),
        index.wf(),
        old(dict).wf(),
        old(dict).model() == model_add_all(empty_model(), done),
    ensures
        final(dict).wf(),
        final(dict).scheme_uri_view() == old(dict).scheme_uri_view(),
        final(dict).scheme_id_view() == old(dict).scheme_id_view(),
        match groups_fold(doc.view_nodes(), leaf_entries(doc.view_nodes()), index.map()) {
            Ok(ds) => r is Ok && final(dict).model() == model_add_all(empty_model(), done + ds),
            Err(e) => (r matches Err(x) && x@ == e),
        },
{
    let ghost ns = doc.view_nodes();
    let es = leaf_entry_nodes(doc);
    proof {
        assert(es@.take(0) =~= Seq::<usize>::empty());
        assert(done + Seq::<DefinitionView>::empty() =~= done);
    }
    let mut i: usize = 0;
    while i < es.len()
        invariant
            doc.wf(),
            ns == doc.view_nodes(),
            in_range(ns, es@),
            es@ == leaf_entries(ns),
            i <= es@.len(),
            index.wf(),
            dict.wf(),
            dict.scheme_uri_view() == old(dict).scheme_uri_view(),
            dict.scheme_id_view() == old(dict).scheme_id_view(),
            groups_fold(ns, es@.take(i as int), index.map()) matches Ok(ds) && dict.model() == model_add_all(empty_model(), done + ds),
        decreases es.len() - i,
    {
        let k = es[i];
        let ghost ds = groups_fold(ns, es@.take(i as int), index.map())->Ok_0;
        proof {
            assert(es@.take(i + 1).drop_last() =~= es@.take(i as int));
            assert(es@.take(i + 1).last() == k);
        }
        match parse_group_entry(doc, k, index, dict, Ghost(done + ds)) {
            Err(e) => {
                proof {
                    lemma_groups_err(ns, es@, index.map(), i as int + 1);
                }
                return Err(e);
            },
            Ok(()) => {
                proof {
                    let more = group_entry(ns, k, index.map())->Ok_0;
                    assert(done + ds + more =~= done + (ds + more));
                }
            },
        }
        i = i + 1;
    }
    proof {
        assert(es@.take(i as int) =~= es@);
    }
    Ok(())
}

proof fn lemma_groups_err(ns: Seq<NodeView>, es: Seq<usize>, idx: Map<Auid, ElementView>, i: int)
    requires
        0 < i <= es.len(),
        groups_fold(ns, es.take(i), idx) is Err,
    ensures
        groups_fold(ns, es, idx) == groups_fold(ns, es.take(i), idx),
    decreases es.len() - i,
{
    if i < es.len() {
        assert(es.take(i + 1).drop_last() =~= es.take(i));
        lemma_groups_err(ns, es, idx, i + 1);
    } else {
        assert(es.take(i) =~= es);
    }
}

/// The bytes of each source.
pub open spec fn sources_view(srcs: Seq<&[u8]>) -> Seq<Seq<u8>> {
    srcs.map_values(|b: &[u8]| b@)
}

/// Every document parsed, with the property index of its Elements registers.
fn parse_all(texts: &Vec<String>, Ghost(ts): Ghost<Seq<Seq<char>>>) -> (r: Result<(Vec<XmlDoc>, ElementIndex), DictError>)
    requires
        ts.len() == texts@.len(),
        forall|q: int| 0 <= q < ts.len() ==> ts[q] == (#[trigger] texts@[q])@,
    ensures
        match parsed(ts) {
            Ok((ds, idx)) => (r matches Ok((docs, index)) && index.wf() && index.map() == idx && ds.len() == docs@.len()
                && forall|q: int| 0 <= q < ds.len() ==> (#[trigger] docs@[q]).wf() && docs@[q].view_nodes() == ds[q]),
            Err(e) => (r matches Err(x) && x@ == e),
        },
{
    let mut docs: Vec<XmlDoc> = Vec::new();
    let mut index = ElementIndex::new();
    let mut j: usize = 0;
    proof {
        assert(ts.take(0) =~= Seq::<Seq<char>>::empty());
    }
    while j < texts.len()
        invariant
            ts.len() == texts@.len(),
            forall|q: int| 0 <= q < ts.len() ==> ts[q] == (#[trigger] texts@[q])@,
            j <= texts@.len(),
            index.wf(),
            parsed(ts.take(j as int)) matches Ok((ds, idx)) && idx == index.map() && ds.len() == docs@.len()
                && forall|q: int| 0 <= q < ds.len() ==> (#[trigger] docs@[q]).wf() && docs@[q].view_nodes() == ds[q],
        decreases texts.len() - j,
    {
        let ghost before = parsed(ts.take(j as int))->Ok_0;
        proof {
            assert(ts.take(j + 1).drop_last() =~= ts.take(j as int));
            assert(ts.take(j + 1).last() == texts@[j as int]@);
        }
        let doc = match XmlDoc::parse(texts[j].as_str()) {
            Ok(d) => d,
            Err(m) => {
                proof {
                    lemma_parsed_err(ts, j as int + 1);
                }
                return Err(DictError::Xml(m));
            },
        };
        if root_named(&doc, "ElementsRegister") {
            match collect_elements(&doc, &mut index) {
                Ok(()) => {},
                Err(e) => {
                    proof {
                        lemma_parsed_err(ts, j as int + 1);
                    }
                    return Err(e);
                },
            }
        }
        let ghost dv = doc.view_nodes();
        let ghost prev = docs@;
        docs.push(doc);
        proof {
            assert(before.0.push(dv).len() == docs@.len());
            assert forall|q: int| 0 <= q < before.0.push(dv).len() implies (#[trigger] docs@[q]).wf() && docs@[q].view_nodes() == before.0.push(dv)[q] by {
                if q < before.0.len() {
                    assert(docs@[q] == prev[q]);
                }
            }
        }
        j = j + 1;
    }
    proof {
        assert(ts.take(j as int) =~= ts);
    }
    Ok((docs, index))
}

/// Add the type definitions of every Types register among `docs`.
fn add_all_types(docs: &Vec<XmlDoc>, dict: &mut MetaDictionary, Ghost(ds): Ghost<Seq<Seq<NodeView>>>) -> (r: Result<(), DictError>)
    requires
        ds.len() == docs@.len(),
        forall|q: int| 0 <= q < ds.len() ==> (#[trigger] docs@[q]).wf() && docs@[q].view_nodes() == ds[q],
        old(dict).wf(),
        old(dict).model() == empty_model(),
    ensures
        final(dict).wf(),
        final(dict).scheme_uri_view() == old(dict).scheme_uri_view(),
        final(dict).scheme_id_view() == old(dict).scheme_id_view(),
        match all_types(ds) {
            Ok(a) => r is Ok && final(dict).model() == model_add_all(empty_model(), a),
            Err(e) => (r matches Err(x) && x@ == e),
        },
{
    let mut k: usize = 0;
    proof {
        assert(ds.take(0) =~= Seq::<Seq<NodeView>>::empty());
        assert(model_add_all(empty_model(), Seq::empty()) == empty_model());
    }
    while k < docs.len()
        invariant
            ds.len() == docs@.len(),
            forall|q: int| 0 <= q < ds.len() ==> (#[trigger] docs@[q]).wf() && docs@[q].view_nodes() == ds[q],
            k <= docs@.len(),
            dict.wf(),
            dict.scheme_uri_view() == old(dict).scheme_uri_view(),
            dict.scheme_id_view() == old(dict).scheme_id_view(),
            all_types(ds.take(k as int)) matches Ok(a) && dict.model() == model_add_all(empty_model(), a),
        decreases docs.len() - k,
    {
        let ghost a = all_types(ds.take(k as int))->Ok_0;
        proof {
            assert(ds.take(k + 1).drop_last() =~= ds.take(k as int));
            assert(ds.take(k + 1).last() == docs@[k as int].view_nodes());
        }
        if root_named(&docs[k], "TypesRegister") {
            match parse_types(&docs[k], dict, Ghost(a)) {
                Ok(()) => {},
                Err(e) => {
                    proof {
                        lemma_types_all_err(ds, k as int + 1);
                    }
                    return Err(e);
                },
            }
        }
        k = k + 1;
    }
    proof {
        assert(ds.take(k as int) =~= ds);
    }
    Ok(())
}

/// Add the classes and properties of every Groups register among `docs`.
fn add_all_groups(docs: &Vec<XmlDoc>, index: &ElementIndex, dict: &mut MetaDictionary, Ghost(ds): Ghost<Seq<Seq<NodeView>>>, Ghost(a): Ghost<Seq<DefinitionView>>) -> (r: Result<(), DictError>)
    requires
        ds.len() == docs@.len(),
        forall|q: int| 0 <= q < ds.len() ==> (#[trigger] docs@[q]).wf() && docs@[q].view_nodes() == ds[q],
        index.wf(),
        old(dict).wf(),
        old(dict).model() == model_add_all(empty_model(), a),
    ensures
        final(dict).wf(),
        final(dict).scheme_uri_view() == old(dict).scheme_uri_view(),
        final(dict).scheme_id_view() == old(dict).scheme_id_view(),
        match all_groups(ds, index.map()) {
            Ok(b) => r is Ok && final(dict).model() == model_add_all(empty_model(), a + b),
            Err(e) => (r matches Err(x) && x@ == e),
        },
{
    let mut g: usize = 0;
    proof {
        assert(ds.take(0) =~= Seq::<Seq<NodeView>>::empty());
        assert(a + Seq::<DefinitionView>::empty() =~= a);
    }
    while g < docs.len()
        invariant
            ds.len() == docs@.len(),
            forall|q: int| 0 <= q < ds.len() ==> (#[trigger] docs@[q]).wf() && docs@[q].view_nodes() == ds[q],
            g <= docs@.len(),
            index.wf(),
            dict.wf(),
            dict.scheme_uri_view() == old(dict).scheme_uri_view(),
            dict.scheme_id_view() == old(dict).scheme_id_view(),
            all_groups(ds.take(g as int), index.map()) matches Ok(b) && dict.model() == model_add_all(empty_model(), a + b),
        decreases docs.len() - g,
    {
        let ghost b = all_groups(ds.take(g as int), index.map())->Ok_0;
        proof {
            assert(ds.take(g + 1).drop_last() =~= ds.take(g as int));
            assert(ds.take(g + 1).last() == docs@[g as int].view_nodes());
        }
        if root_named(&docs[g], "GroupsRegister") {
            match parse_groups(&docs[g], index, dict, Ghost(a + b)) {
                Ok(()) => {
                    proof {
                        let more = groups_fold(ds[g as int], leaf_entries(ds[g as int]), index.map())->Ok_0;
                        assert(a + b + more =~= a + (b + more));
                    }
                },
                Err(e) => {
                    proof {
                        lemma_groups_all_err(ds, index.map(), g as int + 1);
                    }
                    return Err(e);
                },
            }
        }
        g = g + 1;
    }
    proof {
        assert(ds.take(g as int) =~= ds);
    }
    Ok(())
}

/// Parse one or more SMPTE register XML byte slices into a [`MetaDictionary`].
///
/// Accepts any combination of Types, Elements, Groups, and Labels registers.
/// The Elements register must be provided together with the Groups register so
/// that property symbols and types can be resolved from group contents.
pub fn import_registers(xml_sources: &[&[u8]]) -> (r: Result<MetaDictionary, DictError>)
    ensures
        match spec_import(sources_view(xml_sources@)) {
            Ok(ds) => (r matches Ok(d) && d.wf() && d.scheme_uri_view() == Seq::<char>::empty()
                && d.scheme_id_view() == Seq::<char>::empty() && d.model() == model_add_all(empty_model(), ds)),
            Err(e) => (r matches Err(x) && x@ == e),
        },
{
    let ghost srcs = sources_view(xml_sources@);
    // Decode every source first, so each can be parsed again.
    let mut texts: Vec<String> = Vec::new();
    let mut i: usize = 0;
    while i < xml_sources.len()
        invariant
            srcs == sources_view(xml_sources@),
            i <= xml_sources@.len(),
            decoded(srcs.take(i as int)) matches Ok(ts) && ts.len() == texts@.len() && forall|j: int|
                0 <= j < ts.len() ==> ts[j] == (#[trigger] texts@[j])@,
        decreases xml_sources.len() - i,
    {
        proof {
            assert(srcs.take(i + 1).drop_last() =~= srcs.take(i as int));
            assert(srcs.take(i + 1).last() == xml_sources@[i as int]@);
        }
        match utf8_text(xml_sources[i]) {
            Ok(t) => texts.push(t),
            Err(m) => {
                proof {
                    assert(decoded(srcs.take(i + 1)) == Err::<Seq<Seq<char>>, DictErrorView>(DictErrorView::Xml(m@)));
                    lemma_decoded_err(srcs, i as int + 1);
                }
                return Err(DictError::Xml(m));
            },
        }
        i = i + 1;
    }
    proof {
        assert(srcs.take(i as int) =~= srcs);
    }
    let ghost ts = decoded(srcs)->Ok_0;
    let (docs, index) = match parse_all(&texts, Ghost(ts)) {
        Ok(p) => p,
        Err(e) => return Err(e),
    };
    let ghost ds = parsed(ts)->Ok_0.0;
    let mut dict = MetaDictionary::new(String::new(), String::new());
    match add_all_types(&docs, &mut dict, Ghost(ds)) {
        Ok(()) => {},
        Err(e) => return Err(e),
    }
    let ghost a = all_types(ds)->Ok_0;
    match add_all_groups(&docs, &index, &mut dict, Ghost(ds), Ghost(a)) {
        Ok(()) => {},
        Err(e) => return Err(e),
    }
    Ok(dict)
}

proof fn lemma_decoded_err(srcs: Seq<Seq<u8>>, i: int)
    requires
        0 < i <= srcs.len(),
        decoded(srcs.take(i)) is Err,
    ensures
        decoded(srcs) == decoded(srcs.take(i)),
    decreases srcs.len() - i,
{
    if i < srcs.len() {
        assert(srcs.take(i + 1).drop_last() =~= srcs.take(i));
        lemma_decoded_err(srcs, i + 1);
    } else {
        assert(srcs.take(i) =~= srcs);
    }
}

proof fn lemma_parsed_err(ts: Seq<Seq<char>>, i: int)
    requires
        0 < i <= ts.len(),
        parsed(ts.take(i)) is Err,
    ensures
        parsed(ts) == parsed(ts.take(i)),
    decreases ts.len() - i,
{
    if i < ts.len() {
        assert(ts.take(i + 1).drop_last() =~= ts.take(i));
        lemma_parsed_err(ts, i + 1);
    } else {
        assert(ts.take(i) =~= ts);
    }
}

proof fn lemma_types_all_err(docs: Seq<Seq<NodeView>>, i: int)
    requires
        0 < i <= docs.len(),
        all_types(docs.take(i)) is Err,
    ensures
        all_types(docs) == all_types(docs.take(i)),
    decreases docs.len() - i,
{
    if i < docs.len() {
        assert(docs.take(i + 1).drop_last() =~= docs.take(i));
        lemma_types_all_err(docs, i + 1);
    } else {
        assert(docs.take(i) =~= docs);
    }
}

proof fn lemma_groups_all_err(docs: Seq<Seq<NodeView>>, idx: Map<Auid, ElementView>, i: int)
    requires
        0 < i <= docs.len(),
        all_groups(docs.take(i), idx) is Err,
    ensures
        all_groups(docs, idx) == all_groups(docs.take(i), idx),
    decreases docs.len() - i,
{
    if i < docs.len() {
        assert(docs.take(i + 1).drop_last() =~= docs.take(i));
        lemma_groups_all_err(docs, idx, i + 1);
    } else {
        assert(docs.take(i) =~= docs);
    }
}

} // verus!
