//! Writing a metadictionary as a RegXML metadictionary document.
use vstd::prelude::*;

use super::definition::{
    ClassDefinition, ClassView, Definition, DefinitionView, EnumerationElement, PropertyDefinition,
    PropertyView, RecordMember, TypeDefView, TypeDefinition, enum_elements_view, record_members_view,
    type_common,
};
use super::error::DictError;
use super::meta_dictionary::MetaDictionary;
use crate::text::{decimal, push_decimal, push_signed_decimal, signed_decimal, string_of};
use crate::types::auid::{spec_auid_urn, Auid};
use crate::xml::writer::{
    attr, end, event_tuple, events_view, no_floats, render_xml, start, text, xml_rendering,
    EventTuple, XmlEvent,
};

verus! {

/// The metadictionary namespace.
pub const METADICT_NS: &'static str = "http://www.smpte-ra.org/schemas/2001-1b/2013/metadict";

pub open spec fn st(tag: Seq<char>) -> EventTuple {
    (1, tag, Seq::empty(), Seq::empty())
}

pub open spec fn en(tag: Seq<char>) -> EventTuple {
    (3, tag, Seq::empty(), Seq::empty())
}

pub open spec fn tx(t: Seq<char>) -> EventTuple {
    (4, t, Seq::empty(), Seq::empty())
}

/// `<tag>t</tag>`.
pub open spec fn simple(tag: Seq<char>, t: Seq<char>) -> Seq<EventTuple> {
    seq![st(tag), tx(t), en(tag)]
}

pub open spec fn bool_text(b: bool) -> Seq<char> {
    if b {
        "true"@
    } else {
        "false"@
    }
}

pub open spec fn class_events(c: ClassView) -> Seq<EventTuple> {
    seq![st("ClassDefinition"@)] + simple("Identification"@, spec_auid_urn(c.common.id)) + simple(
        "Symbol"@,
        c.common.symbol,
    ) + simple("Name"@, Seq::empty()) + match c.parent {
        Some(p) => simple("ParentClass"@, spec_auid_urn(p)),
        None => Seq::empty(),
    } + simple("IsConcrete"@, bool_text(c.is_concrete)) + seq![en("ClassDefinition"@)]
}

pub open spec fn property_events(p: PropertyView) -> Seq<EventTuple> {
    seq![st("PropertyDefinition"@)] + simple("Identification"@, spec_auid_urn(p.common.id)) + simple(
        "Symbol"@,
        p.common.symbol,
    ) + simple("Name"@, Seq::empty()) + simple("Type"@, spec_auid_urn(p.property_type)) + simple(
        "IsOptional"@,
        bool_text(p.is_optional),
    ) + simple("IsUniqueIdentifier"@, bool_text(p.is_unique_identifier)) + simple(
        "LocalIdentification"@,
        decimal(p.local_identification as nat),
    ) + simple("MemberOf"@, spec_auid_urn(p.member_of)) + seq![en("PropertyDefinition"@)]
}

/// The element name of a type definition.
pub open spec fn type_tag(t: TypeDefView) -> Seq<char> {
    match t {
        TypeDefView::Integer(..) => "TypeDefinitionInteger"@,
        TypeDefView::Rename(..) => "TypeDefinitionRename"@,
        TypeDefView::Record(..) => "TypeDefinitionRecord"@,
        TypeDefView::Enumeration(..) => "TypeDefinitionEnumeration"@,
        TypeDefView::ExtendibleEnumeration(..) => "TypeDefinitionExtendibleEnumeration"@,
        TypeDefView::FixedArray(..) => "TypeDefinitionFixedArray"@,
        TypeDefView::VariableArray(..) => "TypeDefinitionVariableArray"@,
        TypeDefView::SetType(..) => "TypeDefinitionSet"@,
        TypeDefView::String(..) => "TypeDefinitionString"@,
        TypeDefView::Character(..) => "TypeDefinitionCharacter"@,
        TypeDefView::Stream(..) => "TypeDefinitionStream"@,
        TypeDefView::Indirect(..) => "TypeDefinitionIndirect"@,
        TypeDefView::Opaque(..) => "TypeDefinitionOpaque"@,
        TypeDefView::StrongReference(..) => "TypeDefinitionStrongObjectReference"@,
        TypeDefView::WeakReference(..) => "TypeDefinitionWeakObjectReference"@,
        TypeDefView::Float(..) => "TypeDefinitionFloat"@,
        TypeDefView::LensSerialFloat(..) => "TypeDefinitionLensSerialFloat"@,
    }
}

pub open spec fn members_events(ms: Seq<(Seq<char>, Auid)>) -> Seq<EventTuple>
    decreases ms.len(),
{
    if ms.len() == 0 {
        Seq::empty()
    } else {
        members_events(ms.drop_last()) + simple("Name"@, ms.last().0) + simple(
            "Type"@,
            spec_auid_urn(ms.last().1),
        )
    }
}

pub open spec fn elements_events(es: Seq<(Seq<char>, i64)>) -> Seq<EventTuple>
    decreases es.len(),
{
    if es.len() == 0 {
        Seq::empty()
    } else {
        elements_events(es.drop_last()) + simple("Name"@, es.last().0) + simple(
            "Value"@,
            signed_decimal(es.last().1 as int),
        )
    }
}

pub open spec fn refs_events(ids: Seq<Auid>) -> Seq<EventTuple>
    decreases ids.len(),
{
    if ids.len() == 0 {
        Seq::empty()
    } else {
        refs_events(ids.drop_last()) + simple("MetaDefRef"@, spec_auid_urn(ids.last()))
    }
}

/// The kind-specific fields of a type definition.
pub open spec fn type_extra(t: TypeDefView) -> Seq<EventTuple> {
    match t {
        TypeDefView::Integer(_, size, signed) => simple("Size"@, decimal(size as nat)) + simple(
            "IsSigned"@,
            bool_text(signed),
        ),
        TypeDefView::Rename(_, a) => simple("RenamedType"@, spec_auid_urn(a)),
        TypeDefView::Record(_, ms) => seq![st("Members"@)] + members_events(ms) + seq![en("Members"@)],
        TypeDefView::Enumeration(_, a, es) => simple("ElementType"@, spec_auid_urn(a)) + seq![
            st("Elements"@),
        ] + elements_events(es) + seq![en("Elements"@)],
        TypeDefView::ExtendibleEnumeration(_, es) => seq![st("Elements"@)] + elements_events(es)
            + seq![en("Elements"@)],
        TypeDefView::FixedArray(_, a, n) => simple("ElementCount"@, decimal(n as nat)) + simple(
            "ElementType"@,
            spec_auid_urn(a),
        ),
        TypeDefView::VariableArray(_, a) => simple("ElementType"@, spec_auid_urn(a)),
        TypeDefView::SetType(_, a) => simple("ElementType"@, spec_auid_urn(a)),
        TypeDefView::String(_, a) => simple("ElementType"@, spec_auid_urn(a)),
        TypeDefView::StrongReference(_, a) => simple("ReferencedType"@, spec_auid_urn(a)),
        TypeDefView::WeakReference(_, a, ts) => simple("ReferencedType"@, spec_auid_urn(a)) + seq![
            st("TargetSet"@),
        ] + refs_events(ts) + seq![en("TargetSet"@)],
        TypeDefView::Float(_, size) => simple("Size"@, decimal(size as nat)),
        _ => Seq::empty(),
    }
}

pub open spec fn type_events(t: TypeDefView) -> Seq<EventTuple> {
    seq![st(type_tag(t))] + simple("Identification"@, spec_auid_urn(type_common(t).id)) + simple(
        "Symbol"@,
        type_common(t).symbol,
    ) + type_extra(t) + seq![en(type_tag(t))]
}

pub open spec fn definition_events(d: DefinitionView) -> Seq<EventTuple> {
    match d {
        DefinitionView::Class(c) => class_events(c),
        DefinitionView::Property(p) => property_events(p),
        DefinitionView::Type(t) => type_events(t),
    }
}

pub open spec fn definitions_events(ds: Seq<DefinitionView>) -> Seq<EventTuple>
    decreases ds.len(),
{
    if ds.len() == 0 {
        Seq::empty()
    } else {
        definitions_events(ds.drop_last()) + definition_events(ds.last())
    }
}

/// The events of a metadictionary document.
pub open spec fn dictionary_events(uri: Seq<char>, id: Seq<char>, ds: Seq<DefinitionView>) -> Seq<EventTuple> {
    seq![
        (0nat, Seq::<char>::empty(), Seq::<(Seq<char>, Seq<char>)>::empty(), Seq::<u8>::empty()),
        (1nat, "Extension"@, seq![("xmlns"@, METADICT_NS@)], Seq::<u8>::empty()),
    ] + simple("SchemeID"@, id) + simple("SchemeURI"@, uri) + seq![st("MetaDefinitions"@)]
        + definitions_events(ds) + seq![en("MetaDefinitions"@), en("Extension"@)]
}

proof fn lemma_push_plain(out: Seq<XmlEvent>, e: XmlEvent)
    requires
        no_floats(out),
        !(e is Float),
    ensures
        events_view(out.push(e)) == events_view(out).push(event_tuple(e)),
        no_floats(out.push(e)),
{
    assert(events_view(out.push(e)) =~= events_view(out).push(event_tuple(e)));
    assert forall|i: int| 0 <= i < out.push(e).len() implies !(#[trigger] out.push(e)[i] is Float) by {
        if i < out.len() {
            assert(out.push(e)[i] == out[i]);
        }
    }
}

/// Append `<tag>t</tag>`.
pub fn push_simple(out: &mut Vec<XmlEvent>, tag: &str, t: &str)
    requires
        no_floats(old(out)@),
    ensures
        no_floats(final(out)@),
        events_view(final(out)@) == events_view(old(out)@) + simple(tag@, t@),
{
    let ghost o = out@;
    let a = start(tag);
    out.push(a);
    proof {
        lemma_push_plain(o, a);
    }
    let ghost o1 = out@;
    let b = text(t);
    out.push(b);
    proof {
        lemma_push_plain(o1, b);
    }
    let ghost o2 = out@;
    let c = end(tag);
    out.push(c);
    proof {
        lemma_push_plain(o2, c);
        assert(events_view(out@) =~= events_view(o) + simple(tag@, t@));
    }
}

pub fn push_event(out: &mut Vec<XmlEvent>, e: XmlEvent)
    requires
        no_floats(old(out)@),
        !(e is Float),
    ensures
        no_floats(final(out)@),
        events_view(final(out)@) == events_view(old(out)@).push(event_tuple(e)),
{
    let ghost o = out@;
    out.push(e);
    proof {
        lemma_push_plain(o, e);
    }
}

fn bool_str(b: bool) -> (r: &'static str)
    ensures
        r@ == bool_text(b),
{
    if b {
        "true"
    } else {
        "false"
    }
}

fn decimal_string(v: u64) -> (r: String)
    ensures
        r@ == decimal(v as nat),
{
    let mut o: Vec<char> = Vec::new();
    push_decimal(&mut o, v);
    string_of(&o)
}

fn write_class(out: &mut Vec<XmlEvent>, c: &ClassDefinition)
    requires
        no_floats(old(out)@),
    ensures
        no_floats(final(out)@),
        events_view(final(out)@) == events_view(old(out)@) + class_events(c@),
{
    let ghost o = events_view(out@);
    push_event(out, start("ClassDefinition"));
    push_simple(out, "Identification", c.identification.to_string().as_str());
    push_simple(out, "Symbol", c.symbol.as_str());
    push_simple(out, "Name", "");
    proof {
        reveal_strlit("");
    }
    let ghost mid = events_view(out@);
    if let Some(p) = c.parent_class {
        push_simple(out, "ParentClass", p.to_string().as_str());
    }
    push_simple(out, "IsConcrete", bool_str(c.is_concrete));
    push_event(out, end("ClassDefinition"));
    proof {
        assert(""@ =~= Seq::<char>::empty());
        assert(events_view(out@) =~= o + class_events(c@));
    }
}

#[verifier::rlimit(30)]
fn write_property(out: &mut Vec<XmlEvent>, p: &PropertyDefinition)
    requires
        no_floats(old(out)@),
    ensures
        no_floats(final(out)@),
        events_view(final(out)@) == events_view(old(out)@) + property_events(p@),
{
    let ghost o = events_view(out@);
    let ghost pv = p@;
    push_event(out, start("PropertyDefinition"));
    push_simple(out, "Identification", p.identification.to_string().as_str());
    push_simple(out, "Symbol", p.symbol.as_str());
    push_simple(out, "Name", "");
    proof {
        reveal_strlit("");
        assert(""@ =~= Seq::<char>::empty());
        assert(events_view(out@) =~= o + (seq![st("PropertyDefinition"@)] + simple("Identification"@, spec_auid_urn(pv.common.id))
            + simple("Symbol"@, pv.common.symbol) + simple("Name"@, Seq::empty())));
    }
    let ghost a = events_view(out@);
    push_simple(out, "Type", p.property_type.to_string().as_str());
    push_simple(out, "IsOptional", bool_str(p.is_optional));
    push_simple(out, "IsUniqueIdentifier", bool_str(p.is_unique_identifier));
    proof {
        assert(events_view(out@) =~= a + (simple("Type"@, spec_auid_urn(pv.property_type)) + simple("IsOptional"@, bool_text(pv.is_optional))
            + simple("IsUniqueIdentifier"@, bool_text(pv.is_unique_identifier))));
    }
    let ghost b = events_view(out@);
    push_simple(out, "LocalIdentification", decimal_string(p.local_identification as u64).as_str());
    push_simple(out, "MemberOf", p.member_of.to_string().as_str());
    push_event(out, end("PropertyDefinition"));
    proof {
        assert(events_view(out@) =~= b + (simple("LocalIdentification"@, decimal(pv.local_identification as nat))
            + simple("MemberOf"@, spec_auid_urn(pv.member_of)) + seq![en("PropertyDefinition"@)]));
        assert(events_view(out@) =~= o + property_events(pv));
    }
}

fn write_members(out: &mut Vec<XmlEvent>, ms: &Vec<RecordMember>)
    requires
        no_floats(old(out)@),
    ensures
        no_floats(final(out)@),
        events_view(final(out)@) == events_view(old(out)@) + members_events(record_members_view(ms@)),
{
    let ghost o = events_view(out@);
    let ghost mv = record_members_view(ms@);
    let mut i: usize = 0;
    while i < ms.len()
        invariant
            no_floats(out@),
            mv == record_members_view(ms@),
            i <= ms@.len(),
            events_view(out@) == o + members_events(mv.take(i as int)),
        decreases ms.len() - i,
    {
        push_simple(out, "Name", ms[i].name.as_str());
        push_simple(out, "Type", ms[i].field_type.to_string().as_str());
        proof {
            assert(mv.take(i + 1).drop_last() =~= mv.take(i as int));
            assert(events_view(out@) =~= o + members_events(mv.take(i + 1)));
        }
        i = i + 1;
    }
    proof {
        assert(mv.take(i as int) =~= mv);
    }
}

fn write_elements(out: &mut Vec<XmlEvent>, es: &Vec<EnumerationElement>)
    requires
        no_floats(old(out)@),
    ensures
        no_floats(final(out)@),
        events_view(final(out)@) == events_view(old(out)@) + elements_events(enum_elements_view(es@)),
{
    let ghost o = events_view(out@);
    let ghost ev = enum_elements_view(es@);
    let mut i: usize = 0;
    while i < es.len()
        invariant
            no_floats(out@),
            ev == enum_elements_view(es@),
            i <= es@.len(),
            events_view(out@) == o + elements_events(ev.take(i as int)),
        decreases es.len() - i,
    {
        push_simple(out, "Name", es[i].name.as_str());
        let mut v: Vec<char> = Vec::new();
        push_signed_decimal(&mut v, es[i].value);
        push_simple(out, "Value", string_of(&v).as_str());
        proof {
            assert(ev.take(i + 1).drop_last() =~= ev.take(i as int));
            assert(events_view(out@) =~= o + elements_events(ev.take(i + 1)));
        }
        i = i + 1;
    }
    proof {
        assert(ev.take(i as int) =~= ev);
    }
}

fn write_refs(out: &mut Vec<XmlEvent>, ids: &Vec<Auid>)
    requires
        no_floats(old(out)@),
    ensures
        no_floats(final(out)@),
        events_view(final(out)@) == events_view(old(out)@) + refs_events(ids@),
{
    let ghost o = events_view(out@);
    let mut i: usize = 0;
    while i < ids.len()
        invariant
            no_floats(out@),
            i <= ids@.len(),
            events_view(out@) == o + refs_events(ids@.take(i as int)),
        decreases ids.len() - i,
    {
        push_simple(out, "MetaDefRef", ids[i].to_string().as_str());
        proof {
            assert(ids@.take(i + 1).drop_last() =~= ids@.take(i as int));
            assert(events_view(out@) =~= o + refs_events(ids@.take(i + 1)));
        }
        i = i + 1;
    }
    proof {
        assert(ids@.take(i as int) =~= ids@);
    }
}

/// The element name of a type definition.
fn type_tag_of(t: &TypeDefinition) -> (r: &'static str)
    ensures
        r@ == type_tag(t@),
{
    match t {
        TypeDefinition::Integer(_) => "TypeDefinitionInteger",
        TypeDefinition::Rename(_) => "TypeDefinitionRename",
        TypeDefinition::Record(_) => "TypeDefinitionRecord",
        TypeDefinition::Enumeration(_) => "TypeDefinitionEnumeration",
        TypeDefinition::ExtendibleEnumeration(_) => "TypeDefinitionExtendibleEnumeration",
        TypeDefinition::FixedArray(_) => "TypeDefinitionFixedArray",
        TypeDefinition::VariableArray(_) => "TypeDefinitionVariableArray",
        TypeDefinition::SetType(_) => "TypeDefinitionSet",
        TypeDefinition::String(_) => "TypeDefinitionString",
        TypeDefinition::Character(_) => "TypeDefinitionCharacter",
        TypeDefinition::Stream(_) => "TypeDefinitionStream",
        TypeDefinition::Indirect(_) => "TypeDefinitionIndirect",
        TypeDefinition::Opaque(_) => "TypeDefinitionOpaque",
        TypeDefinition::StrongReference(_) => "TypeDefinitionStrongObjectReference",
        TypeDefinition::WeakReference(_) => "TypeDefinitionWeakObjectReference",
        TypeDefinition::Float(_) => "TypeDefinitionFloat",
        TypeDefinition::LensSerialFloat(_) => "TypeDefinitionLensSerialFloat",
    }
}

#[verifier::spinoff_prover]
#[verifier::rlimit(50)]
fn write_type_extra(out: &mut Vec<XmlEvent>, t: &TypeDefinition)
    requires
        no_floats(old(out)@),
    ensures
        no_floats(final(out)@),
        events_view(final(out)@) == events_view(old(out)@) + type_extra(t@),
{
    let ghost o = events_view(out@);
    match t {
        TypeDefinition::Integer(d) => {
            push_simple(out, "Size", decimal_string(d.size as u64).as_str());
            push_simple(out, "IsSigned", bool_str(d.is_signed));
        },
        TypeDefinition::Rename(d) => {
            push_simple(out, "RenamedType", d.renamed_type.to_string().as_str());
        },
        TypeDefinition::Record(d) => {
            push_event(out, start("Members"));
            write_members(out, &d.members);
            push_event(out, end("Members"));
        },
        TypeDefinition::Enumeration(d) => {
            push_simple(out, "ElementType", d.element_type.to_string().as_str());
            push_event(out, start("Elements"));
            write_elements(out, &d.elements);
            push_event(out, end("Elements"));
        },
        TypeDefinition::ExtendibleEnumeration(d) => {
            push_event(out, start("Elements"));
            write_elements(out, &d.elements);
            push_event(out, end("Elements"));
        },
        TypeDefinition::FixedArray(d) => {
            push_simple(out, "ElementCount", decimal_string(d.element_count as u64).as_str());
            push_simple(out, "ElementType", d.element_type.to_string().as_str());
        },
        TypeDefinition::VariableArray(d) => {
            push_simple(out, "ElementType", d.element_type.to_string().as_str());
        },
        TypeDefinition::SetType(d) => {
            push_simple(out, "ElementType", d.element_type.to_string().as_str());
        },
        TypeDefinition::String(d) => {
            push_simple(out, "ElementType", d.element_type.to_string().as_str());
        },
        TypeDefinition::StrongReference(d) => {
            push_simple(out, "ReferencedType", d.referenced_type.to_string().as_str());
        },
        TypeDefinition::WeakReference(d) => {
            push_simple(out, "ReferencedType", d.referenced_type.to_string().as_str());
            push_event(out, start("TargetSet"));
            write_refs(out, &d.target_set);
            push_event(out, end("TargetSet"));
        },
        TypeDefinition::Float(d) => {
            push_simple(out, "Size", decimal_string(d.size as u64).as_str());
        },
        _ => {},
    }
    proof {
        assert(events_view(out@) =~= o + type_extra(t@));
    }
}

fn write_type(out: &mut Vec<XmlEvent>, t: &TypeDefinition)
    requires
        no_floats(old(out)@),
    ensures
        no_floats(final(out)@),
        events_view(final(out)@) == events_view(old(out)@) + type_events(t@),
{
    let ghost o = events_view(out@);
    let tag = type_tag_of(t);
    push_event(out, start(tag));
    push_simple(out, "Identification", t.identification().to_string().as_str());
    push_simple(out, "Symbol", t.symbol());
    write_type_extra(out, t);
    push_event(out, end(tag));
    proof {
        assert(events_view(out@) =~= o + type_events(t@));
    }
}

fn write_definition(out: &mut Vec<XmlEvent>, d: &Definition)
    requires
        no_floats(old(out)@),
    ensures
        no_floats(final(out)@),
        events_view(final(out)@) == events_view(old(out)@) + definition_events(d@),
{
    match d {
        Definition::Class(c) => write_class(out, c),
        Definition::Property(p) => write_property(out, p),
        Definition::Type(t) => write_type(out, t),
    }
}

impl MetaDictionary {
    /// The events of this dictionary's metadictionary document.
    pub fn to_xml_events(&self) -> (r: Vec<XmlEvent>)
        requires
            self.wf(),
        ensures
            no_floats(r@),
            events_view(r@) == dictionary_events(self.scheme_uri_view(), self.scheme_id_view(), self.def_list()),
    {
        let mut out: Vec<XmlEvent> = Vec::new();
        proof {
            assert(no_floats(out@));
        }
        push_event(&mut out, XmlEvent::Decl);
        let mut attrs: Vec<(String, String)> = Vec::new();
        attrs.push(attr("xmlns", METADICT_NS));
        let root = XmlEvent::Start(String::from_str("Extension"), attrs);
        proof {
            assert(crate::xml::writer::attrs_view(attrs@) =~= seq![("xmlns"@, METADICT_NS@)]);
        }
        push_event(&mut out, root);
        push_simple(&mut out, "SchemeID", self.scheme_id_str());
        push_simple(&mut out, "SchemeURI", self.scheme_uri_str());
        push_event(&mut out, start("MetaDefinitions"));
        let ghost head = events_view(out@);
        let defs = self.all_definitions();
        let ghost dl = self.def_list();
        let mut i: usize = 0;
        while i < defs.len()
            invariant
                no_floats(out@),
                dl == self.def_list(),
                defs@.len() == dl.len(),
                forall|j: int| 0 <= j < defs@.len() ==> (#[trigger] defs@[j])@ == dl[j],
                i <= defs@.len(),
                events_view(out@) == head + definitions_events(dl.take(i as int)),
            decreases defs.len() - i,
        {
            write_definition(&mut out, defs[i]);
            proof {
                assert(dl.take(i + 1).drop_last() =~= dl.take(i as int));
                assert(events_view(out@) =~= head + definitions_events(dl.take(i + 1)));
            }
            i = i + 1;
        }
        proof {
            assert(dl.take(i as int) =~= dl);
        }
        push_event(&mut out, end("MetaDefinitions"));
        push_event(&mut out, end("Extension"));
        proof {
            assert(events_view(out@) =~= dictionary_events(self.scheme_uri_view(), self.scheme_id_view(), dl));
        }
        out
    }

    /// Serialise as a metadictionary document: every definition under
    /// `MetaDefinitions`, in the order they were first added.
    pub fn to_xml(&self) -> (r: Result<Vec<u8>, DictError>)
        requires
            self.wf(),
        ensures
            r matches Ok(b) && b@ == xml_rendering(dictionary_events(self.scheme_uri_view(), self.scheme_id_view(), self.def_list())),
    {
        let evs = self.to_xml_events();
        Ok(render_xml(&evs))
    }
}

} // verus!
