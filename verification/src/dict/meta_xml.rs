//! Reading a RegXML metadictionary document (SMPTE ST 2001-1 Annex A).
use vstd::prelude::*;

use super::definition::{
    CharacterTypeDef, ClassDefinition, ClassView, CommonView, Definition, DefinitionView,
    EnumerationElement, EnumerationTypeDef, ExtEnumTypeDef, FixedArrayTypeDef, FloatTypeDef,
    IndirectTypeDef, IntegerTypeDef, LensSerialFloatTypeDef, OpaqueTypeDef, PropertyDefinition,
    PropertyView, RecordMember, RecordTypeDef, RenameTypeDef, SetTypeDef, StreamTypeDef,
    StringTypeDef, StrongReferenceTypeDef, TypeDefView, TypeDefinition, VariableArrayTypeDef,
    WeakReferenceTypeDef, enum_elements_view, record_members_view,
};
use super::error::{dict_error_text, DictError, DictErrorView};
use super::meta_dictionary::{empty_model, model_add_all, DictModel, MetaDictionary, MetaDictionaryCollection};
use crate::number::{ascii_lower_seq, eq_ascii_lower, parse_i64, parse_int, parse_uint, parse_unsigned, trim, trim_str};
use crate::text::{append_str, debug_quoted, push_lit, str_debug, str_eq, string_of, utf8_error_message, utf8_text};
use crate::types::auid::{auid_error_text, auid_of_key, spec_auid_parse, Auid};
use crate::xml::tree::{
    child, child_text, elements_of, in_range, kids, named, root_element, texts, text_or_empty,
    xml_document, NodeView, XmlDoc,
};

verus! {

// ── Field readers ───────────────────────────────────────────────────────────

/// A flag field: `true` exactly when its text is `true` in any ASCII case;
/// `dflt` when the field is absent.
pub open spec fn true_flag(t: Option<Seq<char>>, dflt: bool) -> bool {
    match t {
        Some(s) => ascii_lower_seq(s) == "true"@,
        None => dflt,
    }
}

/// A decimal field no greater than `max`, or `dflt` when absent or unreadable.
pub open spec fn dec_or(t: Option<Seq<char>>, max: nat, dflt: nat) -> nat {
    match t {
        Some(s) => match parse_uint(s, 10, max) {
            Some(v) => v,
            None => dflt,
        },
        None => dflt,
    }
}

/// A required AUID field.
pub open spec fn req_auid_field(ns: Seq<NodeView>, k: usize, field: Seq<char>, ctx: Seq<char>) -> Result<Auid, DictErrorView> {
    match child_text(ns, k, field) {
        None => Err(DictErrorView::MissingField(field, ctx)),
        Some(s) => match spec_auid_parse(s) {
            Ok(key) => Ok(auid_of_key(key)),
            Err(e) => Err(
                DictErrorView::Xml(
                    "bad AUID in <"@ + field + "> of "@ + ctx + ": "@ + auid_error_text(e),
                ),
            ),
        },
    }
}

/// An optional AUID field.
pub open spec fn opt_auid_field(ns: Seq<NodeView>, k: usize, field: Seq<char>) -> Result<Option<Auid>, DictErrorView> {
    match child_text(ns, k, field) {
        None => Ok(None),
        Some(s) => match spec_auid_parse(s) {
            Ok(key) => Ok(Some(auid_of_key(key))),
            Err(e) => Err(DictErrorView::Xml("bad AUID in <"@ + field + ">: "@ + auid_error_text(e))),
        },
    }
}

pub open spec fn common(id: Auid, sym: Seq<char>) -> CommonView {
    CommonView { id, symbol: sym, namespace: Seq::empty() }
}

/// Record members: the `Name` and `Type` elements of `Members`, paired in order.
pub open spec fn md_members(ns: Seq<NodeView>, k: usize) -> Result<Seq<(Seq<char>, Auid)>, DictErrorView> {
    match child(ns, k, "Members"@) {
        None => Ok(Seq::empty()),
        Some(m) => {
            let es = elements_of(ns, kids(ns, m));
            let names = texts(ns, named(ns, es, "Name"@));
            let types = texts(ns, named(ns, es, "Type"@));
            zip_members(names, types, if names.len() < types.len() { names.len() as int } else { types.len() as int })
        },
    }
}

/// The first `n` name/type pairs as record members.
pub open spec fn zip_members(names: Seq<Seq<char>>, types: Seq<Seq<char>>, n: int) -> Result<Seq<(Seq<char>, Auid)>, DictErrorView>
    decreases n,
{
    if n <= 0 {
        Ok(Seq::empty())
    } else {
        match zip_members(names, types, n - 1) {
            Err(e) => Err(e),
            Ok(ms) => match spec_auid_parse(types[n - 1]) {
                Ok(key) => Ok(ms.push((names[n - 1], auid_of_key(key)))),
                Err(e) => Err(
                    DictErrorView::Xml(
                        "bad member type "@ + str_debug(types[n - 1]) + ": "@ + auid_error_text(e),
                    ),
                ),
            },
        }
    }
}

/// The value of an enumeration element: its text (or `0`), trimmed, as an
/// `i64`, or 0 where it is not one.
pub open spec fn enum_value(t: Seq<char>) -> i64 {
    match parse_int(trim(t), i64::MIN as int, i64::MAX as int) {
        Some(v) => v as i64,
        None => 0,
    }
}

/// Enumeration elements: the `Name` and `Value` elements of `Elements`, paired.
pub open spec fn md_elements(ns: Seq<NodeView>, k: usize) -> Seq<(Seq<char>, i64)> {
    match child(ns, k, "Elements"@) {
        None => Seq::empty(),
        Some(m) => {
            let es = elements_of(ns, kids(ns, m));
            let names = texts(ns, named(ns, es, "Name"@));
            let vals = named(ns, es, "Value"@);
            let n = if names.len() < vals.len() { names.len() } else { vals.len() };
            Seq::new(n, |i: int| (names[i], enum_value(match ns[vals[i] as int].3 {
                Some(t) => t,
                None => "0"@,
            })))
        },
    }
}

/// The AUIDs of the `MetaDefRef` children of `TargetSet` that have text.
pub open spec fn md_target_set(ns: Seq<NodeView>, k: usize) -> Result<Seq<Auid>, DictErrorView> {
    match child(ns, k, "TargetSet"@) {
        None => Ok(Seq::empty()),
        Some(t) => target_refs(ns, named(ns, kids(ns, t), "MetaDefRef"@)),
    }
}

pub open spec fn target_refs(ns: Seq<NodeView>, rs: Seq<usize>) -> Result<Seq<Auid>, DictErrorView>
    decreases rs.len(),
{
    if rs.len() == 0 {
        Ok(Seq::empty())
    } else {
        match target_refs(ns, rs.drop_last()) {
            Err(e) => Err(e),
            Ok(ids) => match ns[rs.last() as int].3 {
                None => Ok(ids),
                Some(s) => match spec_auid_parse(s) {
                    Ok(key) => Ok(ids.push(auid_of_key(key))),
                    Err(e) => Err(DictErrorView::Xml(auid_error_text(e))),
                },
            },
        }
    }
}

// ── One definition ──────────────────────────────────────────────────────────

/// What an element of `MetaDefinitions` defines: nothing when it has no
/// `Identification` or an unknown tag, else the definition its tag names,
/// or the first error found in its fields.
pub open spec fn spec_meta_definition(ns: Seq<NodeView>, k: usize) -> Result<Option<DefinitionView>, DictErrorView> {
    let tag = ns[k as int].2;
    match child_text(ns, k, "Identification"@) {
        None => Ok(None),
        Some(id_str) => {
            let ctx = tag + ":"@ + id_str;
            match spec_auid_parse(id_str) {
                Err(e) => Err(DictErrorView::Xml(ctx + ": "@ + auid_error_text(e))),
                Ok(key) => match child_text(ns, k, "Symbol"@) {
                    None => Err(DictErrorView::MissingField("Symbol"@, ctx)),
                    Some(sym) => meta_body(ns, k, tag, ctx, common(auid_of_key(key), sym)),
                },
            }
        },
    }
}

pub open spec fn meta_body(ns: Seq<NodeView>, k: usize, tag: Seq<char>, ctx: Seq<char>, c: CommonView) -> Result<Option<DefinitionView>, DictErrorView> {
    if tag == "ClassDefinition"@ {
        match opt_auid_field(ns, k, "ParentClass"@) {
            Err(e) => Err(e),
            Ok(parent) => Ok(Some(DefinitionView::Class(ClassView {
                common: c,
                parent,
                is_concrete: true_flag(child_text(ns, k, "IsConcrete"@), true),
            }))),
        }
    } else if tag == "PropertyDefinition"@ {
        match req_auid_field(ns, k, "Type"@, ctx) {
            Err(e) => Err(e),
            Ok(t) => match req_auid_field(ns, k, "MemberOf"@, ctx) {
                Err(e) => Err(e),
                Ok(m) => Ok(Some(DefinitionView::Property(PropertyView {
                    common: c,
                    member_of: m,
                    property_type: t,
                    is_optional: true_flag(child_text(ns, k, "IsOptional"@), false),
                    is_unique_identifier: true_flag(child_text(ns, k, "IsUniqueIdentifier"@), false),
                    local_identification: dec_or(child_text(ns, k, "LocalIdentification"@), 65535, 0) as u16,
                }))),
            },
        }
    } else {
        match meta_type(ns, k, tag, ctx, c) {
            Err(e) => Err(e),
            Ok(None) => Ok(None),
            Ok(Some(t)) => Ok(Some(DefinitionView::Type(t))),
        }
    }
}

/// A flag of a metadictionary is set where its text is `true` in any ASCII
/// case and not where it is `false`; an absent flag takes its default.
proof fn lemma_true_flag_words(d: bool)
    ensures
        true_flag(Some("true"@), d),
        true_flag(Some("TRUE"@), d),
        !true_flag(Some("false"@), d),
        true_flag(None, d) == d,
{
    reveal_strlit("true");
    reveal_strlit("TRUE");
    reveal_strlit("false");
    assert(ascii_lower_seq("true"@) =~= "true"@);
    assert(ascii_lower_seq("TRUE"@) =~= "true"@);
    assert(ascii_lower_seq("false"@).len() != "true"@.len());
}

/// Defaults of a metadictionary definition where a field is absent: a class
/// is concrete; a property is neither optional nor a unique identifier and
/// has local identification 0; an integer type is one unsigned byte. A
/// flag written `true` is set and one written `false` is not.
pub proof fn lemma_meta_defaults(ns: Seq<NodeView>, k: usize, tag: Seq<char>, ctx: Seq<char>, c: CommonView)
    ensures
        meta_body(ns, k, tag, ctx, c) matches Ok(Some(DefinitionView::Class(cv))) ==> {
            &&& cv.common == c
            &&& child_text(ns, k, "IsConcrete"@) is None ==> cv.is_concrete
            &&& child_text(ns, k, "IsConcrete"@) == Some("true"@) ==> cv.is_concrete
            &&& child_text(ns, k, "IsConcrete"@) == Some("false"@) ==> !cv.is_concrete
        },
        meta_body(ns, k, tag, ctx, c) matches Ok(Some(DefinitionView::Property(pv))) ==> {
            &&& pv.common == c
            &&& child_text(ns, k, "IsOptional"@) is None ==> !pv.is_optional
            &&& child_text(ns, k, "IsOptional"@) == Some("true"@) ==> pv.is_optional
            &&& child_text(ns, k, "IsOptional"@) == Some("false"@) ==> !pv.is_optional
            &&& child_text(ns, k, "IsUniqueIdentifier"@) is None ==> !pv.is_unique_identifier
            &&& child_text(ns, k, "IsUniqueIdentifier"@) == Some("true"@) ==> pv.is_unique_identifier
            &&& child_text(ns, k, "LocalIdentification"@) is None ==> pv.local_identification == 0
        },
        meta_body(ns, k, tag, ctx, c) matches Ok(Some(DefinitionView::Type(TypeDefView::Integer(tc, size, signed)))) ==> {
            &&& tc == c
            &&& child_text(ns, k, "Size"@) is None ==> size == 1
            &&& child_text(ns, k, "IsSigned"@) is None ==> !signed
            &&& child_text(ns, k, "IsSigned"@) == Some("true"@) ==> signed
        },
{
    lemma_true_flag_words(true);
    lemma_true_flag_words(false);
}

/// A type definition whose kind-specific field is one required AUID.
pub open spec fn with_auid(ns: Seq<NodeView>, k: usize, field: Seq<char>, ctx: Seq<char>, f: spec_fn(Auid) -> TypeDefView) -> Result<Option<TypeDefView>, DictErrorView> {
    match req_auid_field(ns, k, field, ctx) {
        Err(e) => Err(e),
        Ok(a) => Ok(Some(f(a))),
    }
}

pub open spec fn meta_type(ns: Seq<NodeView>, k: usize, tag: Seq<char>, ctx: Seq<char>, c: CommonView) -> Result<Option<TypeDefView>, DictErrorView> {
    if tag == "TypeDefinitionInteger"@ {
        Ok(Some(TypeDefView::Integer(
            c,
            dec_or(child_text(ns, k, "Size"@), 255, 1) as u8,
            true_flag(child_text(ns, k, "IsSigned"@), false),
        )))
    } else if tag == "TypeDefinitionRename"@ {
        with_auid(ns, k, "RenamedType"@, ctx, |a: Auid| TypeDefView::Rename(c, a))
    } else if tag == "TypeDefinitionRecord"@ {
        match md_members(ns, k) {
            Err(e) => Err(e),
            Ok(ms) => Ok(Some(TypeDefView::Record(c, ms))),
        }
    } else if tag == "TypeDefinitionEnumeration"@ {
        with_auid(ns, k, "ElementType"@, ctx, |a: Auid| TypeDefView::Enumeration(c, a, md_elements(ns, k)))
    } else if tag == "TypeDefinitionExtendibleEnumeration"@ {
        Ok(Some(TypeDefView::ExtendibleEnumeration(c, md_elements(ns, k))))
    } else if tag == "TypeDefinitionFixedArray"@ {
        with_auid(ns, k, "ElementType"@, ctx, |a: Auid| TypeDefView::FixedArray(
            c,
            a,
            dec_or(child_text(ns, k, "ElementCount"@), u32::MAX as nat, 0) as u32,
        ))
    } else if tag == "TypeDefinitionVariableArray"@ {
        with_auid(ns, k, "ElementType"@, ctx, |a: Auid| TypeDefView::VariableArray(c, a))
    } else if tag == "TypeDefinitionSet"@ {
        with_auid(ns, k, "ElementType"@, ctx, |a: Auid| TypeDefView::SetType(c, a))
    } else if tag == "TypeDefinitionString"@ {
        with_auid(ns, k, "ElementType"@, ctx, |a: Auid| TypeDefView::String(c, a))
    } else if tag == "TypeDefinitionCharacter"@ {
        Ok(Some(TypeDefView::Character(c)))
    } else if tag == "TypeDefinitionStream"@ {
        Ok(Some(TypeDefView::Stream(c)))
    } else if tag == "TypeDefinitionIndirect"@ {
        Ok(Some(TypeDefView::Indirect(c)))
    } else if tag == "TypeDefinitionOpaque"@ {
        Ok(Some(TypeDefView::Opaque(c)))
    } else if tag == "TypeDefinitionStrongObjectReference"@ {
        with_auid(ns, k, "ReferencedType"@, ctx, |a: Auid| TypeDefView::StrongReference(c, a))
    } else if tag == "TypeDefinitionWeakObjectReference"@ {
        match req_auid_field(ns, k, "ReferencedType"@, ctx) {
            Err(e) => Err(e),
            Ok(a) => match md_target_set(ns, k) {
                Err(e) => Err(e),
                Ok(ts) => Ok(Some(TypeDefView::WeakReference(c, a, ts))),
            },
        }
    } else if tag == "TypeDefinitionFloat"@ {
        Ok(Some(TypeDefView::Float(c, dec_or(child_text(ns, k, "Size"@), 255, 4) as u8)))
    } else if tag == "TypeDefinitionLensSerialFloat"@ {
        Ok(Some(TypeDefView::LensSerialFloat(c)))
    } else {
        Ok(None)
    }
}

// ── The whole document ──────────────────────────────────────────────────────

/// The definitions of the elements `ks` of `MetaDefinitions`, in order, or
/// the first error, reported with the element's tag.
pub open spec fn meta_defs(ns: Seq<NodeView>, ks: Seq<usize>) -> Result<Seq<DefinitionView>, DictErrorView>
    decreases ks.len(),
{
    if ks.len() == 0 {
        Ok(Seq::empty())
    } else {
        match meta_defs(ns, ks.drop_last()) {
            Err(e) => Err(e),
            Ok(ds) => match spec_meta_definition(ns, ks.last()) {
                Err(e) => Err(DictErrorView::Xml("in <"@ + ns[ks.last() as int].2 + ">: "@ + dict_error_text(e))),
                Ok(None) => Ok(ds),
                Ok(Some(d)) => Ok(ds.push(d)),
            },
        }
    }
}

/// A metadictionary document's scheme URI, scheme ID and definitions.
pub open spec fn meta_from_nodes(ns: Seq<NodeView>) -> Result<(Seq<char>, Seq<char>, Seq<DefinitionView>), DictErrorView> {
    match root_element(ns) {
        None => Ok((Seq::empty(), Seq::empty(), Seq::empty())),
        Some(r) => {
            let sid = text_or_empty(child_text(ns, r, "SchemeID"@));
            let suri = text_or_empty(child_text(ns, r, "SchemeURI"@));
            match child(ns, r, "MetaDefinitions"@) {
                None => Ok((suri, sid, Seq::empty())),
                Some(m) => match meta_defs(ns, elements_of(ns, kids(ns, m))) {
                    Err(e) => Err(e),
                    Ok(ds) => Ok((suri, sid, ds)),
                },
            }
        },
    }
}

/// What [`MetaDictionary::from_xml`] reads from `bytes`.
pub open spec fn spec_meta_dictionary(bytes: Seq<u8>) -> Result<(Seq<char>, Seq<char>, Seq<DefinitionView>), DictErrorView> {
    if !vstd::utf8::valid_utf8(bytes) {
        Err(DictErrorView::Xml(utf8_error_message(bytes)))
    } else {
        match xml_document(vstd::utf8::decode_utf8(bytes)) {
            Err(m) => Err(DictErrorView::Xml(m)),
            Ok(ns) => meta_from_nodes(ns),
        }
    }
}

// ── Executable readers ──────────────────────────────────────────────────────

fn flag_field(doc: &XmlDoc, k: usize, name: &str, dflt: bool) -> (r: bool)
    requires
        doc.wf(),
        k < doc.nodes@.len(),
    ensures
        r == true_flag(child_text(doc.view_nodes(), k, name@), dflt),
{
    match doc.child_text(k, name) {
        Some(t) => eq_ascii_lower(t.as_str(), "true"),
        None => dflt,
    }
}

fn dec_field(doc: &XmlDoc, k: usize, name: &str, max: u64, dflt: u64) -> (r: u64)
    requires
        doc.wf(),
        k < doc.nodes@.len(),
        dflt <= max,
    ensures
        r == dec_or(child_text(doc.view_nodes(), k, name@), max as nat, dflt as nat),
        r <= max,
{
    match doc.child_text(k, name) {
        Some(t) => match parse_unsigned(t.as_str(), 10, max) {
            Some(v) => v,
            None => dflt,
        },
        None => dflt,
    }
}

fn req_auid(doc: &XmlDoc, k: usize, field: &'static str, ctx: &String) -> (r: Result<Auid, DictError>)
    requires
        doc.wf(),
        k < doc.nodes@.len(),
    ensures
        match req_auid_field(doc.view_nodes(), k, field@, ctx@) {
            Ok(a) => (r matches Ok(x) && x == a),
            Err(e) => (r matches Err(x) && x@ == e),
        },
{
    match doc.child_text(k, field) {
        None => Err(DictError::MissingField(field, ctx.clone())),
        Some(s) => match Auid::from_urn(s.as_str()) {
            Ok(a) => Ok(a),
            Err(e) => {
                let m = e.to_string();
                let mut out: Vec<char> = Vec::new();
                push_lit(&mut out, "bad AUID in <");
                append_str(&mut out, field);
                push_lit(&mut out, "> of ");
                append_str(&mut out, ctx.as_str());
                push_lit(&mut out, ": ");
                append_str(&mut out, m.as_str());
                Err(DictError::Xml(string_of(&out)))
            },
        },
    }
}

fn opt_auid(doc: &XmlDoc, k: usize, field: &str) -> (r: Result<Option<Auid>, DictError>)
    requires
        doc.wf(),
        k < doc.nodes@.len(),
    ensures
        match opt_auid_field(doc.view_nodes(), k, field@) {
            Ok(a) => (r matches Ok(x) && x == a),
            Err(e) => (r matches Err(x) && x@ == e),
        },
{
    match doc.child_text(k, field) {
        None => Ok(None),
        Some(s) => match Auid::from_urn(s.as_str()) {
            Ok(a) => Ok(Some(a)),
            Err(e) => {
                let m = e.to_string();
                let mut out: Vec<char> = Vec::new();
                push_lit(&mut out, "bad AUID in <");
                append_str(&mut out, field);
                push_lit(&mut out, ">: ");
                append_str(&mut out, m.as_str());
                Err(DictError::Xml(string_of(&out)))
            },
        },
    }
}

fn parse_record_members(doc: &XmlDoc, k: usize) -> (r: Result<Vec<RecordMember>, DictError>)
    requires
        doc.wf(),
        k < doc.nodes@.len(),
    ensures
        match md_members(doc.view_nodes(), k) {
            Ok(ms) => (r matches Ok(v) && record_members_view(v@) == ms),
            Err(e) => (r matches Err(x) && x@ == e),
        },
{
    let ghost ns = doc.view_nodes();
    let m = match doc.child(k, "Members") {
        Some(m) => m,
        None => {
            let v: Vec<RecordMember> = Vec::new();
            proof {
                assert(record_members_view(v@) =~= Seq::empty());
            }
            return Ok(v);
        },
    };
    let es = doc.element_children(m);
    let name_nodes = doc.filter_named(&es, "Name");
    let type_nodes = doc.filter_named(&es, "Type");
    let names = doc.texts(&name_nodes);
    let types = doc.texts(&type_nodes);
    let ghost tn = texts(ns, name_nodes@);
    let ghost tt = texts(ns, type_nodes@);
    let n = if names.len() < types.len() {
        names.len()
    } else {
        types.len()
    };
    let mut out: Vec<RecordMember> = Vec::new();
    proof {
        assert(record_members_view(out@) =~= Seq::empty());
        assert(md_members(ns, k) == zip_members(tn, tt, n as int));
    }
    let mut i: usize = 0;
    while i < n
        invariant
            i <= n,
            n <= names@.len(),
            n <= types@.len(),
            names@.len() == tn.len(),
            types@.len() == tt.len(),
            forall|j: int| 0 <= j < names@.len() ==> (#[trigger] names@[j])@ == tn[j],
            forall|j: int| 0 <= j < types@.len() ==> (#[trigger] types@[j])@ == tt[j],
            zip_members(tn, tt, i as int) == Ok::<Seq<(Seq<char>, Auid)>, DictErrorView>(record_members_view(out@)),
            md_members(ns, k) == zip_members(tn, tt, n as int),
            ns == doc.view_nodes(),
        decreases n - i,
    {
        match Auid::from_urn(types[i].as_str()) {
            Ok(a) => {
                let ghost before = out@;
                out.push(RecordMember { name: names[i].clone(), field_type: a });
                proof {
                    assert(record_members_view(out@) =~= record_members_view(before).push((tn[i as int], a)));
                }
            },
            Err(e) => {
                let q = debug_quoted(types[i].as_str());
                let msg = e.to_string();
                let mut o: Vec<char> = Vec::new();
                push_lit(&mut o, "bad member type ");
                append_str(&mut o, q.as_str());
                push_lit(&mut o, ": ");
                append_str(&mut o, msg.as_str());
                proof {
                    assert(types@[i as int]@ == tt[i as int]);
                    assert(spec_auid_parse(tt[i as int]) == Err::<(bool, Seq<u8>), _>(e@));
                    assert(o@ =~= "bad member type "@ + str_debug(tt[i as int]) + ": "@ + auid_error_text(e@));
                    assert(zip_members(tn, tt, i as int + 1) == Err::<Seq<(Seq<char>, Auid)>, _>(DictErrorView::Xml(o@)));
                    lemma_zip_err(tn, tt, i as int + 1, n as int);
                }
                return Err(DictError::Xml(string_of(&o)));
            },
        }
        i = i + 1;
    }
    Ok(out)
}

proof fn lemma_zip_err(names: Seq<Seq<char>>, types: Seq<Seq<char>>, i: int, n: int)
    requires
        0 < i <= n,
        zip_members(names, types, i) is Err,
    ensures
        zip_members(names, types, n) == zip_members(names, types, i),
    decreases n - i,
{
    if i < n {
        lemma_zip_err(names, types, i, n - 1);
    }
}

fn parse_enum_elements(doc: &XmlDoc, k: usize) -> (r: Vec<EnumerationElement>)
    requires
        doc.wf(),
        k < doc.nodes@.len(),
    ensures
        enum_elements_view(r@) == md_elements(doc.view_nodes(), k),
{
    let ghost ns = doc.view_nodes();
    let m = match doc.child(k, "Elements") {
        Some(m) => m,
        None => {
            let v: Vec<EnumerationElement> = Vec::new();
            proof {
                assert(enum_elements_view(v@) =~= Seq::empty());
            }
            return v;
        },
    };
    let es = doc.element_children(m);
    let name_nodes = doc.filter_named(&es, "Name");
    let val_nodes = doc.filter_named(&es, "Value");
    let names = doc.texts(&name_nodes);
    let ghost tn = texts(ns, name_nodes@);
    let n = if names.len() < val_nodes.len() {
        names.len()
    } else {
        val_nodes.len()
    };
    let mut out: Vec<EnumerationElement> = Vec::new();
    let mut i: usize = 0;
    while i < n
        invariant
            doc.wf(),
            ns == doc.view_nodes(),
            in_range(ns, val_nodes@),
            i <= n,
            n <= names@.len(),
            n <= val_nodes@.len(),
            names@.len() == tn.len(),
            forall|j: int| 0 <= j < names@.len() ==> (#[trigger] names@[j])@ == tn[j],
            out@.len() == i,
            forall|j: int| 0 <= j < i ==> (#[trigger] enum_elements_view(out@)[j]) == (tn[j], enum_value(match ns[val_nodes@[j] as int].3 {
                Some(t) => t,
                None => "0"@,
            })),
        decreases n - i,
    {
        let raw: String = match &doc.nodes[val_nodes[i]].text {
            Some(t) => t.clone(),
            None => String::from_str("0"),
        };
        let t = trim_str(raw.as_str());
        let v: i64 = match parse_i64(t.as_str()) {
            Some(v) => v,
            None => 0,
        };
        let ghost before = out@;
        out.push(EnumerationElement { name: names[i].clone(), value: v });
        proof {
            assert forall|j: int| 0 <= j < i + 1 implies (#[trigger] enum_elements_view(out@)[j]) == (tn[j], enum_value(match ns[val_nodes@[j] as int].3 {
                Some(t) => t,
                None => "0"@,
            })) by {
                if j < i {
                    assert(enum_elements_view(out@)[j] == enum_elements_view(before)[j]);
                }
            }
        }
        i = i + 1;
    }
    proof {
        assert(enum_elements_view(out@) =~= md_elements(ns, k));
    }
    out
}

fn parse_target_set(doc: &XmlDoc, k: usize) -> (r: Result<Vec<Auid>, DictError>)
    requires
        doc.wf(),
        k < doc.nodes@.len(),
    ensures
        match md_target_set(doc.view_nodes(), k) {
            Ok(ids) => (r matches Ok(v) && v@ == ids),
            Err(e) => (r matches Err(x) && x@ == e),
        },
{
    let ghost ns = doc.view_nodes();
    let t = match doc.child(k, "TargetSet") {
        Some(t) => t,
        None => return Ok(Vec::new()),
    };
    let refs = doc.children_named(t, "MetaDefRef");
    let mut out: Vec<Auid> = Vec::new();
    proof {
        assert(md_target_set(ns, k) == target_refs(ns, refs@));
        assert(refs@.take(0) =~= Seq::<usize>::empty());
    }
    let mut i: usize = 0;
    while i < refs.len()
        invariant
            doc.wf(),
            ns == doc.view_nodes(),
            in_range(ns, refs@),
            i <= refs@.len(),
            target_refs(ns, refs@.take(i as int)) == Ok::<Seq<Auid>, DictErrorView>(out@),
            md_target_set(ns, k) == target_refs(ns, refs@),
        decreases refs.len() - i,
    {
        proof {
            assert(refs@.take(i + 1).drop_last() =~= refs@.take(i as int));
        }
        match &doc.nodes[refs[i]].text {
            None => {},
            Some(s) => match Auid::from_urn(s.as_str()) {
                Ok(a) => out.push(a),
                Err(e) => {
                    proof {
                        assert(refs@.take(i + 1).last() == refs@[i as int]);
                        lemma_refs_err(ns, refs@, i as int + 1);
                    }
                    return Err(DictError::Xml(e.to_string()));
                },
            },
        }
        i = i + 1;
    }
    proof {
        assert(refs@.take(i as int) =~= refs@);
    }
    Ok(out)
}

proof fn lemma_refs_err(ns: Seq<NodeView>, rs: Seq<usize>, i: int)
    requires
        0 < i <= rs.len(),
        target_refs(ns, rs.take(i)) is Err,
    ensures
        target_refs(ns, rs) == target_refs(ns, rs.take(i)),
    decreases rs.len() - i,
{
    if i < rs.len() {
        assert(rs.take(i + 1).drop_last() =~= rs.take(i));
        lemma_refs_err(ns, rs, i + 1);
    } else {
        assert(rs.take(i) =~= rs);
    }
}

fn mk_common(ident: Auid, sym: &String) -> (r: (Auid, String, String))
    ensures
        r.0 == ident,
        r.1@ == sym@,
        r.2@ == Seq::<char>::empty(),
{
    (ident, sym.clone(), String::new())
}

/// A type definition named by `tag`, if it names one.
fn parse_meta_type(doc: &XmlDoc, k: usize, tag: &str, ctx: &String, ident: Auid, sym: &String) -> (r: Result<Option<TypeDefinition>, DictError>)
    requires
        doc.wf(),
        k < doc.nodes@.len(),
    ensures
        match meta_type(doc.view_nodes(), k, tag@, ctx@, common(ident, sym@)) {
            Ok(Some(t)) => (r matches Ok(Some(x)) && x@ == t),
            Ok(None) => (r matches Ok(None)),
            Err(e) => (r matches Err(x) && x@ == e),
        },
{
    let ghost ns = doc.view_nodes();
    let ghost c = common(ident, sym@);
    let (identification, symbol, namespace) = mk_common(ident, sym);
    if str_eq(tag, "TypeDefinitionInteger") {
        let size = dec_field(doc, k, "Size", 255, 1) as u8;
        let is_signed = flag_field(doc, k, "IsSigned", false);
        Ok(Some(TypeDefinition::Integer(IntegerTypeDef { identification, symbol, namespace, size, is_signed })))
    } else if str_eq(tag, "TypeDefinitionRename") {
        let renamed_type = match req_auid(doc, k, "RenamedType", ctx) {
            Ok(v) => v,
            Err(e) => return Err(e),
        };
        Ok(Some(TypeDefinition::Rename(RenameTypeDef { identification, symbol, namespace, renamed_type })))
    } else if str_eq(tag, "TypeDefinitionRecord") {
        let members = match parse_record_members(doc, k) {
            Ok(v) => v,
            Err(e) => return Err(e),
        };
        Ok(Some(TypeDefinition::Record(RecordTypeDef { identification, symbol, namespace, members })))
    } else if str_eq(tag, "TypeDefinitionEnumeration") {
        let element_type = match req_auid(doc, k, "ElementType", ctx) {
            Ok(v) => v,
            Err(e) => return Err(e),
        };
        let elements = parse_enum_elements(doc, k);
        Ok(Some(TypeDefinition::Enumeration(EnumerationTypeDef { identification, symbol, namespace, element_type, elements })))
    } else if str_eq(tag, "TypeDefinitionExtendibleEnumeration") {
        let elements = parse_enum_elements(doc, k);
        Ok(Some(TypeDefinition::ExtendibleEnumeration(ExtEnumTypeDef { identification, symbol, namespace, elements })))
    } else if str_eq(tag, "TypeDefinitionFixedArray") {
        let element_type = match req_auid(doc, k, "ElementType", ctx) {
            Ok(v) => v,
            Err(e) => return Err(e),
        };
        let element_count = dec_field(doc, k, "ElementCount", 0xffff_ffff, 0) as u32;
        Ok(Some(TypeDefinition::FixedArray(FixedArrayTypeDef { identification, symbol, namespace, element_type, element_count })))
    } else if str_eq(tag, "TypeDefinitionVariableArray") {
        let element_type = match req_auid(doc, k, "ElementType", ctx) {
            Ok(v) => v,
            Err(e) => return Err(e),
        };
        Ok(Some(TypeDefinition::VariableArray(VariableArrayTypeDef { identification, symbol, namespace, element_type })))
    } else if str_eq(tag, "TypeDefinitionSet") {
        let element_type = match req_auid(doc, k, "ElementType", ctx) {
            Ok(v) => v,
            Err(e) => return Err(e),
        };
        Ok(Some(TypeDefinition::SetType(SetTypeDef { identification, symbol, namespace, element_type })))
    } else if str_eq(tag, "TypeDefinitionString") {
        let element_type = match req_auid(doc, k, "ElementType", ctx) {
            Ok(v) => v,
            Err(e) => return Err(e),
        };
        Ok(Some(TypeDefinition::String(StringTypeDef { identification, symbol, namespace, element_type })))
    } else if str_eq(tag, "TypeDefinitionCharacter") {
        Ok(Some(TypeDefinition::Character(CharacterTypeDef { identification, symbol, namespace })))
    } else if str_eq(tag, "TypeDefinitionStream") {
        Ok(Some(TypeDefinition::Stream(StreamTypeDef { identification, symbol, namespace })))
    } else if str_eq(tag, "TypeDefinitionIndirect") {
        Ok(Some(TypeDefinition::Indirect(IndirectTypeDef { identification, symbol, namespace })))
    } else if str_eq(tag, "TypeDefinitionOpaque") {
        Ok(Some(TypeDefinition::Opaque(OpaqueTypeDef { identification, symbol, namespace })))
    } else if str_eq(tag, "TypeDefinitionStrongObjectReference") {
        let referenced_type = match req_auid(doc, k, "ReferencedType", ctx) {
            Ok(v) => v,
            Err(e) => return Err(e),
        };
        Ok(Some(TypeDefinition::StrongReference(StrongReferenceTypeDef { identification, symbol, namespace, referenced_type })))
    } else if str_eq(tag, "TypeDefinitionWeakObjectReference") {
        let referenced_type = match req_auid(doc, k, "ReferencedType", ctx) {
            Ok(v) => v,
            Err(e) => return Err(e),
        };
        let target_set = match parse_target_set(doc, k) {
            Ok(v) => v,
            Err(e) => return Err(e),
        };
        Ok(Some(TypeDefinition::WeakReference(WeakReferenceTypeDef { identification, symbol, namespace, referenced_type, target_set })))
    } else if str_eq(tag, "TypeDefinitionFloat") {
        let size = dec_field(doc, k, "Size", 255, 4) as u8;
        Ok(Some(TypeDefinition::Float(FloatTypeDef { identification, symbol, namespace, size })))
    } else if str_eq(tag, "TypeDefinitionLensSerialFloat") {
        Ok(Some(TypeDefinition::LensSerialFloat(LensSerialFloatTypeDef { identification, symbol, namespace })))
    } else {
        Ok(None)
    }
}

/// The definition that element `k` of `MetaDefinitions` gives.
fn parse_meta_definition(doc: &XmlDoc, k: usize) -> (r: Result<Option<Definition>, DictError>)
    requires
        doc.wf(),
        k < doc.nodes@.len(),
    ensures
        match spec_meta_definition(doc.view_nodes(), k) {
            Ok(Some(d)) => (r matches Ok(Some(x)) && x@ == d),
            Ok(None) => (r matches Ok(None)),
            Err(e) => (r matches Err(x) && x@ == e),
        },
{
    let ghost ns = doc.view_nodes();
    let tag = &doc.nodes[k].name;
    let id_str = match doc.child_text(k, "Identification") {
        Some(s) => s,
        None => return Ok(None),
    };
    let mut cs: Vec<char> = Vec::new();
    append_str(&mut cs, tag.as_str());
    push_lit(&mut cs, ":");
    append_str(&mut cs, id_str.as_str());
    let ctx = string_of(&cs);
    let ident = match Auid::from_urn(id_str.as_str()) {
        Ok(a) => a,
        Err(e) => {
            let m = e.to_string();
            let mut o: Vec<char> = Vec::new();
            append_str(&mut o, ctx.as_str());
            push_lit(&mut o, ": ");
            append_str(&mut o, m.as_str());
            return Err(DictError::Xml(string_of(&o)));
        },
    };
    let symbol = match doc.child_text(k, "Symbol") {
        Some(s) => s,
        None => return Err(DictError::MissingField("Symbol", ctx)),
    };
    if str_eq(tag.as_str(), "ClassDefinition") {
        let parent_class = match opt_auid(doc, k, "ParentClass") {
            Ok(v) => v,
            Err(e) => return Err(e),
        };
        let is_concrete = flag_field(doc, k, "IsConcrete", true);
        Ok(Some(Definition::Class(ClassDefinition {
            identification: ident,
            symbol,
            namespace: String::new(),
            parent_class,
            is_concrete,
        })))
    } else if str_eq(tag.as_str(), "PropertyDefinition") {
        let property_type = match req_auid(doc, k, "Type", &ctx) {
            Ok(v) => v,
            Err(e) => return Err(e),
        };
        let member_of = match req_auid(doc, k, "MemberOf", &ctx) {
            Ok(v) => v,
            Err(e) => return Err(e),
        };
        let is_optional = flag_field(doc, k, "IsOptional", false);
        let is_unique_identifier = flag_field(doc, k, "IsUniqueIdentifier", false);
        let local_identification = dec_field(doc, k, "LocalIdentification", 65535, 0) as u16;
        Ok(Some(Definition::Property(PropertyDefinition {
            identification: ident,
            symbol,
            namespace: String::new(),
            member_of,
            property_type,
            is_optional,
            is_unique_identifier,
            local_identification,
        })))
    } else {
        match parse_meta_type(doc, k, tag.as_str(), &ctx, ident, &symbol) {
            Ok(Some(t)) => Ok(Some(Definition::Type(t))),
            Ok(None) => Ok(None),
            Err(e) => Err(e),
        }
    }
}

impl MetaDictionary {
    /// Read a metadictionary document: its `SchemeID` and `SchemeURI`, and
    /// every definition under `MetaDefinitions`, added in document order.
    #[verifier::rlimit(40)]
    pub fn from_xml(xml: &[u8]) -> (r: Result<MetaDictionary, DictError>)
        ensures
            match spec_meta_dictionary(xml@) {
                Ok((uri, id, ds)) => (r matches Ok(d) && d.wf() && d.scheme_uri_view() == uri
                    && d.scheme_id_view() == id && d.model() == model_add_all(empty_model(), ds)),
                Err(e) => (r matches Err(x) && x@ == e),
            },
    {
        let text = match utf8_text(xml) {
            Ok(t) => t,
            Err(m) => return Err(DictError::Xml(m)),
        };
        let doc = match XmlDoc::parse(text.as_str()) {
            Ok(d) => d,
            Err(m) => return Err(DictError::Xml(m)),
        };
        let ghost ns = doc.view_nodes();
        let root = match doc.root_element() {
            Some(r) => r,
            None => {
                let d = MetaDictionary::new(String::new(), String::new());
                proof {
                    assert(model_add_all(empty_model(), Seq::empty()) == empty_model());
                }
                return Ok(d);
            },
        };
        let scheme_id = match doc.child_text(root, "SchemeID") {
            Some(s) => s,
            None => String::new(),
        };
        let scheme_uri = match doc.child_text(root, "SchemeURI") {
            Some(s) => s,
            None => String::new(),
        };
        let mut dict = MetaDictionary::new(scheme_uri, scheme_id);
        let m = match doc.child(root, "MetaDefinitions") {
            Some(m) => m,
            None => {
                proof {
                    assert(model_add_all(empty_model(), Seq::empty()) == empty_model());
                }
                return Ok(dict);
            },
        };
        let es = doc.element_children(m);
        let ghost uri = dict.scheme_uri_view();
        let ghost sid = dict.scheme_id_view();
        proof {
            assert(spec_meta_dictionary(xml@) == meta_from_nodes(ns));
            assert(meta_from_nodes(ns) == match meta_defs(ns, es@) {
                Err(e) => Err(e),
                Ok(ds) => Ok((uri, sid, ds)),
            });
            assert(es@.take(0) =~= Seq::<usize>::empty());
        }
        let mut i: usize = 0;
        while i < es.len()
            invariant
                doc.wf(),
                ns == doc.view_nodes(),
                in_range(ns, es@),
                i <= es@.len(),
                dict.wf(),
                dict.scheme_uri_view() == uri,
                dict.scheme_id_view() == sid,
                meta_defs(ns, es@.take(i as int)) matches Ok(ds) && dict.model() == model_add_all(
                    empty_model(),
                    ds,
                ),
                spec_meta_dictionary(xml@) == match meta_defs(ns, es@) {
                    Err(e) => Err(e),
                    Ok(ds) => Ok((uri, sid, ds)),
                },
            decreases es.len() - i,
        {
            let k = es[i];
            proof {
                assert(es@.take(i + 1).drop_last() =~= es@.take(i as int));
            }
            match parse_meta_definition(&doc, k) {
                Ok(Some(def)) => {
                    let ghost before = meta_defs(ns, es@.take(i as int))->Ok_0;
                    let ghost dv = def@;
                    let _ = dict.add(def);
                    proof {
                        assert(before.push(dv).drop_last() =~= before);
                    }
                },
                Ok(None) => {},
                Err(e) => {
                    let msg = e.to_string();
                    let mut o: Vec<char> = Vec::new();
                    push_lit(&mut o, "in <");
                    append_str(&mut o, doc.nodes[k].name.as_str());
                    push_lit(&mut o, ">: ");
                    append_str(&mut o, msg.as_str());
                    proof {
                        assert(es@.take(i + 1).last() == k);
                        assert(o@ =~= "in <"@ + ns[k as int].2 + ">: "@ + dict_error_text(e@));
                        lemma_meta_defs_err(ns, es@, i as int + 1);
                    }
                    return Err(DictError::Xml(string_of(&o)));
                },
            }
            i = i + 1;
        }
        proof {
            assert(es@.take(i as int) =~= es@);
        }
        Ok(dict)
    }
}

proof fn lemma_meta_defs_err(ns: Seq<NodeView>, ks: Seq<usize>, i: int)
    requires
        0 < i <= ks.len(),
        meta_defs(ns, ks.take(i)) is Err,
    ensures
        meta_defs(ns, ks) == meta_defs(ns, ks.take(i)),
    decreases ks.len() - i,
{
    if i < ks.len() {
        assert(ks.take(i + 1).drop_last() =~= ks.take(i));
        lemma_meta_defs_err(ns, ks, i + 1);
    } else {
        assert(ks.take(i) =~= ks);
    }
}

/// Whether `d` is what [`MetaDictionary::from_xml`] reads from `bytes`.
pub open spec fn dict_read_from(d: MetaDictionary, bytes: Seq<u8>) -> bool {
    spec_meta_dictionary(bytes) matches Ok((uri, id, ds)) && d.wf() && d.scheme_uri_view() == uri
        && d.scheme_id_view() == id && d.model() == model_add_all(empty_model(), ds)
}

/// The error of the first of `srcs` that is not a metadictionary document.
pub open spec fn first_dict_error(srcs: Seq<Seq<u8>>) -> Option<DictErrorView>
    decreases srcs.len(),
{
    if srcs.len() == 0 {
        None
    } else {
        match first_dict_error(srcs.drop_last()) {
            Some(e) => Some(e),
            None => match spec_meta_dictionary(srcs.last()) {
                Err(e) => Some(e),
                Ok(_) => None,
            },
        }
    }
}

impl MetaDictionaryCollection {
    /// One metadictionary per document, in order; the first document that
    /// fails to read gives the error.
    pub fn from_xml_slices(slices: &[&[u8]]) -> (r: Result<MetaDictionaryCollection, DictError>)
        ensures
            match first_dict_error(slices@.map_values(|b: &[u8]| b@)) {
                Some(e) => (r matches Err(x) && x@ == e),
                None => (r matches Ok(c) && c.dicts().len() == slices@.len() && forall|i: int|
                    0 <= i < slices@.len() ==> dict_read_from(#[trigger] c.dicts()[i], slices@[i]@)),
            },
    {
        let ghost srcs = slices@.map_values(|b: &[u8]| b@);
        let mut coll = MetaDictionaryCollection::new();
        let mut i: usize = 0;
        while i < slices.len()
            invariant
                srcs == slices@.map_values(|b: &[u8]| b@),
                i <= slices@.len(),
                first_dict_error(srcs.take(i as int)) is None,
                coll.dicts().len() == i,
                forall|j: int| 0 <= j < i ==> dict_read_from(#[trigger] coll.dicts()[j], slices@[j]@),
            decreases slices.len() - i,
        {
            proof {
                assert(srcs.take(i + 1).drop_last() =~= srcs.take(i as int));
                assert(srcs.take(i + 1).last() == slices@[i as int]@);
            }
            match MetaDictionary::from_xml(slices[i]) {
                Ok(d) => {
                    let _ = coll.add(d);
                },
                Err(e) => {
                    proof {
                        lemma_first_error(srcs, i as int + 1);
                    }
                    return Err(e);
                },
            }
            i = i + 1;
        }
        proof {
            assert(srcs.take(i as int) =~= srcs);
        }
        Ok(coll)
    }
}

proof fn lemma_first_error(srcs: Seq<Seq<u8>>, i: int)
    requires
        0 < i <= srcs.len(),
        first_dict_error(srcs.take(i)) is Some,
    ensures
        first_dict_error(srcs) == first_dict_error(srcs.take(i)),
    decreases srcs.len() - i,
{
    if i < srcs.len() {
        assert(srcs.take(i + 1).drop_last() =~= srcs.take(i));
        lemma_first_error(srcs, i + 1);
    } else {
        assert(srcs.take(i) =~= srcs);
    }
}

} // verus!
