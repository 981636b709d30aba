//! XSD schema generation from a RegXML metadictionary (SMPTE ST 2001-1).
//!
//! Generates a single XSD file for the `reg:` baseline namespace covering:
//! - `reg:Fragment` root element
//! - `reg:Item` element (for set/array items)
//! - `reg:uid` attribute (instance UID)
//! - `<xs:import>` stubs for each class namespace found in the dictionary
//! - Named complexType + element declarations for every class
use vstd::prelude::*;

use super::event::EventHandler;
use super::error::FragmentError;
use super::fragment::REGXML_NS;
use super::order::{lemma_sorted_positions, set_insert, sort_positions, sorted_positions, sorted_set_insert};
use crate::dict::definition::{ClassDefinition, ClassView, Definition, DefinitionView, PropertyDefinition, PropertyView};
use crate::dict::meta_dictionary::MetaDictionary;
use crate::dict::resolver::DefinitionResolver;
use crate::dict::meta_write::{en, push_event, st, tx};
use crate::text::{append_str, push_lit, string_of, str_eq};
use crate::types::Auid;
use crate::xml::writer::{attrs_view, event_tuple, events_view, no_floats, render_xml, start, end, text, xml_rendering, EventTuple, XmlEvent};

verus! {

pub const XSD_NS: &'static str = "http://www.w3.org/2001/XMLSchema";

pub type Attrs = Seq<(Seq<char>, Seq<char>)>;

pub open spec fn empty_el(name: Seq<char>, a: Attrs) -> EventTuple {
    (2, name, a, Seq::empty())
}

pub open spec fn start_el(name: Seq<char>, a: Attrs) -> EventTuple {
    (1, name, a, Seq::empty())
}

pub open spec fn xs_any(ns: Seq<char>) -> EventTuple {
    empty_el("xs:any"@, seq![("namespace"@, ns), ("minOccurs"@, "0"@), ("maxOccurs"@, "unbounded"@), ("processContents"@, "lax"@)])
}

/// The classes among `ds`, in order.
pub open spec fn classes_of(ds: Seq<DefinitionView>) -> Seq<ClassView>
    decreases ds.len(),
{
    if ds.len() == 0 {
        Seq::empty()
    } else {
        let rest = classes_of(ds.drop_last());
        match ds.last() {
            DefinitionView::Class(c) => rest.push(c),
            _ => rest,
        }
    }
}

/// The distinct class namespaces other than the empty one and `reg:`'s, sorted.
pub open spec fn other_namespaces(cs: Seq<ClassView>) -> Seq<Seq<char>>
    decreases cs.len(),
{
    if cs.len() == 0 {
        Seq::empty()
    } else {
        let rest = other_namespaces(cs.drop_last());
        let ns = cs.last().common.namespace;
        if ns.len() > 0 && ns != REGXML_NS@ {
            set_insert(rest, ns)
        } else {
            rest
        }
    }
}

pub open spec fn imports(ns: Seq<Seq<char>>) -> Seq<EventTuple> {
    ns.map_values(|n: Seq<char>| empty_el("xs:import"@, seq![("namespace"@, n)]))
}

pub open spec fn schema_head(other: Seq<Seq<char>>) -> Seq<EventTuple> {
    seq![
        (0nat, Seq::<char>::empty(), Seq::<(Seq<char>, Seq<char>)>::empty(), Seq::<u8>::empty()),
        start_el("xs:schema"@, seq![
            ("xmlns:xs"@, XSD_NS@),
            ("xmlns:reg"@, REGXML_NS@),
            ("targetNamespace"@, REGXML_NS@),
            ("elementFormDefault"@, "qualified"@),
            ("attributeFormDefault"@, "unqualified"@),
        ]),
    ] + imports(other) + seq![
        empty_el("xs:attribute"@, seq![("name"@, "uid"@), ("type"@, "xs:anyURI"@)]),
        start_el("xs:element"@, seq![("name"@, "Fragment"@)]),
        st("xs:complexType"@),
        st("xs:sequence"@),
        xs_any("##other"@),
        en("xs:sequence"@),
        en("xs:complexType"@),
        en("xs:element"@),
        start_el("xs:element"@, seq![("name"@, "Item"@)]),
        start_el("xs:complexType"@, seq![("mixed"@, "true"@)]),
        st("xs:sequence"@),
        xs_any("##any"@),
        en("xs:sequence"@),
        empty_el("xs:anyAttribute"@, seq![("namespace"@, "##any"@), ("processContents"@, "lax"@)]),
        en("xs:complexType"@),
        en("xs:element"@),
    ]
}

/// The declaration of one property inside its class's type.
pub open spec fn prop_el(p: PropertyView) -> EventTuple {
    empty_el("xs:element"@, seq![("name"@, p.common.symbol), ("type"@, "xs:anyType"@), ("minOccurs"@, "0"@), ("maxOccurs"@, "1"@)])
}

/// The named complexType and the element declaration of a class.
pub open spec fn class_decl(c: ClassView, props: Seq<PropertyView>) -> Seq<EventTuple> {
    let sym = c.common.symbol;
    let ns = c.common.namespace;
    seq![start_el("xs:complexType"@, seq![("name"@, sym + "Type"@)])] + (if ns.len() > 0 {
        seq![st("xs:annotation"@), st("xs:documentation"@), tx(ns), en("xs:documentation"@), en("xs:annotation"@)]
    } else {
        Seq::empty()
    }) + seq![st("xs:sequence"@)] + props.map_values(|p: PropertyView| prop_el(p)) + seq![
        xs_any("##other"@),
        en("xs:sequence"@),
        empty_el("xs:attribute"@, seq![("ref"@, "reg:uid"@)]),
        empty_el("xs:anyAttribute"@, seq![("namespace"@, "##other"@), ("processContents"@, "lax"@)]),
        en("xs:complexType"@),
        empty_el("xs:element"@, seq![("name"@, sym), ("type"@, "reg:"@ + sym + "Type"@)]),
    ]
}

/// Where the property declarations start in a class's declaration: after
/// the complexType's start tag, the annotation that gives the namespace
/// where there is one, and the sequence's start tag.
pub open spec fn first_prop_at(c: ClassView) -> int {
    if c.common.namespace.len() > 0 {
        7
    } else {
        2
    }
}

/// In a class's declaration each of its properties, in order after the
/// sequence opens, is declared by an empty `xs:element` named after the
/// property, of type `xs:anyType`, that may be left out and occurs at most
/// once: `minOccurs="0"`, `maxOccurs="1"`.
pub proof fn lemma_class_decl_properties_optional(c: ClassView, props: Seq<PropertyView>, i: int)
    requires
        0 <= i < props.len(),
    ensures
        first_prop_at(c) + i < class_decl(c, props).len(),
        class_decl(c, props)[first_prop_at(c) + i] == (
            2nat,
            "xs:element"@,
            seq![
                ("name"@, props[i].common.symbol),
                ("type"@, "xs:anyType"@),
                ("minOccurs"@, "0"@),
                ("maxOccurs"@, "1"@),
            ],
            Seq::<u8>::empty(),
        ),
{
    let ns = c.common.namespace;
    let head = seq![start_el("xs:complexType"@, seq![("name"@, c.common.symbol + "Type"@)])] + (if ns.len() > 0 {
        seq![st("xs:annotation"@), st("xs:documentation"@), tx(ns), en("xs:documentation"@), en("xs:annotation"@)]
    } else {
        Seq::empty()
    }) + seq![st("xs:sequence"@)];
    let mid = props.map_values(|p: PropertyView| prop_el(p));
    assert(head.len() == first_prop_at(c));
    assert(class_decl(c, props)[head.len() + i] == mid[i]);
}

/// A class's declaration opens a complexType named after the class with
/// `Type` appended, declares exactly its properties (then any element of
/// another namespace, the `reg:uid` attribute and any attribute of another
/// namespace), and ends with an element named after the class, of that type
/// in the `reg:` namespace.
pub proof fn lemma_class_decl_shape(c: ClassView, props: Seq<PropertyView>)
    ensures
        class_decl(c, props).len() == first_prop_at(c) + props.len() + 6,
        class_decl(c, props)[0] == (1nat, "xs:complexType"@, seq![("name"@, c.common.symbol + "Type"@)], Seq::<u8>::empty()),
        class_decl(c, props)[first_prop_at(c) - 1] == st("xs:sequence"@),
        class_decl(c, props)[first_prop_at(c) + props.len()] == (
            2nat,
            "xs:any"@,
            seq![("namespace"@, "##other"@), ("minOccurs"@, "0"@), ("maxOccurs"@, "unbounded"@), ("processContents"@, "lax"@)],
            Seq::<u8>::empty(),
        ),
        class_decl(c, props)[first_prop_at(c) + props.len() + 1] == en("xs:sequence"@),
        class_decl(c, props).last() == (
            2nat,
            "xs:element"@,
            seq![("name"@, c.common.symbol), ("type"@, "reg:"@ + c.common.symbol + "Type"@)],
            Seq::<u8>::empty(),
        ),
{
    let ns = c.common.namespace;
    let head = seq![start_el("xs:complexType"@, seq![("name"@, c.common.symbol + "Type"@)])] + (if ns.len() > 0 {
        seq![st("xs:annotation"@), st("xs:documentation"@), tx(ns), en("xs:documentation"@), en("xs:annotation"@)]
    } else {
        Seq::empty()
    }) + seq![st("xs:sequence"@)];
    let mid = props.map_values(|p: PropertyView| prop_el(p));
    let k = first_prop_at(c) + props.len();
    assert(head.len() == first_prop_at(c));
    assert(class_decl(c, props)[first_prop_at(c) - 1] == head[first_prop_at(c) - 1]);
    assert(class_decl(c, props)[0] == head[0]);
}

/// The properties that `ids` name, in order (other identifications skipped).
pub open spec fn member_props<R: DefinitionResolver>(r: &R, ids: Seq<Auid>) -> Seq<PropertyView>
    decreases ids.len(),
{
    if ids.len() == 0 {
        Seq::empty()
    } else {
        let rest = member_props(r, ids.drop_last());
        match r.spec_definition(ids.last()) {
            Some(DefinitionView::Property(p)) => rest.push(p),
            _ => rest,
        }
    }
}

/// `ps` stably sorted by symbol.
pub open spec fn props_by_symbol(ps: Seq<PropertyView>) -> Seq<PropertyView> {
    sorted_positions(ps.map_values(|p: PropertyView| p.common.symbol), ps.len() as int).map_values(|i: int| ps[i])
}

/// `cs` stably sorted by symbol.
pub open spec fn classes_by_symbol(cs: Seq<ClassView>) -> Seq<ClassView> {
    sorted_positions(cs.map_values(|c: ClassView| c.common.symbol), cs.len() as int).map_values(|i: int| cs[i])
}

pub open spec fn class_decls<R: DefinitionResolver>(r: &R, cs: Seq<ClassView>) -> Seq<EventTuple>
    decreases cs.len(),
{
    if cs.len() == 0 {
        Seq::empty()
    } else {
        class_decls(r, cs.drop_last()) + class_decl(
            cs.last(),
            props_by_symbol(member_props(r, r.spec_members(cs.last().common.id))),
        )
    }
}

/// The events of the XSD for the definitions `ds`, with members found by `r`.
pub open spec fn schema_events<R: DefinitionResolver>(r: &R, ds: Seq<DefinitionView>) -> Seq<EventTuple> {
    let cs = classes_of(ds);
    schema_head(other_namespaces(cs)) + class_decls(r, classes_by_symbol(cs)) + seq![en("xs:schema"@)]
}

/// The XSD opens with the XML declaration and an `xs:schema` whose target
/// namespace is RegXML's baseline (qualified elements, unqualified
/// attributes); then it imports, one each, the other namespaces of the
/// classes; it ends by closing `xs:schema`.
pub proof fn lemma_schema_frame<R: DefinitionResolver>(r: &R, ds: Seq<DefinitionView>, i: int)
    requires
        0 <= i < other_namespaces(classes_of(ds)).len(),
    ensures
        schema_events(r, ds)[0].0 == 0,
        schema_events(r, ds)[1] == (1nat, "xs:schema"@, seq![
            ("xmlns:xs"@, "http://www.w3.org/2001/XMLSchema"@),
            ("xmlns:reg"@, "http://www.smpte-ra.org/schemas/2001-1b/2013/baseline"@),
            ("targetNamespace"@, "http://www.smpte-ra.org/schemas/2001-1b/2013/baseline"@),
            ("elementFormDefault"@, "qualified"@),
            ("attributeFormDefault"@, "unqualified"@),
        ], Seq::<u8>::empty()),
        schema_events(r, ds)[2 + i] == (2nat, "xs:import"@, seq![("namespace"@, other_namespaces(classes_of(ds))[i])], Seq::<u8>::empty()),
        schema_events(r, ds).last() == (3nat, "xs:schema"@, Seq::<(Seq<char>, Seq<char>)>::empty(), Seq::<u8>::empty()),
{
    let cs = classes_of(ds);
    let other = other_namespaces(cs);
    let h = schema_head(other);
    let body = class_decls(r, classes_by_symbol(cs));
    assert(schema_events(r, ds) == h + body + seq![en("xs:schema"@)]);
    assert(schema_events(r, ds)[0] == h[0]);
    assert(schema_events(r, ds)[1] == h[1]);
    assert(schema_events(r, ds)[2 + i] == h[2 + i]);
    assert(h[2 + i] == imports(other)[i]);
}

fn attrs2(k1: &str, v1: &str, k2: &str, v2: &str) -> (r: Vec<(String, String)>)
    ensures
        attrs_view(r@) == seq![(k1@, v1@), (k2@, v2@)],
{
    let mut a: Vec<(String, String)> = Vec::new();
    a.push(crate::xml::writer::attr(k1, v1));
    a.push(crate::xml::writer::attr(k2, v2));
    proof {
        assert(attrs_view(a@) =~= seq![(k1@, v1@), (k2@, v2@)]);
    }
    a
}

fn attrs1(k1: &str, v1: &str) -> (r: Vec<(String, String)>)
    ensures
        attrs_view(r@) == seq![(k1@, v1@)],
{
    let mut a: Vec<(String, String)> = Vec::new();
    a.push(crate::xml::writer::attr(k1, v1));
    proof {
        assert(attrs_view(a@) =~= seq![(k1@, v1@)]);
    }
    a
}

fn attrs4(k1: &str, v1: &str, k2: &str, v2: &str, k3: &str, v3: &str, k4: &str, v4: &str) -> (r: Vec<(String, String)>)
    ensures
        attrs_view(r@) == seq![(k1@, v1@), (k2@, v2@), (k3@, v3@), (k4@, v4@)],
{
    let mut a: Vec<(String, String)> = Vec::new();
    a.push(crate::xml::writer::attr(k1, v1));
    a.push(crate::xml::writer::attr(k2, v2));
    a.push(crate::xml::writer::attr(k3, v3));
    a.push(crate::xml::writer::attr(k4, v4));
    proof {
        assert(attrs_view(a@) =~= seq![(k1@, v1@), (k2@, v2@), (k3@, v3@), (k4@, v4@)]);
    }
    a
}

fn any_el(ns: &str) -> (e: XmlEvent)
    ensures
        event_tuple(e) == xs_any(ns@),
{
    XmlEvent::Empty(String::from_str("xs:any"), attrs4("namespace", ns, "minOccurs", "0", "maxOccurs", "unbounded", "processContents", "lax"))
}

fn write_head(out: &mut Vec<XmlEvent>, other: &Vec<String>)
    requires
        no_floats(old(out)@),
    ensures
        no_floats(final(out)@),
        events_view(final(out)@) == events_view(old(out)@) + schema_head(other@.map_values(|s: String| s@)),
{
    let ghost o = events_view(out@);
    let ghost ov = other@.map_values(|s: String| s@);
    push_event(out, XmlEvent::Decl);
    let mut a: Vec<(String, String)> = Vec::new();
    a.push(crate::xml::writer::attr("xmlns:xs", XSD_NS));
    a.push(crate::xml::writer::attr("xmlns:reg", REGXML_NS));
    a.push(crate::xml::writer::attr("targetNamespace", REGXML_NS));
    a.push(crate::xml::writer::attr("elementFormDefault", "qualified"));
    a.push(crate::xml::writer::attr("attributeFormDefault", "unqualified"));
    proof {
        assert(attrs_view(a@) =~= seq![
            ("xmlns:xs"@, XSD_NS@),
            ("xmlns:reg"@, REGXML_NS@),
            ("targetNamespace"@, REGXML_NS@),
            ("elementFormDefault"@, "qualified"@),
            ("attributeFormDefault"@, "unqualified"@),
        ]);
    }
    push_event(out, XmlEvent::Start(String::from_str("xs:schema"), a));
    let ghost h = events_view(out@);
    let mut i: usize = 0;
    while i < other.len()
        invariant
            no_floats(out@),
            ov == other@.map_values(|s: String| s@),
            i <= other@.len(),
            events_view(out@) == h + imports(ov.take(i as int)),
        decreases other.len() - i,
    {
        push_event(out, XmlEvent::Empty(String::from_str("xs:import"), attrs1("namespace", other[i].as_str())));
        proof {
            assert(imports(ov.take(i + 1)) =~= imports(ov.take(i as int)).push(empty_el("xs:import"@, seq![("namespace"@, ov[i as int])])));
        }
        i = i + 1;
    }
    proof {
        assert(ov.take(i as int) =~= ov);
    }
    let ghost h2 = events_view(out@);
    push_event(out, XmlEvent::Empty(String::from_str("xs:attribute"), attrs2("name", "uid", "type", "xs:anyURI")));
    push_event(out, XmlEvent::Start(String::from_str("xs:element"), attrs1("name", "Fragment")));
    push_event(out, start("xs:complexType"));
    push_event(out, start("xs:sequence"));
    push_event(out, any_el("##other"));
    push_event(out, end("xs:sequence"));
    push_event(out, end("xs:complexType"));
    push_event(out, end("xs:element"));
    push_event(out, XmlEvent::Start(String::from_str("xs:element"), attrs1("name", "Item")));
    push_event(out, XmlEvent::Start(String::from_str("xs:complexType"), attrs1("mixed", "true")));
    push_event(out, start("xs:sequence"));
    push_event(out, any_el("##any"));
    push_event(out, end("xs:sequence"));
    push_event(out, XmlEvent::Empty(String::from_str("xs:anyAttribute"), attrs2("namespace", "##any", "processContents", "lax")));
    push_event(out, end("xs:complexType"));
    push_event(out, end("xs:element"));
    proof {
        assert(events_view(out@) =~= o + schema_head(ov));
    }
}

/// `s` followed by `tail`.
fn concat(s: &str, tail: &str) -> (r: String)
    ensures
        r@ == s@ + tail@,
{
    let mut o: Vec<char> = Vec::new();
    append_str(&mut o, s);
    append_str(&mut o, tail);
    string_of(&o)
}

#[verifier::rlimit(30)]
fn write_class_decl(out: &mut Vec<XmlEvent>, c: &ClassDefinition, props: &Vec<&PropertyDefinition>)
    requires
        no_floats(old(out)@),
    ensures
        no_floats(final(out)@),
        events_view(final(out)@) == events_view(old(out)@) + class_decl(c@, props@.map_values(|p: &PropertyDefinition| p@)),
{
    let ghost o = events_view(out@);
    let ghost pv = props@.map_values(|p: &PropertyDefinition| p@);
    let complex_name = concat(c.symbol.as_str(), "Type");
    push_event(out, XmlEvent::Start(String::from_str("xs:complexType"), attrs1("name", complex_name.as_str())));
    if !c.namespace.as_str().is_empty() {
        push_event(out, start("xs:annotation"));
        push_event(out, start("xs:documentation"));
        push_event(out, text(c.namespace.as_str()));
        push_event(out, end("xs:documentation"));
        push_event(out, end("xs:annotation"));
    }
    push_event(out, start("xs:sequence"));
    let ghost h = events_view(out@);
    let mut i: usize = 0;
    while i < props.len()
        invariant
            no_floats(out@),
            pv == props@.map_values(|p: &PropertyDefinition| p@),
            i <= props@.len(),
            events_view(out@) == h + pv.take(i as int).map_values(|p: PropertyView| prop_el(p)),
        decreases props.len() - i,
    {
        push_event(out, XmlEvent::Empty(String::from_str("xs:element"), attrs4("name", props[i].symbol.as_str(), "type", "xs:anyType", "minOccurs", "0", "maxOccurs", "1")));
        proof {
            assert(pv.take(i + 1).map_values(|p: PropertyView| prop_el(p)) =~= pv.take(i as int).map_values(|p: PropertyView| prop_el(p)).push(prop_el(pv[i as int])));
        }
        i = i + 1;
    }
    proof {
        assert(pv.take(i as int) =~= pv);
    }
    let ghost h2 = events_view(out@);
    push_event(out, any_el("##other"));
    push_event(out, end("xs:sequence"));
    push_event(out, XmlEvent::Empty(String::from_str("xs:attribute"), attrs1("ref", "reg:uid")));
    push_event(out, XmlEvent::Empty(String::from_str("xs:anyAttribute"), attrs2("namespace", "##other", "processContents", "lax")));
    push_event(out, end("xs:complexType"));
    let qualified = concat("reg:", complex_name.as_str());
    push_event(out, XmlEvent::Empty(String::from_str("xs:element"), attrs2("name", c.symbol.as_str(), "type", qualified.as_str())));
    proof {
        let cv = c@;
        assert(h2 == h + pv.map_values(|p: PropertyView| prop_el(p)));
        assert(("reg:"@ + (cv.common.symbol + "Type"@)) =~= "reg:"@ + cv.common.symbol + "Type"@);
        assert(events_view(out@) =~= o + class_decl(cv, pv));
    }
}

/// A stable XSD builder over a definition resolver.
pub struct XmlSchemaBuilder<'dict, R: DefinitionResolver> {
    resolver: &'dict R,
    handler: Option<Box<dyn EventHandler>>,
}

impl<'dict, R: DefinitionResolver> XmlSchemaBuilder<'dict, R> {
    /// The resolver that finds each class's members.
    pub closed spec fn resolver(&self) -> &'dict R {
        self.resolver
    }

    /// Whether an event handler was given.
    pub closed spec fn has_handler(&self) -> bool {
        self.handler is Some
    }

    pub fn new(resolver: &'dict R) -> (b: Self)
        ensures
            b.resolver() == resolver,
            !b.has_handler(),
    {
        XmlSchemaBuilder { resolver, handler: None }
    }

    pub fn with_event_handler(self, h: Box<dyn EventHandler>) -> (b: Self)
        ensures
            b.resolver() == self.resolver(),
            b.has_handler(),
    {
        XmlSchemaBuilder { resolver: self.resolver, handler: Some(h) }
    }

    /// The events of an XSD for `dict`: the `reg:uid` attribute, the
    /// `reg:Fragment` and `reg:Item` elements, an `xs:import` for each other
    /// class namespace, and a complexType and an element for every class,
    /// classes and their properties sorted by symbol.
    pub fn schema_events(&self, dict: &MetaDictionary) -> (r: Vec<XmlEvent>)
        requires
            dict.wf(),
        ensures
            no_floats(r@),
            events_view(r@) == schema_events(self.resolver(), dict.def_list()),
    {
        let defs = dict.all_definitions();
        let ghost dl = dict.def_list();
        // classes, in order, and the sorted set of their other namespaces
        let mut classes: Vec<&ClassDefinition> = Vec::new();
        let mut other: Vec<String> = Vec::new();
        let mut i: usize = 0;
        while i < defs.len()
            invariant
                dl == dict.def_list(),
                defs@.len() == dl.len(),
                forall|j: int| 0 <= j < defs@.len() ==> (#[trigger] defs@[j])@ == dl[j],
                i <= defs@.len(),
                classes@.map_values(|c: &ClassDefinition| c@) == classes_of(dl.take(i as int)),
                other@.map_values(|s: String| s@) == other_namespaces(classes_of(dl.take(i as int))),
            decreases defs.len() - i,
        {
            proof {
                assert(dl.take(i + 1).drop_last() =~= dl.take(i as int));
            }
            match defs[i] {
                Definition::Class(c) => {
                    let ghost before = classes@.map_values(|c: &ClassDefinition| c@);
                    classes.push(c);
                    proof {
                        assert(classes@.map_values(|c: &ClassDefinition| c@) =~= before.push(c@));
                        assert(classes_of(dl.take(i + 1)).drop_last() =~= classes_of(dl.take(i as int)));
                    }
                    if !c.namespace.as_str().is_empty() && !str_eq(c.namespace.as_str(), REGXML_NS) {
                        sorted_set_insert(&mut other, c.namespace.as_str());
                    }
                },
                _ => {},
            }
            i = i + 1;
        }
        proof {
            assert(dl.take(i as int) =~= dl);
        }
        let ghost cs = classes_of(dl);
        let mut out: Vec<XmlEvent> = Vec::new();
        proof {
            assert(no_floats(out@));
        }
        write_head(&mut out, &other);
        // classes sorted by symbol
        let mut keys: Vec<String> = Vec::new();
        let mut k: usize = 0;
        while k < classes.len()
            invariant
                k <= classes@.len(),
                keys@.len() == k,
                forall|j: int| 0 <= j < k ==> (#[trigger] keys@[j])@ == classes@[j].symbol@,
            decreases classes.len() - k,
        {
            keys.push(classes[k].symbol.clone());
            k = k + 1;
        }
        let order = sort_positions(&keys);
        let ghost sorted = classes_by_symbol(cs);
        proof {
            let kv = cs.map_values(|c: ClassView| c.common.symbol);
            assert(keys@.map_values(|s: String| s@) =~= kv);
            lemma_sorted_positions(kv, cs.len() as int);
            assert forall|j: int| 0 <= j < order@.len() implies order@[j] < classes@.len() && (#[trigger] sorted[j]) == classes@[order@[j] as int]@ by {
                assert(order@[j] as int == sorted_positions(kv, cs.len() as int)[j]);
            }
        }
        let ghost h = events_view(out@);
        let mut q: usize = 0;
        while q < order.len()
            invariant
                no_floats(out@),
                order@.len() == classes@.len(),
                cs == classes@.map_values(|c: &ClassDefinition| c@),
                sorted.len() == order@.len(),
                forall|j: int| 0 <= j < order@.len() ==> (#[trigger] order@[j]) < classes@.len(),
                forall|j: int| 0 <= j < order@.len() ==> (#[trigger] sorted[j]) == classes@[order@[j] as int]@,
                q <= order@.len(),
                events_view(out@) == h + class_decls(self.resolver, sorted.take(q as int)),
            decreases order.len() - q,
        {
            let c = classes[order[q]];
            let members = self.resolver.get_members_of(c);
            let mut props: Vec<&PropertyDefinition> = Vec::new();
            let mut m: usize = 0;
            while m < members.len()
                invariant
                    m <= members@.len(),
                    props@.map_values(|p: &PropertyDefinition| p@) == member_props(self.resolver, members@.take(m as int)),
                decreases members.len() - m,
            {
                proof {
                    assert(members@.take(m + 1).drop_last() =~= members@.take(m as int));
                }
                match self.resolver.get_definition(&members[m]) {
                    Some(Definition::Property(p)) => {
                        let ghost before = props@.map_values(|p: &PropertyDefinition| p@);
                        props.push(p);
                        proof {
                            assert(props@.map_values(|p: &PropertyDefinition| p@) =~= before.push(p@));
                        }
                    },
                    _ => {},
                }
                m = m + 1;
            }
            proof {
                assert(members@.take(m as int) =~= members@);
            }
            let mut pkeys: Vec<String> = Vec::new();
            let mut z: usize = 0;
            while z < props.len()
                invariant
                    z <= props@.len(),
                    pkeys@.len() == z,
                    forall|j: int| 0 <= j < z ==> (#[trigger] pkeys@[j])@ == props@[j].symbol@,
                decreases props.len() - z,
            {
                pkeys.push(props[z].symbol.clone());
                z = z + 1;
            }
            let porder = sort_positions(&pkeys);
            let mut sorted_props: Vec<&PropertyDefinition> = Vec::new();
            let mut y: usize = 0;
            while y < porder.len()
                invariant
                    porder@.len() == props@.len(),
                    forall|j: int| 0 <= j < porder@.len() ==> porder@[j] < props@.len(),
                    y <= porder@.len(),
                    sorted_props@.len() == y,
                    forall|j: int| 0 <= j < y ==> #[trigger] sorted_props@[j] == props@[porder@[j] as int],
                decreases porder.len() - y,
            {
                sorted_props.push(props[porder[y]]);
                y = y + 1;
            }
            proof {
                let pv = props@.map_values(|p: &PropertyDefinition| p@);
                let pk = pv.map_values(|p: PropertyView| p.common.symbol);
                assert(pkeys@.map_values(|s: String| s@) =~= pk);
                lemma_sorted_positions(pk, pv.len() as int);
                assert forall|j: int| 0 <= j < sorted_props@.len() implies #[trigger] sorted_props@[j]@ == props_by_symbol(pv)[j] by {
                    assert(porder@[j] as int == sorted_positions(pk, pv.len() as int)[j]);
                }
                assert(sorted_props@.map_values(|p: &PropertyDefinition| p@) =~= props_by_symbol(pv));
                assert(sorted.take(q + 1).drop_last() =~= sorted.take(q as int));
                assert(sorted[q as int] == c@);
            }
            write_class_decl(&mut out, c, &sorted_props);
            q = q + 1;
        }
        proof {
            assert(sorted.take(q as int) =~= sorted);
        }
        push_event(&mut out, end("xs:schema"));
        proof {
            assert(events_view(out@) =~= schema_events(self.resolver, dl));
        }
        out
    }

    /// The XSD for `dict`, as bytes (see [`Self::schema_events`]).
    pub fn from_dictionary(&self, dict: &MetaDictionary) -> (r: Result<Vec<u8>, FragmentError>)
        requires
            dict.wf(),
        ensures
            r matches Ok(b) && b@ == xml_rendering(schema_events(self.resolver(), dict.def_list())),
    {
        let evs = self.schema_events(dict);
        Ok(render_xml(&evs))
    }
}

} // verus!
