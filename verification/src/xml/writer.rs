//! XML output as a list of events, rendered to bytes by `quick_xml` with an
//! indentation of two spaces.
use vstd::prelude::*;

use quick_xml::events::{BytesDecl, BytesEnd, BytesStart, BytesText, Event};
use quick_xml::Writer;

verus! {

/// One piece of XML output.
#[derive(Debug, Clone)]
pub enum XmlEvent {
    /// `<?xml version="1.0" encoding="UTF-8"?>`
    Decl,
    /// A start tag with its attributes, in order.
    Start(String, Vec<(String, String)>),
    /// An empty element with its attributes, in order.
    Empty(String, Vec<(String, String)>),
    End(String),
    /// Text, escaped when written.
    Text(String),
    /// A floating-point value, as the big-endian bytes of an IEEE 754 number
    /// of 2, 4 or 8 bytes; written as decimal text by whoever renders it.
    Float(Vec<u8>),
}

/// An attribute list as values.
pub open spec fn attrs_view(a: Seq<(String, String)>) -> Seq<(Seq<char>, Seq<char>)> {
    a.map_values(|p: (String, String)| (p.0@, p.1@))
}

/// An event as plain values: a kind (0 declaration, 1 start, 2 empty
/// element, 3 end, 4 text, 5 float), a name or text, attributes, and bytes.
pub type EventTuple = (nat, Seq<char>, Seq<(Seq<char>, Seq<char>)>, Seq<u8>);

pub open spec fn event_tuple(e: XmlEvent) -> EventTuple {
    match e {
        XmlEvent::Decl => (0, Seq::empty(), Seq::empty(), Seq::empty()),
        XmlEvent::Start(n, a) => (1, n@, attrs_view(a@), Seq::empty()),
        XmlEvent::Empty(n, a) => (2, n@, attrs_view(a@), Seq::empty()),
        XmlEvent::End(n) => (3, n@, Seq::empty(), Seq::empty()),
        XmlEvent::Text(t) => (4, t@, Seq::empty(), Seq::empty()),
        XmlEvent::Float(b) => (5, Seq::empty(), Seq::empty(), b@),
    }
}

pub open spec fn events_view(s: Seq<XmlEvent>) -> Seq<EventTuple> {
    s.map_values(|e: XmlEvent| event_tuple(e))
}

/// Whether `s` holds no float events.
pub open spec fn no_floats(s: Seq<XmlEvent>) -> bool {
    forall|i: int| 0 <= i < s.len() ==> !(#[trigger] s[i] is Float)
}

#[verifier::external_type_specification]
#[verifier::external_body]
#[verifier::reject_recursive_types(W)]
pub struct ExXmlWriter<W>(Writer<W>);

/// The events written so far to a writer.
pub uninterp spec fn written(w: Writer<Vec<u8>>) -> Seq<EventTuple>;

/// The bytes that a writer made by [`xml_writer_new`] holds after writing
/// the given events.
pub uninterp spec fn xml_rendering(events: Seq<EventTuple>) -> Seq<u8>;

/// `quick_xml::Writer::new_with_indent` on an empty buffer, indenting by
/// two spaces; nothing is written yet.
#[verifier::external_body]
fn xml_writer_new() -> (w: Writer<Vec<u8>>)
    ensures
        written(w) == Seq::<EventTuple>::empty(),
{
    Writer::new_with_indent(Vec::new(), b' ', 2)
}

/// `quick_xml::Writer::write_event` of `Event::Decl` (version 1.0,
/// encoding UTF-8). Writing into a vector does not fail, so the event is
/// appended to what was written.
#[verifier::external_body]
fn xml_write_decl(w: &mut Writer<Vec<u8>>)
    ensures
        written(*final(w)) == written(*old(w)).push(event_tuple(XmlEvent::Decl)),
{
    let _ = w.write_event(Event::Decl(BytesDecl::new("1.0", Some("UTF-8"), None)));
}

/// `quick_xml::Writer::write_event` of `Event::Start` with the attributes
/// in order.
#[verifier::external_body]
fn xml_write_start(w: &mut Writer<Vec<u8>>, name: &str, attrs: &Vec<(String, String)>)
    ensures
        written(*final(w)) == written(*old(w)).push((1nat, name@, attrs_view(attrs@), Seq::<u8>::empty())),
{
    let tag = BytesStart::new(name).with_attributes(attrs.iter().map(|p| (p.0.as_str(), p.1.as_str())));
    let _ = w.write_event(Event::Start(tag));
}

/// `quick_xml::Writer::write_event` of `Event::Empty` with the attributes
/// in order.
#[verifier::external_body]
fn xml_write_empty(w: &mut Writer<Vec<u8>>, name: &str, attrs: &Vec<(String, String)>)
    ensures
        written(*final(w)) == written(*old(w)).push((2nat, name@, attrs_view(attrs@), Seq::<u8>::empty())),
{
    let tag = BytesStart::new(name).with_attributes(attrs.iter().map(|p| (p.0.as_str(), p.1.as_str())));
    let _ = w.write_event(Event::Empty(tag));
}

/// `quick_xml::Writer::write_event` of `Event::End`.
#[verifier::external_body]
fn xml_write_end(w: &mut Writer<Vec<u8>>, name: &str)
    ensures
        written(*final(w)) == written(*old(w)).push((3nat, name@, Seq::empty(), Seq::<u8>::empty())),
{
    let _ = w.write_event(Event::End(BytesEnd::new(name)));
}

/// `quick_xml::Writer::write_event` of `Event::Text`, which escapes it.
#[verifier::external_body]
fn xml_write_text(w: &mut Writer<Vec<u8>>, t: &str)
    ensures
        written(*final(w)) == written(*old(w)).push((4nat, t@, Seq::empty(), Seq::<u8>::empty())),
{
    let _ = w.write_event(Event::Text(BytesText::new(t)));
}

/// Append one event that is not a float to `w`.
fn xml_write_event(w: &mut Writer<Vec<u8>>, ev: &XmlEvent)
    requires
        !(*ev is Float),
    ensures
        written(*final(w)) == written(*old(w)).push(event_tuple(*ev)),
{
    match ev {
        XmlEvent::Decl => xml_write_decl(w),
        XmlEvent::Start(n, a) => xml_write_start(w, n.as_str(), a),
        XmlEvent::Empty(n, a) => xml_write_empty(w, n.as_str(), a),
        XmlEvent::End(n) => xml_write_end(w, n.as_str()),
        XmlEvent::Text(t) => xml_write_text(w, t.as_str()),
        XmlEvent::Float(_) => {},
    }
}

/// `quick_xml::Writer::into_inner`: the bytes written.
#[verifier::external_body]
fn xml_writer_bytes(w: Writer<Vec<u8>>) -> (r: Vec<u8>)
    ensures
        r@ == xml_rendering(written(w)),
{
    w.into_inner()
}

/// The bytes of an XML document made of `events`, indented by two spaces.
pub fn render_xml(events: &Vec<XmlEvent>) -> (r: Vec<u8>)
    requires
        no_floats(events@),
    ensures
        r@ == xml_rendering(events_view(events@)),
{
    let mut w = xml_writer_new();
    let mut i: usize = 0;
    while i < events.len()
        invariant
            no_floats(events@),
            i <= events@.len(),
            written(w) == events_view(events@.take(i as int)),
        decreases events.len() - i,
    {
        xml_write_event(&mut w, &events[i]);
        proof {
            assert(events_view(events@.take(i + 1)) =~= events_view(events@.take(i as int)).push(event_tuple(events@[i as int])));
        }
        i = i + 1;
    }
    proof {
        assert(events@.take(i as int) =~= events@);
    }
    xml_writer_bytes(w)
}

/// A start tag without attributes.
pub fn start(name: &str) -> (e: XmlEvent)
    ensures
        event_tuple(e) == (1nat, name@, Seq::<(Seq<char>, Seq<char>)>::empty(), Seq::<u8>::empty()),
{
    let a: Vec<(String, String)> = Vec::new();
    proof {
        assert(attrs_view(a@) =~= Seq::empty());
    }
    XmlEvent::Start(String::from_str(name), a)
}

pub fn end(name: &str) -> (e: XmlEvent)
    ensures
        event_tuple(e) == (3nat, name@, Seq::<(Seq<char>, Seq<char>)>::empty(), Seq::<u8>::empty()),
{
    XmlEvent::End(String::from_str(name))
}

pub fn text(t: &str) -> (e: XmlEvent)
    ensures
        event_tuple(e) == (4nat, t@, Seq::<(Seq<char>, Seq<char>)>::empty(), Seq::<u8>::empty()),
{
    XmlEvent::Text(String::from_str(t))
}

/// An attribute.
pub fn attr(k: &str, v: &str) -> (p: (String, String))
    ensures
        p.0@ == k@,
        p.1@ == v@,
{
    (String::from_str(k), String::from_str(v))
}

} // verus!
