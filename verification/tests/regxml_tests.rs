use regxmllib::cli::{
    is_xml_file_name, merge_label_registers, merge_metadictionaries, normalize_arg, register_files, resolve_output,
};
use regxmllib::dict::definition::{
    ClassDefinition, Definition, EnumerationElement, ExtEnumTypeDef, FixedArrayTypeDef, FloatTypeDef, IndirectTypeDef,
    IntegerTypeDef, PropertyDefinition, RecordMember, RecordTypeDef, StringTypeDef, StrongReferenceTypeDef,
    TypeDefinition, VariableArrayTypeDef,
};
use regxmllib::dict::{DefinitionResolver, LabelsRegister, MetaDictionary};
use regxmllib::klv::{LocalSet, MemoryTriplet};
use regxmllib::regxml::event::{EventHandler, EventHandlerDecision, FragmentEvent};
use regxmllib::regxml::fragment::{check_classes_acyclic, class_chain_ends, decision_outcome, ext_name_or_urn, FragmentBuilder};
use regxmllib::regxml::order::{sort_positions, str_lt};
use regxmllib::regxml::values::{
    date_value_text, decode_byte_order, enumeration_value_text, format_umid_bytes, format_uuid_bytes,
    hex_bytes, hex_bytes_compact, integer_value_text, rational_value_text, read_characters_ascii,
    read_characters_utf16be, read_characters_utf16le, read_characters_utf8, st2001_escape, time_value_text,
    timestamp_value_text, version_value_text,
};
use regxmllib::regxml::{FragmentError, XmlSchemaBuilder};
use regxmllib::types::Auid;
use regxmllib::xml::writer::XmlEvent;

const NS: &str = "urn:example:aaf";
const PREFACE: [u8; 16] = [6, 0x0E, 0x2B, 0x34, 2, 0x53, 1, 1, 0x0D, 1, 1, 1, 1, 1, 0x2F, 0];
const FORMAT_VERSION: [u8; 16] = [6, 0x0E, 0x2B, 0x34, 1, 1, 1, 2, 3, 1, 2, 1, 5, 0, 0, 0];
const MYSTERY: [u8; 16] = [6, 0x0E, 0x2B, 0x34, 1, 1, 1, 2, 3, 1, 2, 1, 7, 0, 0, 0];
const UINT16: [u8; 16] = [6, 0x0E, 0x2B, 0x34, 1, 4, 1, 1, 1, 1, 2, 0, 0, 0, 0, 0];

fn dictionary() -> MetaDictionary {
    let mut d = MetaDictionary::new(String::new(), String::new());
    d.add(Definition::Class(ClassDefinition {
        identification: Auid::from_bytes(PREFACE),
        symbol: "Preface".to_string(),
        namespace: NS.to_string(),
        parent_class: None,
        is_concrete: true,
    }))
    .unwrap();
    d.add(Definition::Property(PropertyDefinition {
        identification: Auid::from_bytes(FORMAT_VERSION),
        symbol: "FormatVersion".to_string(),
        namespace: NS.to_string(),
        member_of: Auid::from_bytes(PREFACE),
        property_type: Auid::from_bytes(UINT16),
        is_optional: false,
        is_unique_identifier: false,
        local_identification: 0x3B01,
    }))
    .unwrap();
    d.add(Definition::Type(TypeDefinition::Integer(IntegerTypeDef {
        identification: Auid::from_bytes(UINT16),
        symbol: "UInt16".to_string(),
        namespace: NS.to_string(),
        size: 2,
        is_signed: false,
    })))
    .unwrap();
    d
}

fn preface_set(items: Vec<MemoryTriplet>) -> LocalSet {
    LocalSet { key: Auid::from_bytes(PREFACE), items }
}

struct AbortAll;

impl EventHandler for AbortAll {
    fn handle(&mut self, _event: &FragmentEvent) -> EventHandlerDecision {
        EventHandlerDecision::Abort
    }
}

#[test]
fn hex_formats() {
    assert_eq!(hex_bytes(&[0x00, 0xAB, 0x10]), "00 ab 10");
    assert_eq!(hex_bytes(&[]), "");
    assert_eq!(hex_bytes_compact(&[0x00, 0xAB, 0x10]), "00ab10");
    let b: Vec<u8> = (0u8..16).collect();
    assert_eq!(format_uuid_bytes(&b), "urn:uuid:00010203-0405-0607-0809-0a0b0c0d0e0f");
    let u: Vec<u8> = (0u8..32).collect();
    assert_eq!(
        format_umid_bytes(&u),
        "urn:smpte:umid:00010203.04050607.08090a0b.0c0d0e0f.10111213.14151617.18191a1b.1c1d1e1f"
    );
}

#[test]
fn integer_texts() {
    assert_eq!(integer_value_text(1, false, &[0xFF]), "255");
    assert_eq!(integer_value_text(1, true, &[0xFF]), "-1");
    assert_eq!(integer_value_text(2, false, &[0x01, 0x03]), "259");
    assert_eq!(integer_value_text(2, true, &[0x80, 0x00]), "-32768");
    assert_eq!(integer_value_text(4, true, &[0xFF, 0xFF, 0xFF, 0xFE]), "-2");
    assert_eq!(integer_value_text(8, false, &[0xFF; 8]), "18446744073709551615");
    assert_eq!(integer_value_text(8, true, &[0x80, 0, 0, 0, 0, 0, 0, 0]), "-9223372036854775808");
    // A size that does not match the data: the bytes in hex.
    assert_eq!(integer_value_text(4, false, &[1, 2]), "01 02");
}

#[test]
fn record_texts() {
    assert_eq!(rational_value_text(&[0, 0, 0x75, 0x30, 0, 0, 0x03, 0xE9]), "30000/1001");
    assert_eq!(rational_value_text(&[0xFF, 0xFF, 0xFF, 0xFF, 0, 0, 0, 1]), "-1/1");
    assert_eq!(rational_value_text(&[1, 2, 3]), "01 02 03");
    assert_eq!(date_value_text(&[0x07, 0xE8, 2, 9]), "2024-02-09");
    assert_eq!(time_value_text(&[7, 5, 3, 1]), "07:05:03.01");
    assert_eq!(timestamp_value_text(&[0x07, 0xE8, 2, 9, 13, 4, 5, 0]), "2024-02-09T13:04:05Z");
    assert_eq!(timestamp_value_text(&[0x07, 0xE8, 2, 9, 13, 4, 5, 25]), "2024-02-09T13:04:05.100Z");
    assert_eq!(version_value_text(&[1, 3]), "1.3");
    assert_eq!(version_value_text(&[1]), "01");
}

#[test]
fn enumeration_texts() {
    let els = vec![
        EnumerationElement { name: "False".to_string(), value: 0 },
        EnumerationElement { name: "True".to_string(), value: 1 },
    ];
    assert_eq!(enumeration_value_text(&els, &[1]), "True");
    assert_eq!(enumeration_value_text(&els, &[0, 0]), "False");
    assert_eq!(enumeration_value_text(&els, &[0xFF]), "-1");
    assert_eq!(enumeration_value_text(&els, &[1, 2, 3]), "01 02 03");
}

#[test]
fn character_texts() {
    assert_eq!(read_characters_ascii(b"ab\x01c\x00\x00", true), "ab$#x1;c");
    assert_eq!(read_characters_ascii(&[0x41, 0xC8], false), "A?");
    assert_eq!(read_characters_utf8("é\u{85}".as_bytes(), false), "é$#x85;");
    assert_eq!(read_characters_utf8(&[0xFF], false), "");
    assert_eq!(read_characters_utf16be(&[0, 0x41, 0, 0x42, 0, 0], true), "AB");
    assert_eq!(read_characters_utf16le(&[0x41, 0, 0x42, 0], false), "AB");
    assert_eq!(read_characters_utf16be(&[0, 0x41, 0], false), "00 41 00");
    assert_eq!(st2001_escape(&"a\tb\u{7f}".chars().collect()), "a\tb$#x7f;");
}

#[test]
fn byte_order_names() {
    assert_eq!(decode_byte_order(&[0x4D, 0x4D]), Some("BigEndian".to_string()));
    assert_eq!(decode_byte_order(&[0x49, 0x49]), Some("LittleEndian".to_string()));
    assert_eq!(decode_byte_order(&[0x49]), None);
    assert_eq!(decode_byte_order(&[0x00, 0x01]), None);
}

#[test]
fn fragment_of_a_preface() {
    let dict = dictionary();
    let mut b = FragmentBuilder::new(&dict);
    let set = preface_set(vec![MemoryTriplet::new(Auid::from_bytes(FORMAT_VERSION), vec![0x01, 0x03])]);
    let mut out = Vec::new();
    b.from_triplet(&set, &mut out).unwrap();
    assert_eq!(out.len(), 5);
    assert!(matches!(&out[0], XmlEvent::Start(n, _) if n == "ns1:Preface"));
    assert!(matches!(&out[2], XmlEvent::Text(t) if t == "259"));
    assert!(matches!(&out[4], XmlEvent::End(n) if n == "ns1:Preface"));
}

#[test]
fn unknown_properties_are_skipped_or_fatal() {
    let dict = dictionary();
    let set = preface_set(vec![MemoryTriplet::new(Auid::from_bytes(MYSTERY), vec![1])]);
    let mut b = FragmentBuilder::new(&dict);
    let mut out = Vec::new();
    b.from_triplet(&set, &mut out).unwrap();
    assert_eq!(out.len(), 2);

    let mut strict = FragmentBuilder::new(&dict).with_event_handler(Box::new(AbortAll));
    let mut out = Vec::new();
    match strict.from_triplet(&set, &mut out) {
        Err(FragmentError::Fatal(reason)) => assert_eq!(reason, "property key not found in dictionary"),
        other => panic!("unexpected {other:?}"),
    }
}

#[test]
fn unknown_group_gives_nothing() {
    let dict = MetaDictionary::new(String::new(), String::new());
    let set = preface_set(vec![]);
    let mut b = FragmentBuilder::new(&dict);
    let mut out = Vec::new();
    b.from_triplet(&set, &mut out).unwrap();
    assert!(out.is_empty());
    let mut strict = FragmentBuilder::new(&dict).with_event_handler(Box::new(AbortAll));
    assert!(matches!(strict.from_triplet(&set, &mut out), Err(FragmentError::Fatal(_))));
}

#[test]
fn schema_lists_classes() {
    let dict = dictionary();
    let builder = XmlSchemaBuilder::new(&dict);
    let events = builder.schema_events(&dict);
    assert!(matches!(events[0], XmlEvent::Decl));
    match &events[1] {
        XmlEvent::Start(n, attrs) => {
            assert_eq!(n, "xs:schema");
            assert_eq!(attrs[0], ("xmlns:xs".to_string(), "http://www.w3.org/2001/XMLSchema".to_string()));
        }
        other => panic!("unexpected {other:?}"),
    }
    assert!(matches!(events.last().unwrap(), XmlEvent::End(n) if n == "xs:schema"));
    let xml = String::from_utf8(builder.from_dictionary(&dict).unwrap()).unwrap();
    assert!(xml.contains("<xs:import namespace=\"urn:example:aaf\"/>"));
    assert!(xml.contains("name=\"Preface\""));
    assert!(xml.contains("FormatVersion"));
}

#[test]
fn ordering_of_names() {
    assert!(str_lt("Apple", "Banana"));
    assert!(str_lt("Ab", "Abc"));
    assert!(!str_lt("Abc", "Abc"));
    assert!(str_lt("Z", "a"));
    let keys: Vec<String> = ["b", "a", "c", "a"].iter().map(|s| s.to_string()).collect();
    assert_eq!(sort_positions(&keys), vec![1, 3, 0, 2]);
}

#[test]
fn register_file_names() {
    assert!(is_xml_file_name("Types.xml"));
    assert!(is_xml_file_name("a.b.xml"));
    assert!(!is_xml_file_name(".xml"));
    assert!(!is_xml_file_name("Types.XML"));
    assert!(!is_xml_file_name("Types.xml.bak"));
    let names: Vec<String> = ["Types.xml", "readme.txt", "Elements.xml", "Groups.xml"]
        .iter()
        .map(|s| s.to_string())
        .collect();
    assert_eq!(register_files(&names), vec![2, 3, 0]);
}

#[test]
fn merging_dictionaries_and_labels() {
    let a = dictionary();
    let mut b = MetaDictionary::new(String::new(), String::new());
    b.add(Definition::Type(TypeDefinition::Integer(IntegerTypeDef {
        identification: Auid::from_bytes(UINT16),
        symbol: "UInt16b".to_string(),
        namespace: NS.to_string(),
        size: 2,
        is_signed: false,
    })))
    .unwrap();
    let merged = merge_metadictionaries(&vec![a, b]);
    assert_eq!(merged.definition_count(), 3);
    assert_eq!(merged.get_definition(&Auid::from_bytes(UINT16)).unwrap().symbol(), "UInt16b");
    assert_eq!(merged.scheme_uri_str(), "");

    let k = Auid::from_bytes(UINT16);
    let mut l1 = LabelsRegister::empty();
    l1.insert(k, "first".to_string());
    let mut l2 = LabelsRegister::empty();
    l2.insert(k, "second".to_string());
    let m = merge_label_registers(vec![l1, l2]);
    assert_eq!(m.get(&k), Some("first"));
    assert!(merge_label_registers(vec![]).is_empty());
}

#[test]
fn single_dash_long_options() {
    assert_eq!(normalize_arg("-all"), "--all");
    assert_eq!(normalize_arg("-header"), "--header");
    assert_eq!(normalize_arg("-d"), "-d");
    assert_eq!(normalize_arg("--auto"), "--auto");
    assert_eq!(normalize_arg("-a1"), "-a1");
    assert_eq!(normalize_arg("file.mxf"), "file.mxf");
    assert_eq!(normalize_arg(""), "");
}

#[test]
fn a_namespace_keeps_its_prefix() {
    let dict = dictionary();
    let mut b = FragmentBuilder::new(&dict);
    let set = preface_set(vec![]);
    let mut out = Vec::new();
    b.from_triplet(&set, &mut out).unwrap();
    b.from_triplet(&set, &mut out).unwrap();
    assert_eq!(out.len(), 4);
    assert!(matches!(&out[0], XmlEvent::Start(n, _) if n == "ns1:Preface"));
    assert!(matches!(&out[2], XmlEvent::Start(n, _) if n == "ns1:Preface"));
}

#[test]
fn output_paths() {
    assert_eq!(resolve_output("out", true, "metadict.xml"), "out/metadict.xml");
    assert_eq!(resolve_output("out/", true, "schema.xsd"), "out/schema.xsd");
    assert_eq!(resolve_output("out.xml", false, "metadict.xml"), "out.xml");
    assert_eq!(resolve_output("", true, "schema.xsd"), "schema.xsd");
}

fn property(id: [u8; 16], symbol: &str, ty: [u8; 16], unique: bool) -> Definition {
    Definition::Property(PropertyDefinition {
        identification: Auid::from_bytes(id),
        symbol: symbol.to_string(),
        namespace: NS.to_string(),
        member_of: Auid::from_bytes(PREFACE),
        property_type: Auid::from_bytes(ty),
        is_optional: true,
        is_unique_identifier: unique,
        local_identification: 0,
    })
}

#[test]
fn property_values_by_type() {
    const NAME: [u8; 16] = [6, 0x0E, 0x2B, 0x34, 1, 1, 1, 1, 1, 7, 1, 2, 1, 0, 0, 0];
    const RATE: [u8; 16] = [6, 0x0E, 0x2B, 0x34, 1, 1, 1, 1, 4, 1, 3, 1, 1, 0, 0, 0];
    const PACKAGE: [u8; 16] = [6, 0x0E, 0x2B, 0x34, 1, 1, 1, 1, 1, 1, 0x15, 0x10, 0, 0, 0, 0];
    const ASCII_STRING: [u8; 16] = [6, 0x0E, 0x2B, 0x34, 1, 4, 1, 1, 1, 0x10, 0x20, 0, 0, 0, 0, 0];
    const CHAR: [u8; 16] = [6, 0x0E, 0x2B, 0x34, 1, 4, 1, 1, 1, 0x10, 3, 0, 0, 0, 0, 0];
    const FLOAT32: [u8; 16] = [6, 0x0E, 0x2B, 0x34, 1, 4, 1, 1, 1, 2, 2, 0, 0, 0, 0, 0];
    const BYTES16: [u8; 16] = [6, 0x0E, 0x2B, 0x34, 1, 4, 1, 1, 1, 7, 7, 0, 0, 0, 0, 0];
    let mut d = dictionary();
    d.add(property(NAME, "Name", ASCII_STRING, false)).unwrap();
    d.add(property(RATE, "Rate", FLOAT32, false)).unwrap();
    d.add(property(PACKAGE, "Package", BYTES16, true)).unwrap();
    d.add(Definition::Type(TypeDefinition::String(StringTypeDef {
        identification: Auid::from_bytes(ASCII_STRING),
        symbol: "AsciiString".to_string(),
        namespace: NS.to_string(),
        element_type: Auid::from_bytes(CHAR),
    })))
    .unwrap();
    d.add(Definition::Type(TypeDefinition::Float(FloatTypeDef {
        identification: Auid::from_bytes(FLOAT32),
        symbol: "Float32".to_string(),
        namespace: NS.to_string(),
        size: 4,
    })))
    .unwrap();
    let package: Vec<u8> = (0u8..16).collect();
    let set = preface_set(vec![
        MemoryTriplet::new(Auid::from_bytes(NAME), b"clip\0\0".to_vec()),
        MemoryTriplet::new(Auid::from_bytes(RATE), vec![0x40, 0x49, 0x0F, 0xDB]),
        MemoryTriplet::new(Auid::from_bytes(PACKAGE), package),
    ]);
    let mut b = FragmentBuilder::new(&d);
    let mut out = Vec::new();
    b.from_triplet(&set, &mut out).unwrap();
    match &out[0] {
        XmlEvent::Start(n, attrs) => {
            assert_eq!(n, "ns1:Preface");
            assert_eq!(attrs.len(), 3);
            assert_eq!(
                attrs[2],
                ("reg:uid".to_string(), "urn:uuid:00010203-0405-0607-0809-0a0b0c0d0e0f".to_string())
            );
        }
        other => panic!("unexpected {other:?}"),
    }
    assert!(matches!(&out[1], XmlEvent::Start(n, a) if n == "ns1:Name" && a.len() == 1));
    assert!(matches!(&out[2], XmlEvent::Text(t) if t == "clip"));
    assert!(matches!(&out[5], XmlEvent::Float(bytes) if bytes == &vec![0x40, 0x49, 0x0F, 0xDB]));
    // A property whose type is unknown: the bytes in hex, no namespace declaration.
    assert!(matches!(&out[7], XmlEvent::Start(n, a) if n == "ns1:Package" && a.is_empty()));
    assert!(matches!(&out[8], XmlEvent::Text(t) if t.starts_with("00 01 02")));
    assert_eq!(out.len(), 11);
}

#[test]
fn short_references_and_uuid_arrays() {
    const LINK: [u8; 16] = [6, 0x0E, 0x2B, 0x34, 1, 1, 1, 2, 6, 1, 1, 4, 2, 1, 0, 0];
    const ID: [u8; 16] = [6, 0x0E, 0x2B, 0x34, 1, 1, 1, 2, 6, 1, 1, 4, 2, 2, 0, 0];
    const FAR: [u8; 16] = [6, 0x0E, 0x2B, 0x34, 1, 1, 1, 2, 6, 1, 1, 4, 2, 3, 0, 0];
    const STRONG: [u8; 16] = [6, 0x0E, 0x2B, 0x34, 1, 4, 1, 1, 5, 0x02, 0x99, 0, 0, 0, 0, 0];
    const UUID: [u8; 16] = [6, 0x0E, 0x2B, 0x34, 1, 4, 1, 1, 1, 3, 3, 0, 0, 0, 0, 0];
    const UINT8: [u8; 16] = [6, 0x0E, 0x2B, 0x34, 1, 4, 1, 1, 1, 1, 1, 0, 0, 0, 0, 0];
    let mut d = dictionary();
    d.add(property(LINK, "Link", STRONG, false)).unwrap();
    d.add(property(ID, "Ident", UUID, false)).unwrap();
    d.add(property(FAR, "Far", STRONG, false)).unwrap();
    d.add(Definition::Type(TypeDefinition::StrongReference(StrongReferenceTypeDef {
        identification: Auid::from_bytes(STRONG),
        symbol: "StrongRef".to_string(),
        namespace: NS.to_string(),
        referenced_type: Auid::from_bytes(PREFACE),
    })))
    .unwrap();
    d.add(Definition::Type(TypeDefinition::FixedArray(FixedArrayTypeDef {
        identification: Auid::from_bytes(UUID),
        symbol: "UUID".to_string(),
        namespace: NS.to_string(),
        element_type: Auid::from_bytes(UINT8),
        element_count: 16,
    })))
    .unwrap();
    let id: Vec<u8> = (0x10u8..0x20).collect();
    let set = preface_set(vec![
        MemoryTriplet::new(Auid::from_bytes(LINK), vec![0xDE, 0xAD, 0xBE, 0xEF]),
        MemoryTriplet::new(Auid::from_bytes(ID), id),
        MemoryTriplet::new(Auid::from_bytes(FAR), vec![6, 0x0E, 0x2B, 0x34, 1, 1, 1, 1, 1, 1, 0x15, 2, 0, 0, 0, 0]),
    ]);
    let mut b = FragmentBuilder::new(&d);
    let mut out = Vec::new();
    b.from_triplet(&set, &mut out).unwrap();
    // A strong reference too short to hold an instance UID: its bytes in hex.
    assert!(matches!(&out[1], XmlEvent::Start(n, _) if n == "ns1:Link"));
    assert!(matches!(&out[2], XmlEvent::Text(t) if t == "de ad be ef"));
    // A UUID-typed fixed array: its URN.
    assert!(matches!(&out[4], XmlEvent::Start(n, _) if n == "ns1:Ident"));
    assert!(matches!(&out[5], XmlEvent::Text(t) if t == "urn:uuid:10111213-1415-1617-1819-1a1b1c1d1e1f"));
    // A strong reference to an instance UID that no set holds: its URN.
    assert!(matches!(&out[7], XmlEvent::Start(n, _) if n == "ns1:Far"));
    assert!(matches!(&out[8], XmlEvent::Text(t) if t == "urn:smpte:ul:060e2b34.01010101.01011502.00000000"));
    assert_eq!(out.len(), 11);
}

fn text_at(out: &[XmlEvent], i: usize) -> String {
    match &out[i] {
        XmlEvent::Text(t) => t.clone(),
        other => panic!("no text at {i}: {other:?}"),
    }
}

fn start_at(out: &[XmlEvent], i: usize) -> String {
    match &out[i] {
        XmlEvent::Start(n, _) => n.clone(),
        other => panic!("no start tag at {i}: {other:?}"),
    }
}

#[test]
fn records_arrays_batches_and_indirect_values() {
    const WHERE: [u8; 16] = [6, 0x0E, 0x2B, 0x34, 1, 1, 1, 2, 6, 1, 1, 4, 3, 1, 0, 0];
    const PAIR: [u8; 16] = [6, 0x0E, 0x2B, 0x34, 1, 1, 1, 2, 6, 1, 1, 4, 3, 2, 0, 0];
    const LIST: [u8; 16] = [6, 0x0E, 0x2B, 0x34, 1, 1, 1, 2, 6, 1, 1, 4, 3, 3, 0, 0];
    const ANY: [u8; 16] = [6, 0x0E, 0x2B, 0x34, 1, 1, 1, 2, 6, 1, 1, 4, 3, 4, 0, 0];
    const POINT_T: [u8; 16] = [6, 0x0E, 0x2B, 0x34, 1, 4, 1, 1, 3, 1, 0x70, 0, 0, 0, 0, 0];
    const PAIR_T: [u8; 16] = [6, 0x0E, 0x2B, 0x34, 1, 4, 1, 1, 4, 1, 0x70, 0, 0, 0, 0, 0];
    const LIST_T: [u8; 16] = [6, 0x0E, 0x2B, 0x34, 1, 4, 1, 1, 4, 2, 0x70, 0, 0, 0, 0, 0];
    const ANY_T: [u8; 16] = [6, 0x0E, 0x2B, 0x34, 1, 4, 1, 1, 4, 3, 0x70, 0, 0, 0, 0, 0];
    let mut d = dictionary();
    d.add(property(WHERE, "Where", POINT_T, false)).unwrap();
    d.add(property(PAIR, "Pair", PAIR_T, false)).unwrap();
    d.add(property(LIST, "List", LIST_T, false)).unwrap();
    d.add(property(ANY, "Any", ANY_T, false)).unwrap();
    d.add(Definition::Type(TypeDefinition::Record(RecordTypeDef {
        identification: Auid::from_bytes(POINT_T),
        symbol: "Point".to_string(),
        namespace: NS.to_string(),
        members: vec![
            RecordMember { name: "x".to_string(), field_type: Auid::from_bytes(UINT16) },
            RecordMember { name: "y".to_string(), field_type: Auid::from_bytes(UINT16) },
        ],
    })))
    .unwrap();
    d.add(Definition::Type(TypeDefinition::FixedArray(FixedArrayTypeDef {
        identification: Auid::from_bytes(PAIR_T),
        symbol: "Pair".to_string(),
        namespace: NS.to_string(),
        element_type: Auid::from_bytes(UINT16),
        element_count: 2,
    })))
    .unwrap();
    d.add(Definition::Type(TypeDefinition::VariableArray(VariableArrayTypeDef {
        identification: Auid::from_bytes(LIST_T),
        symbol: "List".to_string(),
        namespace: NS.to_string(),
        element_type: Auid::from_bytes(UINT16),
    })))
    .unwrap();
    d.add(Definition::Type(TypeDefinition::Indirect(IndirectTypeDef {
        identification: Auid::from_bytes(ANY_T),
        symbol: "Any".to_string(),
        namespace: NS.to_string(),
    })))
    .unwrap();
    let mut any = vec![0x42];
    any.extend_from_slice(&UINT16);
    any.extend_from_slice(&[0, 7]);
    let set = preface_set(vec![
        MemoryTriplet::new(Auid::from_bytes(WHERE), vec![0, 1, 0, 2]),
        MemoryTriplet::new(Auid::from_bytes(PAIR), vec![0, 3, 0, 4]),
        MemoryTriplet::new(Auid::from_bytes(LIST), vec![0, 0, 0, 2, 0, 0, 0, 2, 0, 5, 0, 6]),
        MemoryTriplet::new(Auid::from_bytes(ANY), any),
    ]);
    let mut b = FragmentBuilder::new(&d);
    let mut out = Vec::new();
    b.from_triplet(&set, &mut out).unwrap();
    // A record: one element per member, named after the member.
    assert_eq!(start_at(&out, 1), "ns1:Where");
    assert_eq!(start_at(&out, 2), "ns1:x");
    assert_eq!(text_at(&out, 3), "1");
    assert_eq!(start_at(&out, 5), "ns1:y");
    assert_eq!(text_at(&out, 6), "2");
    // A fixed array: one element per item, named after the item type.
    assert_eq!(start_at(&out, 9), "ns1:Pair");
    assert_eq!(start_at(&out, 10), "ns1:UInt16");
    assert_eq!(text_at(&out, 11), "3");
    assert_eq!(start_at(&out, 13), "ns1:UInt16");
    assert_eq!(text_at(&out, 14), "4");
    // A variable array of two-byte items: a batch of two.
    assert_eq!(start_at(&out, 17), "ns1:List");
    assert_eq!(start_at(&out, 18), "ns1:UInt16");
    assert_eq!(text_at(&out, 19), "5");
    assert_eq!(text_at(&out, 22), "6");
    // An indirect value: the value by the type it names.
    assert_eq!(start_at(&out, 25), "ns1:Any");
    assert_eq!(text_at(&out, 26), "7");
    assert!(matches!(&out[27], XmlEvent::End(n) if n == "ns1:Any"));
    assert_eq!(out.len(), 29);
}

#[test]
fn strong_reference_is_the_object_it_names() {
    const CHILD: [u8; 16] = [6, 0x0E, 0x2B, 0x34, 2, 0x53, 1, 1, 0x0D, 1, 1, 1, 1, 1, 0x70, 0];
    const AGE: [u8; 16] = [6, 0x0E, 0x2B, 0x34, 1, 1, 1, 2, 6, 1, 1, 4, 5, 1, 0, 0];
    const KID: [u8; 16] = [6, 0x0E, 0x2B, 0x34, 1, 1, 1, 2, 6, 1, 1, 4, 5, 2, 0, 0];
    const STRONG: [u8; 16] = [6, 0x0E, 0x2B, 0x34, 1, 4, 1, 1, 5, 0x02, 0x98, 0, 0, 0, 0, 0];
    const UID: [u8; 16] = [0x80, 1, 2, 3, 4, 5, 6, 7, 8, 9, 10, 11, 12, 13, 14, 15];
    let mut d = dictionary();
    d.add(Definition::Class(ClassDefinition {
        identification: Auid::from_bytes(CHILD),
        symbol: "Child".to_string(),
        namespace: NS.to_string(),
        parent_class: None,
        is_concrete: true,
    }))
    .unwrap();
    d.add(Definition::Property(PropertyDefinition {
        identification: Auid::from_bytes(AGE),
        symbol: "Age".to_string(),
        namespace: NS.to_string(),
        member_of: Auid::from_bytes(CHILD),
        property_type: Auid::from_bytes(UINT16),
        is_optional: true,
        is_unique_identifier: false,
        local_identification: 0,
    }))
    .unwrap();
    d.add(property(KID, "Kid", STRONG, false)).unwrap();
    d.add(Definition::Type(TypeDefinition::StrongReference(StrongReferenceTypeDef {
        identification: Auid::from_bytes(STRONG),
        symbol: "ChildRef".to_string(),
        namespace: NS.to_string(),
        referenced_type: Auid::from_bytes(CHILD),
    })))
    .unwrap();
    let child = LocalSet { key: Auid::from_bytes(CHILD), items: vec![MemoryTriplet::new(Auid::from_bytes(AGE), vec![0, 9])] };
    let set = preface_set(vec![MemoryTriplet::new(Auid::from_bytes(KID), UID.to_vec())]);
    let mut b = FragmentBuilder::new(&d);
    b.add_set(Auid::from_bytes(UID), child);
    let mut out = Vec::new();
    b.from_triplet(&set, &mut out).unwrap();
    assert_eq!(start_at(&out, 1), "ns1:Kid");
    assert_eq!(start_at(&out, 2), "ns1:Child");
    assert_eq!(start_at(&out, 3), "ns1:Age");
    assert_eq!(text_at(&out, 4), "9");
    assert!(matches!(&out[6], XmlEvent::End(n) if n == "ns1:Child"));
    assert!(matches!(&out[7], XmlEvent::End(n) if n == "ns1:Kid"));
    assert_eq!(out.len(), 9);
}

#[test]
fn handler_decisions() {
    assert!(decision_outcome(EventHandlerDecision::Continue, "why").is_ok());
    match decision_outcome(EventHandlerDecision::Abort, "why") {
        Err(FragmentError::Fatal(m)) => assert_eq!(m, "why"),
        other => panic!("unexpected {other:?}"),
    }
}

struct Recorder {
    seen: std::rc::Rc<std::cell::RefCell<Vec<(String, String, String)>>>,
}

impl EventHandler for Recorder {
    fn handle(&mut self, event: &FragmentEvent) -> EventHandlerDecision {
        self.seen.borrow_mut().push((format!("{:?}/{:?}", event.code, event.severity), event.location.clone(), event.reason.clone()));
        EventHandlerDecision::Continue
    }
}

#[test]
fn unknown_group_reports_one_warning_and_writes_nothing() {
    const STRANGER: [u8; 16] = [6, 0x0E, 0x2B, 0x34, 2, 0x53, 1, 1, 0x0D, 1, 1, 1, 1, 1, 0x7E, 0];
    let d = dictionary();
    let seen = std::rc::Rc::new(std::cell::RefCell::new(Vec::new()));
    let mut b = FragmentBuilder::new(&d).with_event_handler(Box::new(Recorder { seen: seen.clone() }));
    let mut out = Vec::new();
    let set = LocalSet { key: Auid::from_bytes(STRANGER), items: Vec::new() };
    assert!(b.from_triplet(&set, &mut out).is_ok());
    assert!(out.is_empty());
    let seen = seen.borrow();
    assert_eq!(seen.len(), 1);
    assert_eq!(seen[0].0, "UnknownGroup/Warn");
    assert_eq!(seen[0].1, Auid::from_bytes(STRANGER).to_string());
    assert_eq!(seen[0].2, "group key not found in dictionary");
}

fn class(id: [u8; 16], symbol: &str, parent: Option<[u8; 16]>) -> ClassDefinition {
    ClassDefinition {
        identification: Auid::from_bytes(id),
        symbol: symbol.to_string(),
        namespace: NS.to_string(),
        parent_class: parent.map(Auid::from_bytes),
        is_concrete: true,
    }
}

#[test]
fn class_chains_that_end_and_one_that_loops() {
    const A: [u8; 16] = [6, 0x0E, 0x2B, 0x34, 2, 0x53, 1, 1, 0x0D, 1, 1, 1, 1, 1, 0x71, 0];
    const B: [u8; 16] = [6, 0x0E, 0x2B, 0x34, 2, 0x53, 1, 1, 0x0D, 1, 1, 1, 1, 1, 0x72, 0];
    const C: [u8; 16] = [6, 0x0E, 0x2B, 0x34, 2, 0x53, 1, 1, 0x0D, 1, 1, 1, 1, 1, 0x73, 0];
    let d = dictionary();
    assert!(check_classes_acyclic(&d));

    // A -> B -> (no parent), C -> A: every chain ends.
    let mut d = dictionary();
    d.add(Definition::Class(class(A, "A", Some(B)))).unwrap();
    d.add(Definition::Class(class(B, "B", None))).unwrap();
    d.add(Definition::Class(class(C, "C", Some(A)))).unwrap();
    assert!(check_classes_acyclic(&d));
    assert!(class_chain_ends(&d, &class(C, "C", Some(A))));

    // A parent that is not in the dictionary ends the chain too.
    let mut d = dictionary();
    d.add(Definition::Class(class(C, "C", Some(A)))).unwrap();
    assert!(check_classes_acyclic(&d));

    // A -> B -> A loops.
    let mut d = dictionary();
    d.add(Definition::Class(class(A, "A", Some(B)))).unwrap();
    d.add(Definition::Class(class(B, "B", Some(A)))).unwrap();
    assert!(!check_classes_acyclic(&d));
    assert!(!class_chain_ends(&d, &class(A, "A", Some(B))));
    assert!(class_chain_ends(&d, &class(C, "C", None)));

    // A class that is its own parent.
    let mut d = dictionary();
    d.add(Definition::Class(class(A, "A", Some(A)))).unwrap();
    assert!(!check_classes_acyclic(&d));
}

#[test]
fn strong_reference_back_to_its_own_object_is_empty() {
    const CHILD: [u8; 16] = [6, 0x0E, 0x2B, 0x34, 2, 0x53, 1, 1, 0x0D, 1, 1, 1, 1, 1, 0x70, 0];
    const AGE: [u8; 16] = [6, 0x0E, 0x2B, 0x34, 1, 1, 1, 2, 6, 1, 1, 4, 5, 1, 0, 0];
    const SELF: [u8; 16] = [6, 0x0E, 0x2B, 0x34, 1, 1, 1, 2, 6, 1, 1, 4, 5, 2, 0, 0];
    const STRONG: [u8; 16] = [6, 0x0E, 0x2B, 0x34, 1, 4, 1, 1, 5, 0x02, 0x98, 0, 0, 0, 0, 0];
    const INSTANCE_UID: [u8; 16] = [6, 0x0E, 0x2B, 0x34, 1, 1, 1, 1, 1, 1, 0x15, 2, 0, 0, 0, 0];
    const UID: [u8; 16] = [0x80, 1, 2, 3, 4, 5, 6, 7, 8, 9, 10, 11, 12, 13, 14, 15];
    let mut d = dictionary();
    d.add(Definition::Class(class(CHILD, "Child", None))).unwrap();
    d.add(Definition::Property(PropertyDefinition {
        identification: Auid::from_bytes(AGE),
        symbol: "Age".to_string(),
        namespace: NS.to_string(),
        member_of: Auid::from_bytes(CHILD),
        property_type: Auid::from_bytes(UINT16),
        is_optional: true,
        is_unique_identifier: false,
        local_identification: 0,
    }))
    .unwrap();
    d.add(Definition::Property(PropertyDefinition {
        identification: Auid::from_bytes(SELF),
        symbol: "Myself".to_string(),
        namespace: NS.to_string(),
        member_of: Auid::from_bytes(CHILD),
        property_type: Auid::from_bytes(STRONG),
        is_optional: true,
        is_unique_identifier: false,
        local_identification: 0,
    }))
    .unwrap();
    d.add(Definition::Type(TypeDefinition::StrongReference(StrongReferenceTypeDef {
        identification: Auid::from_bytes(STRONG),
        symbol: "ChildRef".to_string(),
        namespace: NS.to_string(),
        referenced_type: Auid::from_bytes(CHILD),
    })))
    .unwrap();
    let child = LocalSet {
        key: Auid::from_bytes(CHILD),
        items: vec![
            MemoryTriplet::new(Auid::from_bytes(INSTANCE_UID), UID.to_vec()),
            MemoryTriplet::new(Auid::from_bytes(AGE), vec![0, 9]),
            MemoryTriplet::new(Auid::from_bytes(SELF), UID.to_vec()),
        ],
    };
    let mut b = FragmentBuilder::new(&d);
    b.add_set(Auid::from_bytes(UID), child.clone());
    let mut out = Vec::new();
    b.from_triplet(&child, &mut out).unwrap();
    let children = out.iter().filter(|e| matches!(e, XmlEvent::Start(n, _) if n == "ns1:Child")).count();
    assert_eq!(children, 1);
    let at = (0..out.len()).find(|&i| matches!(&out[i], XmlEvent::Start(n, _) if n == "ns1:Myself")).unwrap();
    assert!(matches!(&out[at + 1], XmlEvent::End(n) if n == "ns1:Myself"));
}

#[test]
fn essence_descriptor_found_however_deep_its_class() {
    const GENERIC_DESCRIPTOR: [u8; 16] = [6, 0x0E, 0x2B, 0x34, 2, 0x53, 1, 1, 0x0D, 1, 1, 1, 1, 1, 0x24, 0];
    fn level(k: u8) -> [u8; 16] {
        [6, 0x0E, 0x2B, 0x34, 2, 0x53, 1, 1, 0x0E, 0, 0, 0, 0, 0, k, 0]
    }
    let mut d = dictionary();
    d.add(Definition::Class(class(GENERIC_DESCRIPTOR, "GenericDescriptor", None))).unwrap();
    let mut parent = GENERIC_DESCRIPTOR;
    for k in 1..=100u8 {
        d.add(Definition::Class(class(level(k), &format!("Level{k}"), Some(parent)))).unwrap();
        parent = level(k);
    }
    let sets = vec![
        preface_set(Vec::new()),
        LocalSet { key: Auid::from_bytes(level(100)), items: Vec::new() },
    ];
    assert_eq!(regxmllib::regxml::descriptor::find_essence_descriptor(&sets, &d), Some(1));
    let only_preface = vec![preface_set(Vec::new())];
    assert_eq!(regxmllib::regxml::descriptor::find_essence_descriptor(&only_preface, &d), None);
}

#[test]
fn extendible_enumeration_values_are_named() {
    const KNOWN: [u8; 16] = [6, 0x0E, 0x2B, 0x34, 1, 1, 1, 2, 6, 1, 1, 4, 9, 1, 0, 0];
    const STRANGE: [u8; 16] = [6, 0x0E, 0x2B, 0x34, 1, 1, 1, 2, 6, 1, 1, 4, 9, 2, 0, 0];
    const INLINE: [u8; 16] = [6, 0x0E, 0x2B, 0x34, 1, 1, 1, 2, 6, 1, 1, 4, 9, 3, 0, 0];
    const SHORT: [u8; 16] = [6, 0x0E, 0x2B, 0x34, 1, 1, 1, 2, 6, 1, 1, 4, 9, 4, 0, 0];
    const CATEGORY: [u8; 16] = [6, 0x0E, 0x2B, 0x34, 1, 4, 1, 1, 2, 2, 1, 1, 0, 0, 0, 0];
    const EFFECT: [u8; 16] = [6, 0x0E, 0x2B, 0x34, 4, 1, 1, 1, 0x0D, 1, 1, 2, 1, 1, 1, 0];
    const OTHER: [u8; 16] = [6, 0x0E, 0x2B, 0x34, 4, 1, 1, 1, 0x0D, 1, 1, 2, 1, 1, 2, 0];
    const THIRD: [u8; 16] = [6, 0x0E, 0x2B, 0x34, 4, 1, 1, 1, 0x0D, 1, 1, 2, 1, 1, 3, 0];
    let third_urn = Auid::from_bytes(THIRD).to_string();
    let mut d = dictionary();
    d.add(property(KNOWN, "Known", CATEGORY, false)).unwrap();
    d.add(property(STRANGE, "Strange", CATEGORY, false)).unwrap();
    d.add(property(INLINE, "Inline", CATEGORY, false)).unwrap();
    d.add(property(SHORT, "Short", CATEGORY, false)).unwrap();
    d.add(Definition::Type(TypeDefinition::ExtendibleEnumeration(ExtEnumTypeDef {
        identification: Auid::from_bytes(CATEGORY),
        symbol: "OperationCategoryType".to_string(),
        namespace: NS.to_string(),
        elements: vec![EnumerationElement { name: third_urn.clone(), value: 0 }],
    })))
    .unwrap();
    let set = preface_set(vec![
        MemoryTriplet::new(Auid::from_bytes(KNOWN), EFFECT.to_vec()),
        MemoryTriplet::new(Auid::from_bytes(STRANGE), OTHER.to_vec()),
        MemoryTriplet::new(Auid::from_bytes(INLINE), THIRD.to_vec()),
        MemoryTriplet::new(Auid::from_bytes(SHORT), vec![1, 2]),
    ]);
    let texts = |out: &[XmlEvent]| -> Vec<String> {
        out.iter()
            .filter_map(|e| match e {
                XmlEvent::Text(t) => Some(t.clone()),
                _ => None,
            })
            .collect()
    };
    let effect_urn = Auid::from_bytes(EFFECT).to_string();
    let other_urn = Auid::from_bytes(OTHER).to_string();

    // Without a namer every label is written as its URN.
    let mut b = FragmentBuilder::new(&d);
    let mut out = Vec::new();
    b.from_triplet(&set, &mut out).unwrap();
    let t = texts(&out);
    assert!(t.contains(&effect_urn));
    assert!(t.contains(&other_urn));
    assert!(t.contains(&third_urn));
    assert!(t.contains(&"01 02".to_string()));

    // With a namer: its name where it has one, else the URN.
    let mut labels = LabelsRegister::empty();
    labels.insert(Auid::from_bytes(EFFECT), "Effect".to_string());
    let mut b = FragmentBuilder::new(&d).with_auid_namer(Box::new(labels));
    let mut out = Vec::new();
    b.from_triplet(&set, &mut out).unwrap();
    let t = texts(&out);
    assert!(t.contains(&"Effect".to_string()));
    assert!(!t.contains(&effect_urn));
    assert!(t.contains(&other_urn));
    assert!(t.contains(&third_urn));
    assert_eq!(t.len(), 4);

    assert_eq!(ext_name_or_urn(Some("Effect"), effect_urn.clone()), "Effect");
    assert_eq!(ext_name_or_urn(None, effect_urn.clone()), effect_urn);
}
