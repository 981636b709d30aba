use std::collections::HashMap;

use regxmllib::dict::definition::{ClassDefinition, Definition, IntegerTypeDef, PropertyDefinition, TypeDefinition};
use regxmllib::dict::MetaDictionary;
use regxmllib::klv::ber::{ber_encoded_len, read_ber_length};
use regxmllib::klv::{KlvError, KlvStream, LocalSet, MemReader, MemoryTriplet};
use regxmllib::mxf::{
    is_fill_item, is_partition_pack_key, seek_footer_partition, seek_header_partition, MxfError,
    PartitionKind, PartitionPack, PartitionStatus, PrimerPack, RandomIndexPack,
};
use regxmllib::regxml::mxf_fragment::{
    MxfFragmentBuilder, MxfFragmentError, MxfFragmentOptions, PartitionTarget, RootMode,
};
use regxmllib::regxml::FragmentError;
use regxmllib::types::{Auid, Ul};
use regxmllib::xml::writer::{render_xml, XmlEvent};

const NS: &str = "urn:example:aaf";
const PP_HEADER: [u8; 16] = [6, 0x0E, 0x2B, 0x34, 2, 5, 1, 1, 0x0D, 1, 2, 1, 1, 2, 4, 0];
const PP_FOOTER: [u8; 16] = [6, 0x0E, 0x2B, 0x34, 2, 5, 1, 1, 0x0D, 1, 2, 1, 1, 4, 4, 0];
const PRIMER: [u8; 16] = [6, 0x0E, 0x2B, 0x34, 2, 5, 1, 1, 0x0D, 1, 2, 1, 1, 5, 1, 0];
const RIP: [u8; 16] = [6, 0x0E, 0x2B, 0x34, 2, 5, 1, 1, 0x0D, 1, 2, 1, 0x11, 1, 0, 0];
const FILL: [u8; 16] = [6, 0x0E, 0x2B, 0x34, 1, 1, 1, 1, 3, 1, 2, 0x10, 1, 0, 0, 0];
const PREFACE: [u8; 16] = [6, 0x0E, 0x2B, 0x34, 2, 0x53, 1, 1, 0x0D, 1, 1, 1, 1, 1, 0x2F, 0];
const FORMAT_VERSION: [u8; 16] = [6, 0x0E, 0x2B, 0x34, 1, 1, 1, 2, 3, 1, 2, 1, 5, 0, 0, 0];
const UINT16: [u8; 16] = [6, 0x0E, 0x2B, 0x34, 1, 4, 1, 1, 1, 1, 2, 0, 0, 0, 0, 0];

fn klv(key: [u8; 16], value: &[u8]) -> Vec<u8> {
    let mut out = key.to_vec();
    if value.len() < 128 {
        out.push(value.len() as u8);
    } else {
        out.push(0x82);
        out.push((value.len() >> 8) as u8);
        out.push(value.len() as u8);
    }
    out.extend_from_slice(value);
    out
}

fn pp_value(this: u64, footer: u64, header_byte_count: u64) -> Vec<u8> {
    let mut v = Vec::new();
    v.extend_from_slice(&1u16.to_be_bytes());
    v.extend_from_slice(&3u16.to_be_bytes());
    v.extend_from_slice(&1u32.to_be_bytes());
    v.extend_from_slice(&this.to_be_bytes());
    v.extend_from_slice(&0u64.to_be_bytes());
    v.extend_from_slice(&footer.to_be_bytes());
    v.extend_from_slice(&header_byte_count.to_be_bytes());
    v.extend_from_slice(&0u64.to_be_bytes());
    v.extend_from_slice(&0u32.to_be_bytes());
    v.extend_from_slice(&0u64.to_be_bytes());
    v.extend_from_slice(&1u32.to_be_bytes());
    v.extend_from_slice(&[0x06, 0x0E, 0x2B, 0x34, 4, 1, 1, 1, 0x0D, 1, 2, 1, 1, 1, 9, 0]);
    v.extend_from_slice(&0u32.to_be_bytes());
    v.extend_from_slice(&16u32.to_be_bytes());
    v
}

fn primer_value(entries: &[(u16, [u8; 16])]) -> Vec<u8> {
    let mut v = Vec::new();
    v.extend_from_slice(&(entries.len() as u32).to_be_bytes());
    v.extend_from_slice(&18u32.to_be_bytes());
    for (tag, ul) in entries {
        v.extend_from_slice(&tag.to_be_bytes());
        v.extend_from_slice(ul);
    }
    v
}

/// A header partition with a primer and one Preface set holding a
/// FormatVersion of 259, then a footer partition without metadata and a RIP.
fn small_mxf() -> Vec<u8> {
    let primer = klv(PRIMER, &primer_value(&[(0x3B01, FORMAT_VERSION)]));
    let preface = klv(PREFACE, &[0x3B, 0x01, 0x00, 0x02, 0x01, 0x03]);
    let hbc = (primer.len() + preface.len()) as u64;
    let header_len = klv(PP_HEADER, &pp_value(0, 0, hbc)).len() as u64 + hbc;
    let mut file = klv(PP_HEADER, &pp_value(0, header_len, hbc));
    file.extend(primer);
    file.extend(preface);
    file.extend(klv(PP_FOOTER, &pp_value(header_len, header_len, 0)));
    let mut rip_value = Vec::new();
    rip_value.extend_from_slice(&0u32.to_be_bytes());
    rip_value.extend_from_slice(&0u64.to_be_bytes());
    rip_value.extend_from_slice(&0u32.to_be_bytes());
    rip_value.extend_from_slice(&header_len.to_be_bytes());
    let rip_total = 16 + 1 + rip_value.len() as u32 + 4;
    rip_value.extend_from_slice(&rip_total.to_be_bytes());
    file.extend(klv(RIP, &rip_value));
    file
}

fn small_dictionary() -> MetaDictionary {
    let mut d = MetaDictionary::new(String::new(), String::new());
    d.add(Definition::Class(ClassDefinition {
        identification: Auid::from_bytes(PREFACE),
        symbol: "Preface".to_string(),
        namespace: NS.to_string(),
        parent_class: None,
        is_concrete: true,
    }))
    .unwrap();
    d.add(Definition::Property(PropertyDefinition {
        identification: Auid::from_bytes(FORMAT_VERSION),
        symbol: "FormatVersion".to_string(),
        namespace: NS.to_string(),
        member_of: Auid::from_bytes(PREFACE),
        property_type: Auid::from_bytes(UINT16),
        is_optional: false,
        is_unique_identifier: false,
        local_identification: 0x3B01,
    }))
    .unwrap();
    d.add(Definition::Type(TypeDefinition::Integer(IntegerTypeDef {
        identification: Auid::from_bytes(UINT16),
        symbol: "UInt16".to_string(),
        namespace: NS.to_string(),
        size: 2,
        is_signed: false,
    })))
    .unwrap();
    d
}

fn options(partition: PartitionTarget, root_mode: RootMode) -> MxfFragmentOptions {
    let mut o = MxfFragmentOptions::new();
    o.partition = partition;
    o.root_mode = root_mode;
    o
}

#[test]
fn ber_short_and_long_forms() {
    let mut r = MemReader::new(vec![0x05]);
    assert_eq!(read_ber_length(&mut r), Ok(5));
    let mut r = MemReader::new(vec![0x82, 0x01, 0x00]);
    assert_eq!(read_ber_length(&mut r), Ok(256));
    assert_eq!(r.position(), 3);
    let mut r = MemReader::new(vec![0x80]);
    assert_eq!(read_ber_length(&mut r), Err(KlvError::BerLengthTooLong(0)));
    let mut r = MemReader::new(vec![0x89, 0, 0, 0, 0, 0, 0, 0, 0, 0]);
    assert_eq!(read_ber_length(&mut r), Err(KlvError::BerLengthTooLong(9)));
    let mut r = MemReader::new(vec![0x82, 0x01]);
    assert_eq!(read_ber_length(&mut r), Err(KlvError::Io));
    assert_eq!(ber_encoded_len(0x7F), 1);
    assert_eq!(ber_encoded_len(0x80), 2);
    assert_eq!(ber_encoded_len(0x100), 3);
    assert_eq!(ber_encoded_len(0x1_0000), 4);
}

#[test]
fn stream_reads_triplets_until_the_end() {
    let mut data = klv(FORMAT_VERSION, &[1, 2, 3]);
    data.extend(klv(FILL, &[0; 4]));
    let mut s = KlvStream::new(MemReader::new(data));
    let t = s.read_triplet().unwrap().unwrap();
    assert_eq!(t.key, Auid::from_bytes(FORMAT_VERSION));
    assert_eq!(t.value, vec![1, 2, 3]);
    assert!(!is_fill_item(&t));
    assert_eq!(s.position(), 20);
    let f = s.read_triplet().unwrap().unwrap();
    assert!(is_fill_item(&f));
    assert!(s.read_triplet().unwrap().is_none());
}

#[test]
fn stream_errors() {
    let mut s = KlvStream::new(MemReader::new(vec![6, 0x0E, 0x2B]));
    assert_eq!(s.read_triplet().unwrap_err(), KlvError::UnexpectedEof);
    let mut s = KlvStream::new(MemReader::new(klv(FORMAT_VERSION, &[0; 10]))).with_max_value_len(4);
    assert_eq!(s.read_triplet().unwrap_err(), KlvError::ValueTooLarge(10, 4));
    let mut short = klv(FORMAT_VERSION, &[0; 10]);
    short.truncate(20);
    let mut s = KlvStream::new(MemReader::new(short));
    assert_eq!(s.read_triplet().unwrap_err(), KlvError::Io);
}

#[test]
fn error_messages() {
    assert_eq!(KlvError::UnknownLocalTag(0x3B0A).to_string(), "unknown local tag 0x3B0A");
    assert_eq!(KlvError::ValueTooLarge(10, 4).to_string(), "value length 10 bytes exceeds configured maximum 4");
    assert_eq!(KlvError::BerLengthTooLong(9).to_string(), "BER long-form length uses 9 octets; maximum is 8");
    assert_eq!(KlvError::UnexpectedEof.to_string(), "unexpected end of stream reading KLV key");
    assert_eq!(
        MxfError::Klv(KlvError::UnexpectedEof).to_string(),
        "KLV error: unexpected end of stream reading KLV key"
    );
    assert_eq!(MxfError::UnsupportedVersion(1, 3).to_string(), "unsupported MXF version 1.3");
    assert_eq!(MxfError::Truncated("RIP has no entries").to_string(), "truncated MXF: RIP has no entries");
    assert_eq!(
        MxfFragmentError::Mxf(MxfError::PartitionNotFound).to_string(),
        "MXF error: no partition pack found within run-in (first 65536 bytes)"
    );
    assert_eq!(
        MxfFragmentError::Fragment(FragmentError::Fatal("stop".to_string())).to_string(),
        "fragment error: fatal event: stop"
    );
    assert_eq!(
        FragmentError::UnknownGroup(Auid::from_bytes(PREFACE)).to_string(),
        "unknown group: urn:smpte:ul:060e2b34.02530101.0d010101.01012f00"
    );
    assert_eq!(MxfFragmentError::MissingRootObject.to_string(), "no root object found in header metadata");
    assert_eq!(MxfFragmentError::MissingPrimerPack.to_string(), "no primer pack found");
}

#[test]
fn local_set_resolves_tags() {
    let mut reg = HashMap::new();
    reg.insert(0x3B01u16, Ul::from_bytes(FORMAT_VERSION));
    let t = MemoryTriplet::new(Auid::from_bytes(PREFACE), vec![0x3B, 0x01, 0x00, 0x02, 0x01, 0x03]);
    let set = LocalSet::from_triplet(&t, &reg).unwrap();
    assert_eq!(set.key, Auid::from_bytes(PREFACE));
    assert_eq!(set.items.len(), 1);
    assert_eq!(set.items[0].key, Auid::from_bytes(FORMAT_VERSION));
    assert_eq!(set.items[0].value, vec![1, 3]);

    let unknown = MemoryTriplet::new(Auid::from_bytes(PREFACE), vec![0x3C, 0x0A, 0x00, 0x00]);
    assert_eq!(LocalSet::from_triplet(&unknown, &reg).unwrap_err(), KlvError::UnknownLocalTag(0x3C0A));
    let short = MemoryTriplet::new(Auid::from_bytes(PREFACE), vec![0x3B, 0x01, 0x00, 0x05, 1]);
    assert_eq!(LocalSet::from_triplet(&short, &reg).unwrap_err(), KlvError::Io);
}

#[test]
fn partition_pack_fields() {
    let t = MemoryTriplet::new(Auid::from_bytes(PP_HEADER), pp_value(0, 1000, 77));
    let pp = PartitionPack::from_triplet(&t).unwrap().unwrap();
    assert_eq!(pp.kind, PartitionKind::Header);
    assert_eq!(pp.status, PartitionStatus::ClosedComplete);
    assert_eq!((pp.major_version, pp.minor_version), (1, 3));
    assert_eq!(pp.footer_partition, 1000);
    assert_eq!(pp.header_byte_count, 77);
    assert_eq!(pp.body_sid, 1);
    assert!(pp.essence_containers.is_empty());
    assert!(is_partition_pack_key(&Ul::from_bytes(PP_HEADER)));
    assert!(!is_partition_pack_key(&Ul::from_bytes(FORMAT_VERSION)));

    let not_pp = MemoryTriplet::new(Auid::from_bytes(FORMAT_VERSION), vec![]);
    assert!(PartitionPack::from_triplet(&not_pp).unwrap().is_none());
    let mut bad_kind = PP_HEADER;
    bad_kind[13] = 9;
    let t = MemoryTriplet::new(Auid::from_bytes(bad_kind), pp_value(0, 0, 0));
    assert_eq!(PartitionPack::from_triplet(&t).unwrap_err(), MxfError::InvalidPartitionKey);
    let t = MemoryTriplet::new(Auid::from_bytes(PP_HEADER), vec![0; 10]);
    assert_eq!(PartitionPack::from_triplet(&t).unwrap_err(), MxfError::Klv(KlvError::Io));
}

#[test]
fn primer_and_rip_parse() {
    let t = MemoryTriplet::new(Auid::from_bytes(PRIMER), primer_value(&[(0x3B01, FORMAT_VERSION), (0x3C0A, UINT16)]));
    let p = PrimerPack::from_triplet(&t).unwrap().unwrap();
    assert_eq!(p.local_tag_register.len(), 2);
    assert_eq!(p.local_tag_register.get(&0x3B01), Some(&Ul::from_bytes(FORMAT_VERSION)));
    let mut v = primer_value(&[(0x3B01, FORMAT_VERSION)]);
    v.truncate(12);
    let t = MemoryTriplet::new(Auid::from_bytes(PRIMER), v);
    assert_eq!(PrimerPack::from_triplet(&t).unwrap_err(), MxfError::Io);

    let mut rv = Vec::new();
    rv.extend_from_slice(&7u32.to_be_bytes());
    rv.extend_from_slice(&1234u64.to_be_bytes());
    rv.extend_from_slice(&37u32.to_be_bytes());
    let rip = RandomIndexPack::from_triplet(&MemoryTriplet::new(Auid::from_bytes(RIP), rv)).unwrap().unwrap();
    assert_eq!(rip.entries.len(), 1);
    assert_eq!(rip.entries[0].body_sid, 7);
    assert_eq!(rip.entries[0].byte_offset, 1234);
}

#[test]
fn seeking_partitions() {
    let file = small_mxf();
    let mut with_run_in = vec![0u8; 5];
    with_run_in.extend(file.clone());
    let mut r = MemReader::new(with_run_in);
    assert_eq!(seek_header_partition(&mut r), Ok(5));
    assert_eq!(r.position(), 5);

    let mut r = MemReader::new(file.clone());
    let footer = seek_footer_partition(&mut r).unwrap();
    assert!(footer > 0);
    assert_eq!(&file[footer as usize..footer as usize + 16], &PP_FOOTER);

    let mut r = MemReader::new(vec![0u8; 100]);
    assert_eq!(seek_header_partition(&mut r), Err(MxfError::PartitionNotFound));
}

#[test]
fn footer_found_through_the_rip() {
    let mut file = small_mxf();
    // Clear the header pack's footer offset: the RIP gives it instead.
    for b in &mut file[17 + 24..17 + 32] {
        *b = 0;
    }
    let mut r = MemReader::new(file.clone());
    let footer = seek_footer_partition(&mut r).unwrap();
    assert_eq!(&file[footer as usize..footer as usize + 16], &PP_FOOTER);
    file.truncate(file.len() - 1);
    let mut r = MemReader::new(file);
    assert!(seek_footer_partition(&mut r).is_err());
}

#[test]
fn from_reader_writes_the_preface() {
    let dict = small_dictionary();
    let mut r = MemReader::new(small_mxf());
    let events = MxfFragmentBuilder::from_reader(&mut r, &dict, options(PartitionTarget::Auto, RootMode::Preface)).unwrap();
    assert_eq!(events.len(), 6);
    assert!(matches!(events[0], XmlEvent::Decl));
    match &events[1] {
        XmlEvent::Start(n, attrs) => {
            assert_eq!(n, "ns1:Preface");
            assert_eq!(attrs.len(), 2);
            assert_eq!(attrs[0].0, "xmlns:reg");
            assert_eq!(attrs[1], ("xmlns:ns1".to_string(), NS.to_string()));
        }
        other => panic!("unexpected {other:?}"),
    }
    match &events[2] {
        XmlEvent::Start(n, _) => assert_eq!(n, "ns1:FormatVersion"),
        other => panic!("unexpected {other:?}"),
    }
    match &events[3] {
        XmlEvent::Text(t) => assert_eq!(t, "259"),
        other => panic!("unexpected {other:?}"),
    }
    assert!(matches!(&events[4], XmlEvent::End(n) if n == "ns1:FormatVersion"));
    assert!(matches!(&events[5], XmlEvent::End(n) if n == "ns1:Preface"));

    let xml = String::from_utf8(render_xml(&events)).unwrap();
    assert!(xml.starts_with("<?xml version=\"1.0\" encoding=\"UTF-8\"?>"));
    assert!(xml.contains("<ns1:FormatVersion xmlns:ns1=\"urn:example:aaf\">259</ns1:FormatVersion>"));
    assert!(xml.trim_end().ends_with("</ns1:Preface>"));
}

#[test]
fn header_and_auto_agree_when_the_footer_is_empty() {
    let dict = small_dictionary();
    let mut r1 = MemReader::new(small_mxf());
    let a = MxfFragmentBuilder::from_reader(&mut r1, &dict, options(PartitionTarget::Header, RootMode::Preface)).unwrap();
    let mut r2 = MemReader::new(small_mxf());
    let b = MxfFragmentBuilder::from_reader(&mut r2, &dict, options(PartitionTarget::Auto, RootMode::Preface)).unwrap();
    assert_eq!(render_xml(&a), render_xml(&b));
}

#[test]
fn footer_without_metadata_has_no_primer() {
    let dict = small_dictionary();
    let mut r = MemReader::new(small_mxf());
    let e = MxfFragmentBuilder::from_reader(&mut r, &dict, options(PartitionTarget::Footer, RootMode::Preface)).unwrap_err();
    assert!(matches!(e, MxfFragmentError::MissingPrimerPack));
}

#[test]
fn no_essence_descriptor_is_no_root() {
    let dict = small_dictionary();
    let mut r = MemReader::new(small_mxf());
    let e = MxfFragmentBuilder::from_reader(&mut r, &dict, options(PartitionTarget::Header, RootMode::EssenceDescriptor))
        .unwrap_err();
    assert!(matches!(e, MxfFragmentError::MissingRootObject));
}

#[test]
fn not_an_mxf_file() {
    let dict = small_dictionary();
    let mut r = MemReader::new(vec![0u8; 64]);
    let e = MxfFragmentBuilder::from_reader(&mut r, &dict, options(PartitionTarget::Header, RootMode::Preface)).unwrap_err();
    assert!(matches!(e, MxfFragmentError::Mxf(MxfError::PartitionNotFound)));
}

#[test]
fn unknown_root_class_gives_only_the_declaration() {
    let empty = MetaDictionary::new(String::new(), String::new());
    let mut r = MemReader::new(small_mxf());
    let events = MxfFragmentBuilder::from_reader(&mut r, &empty, options(PartitionTarget::Header, RootMode::Preface)).unwrap();
    assert_eq!(events.len(), 1);
    assert!(matches!(events[0], XmlEvent::Decl));
}

#[test]
fn ber_too_long_consumes_only_the_first_byte() {
    let mut r = MemReader::new(vec![0x89, 1, 2, 3]);
    assert_eq!(read_ber_length(&mut r), Err(KlvError::BerLengthTooLong(9)));
    assert_eq!(r.position(), 1);
    let mut r = MemReader::new(vec![0x80]);
    assert_eq!(read_ber_length(&mut r), Err(KlvError::BerLengthTooLong(0)));
    assert_eq!(r.position(), 1);
}

#[test]
fn ber_lengths_read_back_from_their_encoding() {
    for len in [0u64, 0x7F, 0x80, 0xFF, 0x100, 0xFFFF, 0x1_0000, 0xFF_FFFF, 0x100_0000, 0xFFFF_FFFF, 0x1_0000_0000] {
        let n = ber_encoded_len(len) as usize;
        let mut enc = Vec::new();
        if n == 1 {
            enc.push(len as u8);
        } else {
            enc.push(0x80 | (n - 1) as u8);
            enc.extend_from_slice(&len.to_be_bytes()[8 - (n - 1)..]);
        }
        enc.push(0xAA);
        let mut r = MemReader::new(enc);
        assert_eq!(read_ber_length(&mut r), Ok(len));
        assert_eq!(r.position(), n as u64);
    }
}

#[test]
fn stream_position_is_the_sum_over_the_reads() {
    let sizes = [0usize, 1, 5, 127, 128, 300];
    let mut data = Vec::new();
    for (i, n) in sizes.iter().enumerate() {
        data.extend(klv(FORMAT_VERSION, &vec![i as u8; *n]));
    }
    let total = data.len() as u64;
    let mut s = KlvStream::new(MemReader::new(data));
    let mut expected = 0u64;
    for n in sizes {
        let t = s.read_triplet().unwrap().unwrap();
        assert_eq!(t.value.len(), n);
        expected += 16 + ber_encoded_len(n as u64) + n as u64;
        assert_eq!(s.position(), expected);
    }
    assert!(s.read_triplet().unwrap().is_none());
    assert_eq!(s.position(), expected);
    // The length 128 was written in three bytes where two would do; every
    // other length is in its shortest form.
    assert_eq!(expected + 1, total);
}
