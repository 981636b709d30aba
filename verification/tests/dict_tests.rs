use regxmllib::dict::definition::{Definition, TypeDefinition};
use regxmllib::dict::importer::import_registers;
use regxmllib::dict::{DefinitionResolver, DictError, LabelsRegister, MetaDictionary, MetaDictionaryCollection};
use regxmllib::types::Auid;

const TYPES: &str = r#"<?xml version="1.0" encoding="UTF-8"?>
<TypesRegister xmlns="http://www.smpte-ra.org/schemas/2003/2012">
  <Entries>
    <Entry><UL>urn:smpte:ul:060e2b34.01040101.01000000.00000000</UL><Symbol>Basic</Symbol><Kind>NODE</Kind></Entry>
    <Entry>
      <UL>urn:smpte:ul:060e2b34.01040101.01010100.00000000</UL>
      <Symbol>UInt8</Symbol>
      <NamespaceName>http://www.smpte-ra.org/reg/2003/2012</NamespaceName>
      <Kind>LEAF</Kind>
      <TypeKind>Integer</TypeKind>
      <TypeSize>1</TypeSize>
    </Entry>
    <Entry>
      <UL>urn:smpte:ul:060e2b34.01040101.01010500.00000000</UL>
      <Symbol>Int8</Symbol>
      <TypeKind>Integer</TypeKind>
      <TypeSize>1</TypeSize>
      <TypeQualifiers>isSigned</TypeQualifiers>
    </Entry>
    <Entry>
      <UL>urn:smpte:ul:060e2b34.01040101.01012001.00000000</UL>
      <Symbol>PositionType</Symbol>
      <TypeKind>Rename</TypeKind>
      <BaseType>urn:smpte:ul:060e2b34.01040101.01010500.00000000</BaseType>
    </Entry>
    <Entry>
      <UL>urn:smpte:ul:060e2b34.01040101.01040100.00000000</UL>
      <Symbol>Boolean</Symbol>
      <TypeKind>Enumeration</TypeKind>
      <BaseType>urn:smpte:ul:060e2b34.01040101.01010100.00000000</BaseType>
      <Facets>
        <Facet><Symbol>False</Symbol><Value>0</Value></Facet>
        <Facet><Symbol>True</Symbol><Value>1</Value></Facet>
      </Facets>
    </Entry>
    <Entry>
      <UL>urn:smpte:ul:060e2b34.01040101.02020101.00000000</UL>
      <Symbol>OperationCategoryType</Symbol>
      <TypeKind>Enumeration</TypeKind>
      <Facets>
        <Facet><Symbol>Effect</Symbol><Value>urn:smpte:ul:060e2b34.04010101.0d010102.01010100</Value></Facet>
      </Facets>
    </Entry>
    <Entry>
      <UL>urn:smpte:ul:060e2b34.01040101.05020000.00000000</UL>
      <Symbol>PrefaceStrongReference</Symbol>
      <TypeKind>StrongReference</TypeKind>
      <BaseType>urn:smpte:ul:060e2b34.027f0101.0d010101.01012f00</BaseType>
    </Entry>
    <Entry>
      <UL>urn:smpte:ul:060e2b34.01040101.09090909.00000000</UL>
      <Symbol>Mystery</Symbol>
      <TypeKind>Quaternion</TypeKind>
    </Entry>
  </Entries>
</TypesRegister>"#;

const ELEMENTS: &str = r#"<ElementsRegister xmlns="http://www.smpte-ra.org/schemas/335/2012">
  <Entries>
    <Entry>
      <UL>urn:smpte:ul:060e2b34.01010102.03010201.05000000</UL>
      <Symbol>FormatVersion</Symbol>
      <NamespaceName>http://www.smpte-ra.org/reg/335/2012</NamespaceName>
      <Type>urn:smpte:ul:060e2b34.01040101.01010100.00000000</Type>
    </Entry>
  </Entries>
</ElementsRegister>"#;

const GROUPS: &str = r#"<GroupsRegister xmlns="http://www.smpte-ra.org/ns/395/2016">
  <Entries>
    <Entry>
      <UL>urn:smpte:ul:060e2b34.027f0101.0d010101.01010100</UL>
      <Symbol>InterchangeObject</Symbol>
      <NamespaceName>http://www.smpte-ra.org/reg/395/2014/13/1/aaf</NamespaceName>
      <IsConcrete>false</IsConcrete>
    </Entry>
    <Entry>
      <UL>urn:smpte:ul:060e2b34.027f0101.0d010101.01012f00</UL>
      <Symbol>Preface</Symbol>
      <NamespaceName>http://www.smpte-ra.org/reg/395/2014/13/1/aaf</NamespaceName>
      <Parent>urn:smpte:ul:060e2b34.027f0101.0d010101.01010100</Parent>
      <Contents>
        <Record>
          <UL>urn:smpte:ul:060e2b34.01010102.03010201.05000000</UL>
          <LocalTag>3b01</LocalTag>
          <IsOptional>false</IsOptional>
        </Record>
        <Record>
          <UL>urn:smpte:ul:060e2b34.01010102.7f7f7f7f.00000000</UL>
        </Record>
      </Contents>
    </Entry>
  </Entries>
</GroupsRegister>"#;

const LABELS: &str = r#"<LabelsRegister xmlns="http://www.smpte-ra.org/schemas/400/2012">
  <Entries>
    <Entry><UL>urn:smpte:ul:060e2b34.04010101.0d010102.01010100</UL><Symbol>Effect</Symbol><Kind>LEAF</Kind></Entry>
    <Entry><UL>urn:smpte:ul:060e2b34.04010101.0d000000.00000000</UL><Symbol>Node</Symbol><Kind>NODE</Kind></Entry>
    <Entry><UL>not-a-urn</UL><Symbol>Broken</Symbol></Entry>
  </Entries>
</LabelsRegister>"#;

fn auid(urn: &str) -> Auid {
    Auid::from_urn(urn).unwrap()
}

fn imported() -> MetaDictionary {
    import_registers(&[TYPES.as_bytes(), ELEMENTS.as_bytes(), GROUPS.as_bytes()]).unwrap()
}

#[test]
fn import_reads_integer_types() {
    let dict = imported();
    match dict.get_definition(&auid("urn:smpte:ul:060e2b34.01040101.01010100.00000000")) {
        Some(Definition::Type(TypeDefinition::Integer(td))) => {
            assert_eq!(td.symbol, "UInt8");
            assert_eq!(td.size, 1);
            assert!(!td.is_signed);
            assert_eq!(td.namespace, "http://www.smpte-ra.org/reg/2003/2012");
        }
        other => panic!("unexpected {other:?}"),
    }
    match dict.get_definition(&auid("urn:smpte:ul:060e2b34.01040101.01010500.00000000")) {
        Some(Definition::Type(TypeDefinition::Integer(td))) => assert!(td.is_signed),
        other => panic!("unexpected {other:?}"),
    }
}

#[test]
fn import_reads_renames_and_enumerations() {
    let dict = imported();
    assert!(matches!(
        dict.get_definition_by_symbol("PositionType"),
        Some(Definition::Type(TypeDefinition::Rename(_)))
    ));
    match dict.get_definition(&auid("urn:smpte:ul:060e2b34.01040101.01040100.00000000")) {
        Some(Definition::Type(TypeDefinition::Enumeration(td))) => {
            assert_eq!(td.symbol, "Boolean");
            assert_eq!(td.elements.len(), 2);
            assert_eq!(td.elements[0].name, "False");
            assert_eq!(td.elements[0].value, 0);
            assert_eq!(td.elements[1].value, 1);
        }
        other => panic!("unexpected {other:?}"),
    }
    match dict.get_definition(&auid("urn:smpte:ul:060e2b34.01040101.02020101.00000000")) {
        Some(Definition::Type(TypeDefinition::ExtendibleEnumeration(td))) => {
            assert_eq!(td.symbol, "OperationCategoryType");
            assert!(td.elements.is_empty());
        }
        other => panic!("unexpected {other:?}"),
    }
    assert!(dict.get_definition_by_symbol("Mystery").is_none());
    assert!(dict.get_definition_by_symbol("Basic").is_none());
}

#[test]
fn import_reads_groups_and_their_properties() {
    let dict = imported();
    let preface = auid("urn:smpte:ul:060e2b34.027f0101.0d010101.01012f00");
    let cd = match dict.get_definition(&preface) {
        Some(Definition::Class(cd)) => cd,
        other => panic!("unexpected {other:?}"),
    };
    assert_eq!(cd.symbol, "Preface");
    assert!(cd.is_concrete);
    assert_eq!(cd.parent_class, Some(auid("urn:smpte:ul:060e2b34.027f0101.0d010101.01010100")));
    let members = dict.get_members_of(cd);
    assert_eq!(members, vec![auid("urn:smpte:ul:060e2b34.01010102.03010201.05000000")]);
    match dict.get_definition(&members[0]) {
        Some(Definition::Property(pd)) => {
            assert_eq!(pd.symbol, "FormatVersion");
            assert_eq!(pd.namespace, "http://www.smpte-ra.org/reg/335/2012");
            assert_eq!(pd.member_of, preface);
            assert_eq!(pd.local_identification, 0x3B01);
            assert!(!pd.is_optional);
            assert!(!pd.is_unique_identifier);
        }
        other => panic!("unexpected {other:?}"),
    }
    let parent = match dict.get_definition(&auid("urn:smpte:ul:060e2b34.027f0101.0d010101.01010100")) {
        Some(Definition::Class(cd)) => cd,
        other => panic!("unexpected {other:?}"),
    };
    assert!(!parent.is_concrete);
    assert_eq!(dict.get_subclasses_of(parent), vec![preface]);
    // 6 types, 2 classes, 1 property.
    assert_eq!(dict.definition_count(), 9);
}

#[test]
fn import_requires_a_base_type() {
    let bad = r#"<TypesRegister><Entries><Entry>
        <UL>urn:smpte:ul:060e2b34.01040101.01012001.00000000</UL><Symbol>R</Symbol><TypeKind>Rename</TypeKind>
      </Entry></Entries></TypesRegister>"#;
    match import_registers(&[bad.as_bytes()]) {
        Err(DictError::Xml(m)) => assert!(m.contains("missing <BaseType>"), "{m}"),
        other => panic!("unexpected {:?}", other.map(|d| d.definition_count())),
    }
    match import_registers(&[b"<TypesRegister>".as_slice()]) {
        Err(e @ DictError::Xml(_)) => assert!(e.to_string().starts_with("XML parse error: ")),
        other => panic!("unexpected {:?}", other.map(|d| d.definition_count())),
    }
    match import_registers(&[[0xFFu8, 0xFE].as_slice()]) {
        Err(DictError::Xml(_)) => {}
        other => panic!("unexpected {:?}", other.map(|d| d.definition_count())),
    }
}

#[test]
fn metadictionary_round_trips_through_xml() {
    let dict = imported();
    let xml = dict.to_xml().unwrap();
    let text = String::from_utf8(xml.clone()).unwrap();
    assert!(text.starts_with("<?xml version=\"1.0\" encoding=\"UTF-8\"?>"));
    assert!(text.contains("<TypeDefinitionInteger>"));
    let back = MetaDictionary::from_xml(&xml).unwrap();
    assert_eq!(back.definition_count(), dict.definition_count());
    match back.get_definition_by_symbol("Boolean") {
        Some(Definition::Type(TypeDefinition::Enumeration(td))) => {
            assert_eq!(td.elements.len(), 2);
            assert_eq!(td.elements[1].name, "True");
        }
        other => panic!("unexpected {other:?}"),
    }
    match back.get_definition_by_symbol("FormatVersion") {
        Some(Definition::Property(pd)) => assert_eq!(pd.local_identification, 0x3B01),
        other => panic!("unexpected {other:?}"),
    }
}

#[test]
fn metadictionary_from_xml_reads_scheme_and_definitions() {
    let xml = r#"<Extension>
      <SchemeID>urn:uuid:00000000-0000-0000-0000-000000000001</SchemeID>
      <SchemeURI>http://example.com/ext</SchemeURI>
      <MetaDefinitions>
        <ClassDefinition>
          <Identification>urn:smpte:ul:060e2b34.027f0101.05310101.00000000</Identification>
          <Symbol>DMCVTGenericSet1</Symbol>
          <IsConcrete>false</IsConcrete>
        </ClassDefinition>
        <TypeDefinitionInteger>
          <Identification>urn:smpte:ul:060e2b34.01040101.01010200.00000000</Identification>
          <Symbol>UInt16</Symbol>
          <Size>2</Size>
          <IsSigned>false</IsSigned>
        </TypeDefinitionInteger>
        <Unrelated/>
      </MetaDefinitions>
    </Extension>"#;
    let dict = MetaDictionary::from_xml(xml.as_bytes()).unwrap();
    assert_eq!(dict.scheme_uri_str(), "http://example.com/ext");
    assert_eq!(dict.scheme_id_str(), "urn:uuid:00000000-0000-0000-0000-000000000001");
    assert_eq!(dict.definition_count(), 2);
    match dict.get_definition(&auid("urn:smpte:ul:060e2b34.027f0101.05310101.00000000")) {
        Some(Definition::Class(cd)) => {
            assert_eq!(cd.symbol, "DMCVTGenericSet1");
            assert!(!cd.is_concrete);
        }
        other => panic!("unexpected {other:?}"),
    }
    assert!(matches!(
        dict.get_definition_by_symbol("UInt16"),
        Some(Definition::Type(TypeDefinition::Integer(_)))
    ));
}

#[test]
fn metadictionary_from_xml_missing_symbol() {
    let xml = r#"<Extension><MetaDefinitions><ClassDefinition>
        <Identification>urn:smpte:ul:060e2b34.027f0101.05310101.00000000</Identification>
      </ClassDefinition></MetaDefinitions></Extension>"#;
    match MetaDictionary::from_xml(xml.as_bytes()) {
        Err(DictError::Xml(m)) => assert!(m.contains("Symbol"), "{m}"),
        other => panic!("unexpected {:?}", other.map(|d| d.definition_count())),
    }
}

#[test]
fn collection_finds_definitions_of_each_dictionary() {
    let a = r#"<Extension><MetaDefinitions><TypeDefinitionInteger>
        <Identification>urn:smpte:ul:060e2b34.01040101.01010100.00000000</Identification><Symbol>UInt8</Symbol><Size>1</Size>
      </TypeDefinitionInteger></MetaDefinitions></Extension>"#;
    let b = r#"<Extension><MetaDefinitions><ClassDefinition>
        <Identification>urn:smpte:ul:060e2b34.027f0101.05310201.00000000</Identification><Symbol>DMCVTApp1Set</Symbol>
      </ClassDefinition></MetaDefinitions></Extension>"#;
    let c = MetaDictionaryCollection::from_xml_slices(&[a.as_bytes(), b.as_bytes()]).unwrap();
    assert!(c.get_definition(&auid("urn:smpte:ul:060e2b34.01040101.01010100.00000000")).is_some());
    assert!(c.get_definition(&auid("urn:smpte:ul:060e2b34.027f0101.05310201.00000000")).is_some());
    assert!(c.get_definition_by_symbol("DMCVTApp1Set").is_some());
    assert!(c.get_definition_by_symbol("Nothing").is_none());
}

#[test]
fn labels_register_reads_leaf_entries() {
    let reg = LabelsRegister::from_xml(LABELS.as_bytes()).unwrap();
    assert_eq!(reg.len(), 1);
    assert_eq!(reg.get(&auid("urn:smpte:ul:060e2b34.04010101.0d010102.01010100")), Some("Effect"));
    assert_eq!(reg.get(&auid("urn:smpte:ul:060e2b34.04010101.0d000000.00000000")), None);
    let other = LabelsRegister::from_xml(TYPES.as_bytes()).unwrap();
    assert!(other.is_empty());
}

#[test]
fn labels_merge_keeps_the_first_entry() {
    let mut a = LabelsRegister::empty();
    let k = auid("urn:smpte:ul:060e2b34.04010101.0d010102.01010100");
    let k2 = auid("urn:smpte:ul:060e2b34.04010101.0d010102.01010200");
    a.insert(k, "First".to_string());
    let mut b = LabelsRegister::empty();
    b.insert(k, "Second".to_string());
    b.insert(k2, "Other".to_string());
    let m = a.merge(b);
    assert_eq!(m.get(&k), Some("First"));
    assert_eq!(m.get(&k2), Some("Other"));
    assert_eq!(m.len(), 2);
}

#[test]
fn labels_insert_replaces() {
    let mut a = LabelsRegister::empty();
    let k = auid("urn:smpte:ul:060e2b34.04010101.0d010102.01010100");
    a.insert(k, "One".to_string());
    a.insert(k, "Two".to_string());
    assert_eq!(a.get(&k), Some("Two"));
    assert_eq!(a.len(), 1);
}

#[test]
fn dictionary_add_replaces_by_identification() {
    let mut d = MetaDictionary::new(String::new(), String::new());
    let id = auid("urn:smpte:ul:060e2b34.01040101.01010100.00000000");
    for name in ["A", "B"] {
        d.add(Definition::Type(TypeDefinition::Character(regxmllib::dict::definition::CharacterTypeDef {
            identification: id,
            symbol: name.to_string(),
            namespace: String::new(),
        })))
        .unwrap();
    }
    assert_eq!(d.definition_count(), 1);
    assert_eq!(d.get_definition(&id).unwrap().symbol(), "B");
    assert_eq!(d.get_definition_by_symbol("B").unwrap().symbol(), "B");
    assert_eq!(d.all_definitions().len(), 1);
}

#[test]
fn dict_error_messages() {
    assert_eq!(DictError::DuplicateDefinition("x".into()).to_string(), "duplicate definition: x");
    assert_eq!(
        DictError::MissingField("Symbol", "ClassDefinition:urn".into()).to_string(),
        "missing required field 'Symbol' in entry 'ClassDefinition:urn'"
    );
    assert_eq!(DictError::UnknownTypeKind("Q".into()).to_string(), "unknown TypeKind 'Q'");
    assert_eq!(DictError::Io("gone".into()).to_string(), "I/O error: gone");
}

#[test]
fn import_order_of_elements_and_groups_does_not_matter() {
    let a = import_registers(&[GROUPS.as_bytes(), ELEMENTS.as_bytes()]).unwrap();
    let b = import_registers(&[ELEMENTS.as_bytes(), GROUPS.as_bytes()]).unwrap();
    assert_eq!(a.definition_count(), b.definition_count());
    assert_eq!(a.definition_count(), 3);
    let fv = auid("urn:smpte:ul:060e2b34.01010102.03010201.05000000");
    match (a.get_definition(&fv), b.get_definition(&fv)) {
        (Some(Definition::Property(p)), Some(Definition::Property(q))) => {
            assert_eq!(p.symbol, q.symbol);
            assert_eq!(p.local_identification, q.local_identification);
            assert_eq!(p.member_of, q.member_of);
        }
        other => panic!("unexpected {other:?}"),
    }
}

fn character_type(id: Auid, symbol: &str) -> Definition {
    Definition::Type(TypeDefinition::Character(regxmllib::dict::definition::CharacterTypeDef {
        identification: id,
        symbol: symbol.to_string(),
        namespace: String::new(),
    }))
}

fn nth_ul(n: u8) -> Auid {
    Auid::from_bytes([0x06, 0x0E, 0x2B, 0x34, 0x01, 0x04, 0x01, 0x01, 0x0F, n, 0, 0, 0, 0, 0, 0])
}

#[test]
fn many_adds_keep_one_definition_per_identification() {
    let mut d = MetaDictionary::new(String::new(), String::new());
    // Ten adds over four identifications; the symbol of the k-th add is "S<k>".
    for k in 0u8..10 {
        d.add(character_type(nth_ul(k % 4), &format!("S{k}"))).unwrap();
        let distinct = if k < 4 { k as usize + 1 } else { 4 };
        assert_eq!(d.definition_count(), distinct);
        assert_eq!(d.all_definitions().len(), distinct);
    }
    for j in 0u8..4 {
        // The last add with identification j was add 8 + j (or 4 + j for j >= 2).
        let last = if j < 2 { 8 + j } else { 4 + j };
        assert_eq!(d.get_definition(&nth_ul(j)).unwrap().symbol(), format!("S{last}"));
        assert!(d.get_definition_by_symbol(&format!("S{last}")).is_some());
    }
    // A symbol whose definition was replaced still names its identification,
    // which now holds the newer definition.
    assert_eq!(d.get_definition_by_symbol("S0").unwrap().symbol(), "S8");
    assert_eq!(d.get_definition_by_symbol("S3").unwrap().symbol(), "S7");
    assert_eq!(d.get_definition_by_symbol("S9").unwrap().symbol(), "S9");
    assert!(d.get_definition_by_symbol("S10").is_none());
}

#[test]
fn symbol_lookup_gives_the_last_definition_with_that_symbol() {
    let mut d = MetaDictionary::new(String::new(), String::new());
    for k in 0u8..6 {
        let symbol = if k % 2 == 0 { "Even" } else { "Odd" };
        d.add(character_type(nth_ul(k), symbol)).unwrap();
    }
    assert_eq!(d.definition_count(), 6);
    assert_eq!(*d.get_definition_by_symbol("Even").unwrap().identification(), nth_ul(4));
    assert_eq!(*d.get_definition_by_symbol("Odd").unwrap().identification(), nth_ul(5));
    assert!(d.get_definition_by_symbol("None").is_none());
}

#[test]
fn collection_symbol_lookup_takes_the_first_dictionary_that_has_it() {
    let mut c = MetaDictionaryCollection::new();
    assert!(c.get_definition_by_symbol("Shared").is_none());
    for k in 0u8..5 {
        let mut d = MetaDictionary::new(String::new(), String::new());
        if k >= 2 {
            d.add(character_type(nth_ul(k), "Shared")).unwrap();
        }
        d.add(character_type(nth_ul(10 + k), &format!("Own{k}"))).unwrap();
        c.add(d).unwrap();
    }
    assert_eq!(*c.get_definition_by_symbol("Shared").unwrap().identification(), nth_ul(2));
    for k in 0u8..5 {
        assert_eq!(*c.get_definition_by_symbol(&format!("Own{k}")).unwrap().identification(), nth_ul(10 + k));
    }
    assert!(c.get_definition_by_symbol("Missing").is_none());
}

#[test]
fn groups_register_alone_gives_the_class_only() {
    let g = import_registers(&[GROUPS.as_bytes()]).unwrap();
    let fv = auid("urn:smpte:ul:060e2b34.01010102.03010201.05000000");
    assert!(g.get_definition(&fv).is_none());
    assert!(matches!(
        g.get_definition(&auid("urn:smpte:ul:060e2b34.027f0101.0d010101.01010100")),
        Some(Definition::Class(_))
    ));
}

#[test]
fn distinct_identifications_are_counted_once_each() {
    let mut d = MetaDictionary::new(String::new(), String::new());
    let ids = [3u8, 1, 3, 2, 1, 3, 7];
    let mut seen: Vec<u8> = Vec::new();
    for (k, id) in ids.iter().enumerate() {
        d.add(character_type(nth_ul(*id), &format!("T{k}"))).unwrap();
        if !seen.contains(id) {
            seen.push(*id);
        }
        assert_eq!(d.definition_count(), seen.len());
    }
    let all = d.all_definitions();
    assert_eq!(all.len(), 4);
    // Each identification holds the last definition added with it.
    assert_eq!(d.get_definition(&nth_ul(3)).unwrap().symbol(), "T5");
    assert_eq!(d.get_definition(&nth_ul(1)).unwrap().symbol(), "T4");
    assert_eq!(d.get_definition(&nth_ul(2)).unwrap().symbol(), "T3");
    assert_eq!(d.get_definition(&nth_ul(7)).unwrap().symbol(), "T6");
}
