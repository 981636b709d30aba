use regxmllib::types::auid::AuidParseError;
use regxmllib::types::ul::UlParseError;
use regxmllib::types::{Auid, Ul, Umid, Uuid};

const INSTANCE_UID: [u8; 16] = [
    0x06, 0x0E, 0x2B, 0x34, 0x01, 0x01, 0x01, 0x01, 0x01, 0x01, 0x15, 0x02, 0x00, 0x00, 0x00, 0x00,
];

#[test]
fn ul_to_string_is_dotted_lowercase() {
    let ul = Ul::from_bytes(INSTANCE_UID);
    assert_eq!(ul.to_string(), "urn:smpte:ul:060e2b34.01010101.01011502.00000000");
}

#[test]
fn ul_from_urn_reads_dotted_and_undotted() {
    let a = Ul::from_urn("urn:smpte:ul:060e2b34.01010101.01011502.00000000").unwrap();
    let b = Ul::from_urn("urn:smpte:ul:060E2B34010101010101150200000000").unwrap();
    assert_eq!(a, Ul::from_bytes(INSTANCE_UID));
    assert_eq!(a, b);
}

#[test]
fn ul_round_trips_through_its_urn() {
    let bytes = [0xFFu8, 0x00, 0x7F, 0x80, 1, 2, 3, 4, 5, 6, 7, 8, 9, 10, 11, 0xAB];
    let ul = Ul::from_bytes(bytes);
    assert_eq!(Ul::from_urn(&ul.to_string()).unwrap(), ul);
}

#[test]
fn ul_from_urn_rejects_bad_prefix() {
    assert_eq!(Ul::from_urn("urn:smpte:xx:060e2b34").unwrap_err(), UlParseError::InvalidPrefix);
    assert_eq!(
        UlParseError::InvalidPrefix.to_string(),
        "invalid URN prefix, expected 'urn:smpte:ul:'"
    );
}

#[test]
fn ul_from_urn_rejects_wrong_length() {
    let e = Ul::from_urn("urn:smpte:ul:060e2b34.01010101").unwrap_err();
    assert_eq!(e, UlParseError::WrongLength(8));
    assert_eq!(e.to_string(), "wrong number of hex bytes: expected 16, got 8");
}

#[test]
fn ul_from_urn_rejects_bad_hex() {
    let e = Ul::from_urn("urn:smpte:ul:060e2b34.01010101.0101150g.00000000").unwrap_err();
    assert_eq!(e, UlParseError::InvalidHex(11));
    assert_eq!(e.to_string(), "invalid hex digit at byte position 11");
}

#[test]
fn ul_masks_select_bytes_from_the_left() {
    let a = Ul::from_bytes(INSTANCE_UID);
    let mut b_bytes = INSTANCE_UID;
    b_bytes[7] = 0x05;
    let b = Ul::from_bytes(b_bytes);
    assert!(!a.equals_with_mask(&b, 0xFFFF));
    assert!(a.equals_with_mask(&b, 0xFEFF));
    assert!(a.equals_ignore_version(&b));
    assert!(a.equals_with_mask(&b, 0x0000));
    let mut c_bytes = INSTANCE_UID;
    c_bytes[8] = 0x05;
    assert!(!a.equals_ignore_version(&Ul::from_bytes(c_bytes)));
}

#[test]
fn ul_group_key_is_byte_four() {
    let mut b = INSTANCE_UID;
    assert!(!Ul::from_bytes(b).is_group_key());
    b[4] = 0x02;
    assert!(Ul::from_bytes(b).is_group_key());
}

#[test]
fn auid_from_bytes_chooses_by_high_bit() {
    let ul = Auid::from_bytes(INSTANCE_UID);
    assert!(ul.is_ul());
    assert!(!ul.is_uuid());
    assert_eq!(ul.as_ul(), Some(&Ul::from_bytes(INSTANCE_UID)));

    let raw = [0x80u8, 1, 2, 3, 4, 5, 6, 7, 8, 9, 10, 11, 12, 13, 14, 15];
    let uuid = Auid::from_bytes(raw);
    assert!(uuid.is_uuid());
    assert!(uuid.as_ul().is_none());
    // The two halves are swapped into RFC 4122 order.
    assert_eq!(uuid.to_string(), "urn:uuid:08090a0b-0c0d-0e0f-8001-020304050607");
}

#[test]
fn auid_from_urn_reads_both_forms() {
    let ul = Auid::from_urn("urn:smpte:ul:060e2b34.01010101.01011502.00000000").unwrap();
    assert_eq!(ul, Auid::Ul(Ul::from_bytes(INSTANCE_UID)));
    let u = Auid::from_urn("urn:uuid:08090a0b-0c0d-0e0f-8001-020304050607").unwrap();
    assert_eq!(u.to_string(), "urn:uuid:08090a0b-0c0d-0e0f-8001-020304050607");
    assert!(u.same(&u));
    assert!(!u.same(&ul));
}

#[test]
fn auid_from_urn_errors() {
    match Auid::from_urn("urn:isbn:12345") {
        Err(AuidParseError::InvalidPrefix(p)) => assert_eq!(p, "urn:isbn:12345"),
        other => panic!("unexpected {other:?}"),
    }
    let long = "x".repeat(40);
    match Auid::from_urn(&long) {
        Err(AuidParseError::InvalidPrefix(p)) => assert_eq!(p.len(), 32),
        other => panic!("unexpected {other:?}"),
    }
    match Auid::from_urn("urn:smpte:ul:0102") {
        Err(AuidParseError::Ul(UlParseError::WrongLength(2))) => {}
        other => panic!("unexpected {other:?}"),
    }
    match Auid::from_urn("urn:uuid:not-a-uuid") {
        Err(e @ AuidParseError::Uuid(_)) => assert!(e.to_string().starts_with("UUID parse error: ")),
        other => panic!("unexpected {other:?}"),
    }
}

#[test]
fn uuid_text_is_hyphenated() {
    let u = Uuid::from_bytes([0x12, 0x34, 0x56, 0x78, 0x9a, 0xbc, 0xde, 0xf0, 0, 1, 2, 3, 4, 5, 6, 7]);
    assert_eq!(u.to_string(), "12345678-9abc-def0-0001-020304050607");
    let m = Uuid::from_bytes_mxf([0, 1, 2, 3, 4, 5, 6, 7, 0x12, 0x34, 0x56, 0x78, 0x9a, 0xbc, 0xde, 0xf0]);
    assert_eq!(m, u);
}

#[test]
fn umid_text_is_dotted_uppercase() {
    let mut b = [0u8; 32];
    for (i, x) in b.iter_mut().enumerate() {
        *x = i as u8 * 8;
    }
    let u = Umid::from_bytes(b);
    assert_eq!(
        u.to_string(),
        "urn:smpte:umid:00081018.20283038.40485058.60687078.80889098.A0A8B0B8.C0C8D0D8.E0E8F0F8"
    );
    assert_eq!(u.as_bytes(), &b);
}

#[test]
fn full_mask_is_equality() {
    let a = Ul::from_bytes(INSTANCE_UID);
    let mut other = INSTANCE_UID;
    other[15] = 1;
    let b = Ul::from_bytes(other);
    assert!(a.equals_with_mask(&a, 0xFFFF));
    assert!(!a.equals_with_mask(&b, 0xFFFF));
    assert!(a.equals_with_mask(&b, 0xFFFE));
    assert!(b.equals_with_mask(&a, 0xFFFE));
}

#[test]
fn ul_auid_round_trips_through_its_urn() {
    let a = Auid::from_bytes([0x06, 0x0E, 0x2B, 0x34, 0x04, 0x01, 0x01, 0x01, 0x0D, 0x01, 0x01, 0x02, 0x01, 0x01, 0x01, 0x00]);
    assert_eq!(Auid::from_urn(&a.to_string()).unwrap(), a);
}

#[test]
fn uuid_as_inner_keeps_the_bytes() {
    let b = [0x12, 0x34, 0x56, 0x78, 0x9a, 0xbc, 0xde, 0xf0, 0, 1, 2, 3, 4, 5, 6, 7];
    let u = Uuid::from_bytes(b);
    assert_eq!(u.as_inner().as_bytes(), &b);
    assert_eq!(u.as_inner().to_string(), u.to_string());
}

#[test]
fn uuid_auid_round_trips_through_its_urn() {
    let a = Auid::from_bytes([0x80, 0x12, 0x34, 0x56, 0x78, 0x9a, 0xbc, 0xde, 0xf0, 0x01, 0x02, 0x03, 0x04, 0x05, 0x06, 0x07]);
    assert!(a.is_uuid());
    let urn = a.to_string();
    assert!(urn.starts_with("urn:uuid:"));
    assert_eq!(Auid::from_urn(&urn).unwrap(), a);
}
