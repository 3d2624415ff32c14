use urn_rs::namespace::is_canonical_uuid;
use urn_rs::{Error, NgsiLd, NgsiLdParts, Urn, UrnBuilder, UrnNamespace, Uuid};

struct Isbn;

impl UrnNamespace for Isbn {
    const NID: &'static str = "isbn";
    type Parts<'a> = &'a str;
    fn parse_nss(nss: &str) -> Option<&str> {
        (!nss.is_empty()).then_some(nss)
    }
    fn nss_of<'a>(_parts: &&'a str) -> vstd::seq::Seq<char> {
        unreachable!()
    }
    fn write_nss(p: &&str, out: &mut String) {
        out.push_str(p);
    }
}

#[test]
fn ngsi_ld_roundtrip() {
    let u = Urn::try_from("urn:ngsi-ld:Vehicle:car1").unwrap();
    let p = u.as_ngsi_ld().unwrap();
    assert_eq!(p.type_, "Vehicle");
    assert_eq!(p.id, "car1");
    assert_eq!(u.ngsi_ld_type(), Some("Vehicle"));
    assert_eq!(u.ngsi_ld_id(), Some("car1"));

    let built = Urn::try_from_ngsi_ld("Vehicle", "car1").unwrap();
    assert_eq!(built.as_str(), "urn:ngsi-ld:Vehicle:car1");
}

#[test]
fn ngsi_ld_wrong_nid() {
    let u = Urn::try_from("urn:example:foo:bar").unwrap();
    assert_eq!(u.as_ngsi_ld(), None);
}

#[test]
fn ngsi_ld_no_colon() {
    let u = Urn::try_from("urn:ngsi-ld:lonely").unwrap();
    assert_eq!(u.as_ngsi_ld(), None);
}

#[test]
fn uuid_roundtrip_str() {
    let s = "f47ac10b-58cc-4372-a567-0e02b2c3d479";
    let u = Urn::try_from_uuid_str(s).unwrap();
    assert_eq!(u.as_str(), "urn:uuid:f47ac10b-58cc-4372-a567-0e02b2c3d479");
    assert_eq!(u.as_uuid_str(), Some(s));
}

#[test]
fn uuid_non_canonical() {
    let u = Urn::try_from("urn:uuid:notauuid").unwrap();
    assert_eq!(u.as_uuid_str(), None);
}

#[test]
fn uuid_typed_roundtrip() {
    let raw: uuid::Uuid = "f47ac10b-58cc-4372-a567-0e02b2c3d479".parse().unwrap();
    let u = Urn::try_from_uuid(*raw.as_bytes()).unwrap();
    assert_eq!(u.as_uuid(), Some(*raw.as_bytes()));
}

#[test]
fn custom_namespace_extensibility() {
    let u = Urn::try_from("urn:isbn:0451450523").unwrap();
    assert_eq!(u.parts::<Isbn>(), Some("0451450523"));
    let built = UrnBuilder::from_parts::<Isbn>("0451450523").unwrap();
    assert_eq!(built.as_str(), "urn:isbn:0451450523");
}

#[test]
fn ngsi_ld_id_keeps_later_colons() {
    let u = Urn::try_from("urn:ngsi-ld:Vehicle:fleet:car1").unwrap();
    assert_eq!(
        u.as_ngsi_ld(),
        Some(NgsiLdParts {
            type_: "Vehicle",
            id: "fleet:car1"
        })
    );
}

#[test]
fn ngsi_ld_nid_any_case() {
    let u = Urn::try_from("urn:NGSI-LD:Vehicle:car1").unwrap();
    assert_eq!(u.nid(), "ngsi-ld");
    assert_eq!(u.ngsi_ld_type(), Some("Vehicle"));
}

#[test]
fn ngsi_ld_empty_parts_rejected() {
    let u = Urn::try_from("urn:ngsi-ld::car1").unwrap();
    assert_eq!(u.as_ngsi_ld(), None);
    let u = Urn::try_from("urn:ngsi-ld:Vehicle:").unwrap();
    assert_eq!(u.ngsi_ld_id(), None);
}

#[test]
fn ngsi_ld_build_invalid_part() {
    assert_eq!(
        Urn::try_from_ngsi_ld("Vehicle", "car 1").err(),
        Some(Error::InvalidNss)
    );
    assert_eq!(Urn::try_from_ngsi_ld("", "car1").err(), None);
}

#[test]
fn ngsi_ld_build_then_parse() {
    let built = Urn::try_from_ngsi_ld("Road%2fSegment", "r-1").unwrap();
    assert_eq!(built.as_str(), "urn:ngsi-ld:Road%2FSegment:r-1");
    assert_eq!(built.ngsi_ld_type(), Some("Road%2FSegment"));
    assert_eq!(built.ngsi_ld_id(), Some("r-1"));
}

#[test]
fn uuid_str_uppercase_is_lowered() {
    let u = Urn::try_from_uuid_str("F47AC10B-58CC-4372-A567-0E02B2C3D479").unwrap();
    assert_eq!(u.as_str(), "urn:uuid:f47ac10b-58cc-4372-a567-0e02b2c3d479");
    let raw: uuid::Uuid = "f47ac10b-58cc-4372-a567-0e02b2c3d479".parse().unwrap();
    assert_eq!(u.as_uuid(), Some(*raw.as_bytes()));
}

#[test]
fn uuid_str_not_canonical_rejected() {
    assert_eq!(
        Urn::try_from_uuid_str("f47ac10b58cc4372a5670e02b2c3d479").err(),
        Some(Error::InvalidNss)
    );
    assert_eq!(
        Urn::try_from_uuid_str("f47ac10b-58cc-4372-a567-0e02b2c3d47g").err(),
        Some(Error::InvalidNss)
    );
}

#[test]
fn uuid_from_bytes_is_hyphenated_lowercase() {
    let bytes = [
        0x00, 0x01, 0x02, 0x03, 0x04, 0x05, 0x06, 0x07, 0x08, 0x09, 0x0a, 0x0b, 0xfc, 0xfd, 0xfe,
        0xff,
    ];
    let u = Urn::try_from_uuid(bytes).unwrap();
    assert_eq!(u.as_str(), "urn:uuid:00010203-0405-0607-0809-0a0bfcfdfeff");
    assert_eq!(u.as_uuid(), Some(bytes));
    assert_eq!(u.as_uuid_str(), Some("00010203-0405-0607-0809-0a0bfcfdfeff"));
}

#[test]
fn uuid_wrong_nid() {
    let u = Urn::try_from("urn:example:f47ac10b-58cc-4372-a567-0e02b2c3d479").unwrap();
    assert_eq!(u.as_uuid(), None);
    assert_eq!(u.as_uuid_str(), None);
    let u = Urn::try_from("urn:UUID:f47ac10b-58cc-4372-a567-0e02b2c3d479").unwrap();
    assert!(u.as_uuid().is_some());
}

#[test]
fn canonical_uuid_check() {
    assert!(is_canonical_uuid("f47ac10b-58cc-4372-a567-0e02b2c3d479"));
    assert!(is_canonical_uuid("F47AC10B-58CC-4372-A567-0E02B2C3D479"));
    assert!(!is_canonical_uuid("f47ac10b-58cc-4372-a567-0e02b2c3d47"));
    assert!(!is_canonical_uuid("f47ac10b-58cc-4372-a5670-e02b2c3d479"));
    assert!(!is_canonical_uuid(""));
}

#[test]
fn parts_requires_matching_nid() {
    let u = Urn::try_from("urn:example:0451450523").unwrap();
    assert_eq!(u.parts::<Isbn>(), None);
    let u = Urn::try_from("urn:ISBN:0451450523").unwrap();
    assert_eq!(u.as_slice().parts::<Isbn>(), Some("0451450523"));
}

#[test]
fn built_in_namespaces_through_parts() {
    let u = UrnBuilder::from_parts::<NgsiLd>(NgsiLdParts {
        type_: "Vehicle",
        id: "car1",
    })
    .unwrap();
    assert_eq!(u.as_str(), "urn:ngsi-ld:Vehicle:car1");
    assert_eq!(
        u.parts::<NgsiLd>(),
        Some(NgsiLdParts {
            type_: "Vehicle",
            id: "car1"
        })
    );
    let bytes = [0xab; 16];
    let u = UrnBuilder::from_parts::<Uuid>(bytes).unwrap();
    assert_eq!(u.as_str(), "urn:uuid:abababab-abab-abab-abab-abababababab");
    assert_eq!(u.parts::<Uuid>(), Some(bytes));
    assert_eq!(u.parts::<NgsiLd>(), None);
}

#[test]
fn from_parts_rejects_bad_nss() {
    assert_eq!(
        UrnBuilder::from_parts::<Isbn>("a b").err(),
        Some(Error::InvalidNss)
    );
    assert_eq!(UrnBuilder::from_parts::<Isbn>("").err(), Some(Error::InvalidNss));
}
