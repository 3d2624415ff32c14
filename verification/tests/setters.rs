use urn_rs::{Error, Urn, UrnBuilder, UrnSlice};

const MINIMAL: &str = "urn:example:1234:5678";
const ALL_COMPONENTS: &str = "urn:example:foo?+res:x?=a=1&b=2#frag";

#[test]
fn set_nid_replaces_and_lowercases() {
    let mut u = Urn::try_from(MINIMAL).unwrap();
    u.set_nid("Other-NID").unwrap();
    assert_eq!(u.as_str(), "urn:other-nid:1234:5678");
    assert_eq!(u.nid(), "other-nid");
    assert_eq!(u.nss(), "1234:5678");
}

#[test]
fn set_nid_invalid_keeps_urn() {
    let mut u = Urn::try_from(MINIMAL).unwrap();
    assert_eq!(u.set_nid("-x").err(), Some(Error::InvalidNid));
    assert_eq!(u.set_nid("x").err(), Some(Error::InvalidNid));
    assert_eq!(u.as_str(), MINIMAL);
}

#[test]
fn set_nss_replaces_and_normalizes() {
    let mut u = Urn::try_from(ALL_COMPONENTS).unwrap();
    u.set_nss("new-nss%2fvalue").unwrap();
    assert_eq!(u.as_str(), "urn:example:new-nss%2Fvalue?+res:x?=a=1&b=2#frag");
    assert_eq!(u.nss(), "new-nss%2Fvalue");
    assert_eq!(u.r_component(), Some("res:x"));
    assert_eq!(u.q_component(), Some("a=1&b=2"));
    assert_eq!(u.f_component(), Some("frag"));
}

#[test]
fn set_nss_invalid_keeps_urn() {
    let mut u = Urn::try_from(MINIMAL).unwrap();
    assert_eq!(u.set_nss("").err(), Some(Error::InvalidNss));
    assert_eq!(u.set_nss("a b").err(), Some(Error::InvalidNss));
    assert_eq!(u.set_nss("/abc").err(), Some(Error::InvalidNss));
    assert_eq!(u.set_nss("a?b").err(), Some(Error::InvalidNss));
    assert_eq!(u.as_str(), MINIMAL);
}

#[test]
fn set_r_component_add_replace_remove() {
    let mut u = Urn::try_from(MINIMAL).unwrap();
    u.set_r_component(Some("res:x")).unwrap();
    assert_eq!(u.as_str(), "urn:example:1234:5678?+res:x");
    u.set_r_component(Some("other")).unwrap();
    assert_eq!(u.as_str(), "urn:example:1234:5678?+other");
    u.set_r_component(None).unwrap();
    assert_eq!(u.as_str(), MINIMAL);
    u.set_r_component(None).unwrap();
    assert_eq!(u.as_str(), MINIMAL);

    let mut u = Urn::try_from(ALL_COMPONENTS).unwrap();
    u.set_r_component(None).unwrap();
    assert_eq!(u.as_str(), "urn:example:foo?=a=1&b=2#frag");
    assert_eq!(u.r_component(), None);
    assert_eq!(u.q_component(), Some("a=1&b=2"));
}

#[test]
fn set_r_component_invalid() {
    let mut u = Urn::try_from(ALL_COMPONENTS).unwrap();
    assert_eq!(u.set_r_component(Some("")).err(), Some(Error::InvalidRComponent));
    assert_eq!(u.set_r_component(Some("a?=b")).err(), Some(Error::InvalidRComponent));
    assert_eq!(u.set_r_component(Some("?a")).err(), Some(Error::InvalidRComponent));
    assert_eq!(u.as_str(), ALL_COMPONENTS);
}

#[test]
fn set_q_component_add_replace_remove() {
    let mut u = Urn::try_from(MINIMAL).unwrap();
    u.set_q_component(Some("a=1&b=2")).unwrap();
    assert_eq!(u.as_str(), "urn:example:1234:5678?=a=1&b=2");
    u.set_r_component(Some("r")).unwrap();
    assert_eq!(u.as_str(), "urn:example:1234:5678?+r?=a=1&b=2");
    u.set_q_component(Some("x?y")).unwrap();
    assert_eq!(u.as_str(), "urn:example:1234:5678?+r?=x?y");
    u.set_q_component(None).unwrap();
    assert_eq!(u.as_str(), "urn:example:1234:5678?+r");
}

#[test]
fn set_q_component_invalid() {
    let mut u = Urn::try_from(MINIMAL).unwrap();
    assert_eq!(u.set_q_component(Some("")).err(), Some(Error::InvalidQComponent));
    assert_eq!(u.set_q_component(Some("a#b")).err(), Some(Error::InvalidQComponent));
    assert_eq!(u.as_str(), MINIMAL);
}

#[test]
fn set_f_component_add_replace_remove() {
    let mut u = Urn::try_from(MINIMAL).unwrap();
    u.set_f_component(Some("frag")).unwrap();
    assert_eq!(u.as_str(), "urn:example:1234:5678#frag");
    let mut u = Urn::try_from(ALL_COMPONENTS).unwrap();
    u.set_f_component(Some("other-frag")).unwrap();
    assert_eq!(u.as_str(), "urn:example:foo?+res:x?=a=1&b=2#other-frag");
    u.set_f_component(Some("")).unwrap();
    assert_eq!(u.as_str(), "urn:example:foo?+res:x?=a=1&b=2#");
    u.set_f_component(None).unwrap();
    assert_eq!(u.as_str(), "urn:example:foo?+res:x?=a=1&b=2");
}

#[test]
fn set_f_component_invalid() {
    let mut u = Urn::try_from(MINIMAL).unwrap();
    assert_eq!(u.set_f_component(Some("a#b")).err(), Some(Error::InvalidFComponent));
    assert_eq!(u.set_f_component(Some("%4")).err(), Some(Error::InvalidFComponent));
    assert_eq!(u.as_str(), MINIMAL);
}

#[test]
fn setter_matches_builder() {
    let mut u = Urn::try_from(ALL_COMPONENTS).unwrap();
    u.set_nss("a%2fb").unwrap();
    let b = UrnBuilder::new("example", "a%2fb")
        .r_component(Some("res:x"))
        .q_component(Some("a=1&b=2"))
        .f_component(Some("frag"))
        .build()
        .unwrap();
    assert_eq!(u.as_str(), b.as_str());
}

#[test]
fn setter_on_mutable_buffer_in_place() {
    let mut buf = *b"urn:example:abcd";
    {
        let mut s = UrnSlice::try_from_mut(&mut buf).unwrap();
        s.set_nss("wxyz").unwrap();
        assert_eq!(s.as_str(), "urn:example:wxyz");
    }
    assert_eq!(&buf, b"urn:example:wxyz");
}

#[test]
fn setter_on_borrowed_text() {
    let mut s = UrnSlice::try_from("urn:example:abcd").unwrap();
    s.set_nss("longer-nss").unwrap();
    assert_eq!(s.as_str(), "urn:example:longer-nss");
    let again = UrnSlice::try_from(s.as_str()).unwrap();
    assert!(again == s);
}
