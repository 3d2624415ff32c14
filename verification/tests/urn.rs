use urn_rs::cow::has_ascii_upper;
use urn_rs::percent::{
    decode_f_component, decode_nss, decode_q_component, decode_r_component, encode_f_component,
    encode_nss, encode_q_component, encode_r_component,
};
use urn_rs::{Error, TriCow, Urn, UrnBuilder, UrnSlice};

#[test]
fn readme_example() {
    let u = Urn::try_from("urn:example:weather/zurich?+ttl=60#frag").unwrap();
    assert_eq!(u.nid(), "example");
    assert_eq!(u.nss(), "weather/zurich");
    assert_eq!(u.r_component(), Some("ttl=60"));
    assert_eq!(u.q_component(), None);
    assert_eq!(u.f_component(), Some("frag"));

    let built = UrnBuilder::new("isbn", "0451450523").build().unwrap();
    assert_eq!(built.as_str(), "urn:isbn:0451450523");
}

#[test]
fn parse_all_components() {
    let u = Urn::try_from("urn:example:a123,z456?+abc?=xyz#789").unwrap();
    assert_eq!(u.as_str(), "urn:example:a123,z456?+abc?=xyz#789");
    assert_eq!(u.nid(), "example");
    assert_eq!(u.nss(), "a123,z456");
    assert_eq!(u.r_component(), Some("abc"));
    assert_eq!(u.q_component(), Some("xyz"));
    assert_eq!(u.f_component(), Some("789"));
}

#[test]
fn parse_normalizes_scheme_nid_and_escapes() {
    let u = Urn::try_from("URN:EXAMPLE:a%2fb%c3%a9?+r%2a#f%7e").unwrap();
    assert_eq!(u.as_str(), "urn:example:a%2Fb%C3%A9?+r%2A#f%7E");
    assert_eq!(u.nss(), "a%2Fb%C3%A9");
}

#[test]
fn parse_errors_each_variant() {
    assert_eq!(Urn::try_from("urx:example:a").err(), Some(Error::InvalidScheme));
    assert_eq!(Urn::try_from("urn").err(), Some(Error::InvalidScheme));
    assert_eq!(Urn::try_from("urn:-example:a").err(), Some(Error::InvalidNid));
    assert_eq!(Urn::try_from("urn:e:a").err(), Some(Error::InvalidNid));
    assert_eq!(Urn::try_from("urn:ex_ample:a").err(), Some(Error::InvalidNid));
    assert_eq!(
        Urn::try_from("urn:a234567890123456789012345678901234:a").err(),
        Some(Error::InvalidNid)
    );
    assert_eq!(Urn::try_from("urn:example").err(), Some(Error::InvalidNss));
    assert_eq!(Urn::try_from("urn:example:").err(), Some(Error::InvalidNss));
    assert_eq!(Urn::try_from("urn:example:a b").err(), Some(Error::InvalidNss));
    assert_eq!(Urn::try_from("urn:example:a%zz").err(), Some(Error::InvalidNss));
    assert_eq!(Urn::try_from("urn:example:a?+").err(), Some(Error::InvalidRComponent));
    assert_eq!(Urn::try_from("urn:example:a?+b c").err(), Some(Error::InvalidRComponent));
    assert_eq!(Urn::try_from("urn:example:a?=").err(), Some(Error::InvalidQComponent));
    assert_eq!(Urn::try_from("urn:example:a?=b c").err(), Some(Error::InvalidQComponent));
    assert_eq!(Urn::try_from("urn:example:a#b#c").err(), Some(Error::InvalidFComponent));
}

#[test]
fn empty_f_component_allowed() {
    let u = Urn::try_from("urn:example:a#").unwrap();
    assert_eq!(u.f_component(), Some(""));
}

#[test]
fn equivalence_ignores_case_escapes_and_components() {
    let a = Urn::try_from("urn:example:a%2fb?+x").unwrap();
    let b = Urn::try_from("URN:Example:a%2Fb#y").unwrap();
    assert!(a == b);
    let c = Urn::try_from("urn:example:A%2fb").unwrap();
    assert!(a != c);
    let d = Urn::try_from("urn:other:a%2fb").unwrap();
    assert!(a != d);
}

#[test]
fn slice_borrowed_and_mutable() {
    let s = UrnSlice::try_from("urn:example:abc").unwrap();
    assert_eq!(s.as_str(), "urn:example:abc");
    let mut buf = *b"URN:EXAMPLE:a%2fb";
    {
        let m = UrnSlice::try_from_mut(&mut buf).unwrap();
        assert_eq!(m.as_str(), "urn:example:a%2Fb");
        assert!(m == UrnSlice::try_from("urn:example:a%2Fb").unwrap());
        assert!(m.equivalent(&UrnSlice::try_from("urn:EXAMPLE:a%2fb?=q").unwrap()));
    }
    assert_eq!(&buf, b"urn:example:a%2Fb");
}

#[test]
fn parse_of_output_is_identity() {
    for text in [
        "URN:Example:a%2fb?+r?=q#f",
        "urn:ngsi-ld:Vehicle:car1",
        "urn:isbn:0451450523",
    ] {
        let u = Urn::try_from(text).unwrap();
        let again = Urn::try_from(u.as_str()).unwrap();
        assert_eq!(again.as_str(), u.as_str());
    }
}

#[test]
fn builder_all_components() {
    let u = UrnBuilder::new("Example", "a%2fb")
        .r_component(Some("r"))
        .q_component(Some("q"))
        .f_component(Some("f"))
        .build()
        .unwrap();
    assert_eq!(u.as_str(), "urn:example:a%2Fb?+r?=q#f");
    let again = Urn::try_from(u.as_str()).unwrap();
    assert_eq!(again.as_str(), u.as_str());
    let u = UrnBuilder::new("example", "a")
        .nid("other")
        .nss("b")
        .f_component(Some(""))
        .build()
        .unwrap();
    assert_eq!(u.as_str(), "urn:other:b#");
}

#[test]
fn builder_errors_each_variant() {
    assert_eq!(UrnBuilder::new("x", "a").build().err(), Some(Error::InvalidNid));
    assert_eq!(UrnBuilder::new("example", "").build().err(), Some(Error::InvalidNss));
    assert_eq!(UrnBuilder::new("example", "a?b").build().err(), Some(Error::InvalidNss));
    assert_eq!(
        UrnBuilder::new("example", "a").r_component(Some("")).build().err(),
        Some(Error::InvalidRComponent)
    );
    assert_eq!(
        UrnBuilder::new("example", "a").r_component(Some("b?=c")).build().err(),
        Some(Error::InvalidRComponent)
    );
    assert_eq!(
        UrnBuilder::new("example", "a").q_component(Some("")).build().err(),
        Some(Error::InvalidQComponent)
    );
    assert_eq!(
        UrnBuilder::new("example", "a").q_component(Some("b#c")).build().err(),
        Some(Error::InvalidQComponent)
    );
    assert_eq!(
        UrnBuilder::new("example", "a").f_component(Some("b#c")).build().err(),
        Some(Error::InvalidFComponent)
    );
}

#[test]
fn tricow_case_changes() {
    let mut c = TriCow::Borrowed(b"abcDEF");
    c.make_uppercase(0..3).unwrap();
    assert_eq!(c.as_bytes(), b"ABCDEF");
    assert!(matches!(c, TriCow::Owned(_)));
    let mut c = TriCow::Borrowed(b"abcDEF");
    c.make_lowercase(0..3).unwrap();
    assert!(matches!(c, TriCow::Borrowed(_)));
    c.make_lowercase(3..6).unwrap();
    assert_eq!(c.as_bytes(), b"abcdef");
    let mut c = TriCow::Borrowed(b"abc");
    c.replace_range(1..2, b"XYZ").unwrap();
    assert_eq!(c.as_bytes(), b"aXYZc");
    assert_eq!(c.len(), 5);
}

#[test]
fn swar_upper_detection() {
    assert!(!has_ascii_upper(b"abcdefghijklmnop"));
    assert!(has_ascii_upper(b"abcdefghijklmnoP"));
    assert!(has_ascii_upper(b"Z"));
    assert!(!has_ascii_upper(b"@[`{"));
}

#[test]
fn readme_parse_form() {
    let u: Urn = "urn:example:weather/zurich?+ttl=60#frag".parse().unwrap();
    assert_eq!(u.nid(), "example");
    assert_eq!(u.nss(), "weather/zurich");
    let e: Result<Urn, Error> = "urn:".parse();
    assert_eq!(e.err(), Some(Error::InvalidNid));
}

#[test]
fn scheme_and_nid_case_ignored() {
    let a = Urn::try_from("UrN:ExAmPlE:Nss").unwrap();
    let b = Urn::try_from("urn:example:Nss").unwrap();
    assert_eq!(a.as_str(), b.as_str());
    assert_eq!(a.as_str(), "urn:example:Nss");
    assert_eq!(
        Urn::try_from("URN:EX_AMPLE:x").err(),
        Urn::try_from("urn:ex_ample:x").err()
    );
}

#[test]
fn encoded_parts_always_build() {
    for (n0, r0, q0, f0) in [
        ("a b/c?", "?=x", "?y#", "#z%"),
        ("ü", "/?", "/", ""),
        ("%", "=", "?", "?"),
    ] {
        let nss = encode_nss(n0).unwrap();
        let r = encode_r_component(r0).unwrap();
        let q = encode_q_component(q0).unwrap();
        let f = encode_f_component(f0).unwrap();
        let u = UrnBuilder::new("example", &nss)
            .r_component(Some(&r))
            .q_component(Some(&q))
            .f_component(Some(&f))
            .build()
            .unwrap();
        assert_eq!(u.nss(), nss);
        assert_eq!(u.r_component(), Some(r.as_str()));
        assert_eq!(u.q_component(), Some(q.as_str()));
        assert_eq!(u.f_component(), Some(f.as_str()));
        let again = Urn::try_from(u.as_str()).unwrap();
        assert_eq!(again.as_str(), u.as_str());
        assert_eq!(decode_nss(u.nss()).unwrap(), n0);
        assert_eq!(decode_r_component(u.r_component().unwrap()).unwrap(), r0);
        assert_eq!(decode_q_component(u.q_component().unwrap()).unwrap(), q0);
        assert_eq!(decode_f_component(u.f_component().unwrap()).unwrap(), f0);
    }
}

#[test]
fn equivalence_is_symmetric_and_transitive() {
    let a = Urn::try_from("urn:example:x%2a?+1").unwrap();
    let b = Urn::try_from("URN:EXAMPLE:x%2A?=2").unwrap();
    let c = Urn::try_from("urn:Example:x%2A#3").unwrap();
    assert!(a == a);
    assert!(a == b && b == a);
    assert!(b == c && a == c);
}

#[test]
fn order_by_nid_then_nss() {
    let a = Urn::try_from("urn:ab:zzz").unwrap();
    let b = Urn::try_from("urn:ab-c:aaa").unwrap();
    let c = Urn::try_from("urn:AB:zzz?+r").unwrap();
    assert!(a < b);
    assert!(b > a);
    assert_eq!(a.partial_cmp(&c), Some(std::cmp::Ordering::Equal));
    assert!(Urn::try_from("urn:ab:a").unwrap() < Urn::try_from("urn:ab:b").unwrap());
    assert!(Urn::try_from("urn:ab:a").unwrap() < Urn::try_from("urn:ab:aa").unwrap());
    let s = UrnSlice::try_from("urn:ab:a%2f").unwrap();
    let t = UrnSlice::try_from("urn:ab:a%2F#x").unwrap();
    assert!(s <= t && s >= t);
}
