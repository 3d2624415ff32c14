use urn_rs::percent::{
    decode_f_component, decode_nss, decode_nss_iter, decode_q_component, decode_r_component,
    encode_f_component, encode_nss, encode_q_component, encode_r_component, scan_plain_run,
};
use urn_rs::tables::{build_byte_class, build_hex_val, PLAIN_PARSE};
use urn_rs::{Error, Urn, UrnBuilder};

fn scan_plain_scalar(class: &[u8; 256], bytes: &[u8], mut i: usize) -> usize {
    while i < bytes.len() && class[bytes[i] as usize] & PLAIN_PARSE != 0 {
        i += 1;
    }
    i
}

#[test]
fn swar_matches_scalar_all_prefixes() {
    // Deterministic pseudo-random buffer mixing plain and non-plain bytes.
    let mut buf = [0u8; 1024];
    let mut x: u32 = 0x1234_5678;
    for b in &mut buf {
        x = x.wrapping_mul(1_664_525).wrapping_add(1_013_904_223);
        *b = (x >> 16) as u8;
    }
    let class = build_byte_class();
    for len in 0..=buf.len() {
        for start in 0..=len {
            let a = scan_plain_run(&buf[..len], start);
            let b = scan_plain_scalar(&class, &buf[..len], start);
            assert_eq!(a, b, "mismatch at len={len} start={start}");
        }
    }
}

#[test]
fn swar_boundary_cases() {
    let all_plain = vec![b'A'; 33];
    assert_eq!(scan_plain_run(&all_plain, 0), 33);
    // Non-plain at every position across the 8-byte window boundary.
    for pos in 0..20 {
        let mut v = vec![b'A'; 20];
        v[pos] = b'#';
        assert_eq!(scan_plain_run(&v, 0), pos);
    }
}

#[test]
fn decode_doc_examples() {
    let urn = Urn::try_from("urn:example:string%20with%20spaces").unwrap();
    assert_eq!(decode_nss(urn.nss()).unwrap(), "string with spaces");
    let urn = Urn::try_from("urn:example:nss?+this%20is%20the%20r-component!").unwrap();
    assert_eq!(
        decode_r_component(urn.r_component().unwrap()).unwrap(),
        "this is the r-component!"
    );
    let urn = Urn::try_from("urn:example:nss?=this%20is%20the%20q-component!").unwrap();
    assert_eq!(
        decode_q_component(urn.q_component().unwrap()).unwrap(),
        "this is the q-component!"
    );
    let urn = Urn::try_from("urn:example:nss#f-component%20test").unwrap();
    assert_eq!(
        decode_f_component(urn.f_component().unwrap()).unwrap(),
        "f-component test"
    );
}

#[test]
fn decode_iter_doc_example() {
    let urn = Urn::try_from("urn:example:string%20with%20spaces").unwrap();
    let mut it = decode_nss_iter(urn.nss());
    let mut bytes = Vec::new();
    while let Some(b) = it.next() {
        bytes.push(b.unwrap());
    }
    assert_eq!(bytes, b"string with spaces");
}

#[test]
fn decode_iter_stops_after_error() {
    let mut it = decode_nss_iter("ab%zz");
    assert_eq!(it.next(), Some(Ok(b'a')));
    assert_eq!(it.next(), Some(Ok(b'b')));
    assert_eq!(it.next(), Some(Err(Error::InvalidNss)));
    assert_eq!(it.next(), None);
}

#[test]
fn decode_iter_yields_run_then_error() {
    let collect = |mut it: urn_rs::percent::DecodeIter<'_>| {
        let mut items = Vec::new();
        while let Some(x) = it.next() {
            items.push(x);
        }
        items
    };
    assert_eq!(
        collect(urn_rs::percent::decode_f_component_iter("?a%2fb")),
        vec![Ok(b'?'), Ok(b'a'), Ok(0x2F), Ok(b'b')]
    );
    assert_eq!(
        collect(urn_rs::percent::decode_q_component_iter("x%41/y#")),
        vec![Ok(b'x'), Ok(b'A'), Ok(b'/'), Ok(b'y'), Err(Error::InvalidQComponent)]
    );
    assert_eq!(
        collect(urn_rs::percent::decode_r_component_iter("/a")),
        vec![Err(Error::InvalidRComponent)]
    );
    assert_eq!(collect(decode_nss_iter("")), vec![]);
}

#[test]
fn decode_errors() {
    assert_eq!(decode_nss("a%2").err(), Some(Error::InvalidNss));
    assert_eq!(decode_nss("a?b").err(), Some(Error::InvalidNss));
    assert_eq!(decode_nss("%FF").err(), Some(Error::InvalidNss));
    assert_eq!(decode_r_component("?x").err(), Some(Error::InvalidRComponent));
    assert_eq!(decode_q_component("/x").err(), Some(Error::InvalidQComponent));
    assert_eq!(decode_f_component("a#b").err(), Some(Error::InvalidFComponent));
    assert_eq!(decode_f_component("?/x").unwrap(), "?/x");
}

#[test]
fn decode_multibyte() {
    assert_eq!(decode_nss("caf%C3%A9").unwrap(), "café");
    assert_eq!(decode_nss("caf%c3%a9").unwrap(), "café");
}

#[test]
fn encode_doc_examples() {
    assert_eq!(
        UrnBuilder::new("example", &encode_nss("test nss").unwrap())
            .build()
            .unwrap()
            .as_str(),
        "urn:example:test%20nss"
    );
    let r = encode_r_component("😂😂💯").unwrap();
    assert_eq!(
        UrnBuilder::new("example", "nss")
            .r_component(Some(&r))
            .build()
            .unwrap()
            .as_str(),
        "urn:example:nss?+%F0%9F%98%82%F0%9F%98%82%F0%9F%92%AF"
    );
    let q = encode_q_component("~q component~").unwrap();
    assert_eq!(
        UrnBuilder::new("example", "nss")
            .q_component(Some(&q))
            .build()
            .unwrap()
            .as_str(),
        "urn:example:nss?=%7Eq%20component%7E"
    );
    let f = encode_f_component("f-component (pretty much a fragment)").unwrap();
    assert_eq!(
        UrnBuilder::new("example", "nss")
            .f_component(Some(&f))
            .build()
            .unwrap()
            .as_str(),
        "urn:example:nss#f-component%20(pretty%20much%20a%20fragment)"
    );
}

#[test]
fn encode_empty_errors() {
    assert_eq!(encode_nss("").err(), Some(Error::InvalidNss));
    assert_eq!(encode_r_component("").err(), Some(Error::InvalidRComponent));
    assert_eq!(encode_q_component("").err(), Some(Error::InvalidQComponent));
    assert_eq!(encode_f_component("").unwrap(), "");
}

#[test]
fn encode_question_and_slash() {
    assert_eq!(encode_nss("a?b/c&d").unwrap(), "a%3Fb%2Fc%26d");
    assert_eq!(encode_r_component("?a?b?=").unwrap(), "%3Fa?b%3F=");
    assert_eq!(encode_q_component("?a?b/c").unwrap(), "%3Fa?b/c");
    assert_eq!(encode_q_component("/x").unwrap(), "%2Fx");
    assert_eq!(encode_f_component("?/#").unwrap(), "?/%23");
}

#[test]
fn percent_roundtrip_values() {
    for s in ["plain", "with space", "ünï/cødé?", "%already%", "a&b=c"] {
        assert_eq!(decode_nss(&encode_nss(s).unwrap()).unwrap(), s);
        assert_eq!(decode_r_component(&encode_r_component(s).unwrap()).unwrap(), s);
        assert_eq!(decode_q_component(&encode_q_component(s).unwrap()).unwrap(), s);
        assert_eq!(decode_f_component(&encode_f_component(s).unwrap()).unwrap(), s);
    }
}

#[test]
fn hex_table_values() {
    let t = build_hex_val();
    assert_eq!(t[b'0' as usize], 0);
    assert_eq!(t[b'9' as usize], 9);
    assert_eq!(t[b'a' as usize], 10);
    assert_eq!(t[b'F' as usize], 15);
    assert_eq!(t[b'g' as usize], 0xFF);
    assert_eq!(t[b'%' as usize], 0xFF);
}

#[test]
fn byte_class_values() {
    let c = build_byte_class();
    assert!(c[b'A' as usize] & PLAIN_PARSE != 0);
    assert!(c[b'~' as usize] & PLAIN_PARSE != 0);
    assert!(c[b'%' as usize] & PLAIN_PARSE == 0);
    assert!(c[b'?' as usize] & PLAIN_PARSE == 0);
    assert!(c[0x80] == 0);
}
