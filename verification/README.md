# urn-rs

Parsing, building, comparing and percent-encoding of
[RFC 8141](https://datatracker.ietf.org/doc/html/rfc8141) /
[RFC 2141](https://datatracker.ietf.org/doc/html/rfc2141) URNs, verified with
Verus.

```rust
use urn_rs::{Urn, UrnBuilder};

let u: Urn = "urn:example:weather/zurich?+ttl=60#frag".parse()?;
assert_eq!(u.nid(), "example");
assert_eq!(u.nss(), "weather/zurich");

let built = UrnBuilder::new("isbn", "0451450523").build()?;
assert_eq!(built.as_str(), "urn:isbn:0451450523");
```

## Layout

- `src/syntax.rs`: the model of a URN (`UrnView`), what parsing
  (`parse_urn_spec`) and building (`build_spec`) give, and the laws relating
  them.
- `src/urn.rs`: `UrnSlice` (borrowed or owned text), `Urn` (owned),
  `UrnBuilder` and the setters, with contracts over that model.
- `src/percent.rs`: the component scanner, percent-decoding (`decode_*`,
  `DecodeIter`) and percent-encoding (`encode_*`).
- `src/namespace.rs`: the `UrnNamespace` trait and the NGSI-LD and UUID
  namespaces (the latter through the `uuid` crate).
- `src/order.rs`: `PartialOrd` for URNs, by NID and then NSS.
- `src/cow.rs`: `TriCow`, the owned / borrowed / mutably borrowed text.
- `src/tables.rs`, `src/text.rs`, `src/error.rs`: byte classes, UTF-8 helpers,
  errors.
- `app/lib.rs`: the standard traits the library types cannot carry
  (`Display`, `std::error::Error`, `Iterator`) on small wrapper types.

## What is proved

Every public function has a contract over `UrnView`. Among the proved laws:

- parsing the text of a parsed URN gives the same URN (`law_parse_idempotent`);
- the text of a built URN parses back to it (`law_build_parses_back`), and a
  builder fed percent-encoded parts always builds (`law_build_encoded`);
- the builder checks each part on its own (`law_build_parts_alone`), and each
  setter leaves the URN the builder would make with the new part;
- the scheme and NID are read without case (`law_parse_ignores_head_case`);
- percent-decoding undoes percent-encoding (`law_percent_roundtrip`);
- NGSI-LD and UUID parts read back what was built (`law_ngsi_ld_roundtrip`,
  `law_uuid_bytes_roundtrip`, `law_uuid_text_roundtrip`);
- equivalence is an equivalence relation and the order agrees with it
  (`law_equivalence`, `law_urn_order`).
- `UrnSlice::try_from` keeps borrowed text borrowed when nothing needed
  normalizing, and copies it only otherwise (`keeps_storage`);
- a `DecodeIter` yields the decoded bytes of the longest well-formed run,
  then one error exactly when the component is malformed
  (`law_decode_items`, `DecodeIter::spec_remaining`);
- `UrnBuilder::from_parts` builds from exactly the NSS that the namespace's
  `write_nss` writes (`UrnNamespace::nss_of`).
