//! Namespaces whose NSS has internal structure: NGSI-LD (`urn:ngsi-ld:<Type>:<Id>`)
//! and UUID (`urn:uuid:<uuid>`), and the `UrnNamespace` trait for others.
use crate::cow::lower_range;
use crate::error::{Error, Result};
use crate::percent::{lemma_scan_component, lemma_scan_no_pct, scan_component, PctEncoded};
use crate::tables::{
    ascii_lower, ascii_upper, hex_value, is_hex_digit, is_hex_digit_byte, is_parse_plain, is_upper,
    lower_all, to_ascii_lower, B_COLON, B_HYPHEN, B_PERCENT,
};
use crate::text::{all_ascii, ascii_chars, lemma_ascii_str};
use crate::syntax::{
    assemble, build_spec, find_colon, is_valid_nid, lemma_build_plain, lemma_find_colon_at,
    matches_view, urn_prefix, UrnView,
};
use crate::urn::{Urn, UrnBuilder, UrnSlice};
use vstd::prelude::*;
use vstd::string::{StringExecFns, StringSliceAdditionalSpecFns};
use vstd::utf8::{encode_utf8, is_char_boundary, is_continuation_byte};

verus! {

/// A URN namespace with a structured NSS.
///
/// Implement this for a marker type to enable [`UrnSlice::parts`] and
/// [`UrnBuilder::from_parts`] for URNs in that namespace.
pub trait UrnNamespace {
    /// The namespace identifier (NID). Must be ASCII lowercase.
    const NID: &'static str;

    /// The structured representation of the NSS. `'a` is the lifetime of the
    /// borrowed URN.
    type Parts<'a>;

    /// Parses an already validated NSS. Returns `None` if the NSS does not
    /// have this namespace's shape.
    fn parse_nss(nss: &str) -> Option<Self::Parts<'_>>;

    /// The NSS text that `write_nss` writes for `parts`.
    spec fn nss_of<'a>(parts: &Self::Parts<'a>) -> Seq<char>;

    /// Writes the NSS for `parts` into `out`, which is empty on entry. The
    /// result must round-trip through [`UrnNamespace::parse_nss`] and pass the
    /// crate's NSS validator.
    fn write_nss(parts: &Self::Parts<'_>, out: &mut String)
        ensures
            final(out)@ == old(out)@ + Self::nss_of(parts),
    ;
}

/// Whether `a` and `b` are equal when ASCII letters are compared without case.
pub open spec fn eq_ignore_ascii_case(a: Seq<u8>, b: Seq<u8>) -> bool {
    a.len() == b.len() && forall|i: int| 0 <= i < a.len() ==> ascii_lower(#[trigger] a[i])
        == ascii_lower(b[i])
}

fn bytes_eq_ignore_ascii_case(a: &[u8], b: &[u8]) -> (r: bool)
    ensures
        r == eq_ignore_ascii_case(a@, b@),
{
    if a.len() != b.len() {
        return false;
    }
    let mut i: usize = 0;
    while i < a.len()
        invariant
            a@.len() == b@.len(),
            i <= a@.len(),
            forall|k: int| 0 <= k < i ==> ascii_lower(#[trigger] a@[k]) == ascii_lower(b@[k]),
        decreases a@.len() - i,
    {
        if to_ascii_lower(a[i]) != to_ascii_lower(b[i]) {
            return false;
        }
        i += 1;
    }
    true
}

impl<'a> UrnSlice<'a> {
    /// Decodes the NSS according to `N`. Returns `None` if the NID does not
    /// match `N::NID` (ignoring case); else what `N::parse_nss` gives for the
    /// NSS, which is `None` if the NSS does not have `N`'s shape.
    pub fn parts<N: UrnNamespace>(&self) -> (r: Option<N::Parts<'_>>)
        ensures
            !eq_ignore_ascii_case(self@.nid(), N::NID.spec_bytes()) ==> r is None,
            eq_ignore_ascii_case(self@.nid(), N::NID.spec_bytes()) ==> exists|s: &str|
                s.spec_bytes() == self@.nss() && #[trigger] call_ensures(N::parse_nss, (s,), r),
    {
        let nid = self.nid();
        let ghost nb = self@.nid();
        proof {
            lemma_wf_parts_ascii(self@);
            lemma_ascii_str(nid, nb);
        }
        if !bytes_eq_ignore_ascii_case(nid.as_bytes(), N::NID.as_bytes()) {
            return None;
        }
        N::parse_nss(self.nss())
    }
}

/// The NID and NSS of a well-formed URN are ASCII.
proof fn lemma_wf_parts_ascii(v: UrnView)
    requires
        v.wf(),
    ensures
        all_ascii(v.nid()),
        all_ascii(v.nss()),
{
    assert forall|i: int| 0 <= i < v.nid().len() implies #[trigger] v.nid()[i] < 0x80 by {
        assert(v.nid()[i] == v.text[4 + i]);
    }
    assert forall|i: int| 0 <= i < v.nss().len() implies #[trigger] v.nss()[i] < 0x80 by {
        assert(v.nss()[i] == v.text[v.nss_start() + i]);
    }
}

impl<'a> UrnBuilder<'a> {
    /// Builds a [`Urn`] from the structured parts of namespace `N`.
    ///
    /// The NSS that `N` writes goes through the builder's NSS validator, so
    /// malformed output of an implementation is caught here.
    ///
    /// # Errors
    /// Returns an error if the composed NSS fails validation.
    pub fn from_parts<N: UrnNamespace>(parts: N::Parts<'_>) -> (r: Result<Urn>)
        ensures
            matches_view(
                r,
                build_spec(N::NID.spec_bytes(), encode_utf8(N::nss_of(&parts)), None, None, None),
            ),
    {
        let mut nss = String::new();
        N::write_nss(&parts, &mut nss);
        assert(nss@ =~= N::nss_of(&parts));
        let text = nss.as_str();
        UrnBuilder::new(N::NID, text).build()
    }
}

// --- ngsi-ld ---------------------------------------------------------------

/// The ETSI NGSI-LD namespace: `urn:ngsi-ld:<Type>:<Id>`.
pub struct NgsiLd;

/// Structured parts of an NGSI-LD URN.
#[derive(Debug, Clone, Copy, PartialEq, Eq)]
pub struct NgsiLdParts<'a> {
    /// Entity type, e.g. `Vehicle`.
    pub type_: &'a str,
    /// Entity id, e.g. `car1`. May itself contain `:`; everything after the
    /// first `:` is the id.
    pub id: &'a str,
}

/// The bytes of `ngsi-ld`.
pub open spec fn ngsi_ld_nid() -> Seq<u8> {
    seq![0x6Eu8, 0x67u8, 0x73u8, 0x69u8, 0x2Du8, 0x6Cu8, 0x64u8]
}

/// An NGSI-LD NSS split at its first `:` into a non-empty type and a
/// non-empty id, or `None`.
pub open spec fn ngsi_ld_split(b: Seq<u8>) -> Option<(Seq<u8>, Seq<u8>)> {
    let c = find_colon(b, 0);
    if c >= b.len() || c == 0 || c + 1 == b.len() {
        None
    } else {
        Some((b.subrange(0, c), b.subrange(c + 1, b.len() as int)))
    }
}

/// An index of an ASCII byte, and the index after it, are character
/// boundaries of a string.
proof fn lemma_ascii_boundary(s: &str, c: int)
    requires
        0 <= c < s.spec_bytes().len(),
        s.spec_bytes()[c] < 0x80,
    ensures
        is_char_boundary(s.spec_bytes(), c),
{
    let b = s.spec_bytes();
    vstd::utf8::encode_utf8_valid_utf8(s@);
    let x = b[c];
    assert(!is_continuation_byte(x)) by (bit_vector)
        requires
            x < 0x80,
    ;
    vstd::utf8::is_char_boundary_iff_not_is_continuation_byte(b, c);
}

impl UrnNamespace for NgsiLd {
    const NID: &'static str = "ngsi-ld";

    type Parts<'a> = NgsiLdParts<'a>;

    fn parse_nss(nss: &str) -> (r: Option<NgsiLdParts<'_>>)
        ensures
            match ngsi_ld_split(nss.spec_bytes()) {
                Some((t, i)) => r matches Some(p) && p.type_.spec_bytes() == t
                    && p.id.spec_bytes() == i,
                None => r is None,
            },
    {
        let b = nss.as_bytes();
        let n = b.len();
        let mut c: usize = 0;
        while c < n && b[c] != B_COLON
            invariant
                b@ == nss.spec_bytes(),
                n == b@.len(),
                c <= n,
                find_colon(b@, 0) == find_colon(b@, c as int),
            decreases n - c,
        {
            c += 1;
        }
        assert(find_colon(b@, c as int) == c);
        if c == n || c == 0 || c + 1 == n {
            return None;
        }
        proof {
            lemma_ascii_boundary(nss, c as int);
        }
        let (t, rest) = nss.split_at(c);
        proof {
            let rb = rest.spec_bytes();
            vstd::utf8::encode_utf8_valid_utf8(rest@);
            assert(rb[0] == B_COLON);
            lemma_ascii_boundary(rest, 0);
            assert(vstd::utf8::length_of_first_scalar(rb) == 1);
            assert(vstd::utf8::pop_first_scalar(rb) =~= rb.subrange(1, rb.len() as int));
            vstd::utf8::valid_utf8_split(rb, 0);
            reveal_with_fuel(is_char_boundary, 2);
            assert(is_char_boundary(rb, 1));
        }
        let (_colon, id) = rest.split_at(1);
        assert(id.spec_bytes() =~= b@.subrange(c + 1, n as int));
        Some(NgsiLdParts { type_: t, id })
    }

    open spec fn nss_of<'a>(p: &NgsiLdParts<'a>) -> Seq<char> {
        p.type_@ + seq![':'] + p.id@
    }

    fn write_nss(p: &NgsiLdParts<'_>, out: &mut String)
        ensures
            final(out)@ == old(out)@ + p.type_@ + seq![':'] + p.id@,
    {
        out.append(p.type_);
        proof {
            reveal_strlit(":");
        }
        out.append(":");
        out.append(p.id);
    }
}

/// What `as_ngsi_ld` gives for a URN: the parts when the NID is `ngsi-ld`
/// (in any case) and the NSS splits, else `None`.
pub open spec fn ngsi_ld_parts_of(v: UrnView) -> Option<(Seq<u8>, Seq<u8>)> {
    if eq_ignore_ascii_case(v.nid(), ngsi_ld_nid()) {
        ngsi_ld_split(v.nss())
    } else {
        None
    }
}

/// Two byte strings that are equal match without case too.
proof fn lemma_eq_ignore_case_refl(a: Seq<u8>)
    ensures
        eq_ignore_ascii_case(a, a),
{
}

/// Building an NGSI-LD URN from a type without `:` and two non-empty parts,
/// then reading the parts back, gives the parts as given, up to the case of
/// the hex digits of their percent-encodings, which the URN normalizes; and
/// exactly as given when they hold no `%`.
pub proof fn law_ngsi_ld_roundtrip(t: Seq<u8>, i: Seq<u8>)
    requires
        t.len() > 0,
        i.len() > 0,
        forall|k: int| 0 <= k < t.len() ==> #[trigger] t[k] != B_COLON,
        build_spec(ngsi_ld_nid(), t + seq![B_COLON] + i, None, None, None) is Ok,
    ensures
        ({
            let v = build_spec(ngsi_ld_nid(), t + seq![B_COLON] + i, None, None, None).unwrap();
            &&& ngsi_ld_parts_of(v) matches Some((t2, i2))
            &&& t2.len() == t.len()
            &&& i2.len() == i.len()
            &&& forall|k: int| 0 <= k < t.len() ==> ascii_upper(#[trigger] t2[k]) == ascii_upper(t[k])
            &&& forall|k: int| 0 <= k < i.len() ==> ascii_upper(#[trigger] i2[k]) == ascii_upper(i[k])
            &&& (forall|k: int| 0 <= k < t.len() ==> #[trigger] t[k] != B_PERCENT) && (forall|k: int|
                0 <= k < i.len() ==> #[trigger] i[k] != B_PERCENT) ==> t2 == t && i2 == i
        }),
{
    let nid = ngsi_ld_nid();
    let nss = t + seq![B_COLON] + i;
    let text = assemble(nid, nss, None, None, None);
    let ns = 5 + nid.len() as int;
    let ne = ns + nss.len() as int;
    let (e1, t1) = scan_component(text, ns, ns, PctEncoded::Nss);
    lemma_scan_component(text, ns, ns, PctEncoded::Nss);
    let v = build_spec(nid, nss, None, None, None).unwrap();
    assert(v.text == lower_range(t1, 4, 4 + nid.len() as int));
    assert(text =~= urn_prefix() + nid + seq![B_COLON] + nss);
    assert forall|k: int| 0 <= k < nid.len() implies #[trigger] v.nid()[k] == nid[k] by {
        assert(text[4 + k] == nid[k]);
    }
    assert(v.nid() =~= nid);
    lemma_eq_ignore_case_refl(nid);
    let n2 = v.nss();
    assert forall|k: int| 0 <= k < nss.len() implies (#[trigger] n2[k] == nss[k] || n2[k]
        == ascii_upper(nss[k])) by {
        assert(text[ns + k] == nss[k]);
        assert(n2[k] == t1[ns + k]);
    }
    let c = t.len() as int;
    assert(nss[c] == B_COLON);
    assert forall|k: int| 0 <= k < c implies #[trigger] n2[k] != B_COLON by {
        assert(nss[k] == t[k]);
    }
    lemma_find_colon_at(n2, 0, c);
    let t2 = n2.subrange(0, c);
    let i2 = n2.subrange(c + 1, n2.len() as int);
    assert(ngsi_ld_parts_of(v) == Some((t2, i2)));
    assert forall|k: int| 0 <= k < t.len() implies ascii_upper(#[trigger] t2[k]) == ascii_upper(
        t[k],
    ) by {
        assert(nss[k] == t[k]);
    }
    assert forall|k: int| 0 <= k < i.len() implies ascii_upper(#[trigger] i2[k]) == ascii_upper(
        i[k],
    ) by {
        assert(nss[c + 1 + k] == i[k]);
    }
    if (forall|k: int| 0 <= k < t.len() ==> #[trigger] t[k] != B_PERCENT) && (forall|k: int|
        0 <= k < i.len() ==> #[trigger] i[k] != B_PERCENT) {
        assert forall|j: int| ns <= j < e1 implies #[trigger] text[j] != B_PERCENT by {
            let k = j - ns;
            if k < c {
                assert(nss[k] == t[k]);
            } else if k > c {
                assert(nss[k] == i[k - c - 1]);
            }
        }
        lemma_scan_no_pct(text, ns, ns, PctEncoded::Nss);
        assert forall|k: int| 0 <= k < nss.len() implies #[trigger] n2[k] == nss[k] by {
            assert(text[ns + k] == nss[k]);
        }
        assert(t2 =~= t);
        assert(i2 =~= i);
    }
}

proof fn lemma_ngsi_ld_nid()
    ensures
        <NgsiLd as UrnNamespace>::NID.spec_bytes() == ngsi_ld_nid(),
{
    reveal_strlit("ngsi-ld");
    assert(<NgsiLd as UrnNamespace>::NID@ =~= ascii_chars(ngsi_ld_nid()));
    lemma_ascii_str(<NgsiLd as UrnNamespace>::NID, ngsi_ld_nid());
}

impl<'a> UrnSlice<'a> {
    /// Parses this URN as an NGSI-LD URN. Returns `None` if the NID isn't
    /// `ngsi-ld` or the NSS does not split at a `:` into two non-empty parts.
    pub fn as_ngsi_ld(&self) -> (r: Option<NgsiLdParts<'_>>)
        ensures
            match ngsi_ld_parts_of(self@) {
                Some((t, i)) => r matches Some(p) && p.type_.spec_bytes() == t
                    && p.id.spec_bytes() == i,
                None => r is None,
            },
    {
        let nid = self.nid();
        proof {
            lemma_wf_parts_ascii(self@);
            lemma_ascii_str(nid, self@.nid());
            lemma_ngsi_ld_nid();
        }
        if !bytes_eq_ignore_ascii_case(nid.as_bytes(), NgsiLd::NID.as_bytes()) {
            return None;
        }
        let nss = self.nss();
        proof {
            lemma_ascii_str(nss, self@.nss());
        }
        NgsiLd::parse_nss(nss)
    }

    /// NGSI-LD entity type, or `None`.
    pub fn ngsi_ld_type(&self) -> (r: Option<&str>)
        ensures
            match ngsi_ld_parts_of(self@) {
                Some((t, i)) => r matches Some(x) && x.spec_bytes() == t,
                None => r is None,
            },
    {
        match self.as_ngsi_ld() {
            Some(p) => Some(p.type_),
            None => None,
        }
    }

    /// NGSI-LD entity id, or `None`.
    pub fn ngsi_ld_id(&self) -> (r: Option<&str>)
        ensures
            match ngsi_ld_parts_of(self@) {
                Some((t, i)) => r matches Some(x) && x.spec_bytes() == i,
                None => r is None,
            },
    {
        match self.as_ngsi_ld() {
            Some(p) => Some(p.id),
            None => None,
        }
    }
}

impl Urn {
    /// Builds `urn:ngsi-ld:<type_>:<id>`. Both parts must already be
    /// percent-encoded by the NSS rules.
    ///
    /// # Errors
    /// Returns an error if `type_` or `id` holds bytes that are not valid in
    /// an NSS.
    pub fn try_from_ngsi_ld(type_: &str, id: &str) -> (r: Result<Urn>)
        ensures
            matches_view(
                r,
                build_spec(
                    ngsi_ld_nid(),
                    type_.spec_bytes() + seq![B_COLON] + id.spec_bytes(),
                    None,
                    None,
                    None,
                ),
            ),
    {
        let mut nss = String::new();
        NgsiLd::write_nss(&NgsiLdParts { type_, id }, &mut nss);
        proof {
            reveal_strlit(":");
            lemma_ngsi_ld_nid();
            assert(":"@ =~= ascii_chars(seq![B_COLON]));
            lemma_ascii_str(":", seq![B_COLON]);
            crate::text::lemma_encode_utf8_concat(type_@, seq![':']);
            crate::text::lemma_encode_utf8_concat(type_@ + seq![':'], id@);
            assert(seq![':'] =~= ":"@);
            assert(nss@ =~= type_@ + ":"@ + id@);
        }
        let text = nss.as_str();
        UrnBuilder::new(NgsiLd::NID, text).build()
    }

    /// Parses this URN as an NGSI-LD URN; see [`UrnSlice::as_ngsi_ld`].
    pub fn as_ngsi_ld(&self) -> (r: Option<NgsiLdParts<'_>>)
        ensures
            match ngsi_ld_parts_of(self@) {
                Some((t, i)) => r matches Some(p) && p.type_.spec_bytes() == t
                    && p.id.spec_bytes() == i,
                None => r is None,
            },
    {
        self.as_slice().as_ngsi_ld()
    }

    /// NGSI-LD entity type, or `None`.
    pub fn ngsi_ld_type(&self) -> (r: Option<&str>)
        ensures
            match ngsi_ld_parts_of(self@) {
                Some((t, i)) => r matches Some(x) && x.spec_bytes() == t,
                None => r is None,
            },
    {
        self.as_slice().ngsi_ld_type()
    }

    /// NGSI-LD entity id, or `None`.
    pub fn ngsi_ld_id(&self) -> (r: Option<&str>)
        ensures
            match ngsi_ld_parts_of(self@) {
                Some((t, i)) => r matches Some(x) && x.spec_bytes() == i,
                None => r is None,
            },
    {
        self.as_slice().ngsi_ld_id()
    }

    /// Decodes the NSS according to `N`; see [`UrnSlice::parts`].
    pub fn parts<N: UrnNamespace>(&self) -> (r: Option<N::Parts<'_>>)
        ensures
            !eq_ignore_ascii_case(self@.nid(), N::NID.spec_bytes()) ==> r is None,
            eq_ignore_ascii_case(self@.nid(), N::NID.spec_bytes()) ==> exists|s: &str|
                s.spec_bytes() == self@.nss() && #[trigger] call_ensures(N::parse_nss, (s,), r),
    {
        self.as_slice().parts::<N>()
    }
}

// --- uuid ------------------------------------------------------------------

/// The RFC 4122 UUID namespace: `urn:uuid:<uuid>`, canonical 8-4-4-4-12 hex
/// form only. Its parts are the 16 bytes of the UUID.
pub struct Uuid;

/// The bytes of `uuid`.
pub open spec fn uuid_nid() -> Seq<u8> {
    seq![0x75u8, 0x75u8, 0x69u8, 0x64u8]
}

/// The indices of the hyphens of the canonical form.
pub open spec fn is_uuid_hyphen_pos(i: int) -> bool {
    i == 8 || i == 13 || i == 18 || i == 23
}

/// The byte at `i` is what the canonical form has there: a `-` at a hyphen
/// index, a hex digit elsewhere.
pub open spec fn uuid_char_ok(b: Seq<u8>, i: int) -> bool {
    if is_uuid_hyphen_pos(i) {
        b[i] == B_HYPHEN
    } else {
        is_hex_digit(b[i])
    }
}

/// The canonical 8-4-4-4-12 text of a UUID, in either case.
pub open spec fn canonical_uuid(b: Seq<u8>) -> bool {
    b.len() == 36 && forall|i: int| 0 <= i < 36 ==> #[trigger] uuid_char_ok(b, i)
}

/// The index in the canonical text of hex digit `k` (0 to 31).
pub open spec fn uuid_digit_pos(k: int) -> int {
    if k < 8 {
        k
    } else if k < 12 {
        k + 1
    } else if k < 16 {
        k + 2
    } else if k < 20 {
        k + 3
    } else {
        k + 4
    }
}

/// Which hex digit the character at index `i` of the canonical text is.
pub open spec fn uuid_digit_index(i: int) -> int {
    if i < 8 {
        i
    } else if i < 13 {
        i - 1
    } else if i < 18 {
        i - 2
    } else if i < 23 {
        i - 3
    } else {
        i - 4
    }
}

/// The 16 bytes that a canonical UUID text stands for: byte `j` is the value
/// of hex digits `2j` (high nibble) and `2j + 1` (low nibble).
pub open spec fn uuid_bytes_of(b: Seq<u8>) -> Seq<u8> {
    Seq::new(
        16,
        |j: int|
            (hex_value(b[uuid_digit_pos(2 * j)]) * 16 + hex_value(b[uuid_digit_pos(2 * j + 1)])) as u8,
    )
}

/// The lowercase hex digit of a value below 16.
pub open spec fn hex_digit_lower(v: u8) -> u8 {
    if v < 10 {
        (0x30 + v) as u8
    } else {
        (0x57 + v) as u8
    }
}

/// Nibble `k` of `u`, high nibble of each byte first.
pub open spec fn uuid_nibble(u: Seq<u8>, k: int) -> u8 {
    if k % 2 == 0 {
        u[k / 2] / 16
    } else {
        u[k / 2] % 16
    }
}

/// The lowercase hyphenated text of the 16 bytes `u`.
pub open spec fn uuid_hyphenated(u: Seq<u8>) -> Seq<u8> {
    Seq::new(
        36,
        |i: int|
            if is_uuid_hyphen_pos(i) {
                B_HYPHEN
            } else {
                hex_digit_lower(uuid_nibble(u, uuid_digit_index(i)))
            },
    )
}

/// Whether `s` is a canonical 8-4-4-4-12 hex UUID.
pub fn is_canonical_uuid(s: &str) -> (r: bool)
    ensures
        r == canonical_uuid(s.spec_bytes()),
{
    let b = s.as_bytes();
    if b.len() != 36 {
        return false;
    }
    let mut i: usize = 0;
    while i < 36
        invariant
            b@ == s.spec_bytes(),
            b@.len() == 36,
            i <= 36,
            forall|k: int| 0 <= k < i ==> #[trigger] uuid_char_ok(b@, k),
        decreases 36 - i,
    {
        let c = b[i];
        if i == 8 || i == 13 || i == 18 || i == 23 {
            if c != B_HYPHEN {
                assert(!uuid_char_ok(b@, i as int));
                return false;
            }
        } else {
            if !is_hex_digit_byte(c) {
                assert(!uuid_char_ok(b@, i as int));
                return false;
            }
        }
        i += 1;
    }
    true
}

/// `uuid::Uuid::parse_str` on a canonical hyphenated text: it succeeds, and
/// byte `j` of the UUID is the value of hex digits `2j` and `2j + 1` (either
/// case), high nibble first. The other forms that the function also accepts
/// (simple, braced, `urn:uuid:`) are left out by `requires`.
#[verifier::external_body]
fn uuid_parse_str(s: &str) -> (r: Option<[u8; 16]>)
    requires
        canonical_uuid(s.spec_bytes()),
    ensures
        r is Some,
        r.unwrap()@ == uuid_bytes_of(s.spec_bytes()),
{
    match ::uuid::Uuid::parse_str(s) {
        Ok(u) => Some(u.into_bytes()),
        Err(_) => None,
    }
}

/// `uuid::Uuid::hyphenated` shown with `Display`: the lowercase 8-4-4-4-12
/// hex text of the 16 bytes.
#[verifier::external_body]
fn uuid_hyphenated_string(u: [u8; 16]) -> (r: String)
    ensures
        r@ == ascii_chars(uuid_hyphenated(u@)),
{
    ::uuid::Uuid::from_bytes(u).hyphenated().to_string()
}

impl UrnNamespace for Uuid {
    const NID: &'static str = "uuid";

    type Parts<'a> = [u8; 16];

    fn parse_nss(nss: &str) -> (r: Option<[u8; 16]>)
        ensures
            canonical_uuid(nss.spec_bytes()) ==> (r matches Some(u) && u@ == uuid_bytes_of(
                nss.spec_bytes(),
            )),
            !canonical_uuid(nss.spec_bytes()) ==> r is None,
    {
        if !is_canonical_uuid(nss) {
            return None;
        }
        uuid_parse_str(nss)
    }

    open spec fn nss_of<'a>(p: &[u8; 16]) -> Seq<char> {
        ascii_chars(uuid_hyphenated(p@))
    }

    fn write_nss(p: &[u8; 16], out: &mut String)
        ensures
            final(out)@ == old(out)@ + ascii_chars(uuid_hyphenated(p@)),
    {
        let s = uuid_hyphenated_string(*p);
        out.append(s.as_str());
    }
}

/// A value below 16 written as a lowercase hex digit reads back as itself.
proof fn lemma_hex_digit_lower(v: u8)
    requires
        v < 16,
    ensures
        is_hex_digit(hex_digit_lower(v)),
        hex_value(hex_digit_lower(v)) == v,
        is_parse_plain(hex_digit_lower(v)),
        !is_upper(hex_digit_lower(v)),
        hex_digit_lower(v) < 0x80,
{
}

/// A hex digit read as a value and written back in lowercase is the digit
/// lowercased.
proof fn lemma_hex_value_lower(c: u8)
    requires
        is_hex_digit(c),
    ensures
        hex_value(c) < 16,
        hex_digit_lower(hex_value(c)) == ascii_lower(c),
{
}

/// Where the hex digits of the canonical text stand.
proof fn lemma_uuid_positions(k: int)
    requires
        0 <= k < 32,
    ensures
        0 <= uuid_digit_pos(k) < 36,
        !is_uuid_hyphen_pos(uuid_digit_pos(k)),
        uuid_digit_index(uuid_digit_pos(k)) == k,
{
}

proof fn lemma_uuid_index(i: int)
    requires
        0 <= i < 36,
        !is_uuid_hyphen_pos(i),
    ensures
        0 <= uuid_digit_index(i) < 32,
        uuid_digit_pos(uuid_digit_index(i)) == i,
{
}

/// A byte split into its high and low nibble.
proof fn lemma_nibbles(x: u8)
    ensures
        x / 16 < 16,
        x % 16 < 16,
        (x / 16) * 16 + x % 16 == x,
{
    assert((x / 16) * 16 + x % 16 == x) by (bit_vector);
    assert(x / 16 < 16) by (bit_vector);
}

/// Two nibbles joined into a byte, and split again.
proof fn lemma_join_nibbles(a: u8, c: u8)
    requires
        a < 16,
        c < 16,
    ensures
        (a * 16 + c) < 256,
        ((a * 16 + c) as u8) / 16 == a,
        ((a * 16 + c) as u8) % 16 == c,
{
    assert((a * 16 + c) < 256 && ((a * 16 + c) as u8) / 16 == a && ((a * 16 + c) as u8) % 16 == c)
        by (bit_vector)
        requires
            a < 16,
            c < 16,
    ;
}

/// The hyphenated text of 16 bytes is a canonical UUID of ASCII bytes that
/// need no encoding, and reads back as the same 16 bytes.
pub proof fn law_uuid_bytes_roundtrip(u: Seq<u8>)
    requires
        u.len() == 16,
    ensures
        canonical_uuid(uuid_hyphenated(u)),
        uuid_bytes_of(uuid_hyphenated(u)) == u,
        all_ascii(uuid_hyphenated(u)),
        forall|i: int| 0 <= i < 36 ==> is_parse_plain(#[trigger] uuid_hyphenated(u)[i]),
        forall|i: int| 0 <= i < 36 ==> !is_upper(#[trigger] uuid_hyphenated(u)[i]),
{
    let h = uuid_hyphenated(u);
    assert forall|i: int| 0 <= i < 36 implies #[trigger] uuid_char_ok(h, i) && h[i] < 0x80
        && is_parse_plain(h[i]) && !is_upper(h[i]) by {
        if !is_uuid_hyphen_pos(i) {
            lemma_uuid_index(i);
            let k = uuid_digit_index(i);
            lemma_nibbles(u[k / 2]);
            lemma_hex_digit_lower(uuid_nibble(u, k));
        }
    }
    assert forall|j: int| 0 <= j < 16 implies #[trigger] uuid_bytes_of(h)[j] == u[j] by {
        lemma_uuid_positions(2 * j);
        lemma_uuid_positions(2 * j + 1);
        lemma_nibbles(u[j]);
        lemma_hex_digit_lower(u[j] / 16);
        lemma_hex_digit_lower(u[j] % 16);
        assert(uuid_nibble(u, 2 * j) == u[j] / 16);
        assert(uuid_nibble(u, 2 * j + 1) == u[j] % 16);
    }
    assert(uuid_bytes_of(h) =~= u);
}

/// A canonical UUID text read as bytes and written back is the text with its
/// hex letters lowercased.
pub proof fn law_uuid_text_roundtrip(b: Seq<u8>)
    requires
        canonical_uuid(b),
    ensures
        uuid_hyphenated(uuid_bytes_of(b)) == lower_all(b),
{
    let u = uuid_bytes_of(b);
    let h = uuid_hyphenated(u);
    assert forall|i: int| 0 <= i < 36 implies #[trigger] h[i] == lower_all(b)[i] by {
        assert(uuid_char_ok(b, i));
        if !is_uuid_hyphen_pos(i) {
            lemma_uuid_index(i);
            let k = uuid_digit_index(i);
            let j = k / 2;
            lemma_uuid_positions(2 * j);
            lemma_uuid_positions(2 * j + 1);
            assert(uuid_char_ok(b, uuid_digit_pos(2 * j)));
            assert(uuid_char_ok(b, uuid_digit_pos(2 * j + 1)));
            let hi = b[uuid_digit_pos(2 * j)];
            let lo = b[uuid_digit_pos(2 * j + 1)];
            lemma_hex_value_lower(hi);
            lemma_hex_value_lower(lo);
            lemma_join_nibbles(hex_value(hi), hex_value(lo));
            assert(u[j] == (hex_value(hi) * 16 + hex_value(lo)) as u8);
            if k % 2 == 0 {
                assert(uuid_digit_pos(2 * j) == i);
            } else {
                assert(uuid_digit_pos(2 * j + 1) == i);
            }
        }
    }
    assert(h =~= lower_all(b));
}

/// What `as_uuid` gives for a URN: the bytes of the NSS when the NID is
/// `uuid` (in any case) and the NSS is a canonical UUID, else `None`.
pub open spec fn uuid_parts_of(v: UrnView) -> Option<Seq<u8>> {
    if eq_ignore_ascii_case(v.nid(), uuid_nid()) && canonical_uuid(v.nss()) {
        Some(uuid_bytes_of(v.nss()))
    } else {
        None
    }
}

proof fn lemma_uuid_nid()
    ensures
        <Uuid as UrnNamespace>::NID.spec_bytes() == uuid_nid(),
        is_valid_nid(uuid_nid()),
        forall|i: int| 0 <= i < uuid_nid().len() ==> !is_upper(#[trigger] uuid_nid()[i]),
{
    reveal_strlit("uuid");
    assert(<Uuid as UrnNamespace>::NID@ =~= ascii_chars(uuid_nid()));
    lemma_ascii_str(<Uuid as UrnNamespace>::NID, uuid_nid());
    let n = uuid_nid();
    assert(n[0] == 0x75 && n[1] == 0x75 && n[2] == 0x69 && n[3] == 0x64);
}

impl<'a> UrnSlice<'a> {
    /// The UUID of a `urn:uuid:` URN, as its 16 bytes, or `None`.
    pub fn as_uuid(&self) -> (r: Option<[u8; 16]>)
        ensures
            match uuid_parts_of(self@) {
                Some(b) => r matches Some(u) && u@ == b,
                None => r is None,
            },
    {
        let nid = self.nid();
        proof {
            lemma_wf_parts_ascii(self@);
            lemma_ascii_str(nid, self@.nid());
            lemma_uuid_nid();
        }
        if !bytes_eq_ignore_ascii_case(nid.as_bytes(), Uuid::NID.as_bytes()) {
            return None;
        }
        let nss = self.nss();
        proof {
            lemma_ascii_str(nss, self@.nss());
        }
        Uuid::parse_nss(nss)
    }

    /// The UUID of a `urn:uuid:` URN as its canonical text, or `None`.
    pub fn as_uuid_str(&self) -> (r: Option<&str>)
        ensures
            match uuid_parts_of(self@) {
                Some(b) => r matches Some(x) && x.spec_bytes() == self@.nss(),
                None => r is None,
            },
    {
        let nid = self.nid();
        proof {
            lemma_wf_parts_ascii(self@);
            lemma_ascii_str(nid, self@.nid());
            lemma_uuid_nid();
        }
        let nss = self.nss();
        proof {
            lemma_ascii_str(nss, self@.nss());
        }
        if bytes_eq_ignore_ascii_case(nid.as_bytes(), Uuid::NID.as_bytes()) && is_canonical_uuid(
            nss,
        ) {
            Some(nss)
        } else {
            None
        }
    }
}

impl Urn {
    /// Builds `urn:uuid:<u>`, the UUID written in lowercase hyphenated form.
    /// This never fails: the hyphenated form is always a valid NSS.
    pub fn try_from_uuid(u: [u8; 16]) -> (r: Result<Urn>)
        ensures
            matches_view(r, build_spec(uuid_nid(), uuid_hyphenated(u@), None, None, None)),
            r matches Ok(x) && x@.nid() == uuid_nid() && x@.nss() == uuid_hyphenated(u@)
                && uuid_parts_of(x@) == Some(u@),
    {
        let mut nss = String::new();
        Uuid::write_nss(&u, &mut nss);
        let ghost h = uuid_hyphenated(u@);
        proof {
            law_uuid_bytes_roundtrip(u@);
            lemma_uuid_nid();
            assert(nss@ =~= ascii_chars(h));
        }
        let text = nss.as_str();
        proof {
            lemma_ascii_str(text, h);
            lemma_build_plain(uuid_nid(), h);
        }
        UrnBuilder::new(Uuid::NID, text).build()
    }

    /// Builds `urn:uuid:<s>` from a canonical 8-4-4-4-12 hex UUID text; the
    /// URN holds it in lowercase.
    ///
    /// # Errors
    /// `InvalidNss` if `s` is not a canonical UUID.
    pub fn try_from_uuid_str(s: &str) -> (r: Result<Urn>)
        ensures
            !canonical_uuid(s.spec_bytes()) ==> matches_view(r, Err(Error::InvalidNss)),
            canonical_uuid(s.spec_bytes()) ==> matches_view(
                r,
                build_spec(uuid_nid(), lower_all(s.spec_bytes()), None, None, None),
            ),
            canonical_uuid(s.spec_bytes()) ==> (r matches Ok(x) && x@.nid() == uuid_nid()
                && x@.nss() == lower_all(s.spec_bytes())),
    {
        if !is_canonical_uuid(s) {
            return Err(Error::InvalidNss);
        }
        proof {
            law_uuid_text_roundtrip(s.spec_bytes());
        }
        match uuid_parse_str(s) {
            Some(u) => Urn::try_from_uuid(u),
            None => Err(Error::InvalidNss),
        }
    }

    /// The UUID of a `urn:uuid:` URN, as its 16 bytes, or `None`.
    pub fn as_uuid(&self) -> (r: Option<[u8; 16]>)
        ensures
            match uuid_parts_of(self@) {
                Some(b) => r matches Some(u) && u@ == b,
                None => r is None,
            },
    {
        self.as_slice().as_uuid()
    }

    /// The UUID of a `urn:uuid:` URN as its canonical text, or `None`.
    pub fn as_uuid_str(&self) -> (r: Option<&str>)
        ensures
            match uuid_parts_of(self@) {
                Some(b) => r matches Some(x) && x.spec_bytes() == self@.nss(),
                None => r is None,
            },
    {
        self.as_slice().as_uuid_str()
    }
}

/// A URN names a UUID exactly when its NID is `uuid` in any case and its NSS
/// is 36 bytes with `-` at indices 8, 13, 18 and 23 and a hex digit of
/// either case everywhere else; the UUID is then the one whose lowercase
/// hyphenated text is the NSS lowercased.
pub proof fn law_uuid_parts(v: UrnView)
    ensures
        uuid_parts_of(v) is Some <==> ({
            let n = v.nid();
            let b = v.nss();
            &&& n.len() == 4
            &&& (n[0] == 0x75 || n[0] == 0x55)
            &&& (n[1] == 0x75 || n[1] == 0x55)
            &&& (n[2] == 0x69 || n[2] == 0x49)
            &&& (n[3] == 0x64 || n[3] == 0x44)
            &&& b.len() == 36
            &&& forall|i: int|
                0 <= i < 36 ==> if i == 8 || i == 13 || i == 18 || i == 23 {
                    #[trigger] b[i] == 0x2D
                } else {
                    0x30 <= b[i] <= 0x39 || 0x41 <= b[i] <= 0x46 || 0x61 <= b[i] <= 0x66
                }
        }),
        uuid_parts_of(v) matches Some(u) ==> u.len() == 16 && uuid_hyphenated(u) == lower_all(
            v.nss(),
        ),
{
    let n = v.nid();
    let b = v.nss();
    let u = uuid_nid();
    assert(u[0] == 0x75 && u[1] == 0x75 && u[2] == 0x69 && u[3] == 0x64);
    if n.len() == 4 {
        assert(ascii_lower(n[0]) == 0x75 <==> (n[0] == 0x75 || n[0] == 0x55));
        assert(ascii_lower(n[1]) == 0x75 <==> (n[1] == 0x75 || n[1] == 0x55));
        assert(ascii_lower(n[2]) == 0x69 <==> (n[2] == 0x69 || n[2] == 0x49));
        assert(ascii_lower(n[3]) == 0x64 <==> (n[3] == 0x64 || n[3] == 0x44));
        if (n[0] == 0x75 || n[0] == 0x55) && (n[1] == 0x75 || n[1] == 0x55) && (n[2] == 0x69
            || n[2] == 0x49) && (n[3] == 0x64 || n[3] == 0x44) {
            assert forall|i: int| 0 <= i < n.len() implies ascii_lower(#[trigger] n[i]) == ascii_lower(
                u[i],
            ) by {
                if i == 0 {
                } else if i == 1 {
                } else if i == 2 {
                } else {
                }
            }
        }
        if eq_ignore_ascii_case(n, u) {
            assert(ascii_lower(n[0]) == ascii_lower(u[0]));
            assert(ascii_lower(n[1]) == ascii_lower(u[1]));
            assert(ascii_lower(n[2]) == ascii_lower(u[2]));
            assert(ascii_lower(n[3]) == ascii_lower(u[3]));
        }
    }
    if b.len() == 36 {
        assert forall|i: int| 0 <= i < 36 implies (#[trigger] uuid_char_ok(b, i) <==> (if i == 8
            || i == 13 || i == 18 || i == 23 {
            b[i] == 0x2D
        } else {
            0x30 <= b[i] <= 0x39 || 0x41 <= b[i] <= 0x46 || 0x61 <= b[i] <= 0x66
        })) by {}
        if canonical_uuid(b) {
            assert forall|i: int| 0 <= i < 36 implies (if i == 8 || i == 13 || i == 18 || i == 23 {
                #[trigger] b[i] == 0x2D
            } else {
                0x30 <= b[i] <= 0x39 || 0x41 <= b[i] <= 0x46 || 0x61 <= b[i] <= 0x66
            }) by {
                assert(uuid_char_ok(b, i));
            }
        }
    }
    if uuid_parts_of(v) is Some {
        law_uuid_text_roundtrip(b);
    }
}

} // verus!
