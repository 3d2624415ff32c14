//! The syntax of URNs: what a URN text is made of (`UrnView`), what parsing
//! (`parse_urn_spec`) and building (`build_spec`) give, and the laws that
//! relate them.
use crate::cow::{lower_range, replaced};
use crate::error::{Error, Result};
use crate::percent::{
    component_end, component_norm, encode_bytes, law_encode_is_normalized_component,
    lemma_case_blind, lemma_enc_prefix_extends, lemma_scan_component, lemma_scan_embedded,
    lemma_scan_skip_plain, lemma_scan_stable, scan_component, PctEncoded,
};
use crate::tables::{
    ascii_lower, ascii_upper, is_nid_byte, is_parse_plain, is_upper, lower_all, B_COLON, B_EQUALS,
    B_HASH, B_HYPHEN, B_PLUS, B_QUESTION,
};
use crate::text::all_ascii;
use vstd::prelude::*;
use vstd::string::StringSliceAdditionalSpecFns;

verus! {

/// The bytes of `urn:`.
pub open spec fn urn_prefix() -> Seq<u8> {
    seq![0x75u8, 0x72u8, 0x6Eu8, 0x3Au8]
}

/// Whether the first four bytes of `s` are `urn:` in any case.
pub open spec fn scheme_ok(s: Seq<u8>) -> bool {
    &&& s.len() >= 4
    &&& ascii_lower(s[0]) == 0x75
    &&& ascii_lower(s[1]) == 0x72
    &&& ascii_lower(s[2]) == 0x6E
    &&& s[3] == B_COLON
}

/// A valid namespace identifier: 2 to 32 bytes, each alphanumeric or `-`,
/// the first not `-`.
pub open spec fn is_valid_nid(n: Seq<u8>) -> bool {
    &&& 2 <= n.len() <= 32
    &&& n[0] != B_HYPHEN
    &&& forall|i: int| 0 <= i < n.len() ==> is_nid_byte(#[trigger] n[i])
}

/// The index of the first `:` at or after `i`, or the length when there is
/// none.
pub open spec fn find_colon(s: Seq<u8>, i: int) -> int
    decreases s.len() - i,
{
    if i < 0 || i >= s.len() {
        s.len() as int
    } else if s[i] == B_COLON {
        i
    } else {
        find_colon(s, i + 1)
    }
}

/// A URN text with the lengths of its parts.
pub ghost struct UrnView {
    pub text: Seq<u8>,
    pub nid_len: nat,
    pub nss_len: nat,
    pub r_len: Option<nat>,
    pub q_len: Option<nat>,
    pub f_len: Option<nat>,
}

impl UrnView {
    pub open spec fn nid(self) -> Seq<u8> {
        self.text.subrange(4, 4 + self.nid_len as int)
    }

    pub open spec fn nss_start(self) -> int {
        5 + self.nid_len as int
    }

    pub open spec fn nss_end(self) -> int {
        self.nss_start() + self.nss_len
    }

    pub open spec fn nss(self) -> Seq<u8> {
        self.text.subrange(self.nss_start(), self.nss_end())
    }

    pub open spec fn r_start(self) -> int {
        self.nss_end() + 2
    }

    pub open spec fn r_end(self) -> int {
        match self.r_len {
            Some(l) => self.r_start() + l,
            None => self.nss_end(),
        }
    }

    pub open spec fn r_component(self) -> Option<Seq<u8>> {
        match self.r_len {
            Some(l) => Some(self.text.subrange(self.r_start(), self.r_end())),
            None => None,
        }
    }

    pub open spec fn q_start(self) -> int {
        self.r_end() + 2
    }

    pub open spec fn q_end(self) -> int {
        match self.q_len {
            Some(l) => self.q_start() + l,
            None => self.r_end(),
        }
    }

    pub open spec fn q_component(self) -> Option<Seq<u8>> {
        match self.q_len {
            Some(l) => Some(self.text.subrange(self.q_start(), self.q_end())),
            None => None,
        }
    }

    pub open spec fn f_start(self) -> int {
        self.q_end() + 1
    }

    pub open spec fn f_end(self) -> int {
        match self.f_len {
            Some(l) => self.f_start() + l,
            None => self.q_end(),
        }
    }

    pub open spec fn f_component(self) -> Option<Seq<u8>> {
        match self.f_len {
            Some(l) => Some(self.text.subrange(self.f_start(), self.f_end())),
            None => None,
        }
    }

    /// The shape of a parsed URN: `urn:`, a lowercase valid NID, `:`, a
    /// non-empty NSS, then optionally `?+` and a non-empty r-component, `?=`
    /// and a non-empty q-component, `#` and an f-component; all ASCII.
    pub open spec fn wf(self) -> bool {
        &&& self.f_end() == self.text.len()
        &&& all_ascii(self.text)
        &&& self.text.subrange(0, 4) == urn_prefix()
        &&& is_valid_nid(self.nid())
        &&& forall|i: int| 4 <= i < 4 + self.nid_len as int ==> !is_upper(#[trigger] self.text[i])
        &&& self.text[4 + self.nid_len as int] == B_COLON
        &&& self.nss_len > 0
        &&& (self.r_len matches Some(l) ==> l > 0 && self.text[self.nss_end()] == B_QUESTION
            && self.text[self.nss_end() + 1] == B_PLUS)
        &&& (self.q_len matches Some(l) ==> l > 0 && self.text[self.r_end()] == B_QUESTION
            && self.text[self.r_end() + 1] == B_EQUALS)
        &&& (self.f_len is Some ==> self.text[self.q_end()] == B_HASH)
    }

    /// URN equivalence: the (normalized) NID and NSS are equal; the r-, q-
    /// and f-components do not count.
    pub open spec fn equivalent(self, other: UrnView) -> bool {
        self.nid() == other.nid() && self.nss() == other.nss()
    }
}

/// URN equivalence is an equivalence relation, and it does not look at the
/// r-, q- or f-component.
pub proof fn law_equivalence(a: UrnView, b: UrnView, c: UrnView)
    ensures
        a.equivalent(a),
        a.equivalent(b) ==> b.equivalent(a),
        a.equivalent(b) && b.equivalent(c) ==> a.equivalent(c),
        a.nid_len == b.nid_len && a.nss_len == b.nss_len && a.nss_end() <= a.text.len()
            && a.nss_end() <= b.text.len() && a.text.subrange(0, a.nss_end()) == b.text.subrange(
            0,
            b.nss_end(),
        ) ==> a.equivalent(b),
{
    if a.nid_len == b.nid_len && a.nss_len == b.nss_len && a.nss_end() <= a.text.len()
        && a.nss_end() <= b.text.len() && a.text.subrange(0, a.nss_end()) == b.text.subrange(
        0,
        b.nss_end(),
    ) {
        let e = a.nss_end();
        assert(a.nid() =~= a.text.subrange(0, e).subrange(4, 4 + a.nid_len as int));
        assert(b.nid() =~= b.text.subrange(0, e).subrange(4, 4 + b.nid_len as int));
        assert(a.nss() =~= a.text.subrange(0, e).subrange(a.nss_start(), e));
        assert(b.nss() =~= b.text.subrange(0, e).subrange(b.nss_start(), e));
    }
}

/// The r-, q- and f-components of a URN whose NSS ends at
/// `5 + nid_len + nss_len` in `s`.
pub open spec fn parse_tail(s: Seq<u8>, nid_len: nat, nss_len: nat) -> Result<UrnView> {
    let nss_end = (5 + nid_len + nss_len) as int;
    let has_r = nss_end + 1 < s.len() && s[nss_end] == B_QUESTION && s[nss_end + 1] == B_PLUS;
    let rs = nss_end + 2;
    let (r_end, s4) = if has_r {
        scan_component(s, rs, rs, PctEncoded::RComponent)
    } else {
        (nss_end, s)
    };
    if has_r && r_end == rs {
        Err(Error::InvalidRComponent)
    } else {
        let has_q = r_end + 1 < s4.len() && s4[r_end] == B_QUESTION && s4[r_end + 1] == B_EQUALS;
        let qs = r_end + 2;
        let (q_end, s5) = if has_q {
            scan_component(s4, qs, qs, PctEncoded::QComponent)
        } else {
            (r_end, s4)
        };
        if has_q && q_end == qs {
            Err(Error::InvalidQComponent)
        } else {
            let has_f = q_end < s5.len() && s5[q_end] == B_HASH;
            let fs = q_end + 1;
            let (f_end, s6) = if has_f {
                scan_component(s5, fs, fs, PctEncoded::FComponent)
            } else {
                (q_end, s5)
            };
            if f_end < s6.len() {
                Err(
                    if has_f {
                        Error::InvalidFComponent
                    } else if has_q {
                        Error::InvalidQComponent
                    } else if has_r {
                        Error::InvalidRComponent
                    } else {
                        Error::InvalidNss
                    },
                )
            } else {
                Ok(
                    UrnView {
                        text: s6,
                        nid_len,
                        nss_len,
                        r_len: if has_r {
                            Some((r_end - rs) as nat)
                        } else {
                            None
                        },
                        q_len: if has_q {
                            Some((q_end - qs) as nat)
                        } else {
                            None
                        },
                        f_len: if has_f {
                            Some((f_end - fs) as nat)
                        } else {
                            None
                        },
                    },
                )
            }
        }
    }
}

/// The URN that the text `s` parses to: the scheme and NID lowercased and the
/// percent-encoding uppercased; or the error of the first malformed part.
pub open spec fn parse_urn_spec(s: Seq<u8>) -> Result<UrnView> {
    if !scheme_ok(s) {
        Err(Error::InvalidScheme)
    } else {
        let s1 = lower_range(s, 0, 4);
        let nid_end = find_colon(s1, 4);
        if nid_end >= s1.len() {
            if is_valid_nid(s1.subrange(4, s1.len() as int)) {
                Err(Error::InvalidNss)
            } else {
                Err(Error::InvalidNid)
            }
        } else if !is_valid_nid(s1.subrange(4, nid_end)) {
            Err(Error::InvalidNid)
        } else {
            let s2 = lower_range(s1, 4, nid_end);
            let nss_start = nid_end + 1;
            let (nss_end, s3) = scan_component(s2, nss_start, nss_start, PctEncoded::Nss);
            if nss_end <= nss_start {
                Err(Error::InvalidNss)
            } else {
                parse_tail(s3, (nid_end - 4) as nat, (nss_end - nss_start) as nat)
            }
        }
    }
}

proof fn lemma_lower_nid(n: Seq<u8>)
    requires
        is_valid_nid(n),
    ensures
        is_valid_nid(n.map_values(|b: u8| ascii_lower(b))),
        forall|i: int| 0 <= i < n.len() ==> #[trigger] n[i] < 0x80,
{
}

/// The tail of a URN text, parsed: the text is unchanged before the
/// r-component, each part is ASCII and the separators are in place.
proof fn lemma_parse_tail_wf(s: Seq<u8>, nid_len: nat, nss_len: nat)
    requires
        5 + nid_len + nss_len <= s.len(),
        parse_tail(s, nid_len, nss_len) is Ok,
    ensures
        ({
            let v = parse_tail(s, nid_len, nss_len).unwrap();
            &&& v.nid_len == nid_len
            &&& v.nss_len == nss_len
            &&& v.text.len() == s.len()
            &&& v.f_end() == s.len()
            &&& forall|j: int| 0 <= j < 5 + nid_len + nss_len ==> #[trigger] v.text[j] == s[j]
            &&& forall|j: int| 5 + nid_len + nss_len <= j < s.len() ==> #[trigger] v.text[j] < 0x80
            &&& forall|j: int| 0 <= j < s.len() ==> ascii_upper(#[trigger] v.text[j]) == ascii_upper(s[j])
            &&& forall|j: int| 0 <= j < s.len() ==> #[trigger] v.text[j] == s[j] || v.text[j] == ascii_upper(s[j])
            &&& (v.r_len matches Some(l) ==> l > 0 && v.text[v.nss_end()] == B_QUESTION
                && v.text[v.nss_end() + 1] == B_PLUS)
            &&& (v.q_len matches Some(l) ==> l > 0 && v.text[v.r_end()] == B_QUESTION
                && v.text[v.r_end() + 1] == B_EQUALS)
            &&& (v.f_len is Some ==> v.text[v.q_end()] == B_HASH)
        }),
{
    let nss_end = (5 + nid_len + nss_len) as int;
    let has_r = nss_end + 1 < s.len() && s[nss_end] == B_QUESTION && s[nss_end + 1] == B_PLUS;
    let rs = nss_end + 2;
    let (r_end, s4) = if has_r {
        scan_component(s, rs, rs, PctEncoded::RComponent)
    } else {
        (nss_end, s)
    };
    if has_r {
        lemma_scan_component(s, rs, rs, PctEncoded::RComponent);
    }
    let has_q = r_end + 1 < s4.len() && s4[r_end] == B_QUESTION && s4[r_end + 1] == B_EQUALS;
    let qs = r_end + 2;
    let (q_end, s5) = if has_q {
        scan_component(s4, qs, qs, PctEncoded::QComponent)
    } else {
        (r_end, s4)
    };
    if has_q {
        lemma_scan_component(s4, qs, qs, PctEncoded::QComponent);
    }
    let has_f = q_end < s5.len() && s5[q_end] == B_HASH;
    let fs = q_end + 1;
    let (f_end, s6) = if has_f {
        scan_component(s5, fs, fs, PctEncoded::FComponent)
    } else {
        (q_end, s5)
    };
    if has_f {
        lemma_scan_component(s5, fs, fs, PctEncoded::FComponent);
    }
    let v = parse_tail(s, nid_len, nss_len).unwrap();
    assert(v.text == s6);
    assert(v.r_end() == r_end);
    assert(v.q_end() == q_end);
    assert(v.f_end() == f_end);
    assert forall|j: int| 0 <= j < s.len() implies ascii_upper(#[trigger] v.text[j]) == ascii_upper(
        s[j],
    ) && (v.text[j] == s[j] || v.text[j] == ascii_upper(s[j])) by {
    }
    assert forall|j: int| nss_end <= j < s.len() implies #[trigger] v.text[j] < 0x80 by {
        if j < r_end {
            if j < rs {
                assert(s4[j] == s[j]);
            }
            assert(s5[j] == s4[j]);
            assert(s6[j] == s5[j]);
        } else if j < q_end {
            if j < qs {
                assert(s5[j] == s4[j]);
            }
            assert(s6[j] == s5[j]);
        } else if j == q_end {
            assert(s6[j] == s5[j]);
        }
    }
}

/// What `parse_urn_spec` accepts has the shape of a URN.
pub proof fn lemma_parse_urn_wf(s: Seq<u8>)
    requires
        parse_urn_spec(s) is Ok,
    ensures
        parse_urn_spec(s).unwrap().wf(),
{
    let s1 = lower_range(s, 0, 4);
    let nid_end = find_colon(s1, 4);
    lemma_find_colon(s1, 4);
    let s2 = lower_range(s1, 4, nid_end);
    let nss_start = nid_end + 1;
    lemma_scan_component(s2, nss_start, nss_start, PctEncoded::Nss);
    let (nss_end, s3) = scan_component(s2, nss_start, nss_start, PctEncoded::Nss);
    let nid_len = (nid_end - 4) as nat;
    let nss_len = (nss_end - nss_start) as nat;
    lemma_parse_tail_wf(s3, nid_len, nss_len);
    let v = parse_urn_spec(s).unwrap();
    assert(v == parse_tail(s3, nid_len, nss_len).unwrap());
    let n1 = s1.subrange(4, nid_end);
    lemma_lower_nid(n1);
    assert forall|j: int| 0 <= j < nss_end implies #[trigger] v.text[j] == s2[j] || (nss_start
        <= j && v.text[j] < 0x80) by {
        assert(v.text[j] == s3[j]);
    }
    assert(v.nid() =~= n1.map_values(|b: u8| ascii_lower(b))) by {
        assert forall|k: int| 0 <= k < v.nid().len() implies v.nid()[k] == ascii_lower(n1[k]) by {
            assert(v.text[4 + k] == s3[4 + k]);
            assert(s3[4 + k] == s2[4 + k]);
        }
    }
    assert(v.text.subrange(0, 4) =~= urn_prefix()) by {
        assert forall|k: int| 0 <= k < 4 implies v.text[k] == urn_prefix()[k] by {
            assert(v.text[k] == s3[k]);
            assert(s3[k] == s2[k]);
        }
    }
    assert forall|j: int| 0 <= j < v.text.len() implies #[trigger] v.text[j] < 0x80 by {
        if j < nss_end {
            assert(v.text[j] == s3[j]);
            if j < nss_start {
                assert(s3[j] == s2[j]);
                if 4 <= j < nid_end {
                    assert(n1[j - 4] < 0x80);
                }
            }
        }
    }
    assert forall|i: int| 4 <= i < 4 + v.nid_len implies !is_upper(#[trigger] v.text[i]) by {
        assert(v.text[i] == s3[i]);
        assert(s3[i] == s2[i]);
    }
    assert(v.text[4 + v.nid_len as int] == B_COLON) by {
        assert(v.text[nid_end] == s3[nid_end]);
        assert(s3[nid_end] == s2[nid_end]);
    }
}

/// Parsing the tail of a text whose tail was already parsed and normalized
/// changes nothing.
#[verifier::rlimit(60)]
proof fn lemma_parse_tail_stable(s: Seq<u8>, nid_len: nat, nss_len: nat)
    requires
        5 + nid_len + nss_len <= s.len(),
        parse_tail(s, nid_len, nss_len) is Ok,
    ensures
        parse_tail(parse_tail(s, nid_len, nss_len).unwrap().text, nid_len, nss_len) == parse_tail(
            s,
            nid_len,
            nss_len,
        ),
{
    let nss_end = (5 + nid_len + nss_len) as int;
    let has_r = nss_end + 1 < s.len() && s[nss_end] == B_QUESTION && s[nss_end + 1] == B_PLUS;
    let rs = nss_end + 2;
    let (r_end, s4) = if has_r {
        scan_component(s, rs, rs, PctEncoded::RComponent)
    } else {
        (nss_end, s)
    };
    if has_r {
        lemma_scan_component(s, rs, rs, PctEncoded::RComponent);
    }
    let has_q = r_end + 1 < s4.len() && s4[r_end] == B_QUESTION && s4[r_end + 1] == B_EQUALS;
    let qs = r_end + 2;
    let (q_end, s5) = if has_q {
        scan_component(s4, qs, qs, PctEncoded::QComponent)
    } else {
        (r_end, s4)
    };
    if has_q {
        lemma_scan_component(s4, qs, qs, PctEncoded::QComponent);
    }
    let has_f = q_end < s5.len() && s5[q_end] == B_HASH;
    let fs = q_end + 1;
    let (f_end, s6) = if has_f {
        scan_component(s5, fs, fs, PctEncoded::FComponent)
    } else {
        (q_end, s5)
    };
    if has_f {
        lemma_scan_component(s5, fs, fs, PctEncoded::FComponent);
    }
    let w = s6;
    assert(w == parse_tail(s, nid_len, nss_len).unwrap().text);
    assert forall|j: int| 0 <= j < s.len() implies ascii_upper(#[trigger] w[j]) == ascii_upper(
        s[j],
    ) && ascii_upper(s4[j]) == ascii_upper(s[j]) && ascii_upper(s5[j]) == ascii_upper(s[j]) by {
    }
    // the r-component
    assert(w[nss_end] == s[nss_end]);
    if nss_end + 1 < s.len() {
        lemma_case_blind(w[nss_end + 1], s[nss_end + 1]);
    }
    if has_r {
        assert forall|j: int| rs <= j < r_end implies #[trigger] w[j] == s4[j] by {
            assert(s5[j] == s4[j]);
        }
        assert forall|j: int| r_end <= j < s.len() implies ascii_upper(#[trigger] w[j])
            == ascii_upper(s[j]) by {
        }
        lemma_scan_stable(s, w, rs, rs, PctEncoded::RComponent);
    }
    // the q-component
    if r_end < s.len() {
        assert(w[r_end] == s4[r_end]);
    }
    if r_end + 1 < s.len() {
        lemma_case_blind(w[r_end + 1], s[r_end + 1]);
        lemma_case_blind(s4[r_end + 1], s[r_end + 1]);
    }
    if has_q {
        assert forall|j: int| qs <= j < q_end implies #[trigger] w[j] == s5[j] by {
        }
        assert forall|j: int| q_end <= j < s.len() implies ascii_upper(#[trigger] w[j])
            == ascii_upper(s4[j]) by {
        }
        lemma_scan_stable(s4, w, qs, qs, PctEncoded::QComponent);
    }
    // the f-component
    if q_end < s.len() {
        assert(w[q_end] == s5[q_end]);
    }
    if has_f {
        assert forall|j: int| f_end <= j < s.len() implies ascii_upper(#[trigger] w[j])
            == ascii_upper(s5[j]) by {
        }
        lemma_scan_stable(s5, w, fs, fs, PctEncoded::FComponent);
    }
}

/// `find_colon` from `i` is `c` when `s[c]` is the first `:` from `i` on.
pub proof fn lemma_find_colon_at(s: Seq<u8>, i: int, c: int)
    requires
        0 <= i <= c < s.len(),
        s[c] == B_COLON,
        forall|j: int| i <= j < c ==> #[trigger] s[j] != B_COLON,
    ensures
        find_colon(s, i) == c,
    decreases c - i,
{
    if i < c {
        lemma_find_colon_at(s, i + 1, c);
    }
}

/// The scheme and NID of a well-formed URN text are left as they are by the
/// parser's lowercasing, and the NID ends at its `:`.
proof fn lemma_wf_head(v: UrnView)
    requires
        v.wf(),
    ensures
        scheme_ok(v.text),
        lower_range(v.text, 0, 4) == v.text,
        find_colon(v.text, 4) == 4 + v.nid_len,
        lower_range(v.text, 4, 4 + v.nid_len as int) == v.text,
{
    let w = v.text;
    let ne = 4 + v.nid_len as int;
    assert forall|k: int| 0 <= k < 4 implies w[k] == #[trigger] urn_prefix()[k] by {
        assert(w.subrange(0, 4)[k] == w[k]);
    }
    assert(lower_range(w, 0, 4) =~= w);
    assert forall|j: int| 4 <= j < ne implies #[trigger] w[j] != B_COLON by {
        assert(v.nid()[j - 4] == w[j]);
    }
    lemma_find_colon_at(w, 4, ne);
    assert(lower_range(w, 4, ne) =~= w);
}

/// Parsing the text of a parsed URN gives the same URN: the parser
/// normalizes, and leaves normalized text as it is.
pub proof fn law_parse_idempotent(s: Seq<u8>)
    requires
        parse_urn_spec(s) is Ok,
    ensures
        parse_urn_spec(parse_urn_spec(s).unwrap().text) == parse_urn_spec(s),
{
    let v = parse_urn_spec(s).unwrap();
    lemma_parse_urn_wf(s);
    let s1 = lower_range(s, 0, 4);
    let nid_end = find_colon(s1, 4);
    lemma_find_colon(s1, 4);
    let s2 = lower_range(s1, 4, nid_end);
    let ns = nid_end + 1;
    let (nss_end, s3) = scan_component(s2, ns, ns, PctEncoded::Nss);
    lemma_scan_component(s2, ns, ns, PctEncoded::Nss);
    let nid_len = (nid_end - 4) as nat;
    let nss_len = (nss_end - ns) as nat;
    lemma_parse_tail_wf(s3, nid_len, nss_len);
    assert(v == parse_tail(s3, nid_len, nss_len).unwrap());
    let w = v.text;
    lemma_wf_head(v);
    assert forall|j: int| ns <= j < nss_end implies #[trigger] w[j] == s3[j] by {
    }
    assert forall|j: int| nss_end <= j < s2.len() implies ascii_upper(#[trigger] w[j])
        == ascii_upper(s2[j]) by {
        assert(ascii_upper(w[j]) == ascii_upper(s3[j]));
    }
    lemma_scan_stable(s2, w, ns, ns, PctEncoded::Nss);
    lemma_parse_tail_stable(s3, nid_len, nss_len);
}

/// `find_colon` gives the same index on texts that have their `:` in the
/// same places.
proof fn lemma_find_colon_same(a: Seq<u8>, b: Seq<u8>, i: int)
    requires
        0 <= i,
        a.len() == b.len(),
        forall|j: int| i <= j < a.len() ==> (#[trigger] a[j] == B_COLON) == (b[j] == B_COLON),
    ensures
        find_colon(a, i) == find_colon(b, i),
    decreases a.len() - i,
{
    if i < a.len() && a[i] != B_COLON {
        lemma_find_colon_same(a, b, i + 1);
    }
}

/// Whether a NID is valid does not depend on the case of its letters.
proof fn lemma_nid_case_blind(n: Seq<u8>, m: Seq<u8>)
    requires
        n.len() == m.len(),
        forall|k: int| 0 <= k < n.len() ==> ascii_lower(#[trigger] n[k]) == ascii_lower(m[k]),
    ensures
        is_valid_nid(n) == is_valid_nid(m),
{
    assert forall|k: int| 0 <= k < n.len() implies #[trigger] is_nid_byte(n[k]) == is_nid_byte(
        m[k],
    ) && (n[k] == B_HYPHEN) == (m[k] == B_HYPHEN) by {
        assert(ascii_lower(n[k]) == ascii_lower(m[k]));
    }
    if is_valid_nid(n) {
        assert forall|k: int| 0 <= k < m.len() implies is_nid_byte(#[trigger] m[k]) by {
            assert(is_nid_byte(n[k]));
        }
        assert(is_nid_byte(n[0]));
    }
    if is_valid_nid(m) {
        assert forall|k: int| 0 <= k < n.len() implies is_nid_byte(#[trigger] n[k]) by {
            assert(is_nid_byte(m[k]));
        }
        assert(is_nid_byte(n[0]));
    }
}

/// The scheme and the NID are read without case: lowercasing the text up to
/// the end of the NID does not change what it parses to.
pub proof fn law_parse_ignores_head_case(s: Seq<u8>)
    ensures
        parse_urn_spec(lower_range(s, 0, find_colon(s, 4))) == parse_urn_spec(s),
{
    let c = find_colon(s, 4);
    let l = lower_range(s, 0, c);
    if s.len() < 4 {
        return;
    }
    lemma_find_colon(s, 4);
    assert(ascii_lower(l[0]) == ascii_lower(s[0]) && ascii_lower(l[1]) == ascii_lower(s[1])
        && ascii_lower(l[2]) == ascii_lower(s[2]));
    assert((l[3] == B_COLON) == (s[3] == B_COLON));
    if !scheme_ok(s) {
        return;
    }
    let s1 = lower_range(s, 0, 4);
    assert(lower_range(l, 0, 4) =~= l);
    lemma_find_colon_same(s1, l, 4);
    lemma_find_colon_same(s1, s, 4);
    assert forall|k: int| 4 <= k < s.len() implies ascii_lower(#[trigger] s1[k]) == ascii_lower(
        l[k],
    ) by {
    }
    if c >= s.len() {
        lemma_nid_case_blind(s1.subrange(4, s.len() as int), l.subrange(4, s.len() as int));
    } else {
        lemma_nid_case_blind(s1.subrange(4, c), l.subrange(4, c));
        assert(lower_range(s1, 4, c) =~= l);
        assert(lower_range(l, 4, c) =~= l);
    }
}

/// When parsing the tail of a text gives back that very text, each scan of
/// a component left the text as it was.
proof fn lemma_parse_tail_fixed(t: Seq<u8>, nid_len: nat, nss_len: nat)
    requires
        5 + nid_len + nss_len <= t.len(),
        parse_tail(t, nid_len, nss_len) is Ok,
        parse_tail(t, nid_len, nss_len).unwrap().text == t,
    ensures
        ({
            let v = parse_tail(t, nid_len, nss_len).unwrap();
            &&& v.r_len is Some ==> scan_component(
                t,
                v.nss_end() + 2,
                v.nss_end() + 2,
                PctEncoded::RComponent,
            ) == (v.r_end(), t)
            &&& v.q_len is Some ==> scan_component(
                t,
                v.r_end() + 2,
                v.r_end() + 2,
                PctEncoded::QComponent,
            ) == (v.q_end(), t)
            &&& v.f_len is Some ==> scan_component(
                t,
                v.q_end() + 1,
                v.q_end() + 1,
                PctEncoded::FComponent,
            ) == (v.f_end(), t)
        }),
{
    let nss_end = (5 + nid_len + nss_len) as int;
    let has_r = nss_end + 1 < t.len() && t[nss_end] == B_QUESTION && t[nss_end + 1] == B_PLUS;
    let rs = nss_end + 2;
    let (r_end, s4) = if has_r {
        scan_component(t, rs, rs, PctEncoded::RComponent)
    } else {
        (nss_end, t)
    };
    if has_r {
        lemma_scan_component(t, rs, rs, PctEncoded::RComponent);
    }
    let has_q = r_end + 1 < s4.len() && s4[r_end] == B_QUESTION && s4[r_end + 1] == B_EQUALS;
    let qs = r_end + 2;
    let (q_end, s5) = if has_q {
        scan_component(s4, qs, qs, PctEncoded::QComponent)
    } else {
        (r_end, s4)
    };
    if has_q {
        lemma_scan_component(s4, qs, qs, PctEncoded::QComponent);
    }
    let has_f = q_end < s5.len() && s5[q_end] == B_HASH;
    let fs = q_end + 1;
    let (f_end, s6) = if has_f {
        scan_component(s5, fs, fs, PctEncoded::FComponent)
    } else {
        (q_end, s5)
    };
    if has_f {
        lemma_scan_component(s5, fs, fs, PctEncoded::FComponent);
    }
    let v = parse_tail(t, nid_len, nss_len).unwrap();
    assert(s6 == t);
    assert forall|j: int| 0 <= j < t.len() implies #[trigger] s4[j] == t[j] && s5[j] == t[j] by {
        assert(s4[j] == t[j] || s4[j] == ascii_upper(t[j]));
        assert(s5[j] == s4[j] || s5[j] == ascii_upper(s4[j]));
        assert(s6[j] == s5[j] || s6[j] == ascii_upper(s5[j]));
    }
    assert(s4 =~= t);
    assert(s5 =~= t);
    assert(v.r_end() == r_end && v.q_end() == q_end);
}

/// The text of a well-formed URN is assembled from its parts.
proof fn lemma_wf_assemble(v: UrnView)
    requires
        v.wf(),
    ensures
        v.text == assemble(v.nid(), v.nss(), v.r_component(), v.q_component(), v.f_component()),
{
    let t = v.text;
    assert(t.subrange(0, v.nss_end()) =~= urn_prefix() + v.nid() + seq![B_COLON] + v.nss()) by {
        assert forall|k: int| 0 <= k < 4 implies t[k] == #[trigger] urn_prefix()[k] by {
            assert(t.subrange(0, 4)[k] == t[k]);
        }
    }
    assert(t.subrange(0, v.r_end()) =~= t.subrange(0, v.nss_end()) + opt_part(
        seq![B_QUESTION, B_PLUS],
        v.r_component(),
    ));
    assert(t.subrange(0, v.q_end()) =~= t.subrange(0, v.r_end()) + opt_part(
        seq![B_QUESTION, B_EQUALS],
        v.q_component(),
    ));
    assert(t.subrange(0, v.f_end()) =~= t.subrange(0, v.q_end()) + opt_part(
        seq![B_HASH],
        v.f_component(),
    ));
    assert(t.subrange(0, v.f_end()) =~= t);
}

/// A part is normal when a scan of it on its own runs to its end and
/// changes nothing.
pub open spec fn part_normal(c: Seq<u8>, kind: PctEncoded) -> bool {
    part_ok(c, kind) && component_norm(c, 0, kind) == c
}

/// The parts of a URN that holds the parse of its own text are normal.
#[verifier::rlimit(60)]
#[verifier::spinoff_prover]
proof fn lemma_urn_parts_normal(v: UrnView)
    requires
        v.wf(),
        parse_urn_spec(v.text) == Ok::<UrnView, Error>(v),
    ensures
        v.text == assemble(v.nid(), v.nss(), v.r_component(), v.q_component(), v.f_component()),
        part_normal(v.nss(), PctEncoded::Nss),
        v.r_component() matches Some(x) ==> part_normal(x, PctEncoded::RComponent),
        v.q_component() matches Some(x) ==> part_normal(x, PctEncoded::QComponent),
        v.f_component() matches Some(x) ==> part_normal(x, PctEncoded::FComponent),
{
    let t = v.text;
    lemma_wf_assemble(v);
    lemma_wf_head(v);
    let nid = v.nid();
    let nss = v.nss();
    let r = v.r_component();
    let q = v.q_component();
    let f = v.f_component();
    let ns = v.nss_start();
    let (e1, s3) = scan_component(t, ns, ns, PctEncoded::Nss);
    lemma_scan_component(t, ns, ns, PctEncoded::Nss);
    let nsl = (e1 - ns) as nat;
    assert(parse_tail(s3, v.nid_len, nsl) == Ok::<UrnView, Error>(v));
    lemma_parse_tail_wf(s3, v.nid_len, nsl);
    assert forall|j: int| 0 <= j < t.len() implies #[trigger] s3[j] == t[j] by {
        assert(s3[j] == t[j] || s3[j] == ascii_upper(t[j]));
        assert(t[j] == s3[j] || t[j] == ascii_upper(s3[j]));
    }
    assert(s3 =~= t);
    // the NSS
    lemma_stage_nss(nid, nss, r, q, f);
    lemma_scan_component(nss, 0, 0, PctEncoded::Nss);
    let n2 = component_norm(nss, 0, PctEncoded::Nss);
    lemma_assembled_parts(UrnView { text: t, ..v }, nid, n2, r, q, f);
    // the other components
    lemma_parse_tail_fixed(t, v.nid_len, v.nss_len);
    if let Some(x) = r {
        lemma_stage_r(nid, nss, x, q, f);
        lemma_scan_component(x, 0, 0, PctEncoded::RComponent);
        let x2 = component_norm(x, 0, PctEncoded::RComponent);
        lemma_assembled_parts(UrnView { text: t, ..v }, nid, nss, Some(x2), q, f);
    }
    if let Some(x) = q {
        lemma_stage_q(nid, nss, r, x, f);
        lemma_scan_component(x, 0, 0, PctEncoded::QComponent);
        let x2 = component_norm(x, 0, PctEncoded::QComponent);
        lemma_assembled_parts(UrnView { text: t, ..v }, nid, nss, r, Some(x2), f);
    }
    if let Some(x) = f {
        lemma_stage_f(nid, nss, r, q, x);
        lemma_scan_component(x, 0, 0, PctEncoded::FComponent);
        let x2 = component_norm(x, 0, PctEncoded::FComponent);
        lemma_assembled_parts(UrnView { text: t, ..v }, nid, nss, r, q, Some(x2));
    }
}

/// Replacing the middle of three pieces.
proof fn lemma_replaced_mid(a: Seq<u8>, b: Seq<u8>, c: Seq<u8>, d: Seq<u8>)
    ensures
        replaced(a + b + c, a.len() as int, a.len() as int + b.len() as int, d) == a + d + c,
{
    assert((a + b + c).subrange(0, a.len() as int) =~= a);
    assert((a + b + c).subrange(a.len() as int + b.len() as int, (a + b + c).len() as int) =~= c);
}

/// Replacing one part of an assembled text gives the text assembled with the
/// new part.
proof fn lemma_replace_part(
    nid: Seq<u8>,
    nss: Seq<u8>,
    r: Option<Seq<u8>>,
    q: Option<Seq<u8>>,
    f: Option<Seq<u8>>,
    nid2: Seq<u8>,
    nss2: Seq<u8>,
    r2: Option<Seq<u8>>,
    q2: Option<Seq<u8>>,
    f2: Option<Seq<u8>>,
)
    ensures
        ({
            let t = assemble(nid, nss, r, q, f);
            let rl = opt_part(seq![B_QUESTION, B_PLUS], r).len() as int;
            let ql = opt_part(seq![B_QUESTION, B_EQUALS], q).len() as int;
            let nl = nid.len() as int;
            let ne = 5 + nl + nss.len() as int;
            &&& replaced(t, 4, 4 + nl, nid2) == assemble(nid2, nss, r, q, f)
            &&& replaced(t, 5 + nl, ne, nss2) == assemble(nid, nss2, r, q, f)
            &&& replaced(t, ne, ne + rl, opt_part(seq![B_QUESTION, B_PLUS], r2)) == assemble(
                nid,
                nss,
                r2,
                q,
                f,
            )
            &&& replaced(t, ne + rl, ne + rl + ql, opt_part(seq![B_QUESTION, B_EQUALS], q2))
                == assemble(nid, nss, r, q2, f)
            &&& replaced(t, ne + rl + ql, t.len() as int, opt_part(seq![B_HASH], f2)) == assemble(
                nid,
                nss,
                r,
                q,
                f2,
            )
        }),
{
    let rp = opt_part(seq![B_QUESTION, B_PLUS], r);
    let qp = opt_part(seq![B_QUESTION, B_EQUALS], q);
    let fp = opt_part(seq![B_HASH], f);
    let t = assemble(nid, nss, r, q, f);
    let rest = seq![B_COLON] + nss + rp + qp + fp;
    assert(t =~= urn_prefix() + nid + rest);
    lemma_replaced_mid(urn_prefix(), nid, rest, nid2);
    assert(assemble(nid2, nss, r, q, f) =~= urn_prefix() + nid2 + rest);
    let head = urn_prefix() + nid + seq![B_COLON];
    assert(t =~= head + nss + (rp + qp + fp));
    lemma_replaced_mid(head, nss, rp + qp + fp, nss2);
    assert(assemble(nid, nss2, r, q, f) =~= head + nss2 + (rp + qp + fp));
    let h2 = head + nss;
    assert(t =~= h2 + rp + (qp + fp));
    lemma_replaced_mid(h2, rp, qp + fp, opt_part(seq![B_QUESTION, B_PLUS], r2));
    assert(assemble(nid, nss, r2, q, f) =~= h2 + opt_part(seq![B_QUESTION, B_PLUS], r2) + (qp + fp));
    let h3 = h2 + rp;
    assert(t =~= h3 + qp + fp);
    lemma_replaced_mid(h3, qp, fp, opt_part(seq![B_QUESTION, B_EQUALS], q2));
    assert(assemble(nid, nss, r, q2, f) =~= h3 + opt_part(seq![B_QUESTION, B_EQUALS], q2) + fp);
    let h4 = h3 + qp;
    assert(t =~= h4 + fp + Seq::<u8>::empty());
    lemma_replaced_mid(h4, fp, Seq::<u8>::empty(), opt_part(seq![B_HASH], f2));
    assert(assemble(nid, nss, r, q, f2) =~= h4 + opt_part(seq![B_HASH], f2) + Seq::<u8>::empty());
}

/// `find_colon` gives the first `:` at or after `i`, or the length.
proof fn lemma_find_colon(s: Seq<u8>, i: int)
    requires
        0 <= i <= s.len(),
    ensures
        i <= find_colon(s, i) <= s.len(),
        find_colon(s, i) < s.len() ==> s[find_colon(s, i)] == B_COLON,
        forall|j: int| i <= j < find_colon(s, i) ==> #[trigger] s[j] != B_COLON,
    decreases s.len() - i,
{
    if i < s.len() && s[i] != B_COLON {
        lemma_find_colon(s, i + 1);
    }
}

/// A length, when there is one, as a natural number.
pub open spec fn opt_nat(o: Option<usize>) -> Option<nat> {
    match o {
        Some(l) => Some(l as nat),
        None => None,
    }
}

/// What the parser accepts is a URN that is the parse of its own text.
pub(crate) proof fn lemma_parse_inv(s: Seq<u8>)
    requires
        parse_urn_spec(s) is Ok,
    ensures
        parse_urn_spec(s).unwrap().wf(),
        parse_urn_spec(parse_urn_spec(s).unwrap().text) == parse_urn_spec(s),
{
    lemma_parse_urn_wf(s);
    law_parse_idempotent(s);
}

/// The builder given the parts of a URN with a new NSS: it fails exactly
/// when the new NSS is bad on its own, and else makes the URN whose text has
/// the normalized new NSS in place of the old one.
#[verifier::rlimit(60)]
#[verifier::spinoff_prover]
pub(crate) proof fn lemma_set_nss(v: UrnView, nss: Seq<u8>)
    requires
        v.wf(),
        parse_urn_spec(v.text) == Ok::<UrnView, Error>(v),
    ensures
        nss.len() == 0 || !part_ok(nss, PctEncoded::Nss) ==> build_spec(
            v.nid(),
            nss,
            v.r_component(),
            v.q_component(),
            v.f_component(),
        ) == Err::<UrnView, Error>(Error::InvalidNss),
        nss.len() > 0 && part_ok(nss, PctEncoded::Nss) ==> ({
            let w = UrnView {
                text: replaced(v.text, v.nss_start(), v.nss_end(), component_norm(nss, 0, PctEncoded::Nss)),
                nss_len: nss.len(),
                ..v
            };
            &&& build_spec(v.nid(), nss, v.r_component(), v.q_component(), v.f_component()) == Ok::<
                UrnView,
                Error,
            >(w)
            &&& w.wf()
            &&& parse_urn_spec(w.text) == Ok::<UrnView, Error>(w)
        }),
{
    lemma_urn_parts_normal(v);
    let nid = v.nid();
    let r = v.r_component();
    let q = v.q_component();
    let f = v.f_component();
    law_build_parts_alone(nid, nss, r, q, f);
    lemma_scan_component(nss, 0, 0, PctEncoded::Nss);
    if nss.len() > 0 && part_ok(nss, PctEncoded::Nss) {
        let n2 = component_norm(nss, 0, PctEncoded::Nss);
        lemma_replace_part(nid, v.nss(), r, q, f, nid, n2, None, None, None);
        assert(lower_all(nid) =~= nid);
        assert(opt_norm(r, PctEncoded::RComponent) == r);
        assert(opt_norm(q, PctEncoded::QComponent) == q);
        assert(opt_norm(f, PctEncoded::FComponent) == f);
        lemma_build_wf(nid, nss, r, q, f);
        law_build_parses_back(nid, nss, r, q, f);
    }
}

/// The builder given the parts of a URN with a new NID: it fails exactly
/// when the new NID is invalid, and else makes the URN whose text has the
/// new NID, lowercased, in place of the old one.
#[verifier::rlimit(60)]
#[verifier::spinoff_prover]
pub(crate) proof fn lemma_set_nid(v: UrnView, nid: Seq<u8>)
    requires
        v.wf(),
        parse_urn_spec(v.text) == Ok::<UrnView, Error>(v),
    ensures
        !is_valid_nid(nid) ==> build_spec(
            nid,
            v.nss(),
            v.r_component(),
            v.q_component(),
            v.f_component(),
        ) == Err::<UrnView, Error>(Error::InvalidNid),
        is_valid_nid(nid) ==> ({
            let w = UrnView {
                text: replaced(v.text, 4, 4 + v.nid_len as int, lower_all(nid)),
                nid_len: nid.len(),
                ..v
            };
            &&& build_spec(nid, v.nss(), v.r_component(), v.q_component(), v.f_component()) == Ok::<
                UrnView,
                Error,
            >(w)
            &&& w.wf()
            &&& parse_urn_spec(w.text) == Ok::<UrnView, Error>(w)
        }),
{
    lemma_urn_parts_normal(v);
    let nss = v.nss();
    let r = v.r_component();
    let q = v.q_component();
    let f = v.f_component();
    law_build_parts_alone(nid, nss, r, q, f);
    if is_valid_nid(nid) {
        lemma_replace_part(v.nid(), nss, r, q, f, lower_all(nid), nss, None, None, None);
        assert(opt_norm(r, PctEncoded::RComponent) == r);
        assert(opt_norm(q, PctEncoded::QComponent) == q);
        assert(opt_norm(f, PctEncoded::FComponent) == f);
        lemma_build_wf(nid, nss, r, q, f);
        law_build_parses_back(nid, nss, r, q, f);
    }
}

/// The builder given the parts of a URN with a new r-component, or none: it
/// fails exactly when the new one is bad on its own, and else makes the URN
/// whose text has `?+` and the normalized new one, or nothing, in place of
/// the old.
#[verifier::rlimit(60)]
#[verifier::spinoff_prover]
pub(crate) proof fn lemma_set_r(v: UrnView, c: Option<Seq<u8>>)
    requires
        v.wf(),
        parse_urn_spec(v.text) == Ok::<UrnView, Error>(v),
    ensures
        c matches Some(x) && (x.len() == 0 || !part_ok(x, PctEncoded::RComponent)) ==> build_spec(
            v.nid(),
            v.nss(),
            c,
            v.q_component(),
            v.f_component(),
        ) == Err::<UrnView, Error>(Error::InvalidRComponent),
        !(c matches Some(x) && (x.len() == 0 || !part_ok(x, PctEncoded::RComponent))) ==> ({
            let w = UrnView {
                text: replaced(
                    v.text,
                    v.nss_end(),
                    v.r_end(),
                    opt_part(seq![B_QUESTION, B_PLUS], opt_norm(c, PctEncoded::RComponent)),
                ),
                r_len: opt_len(c),
                ..v
            };
            &&& build_spec(v.nid(), v.nss(), c, v.q_component(), v.f_component()) == Ok::<
                UrnView,
                Error,
            >(w)
            &&& w.wf()
            &&& parse_urn_spec(w.text) == Ok::<UrnView, Error>(w)
        }),
{
    lemma_urn_parts_normal(v);
    let nid = v.nid();
    let nss = v.nss();
    let q = v.q_component();
    let f = v.f_component();
    law_build_parts_alone(nid, nss, c, q, f);
    if let Some(x) = c {
        lemma_scan_component(x, 0, 0, PctEncoded::RComponent);
    }
    if !(c matches Some(x) && (x.len() == 0 || !part_ok(x, PctEncoded::RComponent))) {
        assert(v.nss_end() == 5 + nid.len() + nss.len());
        assert(v.r_end() == v.nss_end() + opt_part(seq![B_QUESTION, B_PLUS], v.r_component()).len());
        lemma_replace_part(
            nid,
            nss,
            v.r_component(),
            q,
            f,
            nid,
            nss,
            opt_norm(c, PctEncoded::RComponent),
            None,
            None,
        );
        assert(lower_all(nid) =~= nid);
        assert(opt_norm(q, PctEncoded::QComponent) == q);
        assert(opt_norm(f, PctEncoded::FComponent) == f);
        lemma_build_wf(nid, nss, c, q, f);
        law_build_parses_back(nid, nss, c, q, f);
    }
}

/// The builder given the parts of a URN with a new q-component, or none: it
/// fails exactly when the new one is bad on its own, and else makes the URN
/// whose text has `?=` and the normalized new one, or nothing, in place of
/// the old.
#[verifier::rlimit(60)]
#[verifier::spinoff_prover]
pub(crate) proof fn lemma_set_q(v: UrnView, c: Option<Seq<u8>>)
    requires
        v.wf(),
        parse_urn_spec(v.text) == Ok::<UrnView, Error>(v),
    ensures
        c matches Some(x) && (x.len() == 0 || !part_ok(x, PctEncoded::QComponent)) ==> build_spec(
            v.nid(),
            v.nss(),
            v.r_component(),
            c,
            v.f_component(),
        ) == Err::<UrnView, Error>(Error::InvalidQComponent),
        !(c matches Some(x) && (x.len() == 0 || !part_ok(x, PctEncoded::QComponent))) ==> ({
            let w = UrnView {
                text: replaced(
                    v.text,
                    v.r_end(),
                    v.q_end(),
                    opt_part(seq![B_QUESTION, B_EQUALS], opt_norm(c, PctEncoded::QComponent)),
                ),
                q_len: opt_len(c),
                ..v
            };
            &&& build_spec(v.nid(), v.nss(), v.r_component(), c, v.f_component()) == Ok::<
                UrnView,
                Error,
            >(w)
            &&& w.wf()
            &&& parse_urn_spec(w.text) == Ok::<UrnView, Error>(w)
        }),
{
    lemma_urn_parts_normal(v);
    let nid = v.nid();
    let nss = v.nss();
    let r = v.r_component();
    let f = v.f_component();
    law_build_parts_alone(nid, nss, r, c, f);
    if let Some(x) = c {
        lemma_scan_component(x, 0, 0, PctEncoded::QComponent);
    }
    if !(c matches Some(x) && (x.len() == 0 || !part_ok(x, PctEncoded::QComponent))) {
        assert(v.nss_end() == 5 + nid.len() + nss.len());
        assert(v.r_end() == v.nss_end() + opt_part(seq![B_QUESTION, B_PLUS], r).len());
        assert(v.q_end() == v.r_end() + opt_part(seq![B_QUESTION, B_EQUALS], v.q_component()).len());
        lemma_replace_part(
            nid,
            nss,
            r,
            v.q_component(),
            f,
            nid,
            nss,
            None,
            opt_norm(c, PctEncoded::QComponent),
            None,
        );
        assert(lower_all(nid) =~= nid);
        assert(opt_norm(r, PctEncoded::RComponent) == r);
        assert(opt_norm(f, PctEncoded::FComponent) == f);
        lemma_build_wf(nid, nss, r, c, f);
        law_build_parses_back(nid, nss, r, c, f);
    }
}

/// The builder given the parts of a URN with a new f-component, or none: it
/// fails exactly when the new one is bad on its own, and else makes the URN
/// whose text has `#` and the normalized new one, or nothing, in place of the
/// old.
#[verifier::rlimit(60)]
#[verifier::spinoff_prover]
pub(crate) proof fn lemma_set_f(v: UrnView, c: Option<Seq<u8>>)
    requires
        v.wf(),
        parse_urn_spec(v.text) == Ok::<UrnView, Error>(v),
    ensures
        c matches Some(x) && !part_ok(x, PctEncoded::FComponent) ==> build_spec(
            v.nid(),
            v.nss(),
            v.r_component(),
            v.q_component(),
            c,
        ) == Err::<UrnView, Error>(Error::InvalidFComponent),
        !(c matches Some(x) && !part_ok(x, PctEncoded::FComponent)) ==> ({
            let w = UrnView {
                text: replaced(
                    v.text,
                    v.q_end(),
                    v.f_end(),
                    opt_part(seq![B_HASH], opt_norm(c, PctEncoded::FComponent)),
                ),
                f_len: opt_len(c),
                ..v
            };
            &&& build_spec(v.nid(), v.nss(), v.r_component(), v.q_component(), c) == Ok::<
                UrnView,
                Error,
            >(w)
            &&& w.wf()
            &&& parse_urn_spec(w.text) == Ok::<UrnView, Error>(w)
        }),
{
    lemma_urn_parts_normal(v);
    let nid = v.nid();
    let nss = v.nss();
    let r = v.r_component();
    let q = v.q_component();
    law_build_parts_alone(nid, nss, r, q, c);
    if let Some(x) = c {
        lemma_scan_component(x, 0, 0, PctEncoded::FComponent);
    }
    if !(c matches Some(x) && !part_ok(x, PctEncoded::FComponent)) {
        lemma_replace_part(
            nid,
            nss,
            r,
            q,
            v.f_component(),
            nid,
            nss,
            None,
            None,
            opt_norm(c, PctEncoded::FComponent),
        );
        assert(lower_all(nid) =~= nid);
        assert(opt_norm(r, PctEncoded::RComponent) == r);
        assert(opt_norm(q, PctEncoded::QComponent) == q);
        lemma_build_wf(nid, nss, r, q, c);
        law_build_parses_back(nid, nss, r, q, c);
    }
}

/// What a setter does: the URN becomes what the builder makes of the new
/// parts; or, where the builder fails, it stays as it was and the builder's
/// error is returned.
pub open spec fn set_result(r: Result<()>, before: UrnView, after: UrnView, built: Result<UrnView>) -> bool {
    match built {
        Ok(v) => r is Ok && after == v,
        Err(e) => r == Err::<(), Error>(e) && after == before,
    }
}

/// The result of a parse or build, seen from its view.
pub open spec fn matches_view<T: View<V = UrnView>>(r: Result<T>, spec: Result<UrnView>) -> bool {
    match spec {
        Ok(v) => r matches Ok(u) && u@ == v,
        Err(e) => r matches Err(x) && x == e,
    }
}

/// `sep` followed by the component, or nothing.
pub open spec fn opt_part(sep: Seq<u8>, c: Option<Seq<u8>>) -> Seq<u8> {
    match c {
        Some(x) => sep + x,
        None => Seq::empty(),
    }
}

pub open spec fn opt_len(c: Option<Seq<u8>>) -> Option<nat> {
    match c {
        Some(x) => Some(x.len()),
        None => None,
    }
}

/// The text `urn:<nid>:<nss>[?+<r>][?=<q>][#<f>]`.
pub open spec fn assemble(
    nid: Seq<u8>,
    nss: Seq<u8>,
    r: Option<Seq<u8>>,
    q: Option<Seq<u8>>,
    f: Option<Seq<u8>>,
) -> Seq<u8> {
    urn_prefix() + nid + seq![B_COLON] + nss + opt_part(seq![B_QUESTION, B_PLUS], r) + opt_part(
        seq![B_QUESTION, B_EQUALS],
        q,
    ) + opt_part(seq![B_HASH], f)
}

/// The URN that a builder with these parts produces: each part is validated
/// on its own, in the order NID, NSS, r-, q-, f-component, and the first
/// invalid one gives the error; the NID is lowercased and the
/// percent-encoding uppercased.
pub open spec fn build_spec(
    nid: Seq<u8>,
    nss: Seq<u8>,
    r: Option<Seq<u8>>,
    q: Option<Seq<u8>>,
    f: Option<Seq<u8>>,
) -> Result<UrnView> {
    let t = assemble(nid, nss, r, q, f);
    let ns = 5 + nid.len() as int;
    let ne = ns + nss.len() as int;
    if !is_valid_nid(nid) {
        Err(Error::InvalidNid)
    } else {
        let (e1, t1) = scan_component(t, ns, ns, PctEncoded::Nss);
        if nss.len() == 0 || e1 != ne {
            Err(Error::InvalidNss)
        } else {
            let re = match r {
                Some(x) => ne + 2 + x.len() as int,
                None => ne,
            };
            let (e2, t2) = match r {
                Some(x) => scan_component(t1, ne + 2, ne + 2, PctEncoded::RComponent),
                None => (re, t1),
            };
            if r matches Some(x) && (x.len() == 0 || e2 != re) {
                Err(Error::InvalidRComponent)
            } else {
                let qe = match q {
                    Some(x) => re + 2 + x.len() as int,
                    None => re,
                };
                let (e3, t3) = match q {
                    Some(x) => scan_component(t2, re + 2, re + 2, PctEncoded::QComponent),
                    None => (qe, t2),
                };
                if q matches Some(x) && (x.len() == 0 || e3 != qe) {
                    Err(Error::InvalidQComponent)
                } else {
                    let fe = match f {
                        Some(x) => qe + 1 + x.len() as int,
                        None => qe,
                    };
                    let (e4, t4) = match f {
                        Some(x) => scan_component(t3, qe + 1, qe + 1, PctEncoded::FComponent),
                        None => (fe, t3),
                    };
                    if f is Some && e4 != fe {
                        Err(Error::InvalidFComponent)
                    } else {
                        Ok(
                            UrnView {
                                text: lower_range(t4, 4, 4 + nid.len() as int),
                                nid_len: nid.len(),
                                nss_len: nss.len(),
                                r_len: opt_len(r),
                                q_len: opt_len(q),
                                f_len: opt_len(f),
                            },
                        )
                    }
                }
            }
        }
    }
}

/// What `build_spec` produces has the shape of a URN.
#[verifier::rlimit(100)]
#[verifier::spinoff_prover]
pub proof fn lemma_build_wf(
    nid: Seq<u8>,
    nss: Seq<u8>,
    r: Option<Seq<u8>>,
    q: Option<Seq<u8>>,
    f: Option<Seq<u8>>,
)
    requires
        build_spec(nid, nss, r, q, f) is Ok,
    ensures
        build_spec(nid, nss, r, q, f).unwrap().wf(),
{
    let t = assemble(nid, nss, r, q, f);
    let ns = 5 + nid.len() as int;
    let ne = ns + nss.len() as int;
    let (e1, t1) = scan_component(t, ns, ns, PctEncoded::Nss);
    lemma_scan_component(t, ns, ns, PctEncoded::Nss);
    let re = match r {
        Some(x) => ne + 2 + x.len() as int,
        None => ne,
    };
    let (e2, t2) = match r {
        Some(x) => scan_component(t1, ne + 2, ne + 2, PctEncoded::RComponent),
        None => (re, t1),
    };
    if r is Some {
        lemma_scan_component(t1, ne + 2, ne + 2, PctEncoded::RComponent);
    }
    let qe = match q {
        Some(x) => re + 2 + x.len() as int,
        None => re,
    };
    let (e3, t3) = match q {
        Some(x) => scan_component(t2, re + 2, re + 2, PctEncoded::QComponent),
        None => (qe, t2),
    };
    if q is Some {
        lemma_scan_component(t2, re + 2, re + 2, PctEncoded::QComponent);
    }
    let fe = match f {
        Some(x) => qe + 1 + x.len() as int,
        None => qe,
    };
    let (e4, t4) = match f {
        Some(x) => scan_component(t3, qe + 1, qe + 1, PctEncoded::FComponent),
        None => (fe, t3),
    };
    if f is Some {
        lemma_scan_component(t3, qe + 1, qe + 1, PctEncoded::FComponent);
    }
    let v = build_spec(nid, nss, r, q, f).unwrap();
    let p0 = urn_prefix() + nid + seq![B_COLON] + nss;
    let p1 = p0 + opt_part(seq![B_QUESTION, B_PLUS], r);
    let p2 = p1 + opt_part(seq![B_QUESTION, B_EQUALS], q);
    assert(t == p2 + opt_part(seq![B_HASH], f));
    assert(p0.len() == ne);
    assert(p1.len() == re);
    assert(p2.len() == qe);
    assert(t.len() == fe);
    assert(v.text == lower_range(t4, 4, 4 + nid.len() as int));
    assert(v.r_end() == re);
    assert(v.q_end() == qe);
    assert(v.f_end() == fe);
    // bytes before each scanned part are kept by the later scans
    assert forall|j: int| 0 <= j < t.len() && (j <= ne || (r is Some && j < ne + 2)) implies #[trigger] t4[j] == t1[j] by {
        assert(t2[j] == t1[j]);
        assert(t3[j] == t2[j]);
        assert(t4[j] == t3[j]);
    }
    assert forall|j: int| 0 <= j < ns implies #[trigger] t4[j] == t[j] by {
        assert(t4[j] == t1[j]);
    }
    assert forall|j: int| 0 <= j < 4 + nid.len() implies #[trigger] t[j] == (urn_prefix()
        + nid)[j] by {
        assert(t[j] == p0[j]);
    }
    assert forall|k: int| 0 <= k < nid.len() implies #[trigger] v.text[4 + k] == ascii_lower(
        nid[k],
    ) by {
        assert(t4[4 + k] == t[4 + k]);
        assert(t[4 + k] == (urn_prefix() + nid)[4 + k]);
    }
    assert(v.nid() =~= nid.map_values(|b: u8| ascii_lower(b)));
    lemma_lower_nid(nid);
    assert(v.text.subrange(0, 4) =~= urn_prefix()) by {
        assert forall|k: int| 0 <= k < 4 implies v.text[k] == urn_prefix()[k] by {
            assert(t4[k] == t[k]);
            assert(t[k] == (urn_prefix() + nid)[k]);
        }
    }
    assert(v.text[4 + v.nid_len as int] == B_COLON) by {
        assert(t4[4 + nid.len() as int] == t[4 + nid.len() as int]);
        assert(t[4 + nid.len() as int] == p0[4 + nid.len() as int]);
    }
    assert forall|i: int| 4 <= i < 4 + v.nid_len as int implies !is_upper(#[trigger] v.text[i]) by {
    }
    if r is Some {
        assert(t4[ne] == t1[ne] && t4[ne + 1] == t1[ne + 1]);
        assert(t1[ne] == t[ne] && t1[ne + 1] == t[ne + 1]);
        assert(t[ne] == p1[ne] && t[ne + 1] == p1[ne + 1]);
    }
    if q is Some {
        assert(t4[re] == t3[re] && t4[re + 1] == t3[re + 1]);
        assert(t3[re] == t2[re] && t3[re + 1] == t2[re + 1]);
        assert(t2[re] == t1[re] && t2[re + 1] == t1[re + 1]);
        assert(t1[re] == t[re] && t1[re + 1] == t[re + 1]);
        assert(t[re] == p2[re] && t[re + 1] == p2[re + 1]);
    }
    if f is Some {
        assert(t4[qe] == t3[qe]);
        assert(t3[qe] == t2[qe]);
        assert(t2[qe] == t1[qe]);
        assert(t1[qe] == t[qe]);
    }
    assert forall|j: int| 0 <= j < v.text.len() implies #[trigger] v.text[j] < 0x80 by {
        if j < 4 + nid.len() {
            if j >= 4 {
                assert(nid[j - 4] < 0x80);
            }
            assert(t4[j] == t[j]);
            assert(t[j] == (urn_prefix() + nid)[j]);
        } else if j < ne {
            assert(t4[j] == t1[j]);
            if j == 4 + nid.len() {
                assert(t1[j] == t[j]);
                assert(t[j] == p0[j]);
            }
        } else if j < re {
            assert(t4[j] == t3[j] && t3[j] == t2[j]);
            if j < ne + 2 {
                assert(t2[j] == t1[j] && t1[j] == t[j] && t[j] == p1[j]);
            }
        } else if j < qe {
            assert(t4[j] == t3[j]);
            if j < re + 2 {
                assert(t3[j] == t2[j] && t2[j] == t1[j] && t1[j] == t[j] && t[j] == p2[j]);
            }
        } else {
            if j == qe {
                assert(t4[j] == t3[j] && t3[j] == t2[j] && t2[j] == t1[j] && t1[j] == t[j]);
            }
        }
    }
}

/// Whether `c` is a well-formed part of kind `kind` on its own: a scan of
/// it runs to its end.
pub open spec fn part_ok(c: Seq<u8>, kind: PctEncoded) -> bool {
    component_end(c, 0, kind) == c.len()
}

/// A part with its percent-encoding normalized, when there is one.
pub open spec fn opt_norm(c: Option<Seq<u8>>, kind: PctEncoded) -> Option<Seq<u8>> {
    match c {
        Some(x) => Some(component_norm(x, 0, kind)),
        None => None,
    }
}

/// What the builder gives, part by part: each part is checked on its own,
/// in the order NID, NSS, r-, q-, f-component, and the first bad one gives
/// the error; else the URN of the NID lowercased and the other parts with
/// their percent-encoding normalized.
pub open spec fn build_parts(
    nid: Seq<u8>,
    nss: Seq<u8>,
    r: Option<Seq<u8>>,
    q: Option<Seq<u8>>,
    f: Option<Seq<u8>>,
) -> Result<UrnView> {
    if !is_valid_nid(nid) {
        Err(Error::InvalidNid)
    } else if nss.len() == 0 || !part_ok(nss, PctEncoded::Nss) {
        Err(Error::InvalidNss)
    } else if r matches Some(x) && (x.len() == 0 || !part_ok(x, PctEncoded::RComponent)) {
        Err(Error::InvalidRComponent)
    } else if q matches Some(x) && (x.len() == 0 || !part_ok(x, PctEncoded::QComponent)) {
        Err(Error::InvalidQComponent)
    } else if f matches Some(x) && !part_ok(x, PctEncoded::FComponent) {
        Err(Error::InvalidFComponent)
    } else {
        Ok(
            UrnView {
                text: assemble(
                    lower_all(nid),
                    component_norm(nss, 0, PctEncoded::Nss),
                    opt_norm(r, PctEncoded::RComponent),
                    opt_norm(q, PctEncoded::QComponent),
                    opt_norm(f, PctEncoded::FComponent),
                ),
                nid_len: nid.len(),
                nss_len: nss.len(),
                r_len: opt_len(r),
                q_len: opt_len(q),
                f_len: opt_len(f),
            },
        )
    }
}

/// The NSS of an assembled text is scanned as it is on its own.
proof fn lemma_stage_nss(nid: Seq<u8>, c: Seq<u8>, r: Option<Seq<u8>>, q: Option<Seq<u8>>, f: Option<Seq<u8>>)
    ensures
        ({
            let ns = 5 + nid.len() as int;
            scan_component(assemble(nid, c, r, q, f), ns, ns, PctEncoded::Nss) == (
                ns + component_end(c, 0, PctEncoded::Nss),
                assemble(nid, component_norm(c, 0, PctEncoded::Nss), r, q, f),
            )
        }),
{
    let head = urn_prefix() + nid + seq![B_COLON];
    let rest = opt_part(seq![B_QUESTION, B_PLUS], r) + opt_part(seq![B_QUESTION, B_EQUALS], q)
        + opt_part(seq![B_HASH], f);
    assert(assemble(nid, c, r, q, f) =~= head + c + rest);
    if rest.len() > 0 {
        assert(rest[0] == B_QUESTION || rest[0] == B_HASH);
    }
    lemma_scan_embedded(c, head, rest, 0, PctEncoded::Nss);
    assert(assemble(nid, component_norm(c, 0, PctEncoded::Nss), r, q, f) =~= head + component_norm(
        c,
        0,
        PctEncoded::Nss,
    ) + rest);
}

/// The r-component of an assembled text is scanned as it is on its own.
proof fn lemma_stage_r(nid: Seq<u8>, n: Seq<u8>, x: Seq<u8>, q: Option<Seq<u8>>, f: Option<Seq<u8>>)
    ensures
        ({
            let rs = 7 + nid.len() as int + n.len() as int;
            scan_component(assemble(nid, n, Some(x), q, f), rs, rs, PctEncoded::RComponent) == (
                rs + component_end(x, 0, PctEncoded::RComponent),
                assemble(nid, n, Some(component_norm(x, 0, PctEncoded::RComponent)), q, f),
            )
        }),
{
    let pre = urn_prefix() + nid + seq![B_COLON] + n + seq![B_QUESTION, B_PLUS];
    let rest = opt_part(seq![B_QUESTION, B_EQUALS], q) + opt_part(seq![B_HASH], f);
    assert(assemble(nid, n, Some(x), q, f) =~= pre + x + rest);
    if rest.len() > 0 {
        assert(rest[0] == B_QUESTION || rest[0] == B_HASH);
        if rest[0] == B_QUESTION {
            assert(rest[1] == B_EQUALS);
        }
    }
    lemma_scan_embedded(x, pre, rest, 0, PctEncoded::RComponent);
    assert(assemble(nid, n, Some(component_norm(x, 0, PctEncoded::RComponent)), q, f) =~= pre
        + component_norm(x, 0, PctEncoded::RComponent) + rest);
}

/// The q-component of an assembled text is scanned as it is on its own.
proof fn lemma_stage_q(nid: Seq<u8>, n: Seq<u8>, r: Option<Seq<u8>>, x: Seq<u8>, f: Option<Seq<u8>>)
    ensures
        ({
            let qs = 7 + nid.len() as int + n.len() as int + opt_part(seq![B_QUESTION, B_PLUS], r).len() as int;
            scan_component(assemble(nid, n, r, Some(x), f), qs, qs, PctEncoded::QComponent) == (
                qs + component_end(x, 0, PctEncoded::QComponent),
                assemble(nid, n, r, Some(component_norm(x, 0, PctEncoded::QComponent)), f),
            )
        }),
{
    let pre = urn_prefix() + nid + seq![B_COLON] + n + opt_part(seq![B_QUESTION, B_PLUS], r)
        + seq![B_QUESTION, B_EQUALS];
    let rest = opt_part(seq![B_HASH], f);
    assert(assemble(nid, n, r, Some(x), f) =~= pre + x + rest);
    lemma_scan_embedded(x, pre, rest, 0, PctEncoded::QComponent);
    assert(assemble(nid, n, r, Some(component_norm(x, 0, PctEncoded::QComponent)), f) =~= pre
        + component_norm(x, 0, PctEncoded::QComponent) + rest);
}

/// The f-component of an assembled text is scanned as it is on its own.
proof fn lemma_stage_f(nid: Seq<u8>, n: Seq<u8>, r: Option<Seq<u8>>, q: Option<Seq<u8>>, x: Seq<u8>)
    ensures
        ({
            let fs = 6 + nid.len() as int + n.len() as int + opt_part(seq![B_QUESTION, B_PLUS], r).len() as int
                + opt_part(seq![B_QUESTION, B_EQUALS], q).len() as int;
            scan_component(assemble(nid, n, r, q, Some(x)), fs, fs, PctEncoded::FComponent) == (
                fs + component_end(x, 0, PctEncoded::FComponent),
                assemble(nid, n, r, q, Some(component_norm(x, 0, PctEncoded::FComponent))),
            )
        }),
{
    let pre = urn_prefix() + nid + seq![B_COLON] + n + opt_part(seq![B_QUESTION, B_PLUS], r)
        + opt_part(seq![B_QUESTION, B_EQUALS], q) + seq![B_HASH];
    assert(assemble(nid, n, r, q, Some(x)) =~= pre + x + Seq::<u8>::empty());
    lemma_scan_embedded(x, pre, Seq::<u8>::empty(), 0, PctEncoded::FComponent);
    assert(assemble(nid, n, r, q, Some(component_norm(x, 0, PctEncoded::FComponent))) =~= pre
        + component_norm(x, 0, PctEncoded::FComponent) + Seq::<u8>::empty());
}

/// The builder checks and normalizes each part as it would on its own: the
/// parts around it in the text make no difference.
#[verifier::rlimit(100)]
#[verifier::spinoff_prover]
pub proof fn law_build_parts_alone(
    nid: Seq<u8>,
    nss: Seq<u8>,
    r: Option<Seq<u8>>,
    q: Option<Seq<u8>>,
    f: Option<Seq<u8>>,
)
    ensures
        build_spec(nid, nss, r, q, f) == build_parts(nid, nss, r, q, f),
{
    if !is_valid_nid(nid) {
        return;
    }
    lemma_stage_nss(nid, nss, r, q, f);
    lemma_scan_component(nss, 0, 0, PctEncoded::Nss);
    let n2 = component_norm(nss, 0, PctEncoded::Nss);
    if nss.len() == 0 || !part_ok(nss, PctEncoded::Nss) {
        return;
    }
    let r2 = opt_norm(r, PctEncoded::RComponent);
    if let Some(x) = r {
        lemma_stage_r(nid, n2, x, q, f);
        lemma_scan_component(x, 0, 0, PctEncoded::RComponent);
        if x.len() == 0 || !part_ok(x, PctEncoded::RComponent) {
            return;
        }
    }
    let q2 = opt_norm(q, PctEncoded::QComponent);
    if let Some(x) = q {
        lemma_stage_q(nid, n2, r2, x, f);
        lemma_scan_component(x, 0, 0, PctEncoded::QComponent);
        if x.len() == 0 || !part_ok(x, PctEncoded::QComponent) {
            return;
        }
    }
    let f2 = opt_norm(f, PctEncoded::FComponent);
    if let Some(x) = f {
        lemma_stage_f(nid, n2, r2, q2, x);
        lemma_scan_component(x, 0, 0, PctEncoded::FComponent);
        if !part_ok(x, PctEncoded::FComponent) {
            return;
        }
    }
    let t4 = assemble(nid, n2, r2, q2, f2);
    assert(lower_range(t4, 4, 4 + nid.len() as int) =~= assemble(lower_all(nid), n2, r2, q2, f2));
}

/// The text of a built URN parses back to the same URN: what the builder
/// writes is what the parser reads.
#[verifier::rlimit(100)]
#[verifier::spinoff_prover]
pub proof fn law_build_parses_back(
    nid: Seq<u8>,
    nss: Seq<u8>,
    r: Option<Seq<u8>>,
    q: Option<Seq<u8>>,
    f: Option<Seq<u8>>,
)
    requires
        build_spec(nid, nss, r, q, f) is Ok,
    ensures
        parse_urn_spec(build_spec(nid, nss, r, q, f).unwrap().text) == build_spec(
            nid,
            nss,
            r,
            q,
            f,
        ),
{
    lemma_build_wf(nid, nss, r, q, f);
    let v = build_spec(nid, nss, r, q, f).unwrap();
    lemma_wf_head(v);
    let t = assemble(nid, nss, r, q, f);
    let ns = 5 + nid.len() as int;
    let ne = ns + nss.len() as int;
    let (e1, t1) = scan_component(t, ns, ns, PctEncoded::Nss);
    lemma_scan_component(t, ns, ns, PctEncoded::Nss);
    let re = match r {
        Some(x) => ne + 2 + x.len() as int,
        None => ne,
    };
    let (e2, t2) = match r {
        Some(x) => scan_component(t1, ne + 2, ne + 2, PctEncoded::RComponent),
        None => (re, t1),
    };
    if r is Some {
        lemma_scan_component(t1, ne + 2, ne + 2, PctEncoded::RComponent);
    }
    let qe = match q {
        Some(x) => re + 2 + x.len() as int,
        None => re,
    };
    let (e3, t3) = match q {
        Some(x) => scan_component(t2, re + 2, re + 2, PctEncoded::QComponent),
        None => (qe, t2),
    };
    if q is Some {
        lemma_scan_component(t2, re + 2, re + 2, PctEncoded::QComponent);
    }
    let fe = match f {
        Some(x) => qe + 1 + x.len() as int,
        None => qe,
    };
    let (e4, t4) = match f {
        Some(x) => scan_component(t3, qe + 1, qe + 1, PctEncoded::FComponent),
        None => (fe, t3),
    };
    if f is Some {
        lemma_scan_component(t3, qe + 1, qe + 1, PctEncoded::FComponent);
    }
    let w = v.text;
    assert(w == lower_range(t4, 4, 4 + nid.len() as int));
    assert(v.r_end() == re && v.q_end() == qe && v.f_end() == fe);
    assert forall|j: int| 0 <= j < t.len() implies ascii_upper(#[trigger] w[j]) == ascii_upper(t[j])
        && ascii_upper(t1[j]) == ascii_upper(t[j]) && ascii_upper(t2[j]) == ascii_upper(t[j])
        && ascii_upper(t3[j]) == ascii_upper(t[j]) by {
    }
    // the NSS
    assert forall|j: int| ns <= j < ne implies #[trigger] w[j] == t1[j] by {
        assert(t2[j] == t1[j] && t3[j] == t2[j] && t4[j] == t3[j]);
    }
    lemma_scan_stable(t, w, ns, ns, PctEncoded::Nss);
    assert(parse_urn_spec(w) == parse_tail(w, nid.len(), nss.len()));
    // the r-component
    if r is Some {
        assert forall|j: int| ne + 2 <= j < re implies #[trigger] w[j] == t2[j] by {
            assert(t3[j] == t2[j] && t4[j] == t3[j]);
        }
        lemma_scan_stable(t1, w, ne + 2, ne + 2, PctEncoded::RComponent);
    } else if q is Some {
        assert(w[ne + 1] == B_EQUALS);
    } else if f is Some {
        assert(w[ne] == B_HASH);
    }
    // the q-component
    if q is Some {
        assert forall|j: int| re + 2 <= j < qe implies #[trigger] w[j] == t3[j] by {
            assert(t4[j] == t3[j]);
        }
        lemma_scan_stable(t2, w, re + 2, re + 2, PctEncoded::QComponent);
    } else if f is Some {
        assert(w[re] == B_HASH);
    }
    // the f-component
    if f is Some {
        lemma_scan_stable(t3, w, qe + 1, qe + 1, PctEncoded::FComponent);
    }
}

/// The percent-encoding of a part, when there is one.
pub open spec fn opt_encode(c: Option<Seq<u8>>, kind: PctEncoded) -> Option<Seq<u8>> {
    match c {
        Some(x) => Some(encode_bytes(x, kind)),
        None => None,
    }
}

/// A URN whose text is assembled from its parts holds those parts.
proof fn lemma_assembled_parts(
    v: UrnView,
    nid: Seq<u8>,
    nss: Seq<u8>,
    r: Option<Seq<u8>>,
    q: Option<Seq<u8>>,
    f: Option<Seq<u8>>,
)
    requires
        v.text == assemble(nid, nss, r, q, f),
        v.nid_len == nid.len(),
        v.nss_len == nss.len(),
        v.r_len == opt_len(r),
        v.q_len == opt_len(q),
        v.f_len == opt_len(f),
    ensures
        v.nid() == nid,
        v.nss() == nss,
        v.r_component() == r,
        v.q_component() == q,
        v.f_component() == f,
{
    let head = urn_prefix() + nid + seq![B_COLON];
    let rp = opt_part(seq![B_QUESTION, B_PLUS], r);
    let qp = opt_part(seq![B_QUESTION, B_EQUALS], q);
    let fp = opt_part(seq![B_HASH], f);
    let t = assemble(nid, nss, r, q, f);
    let ns = head.len() as int;
    let ne = ns + nss.len();
    let re = ne + rp.len();
    let qe = re + qp.len();
    assert(t =~= head + nss + rp + qp + fp);
    assert(v.r_end() == re && v.q_end() == qe);
    assert(v.nid() =~= nid) by {
        assert forall|k: int| 0 <= k < nid.len() implies #[trigger] v.nid()[k] == nid[k] by {
            assert(t[4 + k] == (head + nss)[4 + k]);
        }
    }
    assert(v.nss() =~= nss) by {
        assert forall|k: int| 0 <= k < nss.len() implies #[trigger] v.nss()[k] == nss[k] by {
            assert(t[ns + k] == (head + nss)[ns + k]);
        }
    }
    if let Some(x) = r {
        assert(v.r_component().unwrap() =~= x) by {
            assert forall|k: int| 0 <= k < x.len() implies #[trigger] v.r_component().unwrap()[k]
                == x[k] by {
                assert(t =~= head + nss + seq![B_QUESTION, B_PLUS] + x + (qp + fp));
                assert(t[ne + 2 + k] == x[k]);
            }
        }
    }
    if let Some(x) = q {
        assert(v.q_component().unwrap() =~= x) by {
            assert forall|k: int| 0 <= k < x.len() implies #[trigger] v.q_component().unwrap()[k]
                == x[k] by {
                assert(t =~= head + nss + rp + seq![B_QUESTION, B_EQUALS] + x + fp);
                assert(t[re + 2 + k] == x[k]);
            }
        }
    }
    if let Some(x) = f {
        assert(v.f_component().unwrap() =~= x) by {
            assert forall|k: int| 0 <= k < x.len() implies #[trigger] v.f_component().unwrap()[k]
                == x[k] by {
                assert(t =~= head + nss + rp + qp + seq![B_HASH] + x);
                assert(t[qe + 1 + k] == x[k]);
            }
        }
    }
}

/// A builder given a valid NID and percent-encoded parts always builds, when
/// the NSS and any r- or q-component are non-empty, and the URN holds the
/// encoded parts as they are.
pub proof fn law_build_encoded(
    nid: Seq<u8>,
    nss: Seq<u8>,
    r: Option<Seq<u8>>,
    q: Option<Seq<u8>>,
    f: Option<Seq<u8>>,
)
    requires
        is_valid_nid(nid),
        nss.len() > 0,
        r matches Some(x) ==> x.len() > 0,
        q matches Some(x) ==> x.len() > 0,
    ensures
        build_spec(
            nid,
            encode_bytes(nss, PctEncoded::Nss),
            opt_encode(r, PctEncoded::RComponent),
            opt_encode(q, PctEncoded::QComponent),
            opt_encode(f, PctEncoded::FComponent),
        ) matches Ok(v) && v.nss() == encode_bytes(nss, PctEncoded::Nss) && v.r_component()
            == opt_encode(r, PctEncoded::RComponent) && v.q_component() == opt_encode(
            q,
            PctEncoded::QComponent,
        ) && v.f_component() == opt_encode(f, PctEncoded::FComponent),
{
    let en = encode_bytes(nss, PctEncoded::Nss);
    let er = opt_encode(r, PctEncoded::RComponent);
    let eq = opt_encode(q, PctEncoded::QComponent);
    let ef = opt_encode(f, PctEncoded::FComponent);
    law_build_parts_alone(nid, en, er, eq, ef);
    law_encode_is_normalized_component(nss, PctEncoded::Nss);
    lemma_enc_prefix_extends(nss, 0, nss.len() as int, PctEncoded::Nss);
    if let Some(x) = r {
        law_encode_is_normalized_component(x, PctEncoded::RComponent);
        lemma_enc_prefix_extends(x, 0, x.len() as int, PctEncoded::RComponent);
    }
    if let Some(x) = q {
        law_encode_is_normalized_component(x, PctEncoded::QComponent);
        lemma_enc_prefix_extends(x, 0, x.len() as int, PctEncoded::QComponent);
    }
    if let Some(x) = f {
        law_encode_is_normalized_component(x, PctEncoded::FComponent);
    }
    assert(opt_norm(er, PctEncoded::RComponent) == er);
    assert(opt_norm(eq, PctEncoded::QComponent) == eq);
    assert(opt_norm(ef, PctEncoded::FComponent) == ef);
    let v = build_spec(nid, en, er, eq, ef).unwrap();
    lemma_assembled_parts(v, lower_all(nid), en, er, eq, ef);
}

/// Building from a valid lowercase NID and a non-empty NSS of bytes that need
/// no encoding succeeds, and the URN holds the parts as given.
pub proof fn lemma_build_plain(nid: Seq<u8>, nss: Seq<u8>)
    requires
        is_valid_nid(nid),
        forall|i: int| 0 <= i < nid.len() ==> !is_upper(#[trigger] nid[i]),
        nss.len() > 0,
        forall|i: int| 0 <= i < nss.len() ==> is_parse_plain(#[trigger] nss[i]),
    ensures
        build_spec(nid, nss, None, None, None) matches Ok(v) && v.text == assemble(
            nid,
            nss,
            None,
            None,
            None,
        ) && v.nid() == nid && v.nss() == nss && v.r_len is None && v.q_len is None
            && v.f_len is None,
{
    let t = assemble(nid, nss, None, None, None);
    let ns = 5 + nid.len() as int;
    let ne = ns + nss.len() as int;
    let p0 = urn_prefix() + nid + seq![B_COLON] + nss;
    assert(t =~= p0);
    assert forall|j: int| ns <= j < ne implies is_parse_plain(#[trigger] t[j]) by {
        assert(t[j] == nss[j - ns]);
    }
    lemma_scan_skip_plain(t, ns, ns, ne, PctEncoded::Nss);
    assert(scan_component(t, ns, ne, PctEncoded::Nss) == (ne, t));
    assert forall|j: int| 4 <= j < 4 + nid.len() implies !is_upper(#[trigger] t[j]) by {
        assert(t[j] == nid[j - 4]);
    }
    assert(lower_range(t, 4, 4 + nid.len() as int) =~= t);
    let v = build_spec(nid, nss, None, None, None).unwrap();
    assert(v.nid() =~= nid);
    assert(v.nss() =~= nss);
}

/// The bytes of an optional text.
pub open spec fn opt_bytes(s: Option<&str>) -> Option<Seq<u8>> {
    match s {
        Some(x) => Some(x.spec_bytes()),
        None => None,
    }
}

/// A namespace identifier is 2 to 32 bytes, each an ASCII letter, an ASCII
/// digit or `-`, and does not start with `-`.
pub proof fn law_nid_bytes(n: Seq<u8>)
    ensures
        is_valid_nid(n) <==> (2 <= n.len() <= 32 && n[0] != 0x2D && forall|i: int|
            0 <= i < n.len() ==> (0x30 <= #[trigger] n[i] <= 0x39 || 0x41 <= n[i] <= 0x5A || 0x61
                <= n[i] <= 0x7A || n[i] == 0x2D)),
{
}

/// Parsing a text that starts with the scheme and has a `:` after the NID
/// refuses the NID exactly when it breaks the NID rule: 2 to 32 bytes, each
/// an ASCII letter, an ASCII digit or `-`, the first not `-`.
pub proof fn law_parse_nid(s: Seq<u8>, k: int)
    requires
        scheme_ok(s),
        4 <= k < s.len(),
        s[k] == 0x3A,
        forall|j: int| 4 <= j < k ==> #[trigger] s[j] != 0x3A,
    ensures
        (parse_urn_spec(s) == Err::<UrnView, Error>(Error::InvalidNid)) <==> !(2 <= k - 4 <= 32
            && s[4] != 0x2D && forall|j: int|
            4 <= j < k ==> (0x30 <= #[trigger] s[j] <= 0x39 || 0x41 <= s[j] <= 0x5A || 0x61 <= s[j]
                <= 0x7A || s[j] == 0x2D)),
{
    let s1 = lower_range(s, 0, 4);
    lemma_find_colon_at(s1, 4, k);
    let n = s1.subrange(4, k);
    assert forall|j: int| 4 <= j < k implies #[trigger] s[j] == n[j - 4] by {}
    law_nid_bytes(n);
    let lit = forall|j: int|
        4 <= j < k ==> (0x30 <= #[trigger] s[j] <= 0x39 || 0x41 <= s[j] <= 0x5A || 0x61 <= s[j]
            <= 0x7A || s[j] == 0x2D);
    let litn = forall|i: int|
        0 <= i < n.len() ==> (0x30 <= #[trigger] n[i] <= 0x39 || 0x41 <= n[i] <= 0x5A || 0x61
            <= n[i] <= 0x7A || n[i] == 0x2D);
    if lit {
        assert forall|i: int| 0 <= i < n.len() implies (0x30 <= #[trigger] n[i] <= 0x39 || 0x41
            <= n[i] <= 0x5A || 0x61 <= n[i] <= 0x7A || n[i] == 0x2D) by {
            assert(s[i + 4] == n[i]);
        }
    }
    if litn {
        assert forall|j: int| 4 <= j < k implies (0x30 <= #[trigger] s[j] <= 0x39 || 0x41 <= s[j]
            <= 0x5A || 0x61 <= s[j] <= 0x7A || s[j] == 0x2D) by {
            assert(s[j] == n[j - 4]);
        }
    }
    if k > 4 {
        assert(n[0] == s[4]);
    }
}

/// A builder refuses the NID exactly when it breaks the NID rule: 2 to 32
/// bytes, each an ASCII letter, an ASCII digit or `-`, the first not `-`.
pub proof fn law_build_nid(
    nid: Seq<u8>,
    nss: Seq<u8>,
    r: Option<Seq<u8>>,
    q: Option<Seq<u8>>,
    f: Option<Seq<u8>>,
)
    ensures
        (build_spec(nid, nss, r, q, f) == Err::<UrnView, Error>(Error::InvalidNid)) <==> !(2
            <= nid.len() <= 32 && nid[0] != 0x2D && forall|i: int|
            0 <= i < nid.len() ==> (0x30 <= #[trigger] nid[i] <= 0x39 || 0x41 <= nid[i] <= 0x5A
                || 0x61 <= nid[i] <= 0x7A || nid[i] == 0x2D)),
{
    law_nid_bytes(nid);
}

/// `urn:` followed by a NID of 2 to 32 lowercase ASCII letters, digits and
/// `-` (the first not `-`), a `:` and a non-empty NSS of ASCII letters,
/// digits and `-` `.` `_` `~` `!` `$` `&` `'` `(` `)` `*` `+` `,` `;` `=`
/// `:` `@` parses, and building from the same two parts gives that URN.
pub proof fn law_parse_plain_urn(nid: Seq<u8>, nss: Seq<u8>)
    requires
        2 <= nid.len() <= 32,
        nid[0] != 0x2D,
        forall|i: int|
            0 <= i < nid.len() ==> (0x30 <= #[trigger] nid[i] <= 0x39 || 0x61 <= nid[i] <= 0x7A
                || nid[i] == 0x2D),
        nss.len() > 0,
        forall|i: int|
            0 <= i < nss.len() ==> {
                let x = #[trigger] nss[i];
                ||| 0x30 <= x <= 0x39
                ||| 0x41 <= x <= 0x5A
                ||| 0x61 <= x <= 0x7A
                ||| x == 0x2D || x == 0x2E || x == 0x5F || x == 0x7E || x == 0x21 || x == 0x24
                ||| x == 0x26 || x == 0x27 || x == 0x28 || x == 0x29 || x == 0x2A || x == 0x2B
                ||| x == 0x2C || x == 0x3B || x == 0x3D || x == 0x3A || x == 0x40
            },
    ensures
        parse_urn_spec(seq![0x75u8, 0x72u8, 0x6Eu8, 0x3Au8] + nid + seq![0x3Au8] + nss) matches Ok(v)
            && v.nid() == nid && v.nss() == nss && v.r_len is None && v.q_len is None
            && v.f_len is None,
        build_spec(nid, nss, None, None, None) == parse_urn_spec(
            seq![0x75u8, 0x72u8, 0x6Eu8, 0x3Au8] + nid + seq![0x3Au8] + nss,
        ),
{
    law_nid_bytes(nid);
    assert forall|i: int| 0 <= i < nss.len() implies is_parse_plain(#[trigger] nss[i]) by {
        let x = nss[i];
        assert(x == nss[i]);
    }
    lemma_build_plain(nid, nss);
    law_build_parses_back(nid, nss, None, None, None);
    assert(assemble(nid, nss, None, None, None) =~= seq![0x75u8, 0x72u8, 0x6Eu8, 0x3Au8] + nid
        + seq![0x3Au8] + nss);
}

} // verus!
