//! URNs: the borrowed `UrnSlice`, the owned `Urn`, and `UrnBuilder`.
use crate::cow::{
    keeps_storage, lemma_ascii_char_boundaries, lemma_keeps_storage_chain, lower_range, replaced,
    TriCow,
};
use crate::error::{Error, Result};
use crate::percent::{
    lemma_scan_component, lemma_upper_steps, parse_f_component, parse_nss, parse_q_component, parse_r_component,
    PctEncoded,
};
use crate::syntax::{
    assemble, build_spec, find_colon, is_valid_nid, law_build_parses_back, lemma_build_plain,
    lemma_build_wf, lemma_parse_inv, lemma_set_f, lemma_set_nid, lemma_set_nss,
    lemma_set_q, lemma_set_r, matches_view, opt_bytes, opt_nat, opt_part, parse_tail,
    parse_urn_spec, scheme_ok, set_result, urn_prefix, UrnView,
};
use crate::tables::{
    ascii_upper, is_nid_byte, is_nid_byte_exec, lower_all, B_COLON, B_EQUALS, B_HASH, B_HYPHEN, B_PLUS,
    B_QUESTION,
};
use crate::text::{all_ascii, ascii_chars, ascii_to_str, lemma_ascii_str};
use vstd::prelude::*;
use vstd::string::StringSliceAdditionalSpecFns;
use vstd::utf8::valid_utf8;

verus! {

/// A parsed, normalized URN over borrowed or owned text.
pub struct UrnSlice<'a> {
    urn: TriCow<'a>,
    nid_len: usize,
    nss_len: usize,
    r_component_len: Option<usize>,
    q_component_len: Option<usize>,
    f_component_len: Option<usize>,
}


impl<'a> View for UrnSlice<'a> {
    type V = UrnView;

    closed spec fn view(&self) -> UrnView {
        UrnView {
            text: self.urn@,
            nid_len: self.nid_len as nat,
            nss_len: self.nss_len as nat,
            r_len: opt_nat(self.r_component_len),
            q_len: opt_nat(self.q_component_len),
            f_len: opt_nat(self.f_component_len),
        }
    }
}

/// Whether `b[start..end]` is a valid NID.
fn valid_nid(b: &[u8], start: usize, end: usize) -> (r: bool)
    requires
        start <= end <= b@.len(),
    ensures
        r == is_valid_nid(b@.subrange(start as int, end as int)),
{
    let len = end - start;
    if len < 2 || len > 32 || b[start] == B_HYPHEN {
        return false;
    }
    let mut i = start;
    while i < end
        invariant
            start <= i <= end <= b@.len(),
            forall|k: int| start <= k < i ==> is_nid_byte(#[trigger] b@[k]),
        decreases end - i,
    {
        if !is_nid_byte_exec(b[i]) {
            assert(!is_nid_byte(b@.subrange(start as int, end as int)[i - start]));
            return false;
        }
        i += 1;
    }
    assert forall|k: int| 0 <= k < len implies is_nid_byte(
        #[trigger] b@.subrange(start as int, end as int)[k],
    ) by {
        assert(b@.subrange(start as int, end as int)[k] == b@[start + k]);
    }
    true
}

/// Whether `b[at]` and `b[at + 1]` are `x` and `y`.
fn has_pair(b: &[u8], at: usize, x: u8, y: u8) -> (r: bool)
    ensures
        r == (at + 1 < b@.len() && b@[at as int] == x && b@[at + 1] == y),
{
    at < b.len() && b.len() - at > 1 && b[at] == x && b[at + 1] == y
}

/// Parses and normalizes the r-, q- and f-components that follow an NSS
/// ending at `5 + nid_len + nss_len`. Gives their lengths.
#[verifier::rlimit(40)]
fn parse_components(s: &mut TriCow, nid_len: usize, nss_len: usize) -> (r: Result<
    (Option<usize>, Option<usize>, Option<usize>),
>)
    requires
        5 + nid_len + nss_len <= old(s)@.len(),
    ensures
        match parse_tail(old(s)@, nid_len as nat, nss_len as nat) {
            Ok(v) => r matches Ok((a, b, c)) && final(s)@ == v.text && opt_nat(a) == v.r_len
                && opt_nat(b) == v.q_len && opt_nat(c) == v.f_len,
            Err(e) => r == Err::<(Option<usize>, Option<usize>, Option<usize>), Error>(e),
        },
        r is Ok ==> keeps_storage(*old(s), *final(s)),
        r is Ok ==> final(s)@.len() == old(s)@.len(),
        r is Ok ==> forall|j: int|
            0 <= j < 5 + nid_len + nss_len ==> #[trigger] final(s)@[j] == old(s)@[j],
        r is Ok ==> forall|j: int|
            0 <= j < old(s)@.len() ==> #[trigger] final(s)@[j] == old(s)@[j] || final(s)@[j]
                == ascii_upper(old(s)@[j]),
{
    let ghost s3 = s@;
    let ghost c3 = *s;
    let _n = s.len();
    let mut end = 5 + nid_len + nss_len;
    let mut last_err = Error::InvalidNss;
    // r-component
    let has_r = has_pair(s.as_bytes(), end, B_QUESTION, B_PLUS);
    let r_component_len = if has_r {
        let rc_start = end + 2;
        end = match parse_r_component(s, rc_start) {
            Ok(e) => e,
            Err(e) => return Err(e),
        };
        proof {
            lemma_scan_component(s3, rc_start as int, rc_start as int, PctEncoded::RComponent);
        }
        last_err = Error::InvalidRComponent;
        if end == rc_start {
            return Err(Error::InvalidRComponent);
        }
        Some(end - rc_start)
    } else {
        None
    };
    let ghost s4 = s@;
    let ghost c4 = *s;
    proof {
        lemma_upper_steps(s3, s3, s4);
    }
    // q-component
    let has_q = has_pair(s.as_bytes(), end, B_QUESTION, B_EQUALS);
    let q_component_len = if has_q {
        let qc_start = end + 2;
        end = match parse_q_component(s, qc_start) {
            Ok(e) => e,
            Err(e) => return Err(e),
        };
        proof {
            lemma_scan_component(s4, qc_start as int, qc_start as int, PctEncoded::QComponent);
        }
        last_err = Error::InvalidQComponent;
        if end == qc_start {
            return Err(Error::InvalidQComponent);
        }
        Some(end - qc_start)
    } else {
        None
    };
    let ghost s5 = s@;
    let ghost c5 = *s;
    proof {
        lemma_upper_steps(s3, s4, s5);
        lemma_keeps_storage_chain(c3, c4, c5);
    }
    // f-component
    let has_f = end < s.len() && s.as_bytes()[end] == B_HASH;
    let f_component_len = if has_f {
        let fc_start = end + 1;
        end = match parse_f_component(s, fc_start) {
            Ok(e) => e,
            Err(e) => return Err(e),
        };
        proof {
            lemma_scan_component(s5, fc_start as int, fc_start as int, PctEncoded::FComponent);
        }
        last_err = Error::InvalidFComponent;
        Some(end - fc_start)
    } else {
        None
    };
    if end < s.len() {
        return Err(last_err);
    }
    proof {
        lemma_upper_steps(s3, s5, s@);
        lemma_keeps_storage_chain(c3, c5, *s);
    }
    Ok((r_component_len, q_component_len, f_component_len))
}

/// The passes of `parse_urn` (lowercasing the scheme, then the NID, then
/// uppercasing escapes from the NSS on) leave the text as it was only when
/// each of them changed nothing.
proof fn lemma_parse_urn_passes(
    orig: Seq<u8>,
    s1: Seq<u8>,
    s2: Seq<u8>,
    s3: Seq<u8>,
    s4: Seq<u8>,
    nid_end: int,
    nss_start: int,
)
    requires
        4 <= nid_end < nss_start <= orig.len(),
        s1 == lower_range(orig, 0, 4),
        s2 == lower_range(s1, 4, nid_end),
        s3.len() == s2.len(),
        s4.len() == s3.len(),
        forall|j: int| 0 <= j < nss_start ==> #[trigger] s3[j] == s2[j],
        forall|j: int| 0 <= j < nss_start ==> #[trigger] s4[j] == s3[j],
        forall|j: int| 0 <= j < s2.len() ==> #[trigger] s3[j] == s2[j] || s3[j] == ascii_upper(s2[j]),
        forall|j: int| 0 <= j < s3.len() ==> #[trigger] s4[j] == s3[j] || s4[j] == ascii_upper(s3[j]),
    ensures
        s2 == orig ==> s1 == orig,
        s4 == orig ==> s2 == orig,
        s4 == s2 ==> s3 == s2,
{
    lemma_upper_steps(s2, s3, s4);
    if s2 == orig {
        assert forall|j: int| 0 <= j < orig.len() implies s1[j] == orig[j] by {
            if j < 4 {
                assert(s2[j] == s1[j]);
            }
        }
        assert(s1 =~= orig);
    }
    if s4 == orig {
        assert forall|j: int| 0 <= j < orig.len() implies s2[j] == orig[j] by {
            if j < nid_end {
                assert(s3[j] == s2[j]);
                assert(s4[j] == s3[j]);
            } else {
                assert(s2[j] == s1[j]);
            }
        }
        assert(s2 =~= orig);
    }
}

/// Parses and normalizes the URN text `s`.
fn parse_urn<'a>(s: TriCow<'a>) -> (r: Result<UrnSlice<'a>>)
    ensures
        match parse_urn_spec(s@) {
            Ok(v) => r matches Ok(u) && u@ == v,
            Err(e) => r == Err::<UrnSlice<'a>, Error>(e),
        },
        r matches Ok(u) ==> keeps_storage(s, u.urn),
{
    let ghost orig = s@;
    let ghost c0 = s;
    let mut s = s;
    if s.len() < 4 {
        return Err(Error::InvalidScheme);
    }
    if s.as_bytes()[3] != B_COLON {
        return Err(Error::InvalidScheme);
    }
    proof {
        lemma_ascii_char_boundaries(s@, 3);
    }
    let _ = s.make_lowercase(0..4);
    let ghost s1 = s@;
    let ghost c1 = s;
    assert(s1 == lower_range(orig, 0, 4));
    let n = s.len();
    let mut j: usize = 4;
    {
        let b = s.as_bytes();
        if !(b[0] == 0x75 && b[1] == 0x72 && b[2] == 0x6E && b[3] == B_COLON) {
            return Err(Error::InvalidScheme);
        }
        assert(scheme_ok(orig));
        while j < n && b[j] != B_COLON
            invariant
                b@ == s1,
                n == s1.len(),
                4 <= j <= n,
                find_colon(s1, 4) == find_colon(s1, j as int),
            decreases n - j,
        {
            j += 1;
        }
        assert(find_colon(s1, j as int) == j);
        if j == n {
            if valid_nid(b, 4, n) {
                return Err(Error::InvalidNss);
            } else {
                return Err(Error::InvalidNid);
            }
        }
        if !valid_nid(b, 4, j) {
            return Err(Error::InvalidNid);
        }
    }
    let nid_end = j;
    proof {
        lemma_ascii_char_boundaries(s@, 3);
        lemma_ascii_char_boundaries(s@, nid_end as int);
    }
    let _ = s.make_lowercase(4..nid_end);
    let ghost s2 = s@;
    let ghost c2 = s;
    let nss_start = nid_end + 1;
    let nss_end = match parse_nss(&mut s, nss_start) {
        Ok(e) => e,
        Err(e) => return Err(e),
    };
    let ghost s3 = s@;
    let ghost c3 = s;
    proof {
        lemma_scan_component(s2, nss_start as int, nss_start as int, PctEncoded::Nss);
    }
    if nss_end <= nss_start {
        return Err(Error::InvalidNss);
    }
    let nid_len = nid_end - 4;
    let nss_len = nss_end - nss_start;
    let (r_component_len, q_component_len, f_component_len) = match parse_components(
        &mut s,
        nid_len,
        nss_len,
    ) {
        Ok(t) => t,
        Err(e) => return Err(e),
    };
    proof {
        assert(parse_urn_spec(orig) == parse_tail(s3, nid_len as nat, nss_len as nat));
        lemma_parse_inv(orig);
        lemma_parse_urn_passes(orig, s1, s2, s3, s@, nid_end as int, nss_start as int);
        lemma_keeps_storage_chain(c0, c1, c2);
        lemma_keeps_storage_chain(c2, c3, s);
        lemma_keeps_storage_chain(c0, c2, s);
    }
    let u = UrnSlice {
        urn: s,
        nid_len,
        nss_len,
        r_component_len,
        q_component_len,
        f_component_len,
    };
    proof {
        assert(parse_urn_spec(orig) == Ok::<UrnView, Error>(u@));
    }
    Ok(u)
}

/// Whether `a[..]` and `b[..]` hold the same bytes.
fn bytes_eq(a: &[u8], b: &[u8]) -> (r: bool)
    ensures
        r == (a@ == b@),
{
    if a.len() != b.len() {
        return false;
    }
    let mut i: usize = 0;
    while i < a.len()
        invariant
            a@.len() == b@.len(),
            i <= a@.len(),
            forall|k: int| 0 <= k < i ==> a@[k] == b@[k],
        decreases a@.len() - i,
    {
        if a[i] != b[i] {
            return false;
        }
        i += 1;
    }
    assert(a@ =~= b@);
    true
}

impl<'a> UrnSlice<'a> {
    /// A `UrnSlice` always holds the normalized parse of its own text.
    #[verifier::type_invariant]
    spec fn inv(self) -> bool {
        &&& self@.wf()
        &&& parse_urn_spec(self@.text) == Ok::<UrnView, Error>(self@)
    }

    /// Where the text is kept: borrowed, mutably borrowed or owned.
    pub closed spec fn storage(&self) -> TriCow<'a> {
        self.urn
    }

    /// Parses a URN from borrowed text. The text is copied only when it
    /// needs normalizing.
    ///
    /// # Errors
    /// The error of the first malformed part, as `parse_urn_spec` gives it.
    pub fn try_from(s: &'a str) -> (r: Result<UrnSlice<'a>>)
        ensures
            match parse_urn_spec(s.spec_bytes()) {
                Ok(v) => r matches Ok(u) && u@ == v,
                Err(e) => r == Err::<UrnSlice<'a>, Error>(e),
            },
            r matches Ok(u) ==> (u@.text == s.spec_bytes() ==> u.storage() is Borrowed),
            r matches Ok(u) ==> (u@.text != s.spec_bytes() ==> u.storage() is Owned),
    {
        parse_urn(TriCow::Borrowed(s.as_bytes()))
    }

    /// Parses a URN from mutably borrowed bytes, normalizing them in place.
    ///
    /// # Errors
    /// The error of the first malformed part, as `parse_urn_spec` gives it.
    pub fn try_from_mut(s: &'a mut [u8]) -> (r: Result<UrnSlice<'a>>)
        ensures
            match parse_urn_spec(old(s)@) {
                Ok(v) => r matches Ok(u) && u@ == v,
                Err(e) => r == Err::<UrnSlice<'a>, Error>(e),
            },
            r matches Ok(u) ==> u.storage() is MutBorrowed,
    {
        parse_urn(TriCow::MutBorrowed(s))
    }

    /// The whole URN text. Parsing it gives this URN back.
    pub fn as_str(&self) -> (r: &str)
        ensures
            r@ == ascii_chars(self@.text),
            r.spec_bytes() == self@.text,
            self@.wf(),
            parse_urn_spec(self@.text) == Ok::<UrnView, Error>(self@),
    {
        proof {
            use_type_invariant(self);
        }
        ascii_to_str(self.urn.as_bytes())
    }

    fn part(&self, start: usize, end: usize) -> (r: &str)
        requires
            start <= end <= self@.text.len(),
        ensures
            r@ == ascii_chars(self@.text.subrange(start as int, end as int)),
            r.spec_bytes() == self@.text.subrange(start as int, end as int),
    {
        proof {
            use_type_invariant(self);
        }
        let b = vstd::slice::slice_subrange(self.urn.as_bytes(), start, end);
        ascii_to_str(b)
    }

    /// The namespace identifier, lowercase.
    pub fn nid(&self) -> (r: &str)
        ensures
            r@ == ascii_chars(self@.nid()),
            r.spec_bytes() == self@.nid(),
            self@.wf(),
    {
        proof {
            use_type_invariant(self);
        }
        let _n = self.urn.len();
        self.part(4, 4 + self.nid_len)
    }

    /// The namespace-specific string, with its percent-encoding normalized.
    pub fn nss(&self) -> (r: &str)
        ensures
            r@ == ascii_chars(self@.nss()),
            r.spec_bytes() == self@.nss(),
            self@.wf(),
    {
        proof {
            use_type_invariant(self);
        }
        let _n = self.urn.len();
        let start = 5 + self.nid_len;
        self.part(start, start + self.nss_len)
    }

    /// The r-component, without its `?+` prefix.
    pub fn r_component(&self) -> (r: Option<&str>)
        ensures
            match self@.r_component() {
                Some(c) => r matches Some(x) && x@ == ascii_chars(c) && x.spec_bytes() == c,
                None => r is None,
            },
    {
        proof {
            use_type_invariant(self);
        }
        let _n = self.urn.len();
        match self.r_component_len {
            Some(l) => {
                let start = 5 + self.nid_len + self.nss_len + 2;
                Some(self.part(start, start + l))
            },
            None => None,
        }
    }

    fn r_end(&self) -> (r: usize)
        ensures
            r == self@.r_end(),
    {
        proof {
            use_type_invariant(self);
        }
        let _n = self.urn.len();
        let nss_end = 5 + self.nid_len + self.nss_len;
        match self.r_component_len {
            Some(l) => nss_end + 2 + l,
            None => nss_end,
        }
    }

    fn q_end(&self) -> (r: usize)
        ensures
            r == self@.q_end(),
    {
        proof {
            use_type_invariant(self);
        }
        let _n = self.urn.len();
        let r_end = self.r_end();
        match self.q_component_len {
            Some(l) => r_end + 2 + l,
            None => r_end,
        }
    }

    /// The q-component, without its `?=` prefix.
    pub fn q_component(&self) -> (r: Option<&str>)
        ensures
            match self@.q_component() {
                Some(c) => r matches Some(x) && x@ == ascii_chars(c) && x.spec_bytes() == c,
                None => r is None,
            },
    {
        proof {
            use_type_invariant(self);
        }
        let _n = self.urn.len();
        match self.q_component_len {
            Some(l) => {
                let start = self.r_end() + 2;
                Some(self.part(start, start + l))
            },
            None => None,
        }
    }

    /// The f-component, without its `#` prefix.
    pub fn f_component(&self) -> (r: Option<&str>)
        ensures
            match self@.f_component() {
                Some(c) => r matches Some(x) && x@ == ascii_chars(c) && x.spec_bytes() == c,
                None => r is None,
            },
    {
        proof {
            use_type_invariant(self);
        }
        let _n = self.urn.len();
        match self.f_component_len {
            Some(l) => {
                let start = self.q_end() + 1;
                Some(self.part(start, start + l))
            },
            None => None,
        }
    }

    pub(crate) fn nid_bytes(&self) -> (r: &[u8])
        ensures
            r@ == self@.nid(),
    {
        proof {
            use_type_invariant(self);
        }
        let _n = self.urn.len();
        vstd::slice::slice_subrange(self.urn.as_bytes(), 4, 4 + self.nid_len)
    }

    pub(crate) fn nss_bytes(&self) -> (r: &[u8])
        ensures
            r@ == self@.nss(),
    {
        proof {
            use_type_invariant(self);
        }
        let _n = self.urn.len();
        let start = 5 + self.nid_len;
        vstd::slice::slice_subrange(self.urn.as_bytes(), start, start + self.nss_len)
    }

    /// URN equivalence: equal NID and NSS after normalization; the r-, q-
    /// and f-components do not count.
    pub fn equivalent(&self, other: &UrnSlice) -> (r: bool)
        ensures
            r == self@.equivalent(other@),
    {
        bytes_eq(self.nid_bytes(), other.nid_bytes()) && bytes_eq(
            self.nss_bytes(),
            other.nss_bytes(),
        )
    }
}

/// The URN `urn:xx:x`, which stands in while another is taken apart.
fn placeholder() -> (u: UrnSlice<'static>)
    ensures
        u@ == (UrnView {
            text: seq![0x75u8, 0x72u8, 0x6Eu8, 0x3Au8, 0x78u8, 0x78u8, 0x3Au8, 0x78u8],
            nid_len: 2,
            nss_len: 1,
            r_len: None,
            q_len: None,
            f_len: None,
        }),
{
    let text = "urn:xx:x";
    let ghost nid = seq![0x78u8, 0x78u8];
    let ghost nss = seq![0x78u8];
    let ghost b = seq![0x75u8, 0x72u8, 0x6Eu8, 0x3Au8, 0x78u8, 0x78u8, 0x3Au8, 0x78u8];
    proof {
        reveal_strlit("urn:xx:x");
        assert(text@ =~= ascii_chars(b));
        lemma_ascii_str(text, b);
        assert(nid[0] == 0x78 && nid[1] == 0x78 && nss[0] == 0x78);
        assert(is_valid_nid(nid));
        lemma_build_plain(nid, nss);
        assert(assemble(nid, nss, None, None, None) =~= b);
        lemma_build_wf(nid, nss, None, None, None);
        law_build_parses_back(nid, nss, None, None, None);
    }
    UrnSlice {
        urn: TriCow::Borrowed(text.as_bytes()),
        nid_len: 2,
        nss_len: 1,
        r_component_len: None,
        q_component_len: None,
        f_component_len: None,
    }
}

impl<'a> UrnSlice<'a> {
    /// Replaces `start..end` of the text by `with` and gives the parts the
    /// lengths given, which must make a URN that is the parse of its text.
    fn splice(
        &mut self,
        start: usize,
        end: usize,
        with: &[u8],
        nid_len: usize,
        nss_len: usize,
        r_len: Option<usize>,
        q_len: Option<usize>,
        f_len: Option<usize>,
    )
        requires
            start <= end <= old(self)@.text.len(),
            ({
                let v = UrnView {
                    text: replaced(old(self)@.text, start as int, end as int, with@),
                    nid_len: nid_len as nat,
                    nss_len: nss_len as nat,
                    r_len: opt_nat(r_len),
                    q_len: opt_nat(q_len),
                    f_len: opt_nat(f_len),
                };
                v.wf() && parse_urn_spec(v.text) == Ok::<UrnView, Error>(v)
            }),
        ensures
            final(self)@ == (UrnView {
                text: replaced(old(self)@.text, start as int, end as int, with@),
                nid_len: nid_len as nat,
                nss_len: nss_len as nat,
                r_len: opt_nat(r_len),
                q_len: opt_nat(q_len),
                f_len: opt_nat(f_len),
            }),
    {
        proof {
            use_type_invariant(&*self);
        }
        let mut taken = placeholder();
        core::mem::swap(self, &mut taken);
        let UrnSlice { urn, .. } = taken;
        let mut urn = urn;
        proof {
            let t = urn@;
            assert(t == old(self)@.text);
            assert(all_ascii(t));
            if start < t.len() {
                lemma_ascii_char_boundaries(t, start as int);
            }
            if end < t.len() {
                lemma_ascii_char_boundaries(t, end as int);
            }
            if valid_utf8(t) {
                vstd::utf8::is_char_boundary_start_end_of_seq(t);
            }
        }
        let _ = urn.replace_range(start..end, with);
        *self = UrnSlice {
            urn,
            nid_len,
            nss_len,
            r_component_len: r_len,
            q_component_len: q_len,
            f_component_len: f_len,
        };
    }
}

impl<'a> UrnSlice<'a> {
    /// Replaces the NID; it is stored lowercase.
    ///
    /// # Errors
    /// `InvalidNid` if `nid` is not a valid NID.
    #[verifier::rlimit(40)]
    pub fn set_nid(&mut self, nid: &str) -> (r: Result<()>)
        ensures
            set_result(
                r,
                old(self)@,
                final(self)@,
                build_spec(
                    nid.spec_bytes(),
                    old(self)@.nss(),
                    old(self)@.r_component(),
                    old(self)@.q_component(),
                    old(self)@.f_component(),
                ),
            ),
    {
        proof {
            use_type_invariant(&*self);
            lemma_set_nid(self@, nid.spec_bytes());
        }
        let b = nid.as_bytes();
        if !valid_nid(b, 0, b.len()) {
            assert(b@.subrange(0, b@.len() as int) =~= b@);
            return Err(Error::InvalidNid);
        }
        assert(b@.subrange(0, b@.len() as int) =~= b@);
        let mut c = TriCow::Borrowed(b);
        proof {
            if valid_utf8(c@) {
                vstd::utf8::is_char_boundary_start_end_of_seq(c@);
            }
        }
        let _ = c.make_lowercase(0..b.len());
        assert(c@ =~= lower_all(b@));
        let _n = self.urn.len();
        let end = 4 + self.nid_len;
        let nss_len = self.nss_len;
        let r_len = self.r_component_len;
        let q_len = self.q_component_len;
        let f_len = self.f_component_len;
        self.splice(4, end, c.as_bytes(), b.len(), nss_len, r_len, q_len, f_len);
        Ok(())
    }

    /// Sets or removes the r-component (already percent-encoded; its encoding
    /// is normalized).
    ///
    /// # Errors
    /// `InvalidRComponent` if the new r-component is empty or not valid.
    #[verifier::rlimit(40)]
    pub fn set_r_component(&mut self, r_component: Option<&str>) -> (r: Result<()>)
        ensures
            set_result(
                r,
                old(self)@,
                final(self)@,
                build_spec(
                    old(self)@.nid(),
                    old(self)@.nss(),
                    opt_bytes(r_component),
                    old(self)@.q_component(),
                    old(self)@.f_component(),
                ),
            ),
    {
        proof {
            use_type_invariant(&*self);
            lemma_set_r(self@, opt_bytes(r_component));
        }
        let _n = self.urn.len();
        let nid_len = self.nid_len;
        let nss_len = self.nss_len;
        let q_len = self.q_component_len;
        let f_len = self.f_component_len;
        let start = 5 + nid_len + nss_len;
        let end = match self.r_component_len {
            Some(l) => start + 2 + l,
            None => start,
        };
        match r_component {
            Some(x) => {
                let mut c = TriCow::Borrowed(x.as_bytes());
                let e = match parse_r_component(&mut c, 0) {
                    Ok(e) => e,
                    Err(e) => return Err(e),
                };
                proof {
                    lemma_scan_component(x.spec_bytes(), 0, 0, PctEncoded::RComponent);
                }
                if c.len() == 0 || e != c.len() {
                    return Err(Error::InvalidRComponent);
                }
                let mut with: Vec<u8> = Vec::new();
                with.push(B_QUESTION);
                with.push(B_PLUS);
                append_bytes(&mut with, c.as_bytes());
                assert(with@ =~= seq![B_QUESTION, B_PLUS] + c@);
                self.splice(start, end, with.as_slice(), nid_len, nss_len, Some(c.len()), q_len, f_len);
            },
            None => {
                if self.r_component_len.is_some() {
                    let with: Vec<u8> = Vec::new();
                    self.splice(start, end, with.as_slice(), nid_len, nss_len, None, q_len, f_len);
                } else {
                    assert(replaced(self@.text, start as int, end as int, Seq::<u8>::empty()) =~= self@.text);
                }
            },
        }
        Ok(())
    }

    /// Sets or removes the q-component (already percent-encoded; its encoding
    /// is normalized).
    ///
    /// # Errors
    /// `InvalidQComponent` if the new q-component is empty or not valid.
    #[verifier::rlimit(40)]
    pub fn set_q_component(&mut self, q_component: Option<&str>) -> (r: Result<()>)
        ensures
            set_result(
                r,
                old(self)@,
                final(self)@,
                build_spec(
                    old(self)@.nid(),
                    old(self)@.nss(),
                    old(self)@.r_component(),
                    opt_bytes(q_component),
                    old(self)@.f_component(),
                ),
            ),
    {
        proof {
            use_type_invariant(&*self);
            lemma_set_q(self@, opt_bytes(q_component));
        }
        let _n = self.urn.len();
        let nid_len = self.nid_len;
        let nss_len = self.nss_len;
        let r_len = self.r_component_len;
        let f_len = self.f_component_len;
        let start = self.r_end();
        let end = self.q_end();
        match q_component {
            Some(x) => {
                let mut c = TriCow::Borrowed(x.as_bytes());
                let e = match parse_q_component(&mut c, 0) {
                    Ok(e) => e,
                    Err(e) => return Err(e),
                };
                proof {
                    lemma_scan_component(x.spec_bytes(), 0, 0, PctEncoded::QComponent);
                }
                if c.len() == 0 || e != c.len() {
                    return Err(Error::InvalidQComponent);
                }
                let mut with: Vec<u8> = Vec::new();
                with.push(B_QUESTION);
                with.push(B_EQUALS);
                append_bytes(&mut with, c.as_bytes());
                assert(with@ =~= seq![B_QUESTION, B_EQUALS] + c@);
                self.splice(start, end, with.as_slice(), nid_len, nss_len, r_len, Some(c.len()), f_len);
            },
            None => {
                if self.q_component_len.is_some() {
                    let with: Vec<u8> = Vec::new();
                    self.splice(start, end, with.as_slice(), nid_len, nss_len, r_len, None, f_len);
                } else {
                    assert(replaced(self@.text, start as int, end as int, Seq::<u8>::empty()) =~= self@.text);
                }
            },
        }
        Ok(())
    }

    /// Sets or removes the f-component (already percent-encoded; its encoding
    /// is normalized). An empty f-component is allowed.
    ///
    /// # Errors
    /// `InvalidFComponent` if the new f-component is not valid.
    #[verifier::rlimit(40)]
    pub fn set_f_component(&mut self, f_component: Option<&str>) -> (r: Result<()>)
        ensures
            set_result(
                r,
                old(self)@,
                final(self)@,
                build_spec(
                    old(self)@.nid(),
                    old(self)@.nss(),
                    old(self)@.r_component(),
                    old(self)@.q_component(),
                    opt_bytes(f_component),
                ),
            ),
    {
        proof {
            use_type_invariant(&*self);
            lemma_set_f(self@, opt_bytes(f_component));
        }
        let n = self.urn.len();
        let nid_len = self.nid_len;
        let nss_len = self.nss_len;
        let r_len = self.r_component_len;
        let q_len = self.q_component_len;
        let start = self.q_end();
        match f_component {
            Some(x) => {
                let mut c = TriCow::Borrowed(x.as_bytes());
                let e = match parse_f_component(&mut c, 0) {
                    Ok(e) => e,
                    Err(e) => return Err(e),
                };
                proof {
                    lemma_scan_component(x.spec_bytes(), 0, 0, PctEncoded::FComponent);
                }
                if e != c.len() {
                    return Err(Error::InvalidFComponent);
                }
                let mut with: Vec<u8> = Vec::new();
                with.push(B_HASH);
                append_bytes(&mut with, c.as_bytes());
                assert(with@ =~= seq![B_HASH] + c@);
                self.splice(start, n, with.as_slice(), nid_len, nss_len, r_len, q_len, Some(c.len()));
            },
            None => {
                if self.f_component_len.is_some() {
                    let with: Vec<u8> = Vec::new();
                    self.splice(start, n, with.as_slice(), nid_len, nss_len, r_len, q_len, None);
                } else {
                    assert(replaced(self@.text, start as int, n as int, Seq::<u8>::empty()) =~= self@.text);
                }
            },
        }
        Ok(())
    }

    /// Replaces the NSS (already percent-encoded; its encoding is normalized).
    ///
    /// # Errors
    /// `InvalidNss` if `nss` is empty or not a valid NSS.
    #[verifier::rlimit(40)]
    pub fn set_nss(&mut self, nss: &str) -> (r: Result<()>)
        ensures
            set_result(
                r,
                old(self)@,
                final(self)@,
                build_spec(
                    old(self)@.nid(),
                    nss.spec_bytes(),
                    old(self)@.r_component(),
                    old(self)@.q_component(),
                    old(self)@.f_component(),
                ),
            ),
    {
        proof {
            use_type_invariant(&*self);
            lemma_set_nss(self@, nss.spec_bytes());
        }
        let ghost v = self@;
        let mut c = TriCow::Borrowed(nss.as_bytes());
        let e = match parse_nss(&mut c, 0) {
            Ok(e) => e,
            Err(e) => return Err(e),
        };
        proof {
            lemma_scan_component(nss.spec_bytes(), 0, 0, PctEncoded::Nss);
        }
        if c.len() == 0 || e != c.len() {
            return Err(Error::InvalidNss);
        }
        let _n = self.urn.len();
        let nid_len = self.nid_len;
        let start = 5 + nid_len;
        let end = start + self.nss_len;
        let r_len = self.r_component_len;
        let q_len = self.q_component_len;
        let f_len = self.f_component_len;
        self.splice(start, end, c.as_bytes(), nid_len, c.len(), r_len, q_len, f_len);
        Ok(())
    }
}

impl<'a> PartialEq for UrnSlice<'a> {
    fn eq(&self, other: &Self) -> (r: bool) {
        self.equivalent(other)
    }
}

impl<'a> vstd::std_specs::cmp::PartialEqSpecImpl for UrnSlice<'a> {
    open spec fn obeys_eq_spec() -> bool {
        true
    }

    open spec fn eq_spec(&self, other: &UrnSlice<'a>) -> bool {
        self@.equivalent(other@)
    }
}

/// A parsed, normalized URN that owns its text.
pub struct Urn {
    inner: UrnSlice<'static>,
}

impl View for Urn {
    type V = UrnView;

    closed spec fn view(&self) -> UrnView {
        self.inner@
    }
}

impl Urn {
    /// Parses a URN from text, into an owned copy.
    ///
    /// # Errors
    /// The error of the first malformed part, as `parse_urn_spec` gives it.
    pub fn try_from(s: &str) -> (r: Result<Urn>)
        ensures
            matches_view(r, parse_urn_spec(s.spec_bytes())),
    {
        let v = vstd::slice::slice_to_vec(s.as_bytes());
        match parse_urn(TriCow::Owned(v)) {
            Ok(u) => Ok(Urn { inner: u }),
            Err(e) => Err(e),
        }
    }

    /// The URN as a `UrnSlice`.
    pub fn as_slice(&self) -> (r: &UrnSlice<'static>)
        ensures
            r@ == self@,
    {
        &self.inner
    }

    /// The whole URN text. Parsing it gives this URN back.
    pub fn as_str(&self) -> (r: &str)
        ensures
            r@ == ascii_chars(self@.text),
            r.spec_bytes() == self@.text,
            parse_urn_spec(self@.text) == Ok::<UrnView, Error>(self@),
    {
        self.inner.as_str()
    }

    /// The namespace identifier, lowercase.
    pub fn nid(&self) -> (r: &str)
        ensures
            r@ == ascii_chars(self@.nid()),
            r.spec_bytes() == self@.nid(),
    {
        self.inner.nid()
    }

    /// The namespace-specific string, with its percent-encoding normalized.
    pub fn nss(&self) -> (r: &str)
        ensures
            r@ == ascii_chars(self@.nss()),
            r.spec_bytes() == self@.nss(),
    {
        self.inner.nss()
    }

    /// The r-component, without its `?+` prefix.
    pub fn r_component(&self) -> (r: Option<&str>)
        ensures
            match self@.r_component() {
                Some(c) => r matches Some(x) && x@ == ascii_chars(c) && x.spec_bytes() == c,
                None => r is None,
            },
    {
        self.inner.r_component()
    }

    /// The q-component, without its `?=` prefix.
    pub fn q_component(&self) -> (r: Option<&str>)
        ensures
            match self@.q_component() {
                Some(c) => r matches Some(x) && x@ == ascii_chars(c) && x.spec_bytes() == c,
                None => r is None,
            },
    {
        self.inner.q_component()
    }

    /// The f-component, without its `#` prefix.
    pub fn f_component(&self) -> (r: Option<&str>)
        ensures
            match self@.f_component() {
                Some(c) => r matches Some(x) && x@ == ascii_chars(c) && x.spec_bytes() == c,
                None => r is None,
            },
    {
        self.inner.f_component()
    }
}

impl Urn {
    /// Replaces the NID; see [`UrnSlice::set_nid`].
    ///
    /// # Errors
    /// `InvalidNid` if `nid` is not a valid NID.
    pub fn set_nid(&mut self, nid: &str) -> (r: Result<()>)
        ensures
            set_result(
                r,
                old(self)@,
                final(self)@,
                build_spec(
                    nid.spec_bytes(),
                    old(self)@.nss(),
                    old(self)@.r_component(),
                    old(self)@.q_component(),
                    old(self)@.f_component(),
                ),
            ),
    {
        self.inner.set_nid(nid)
    }

    /// Replaces the NSS; see [`UrnSlice::set_nss`].
    ///
    /// # Errors
    /// `InvalidNss` if `nss` is empty or not a valid NSS.
    pub fn set_nss(&mut self, nss: &str) -> (r: Result<()>)
        ensures
            set_result(
                r,
                old(self)@,
                final(self)@,
                build_spec(
                    old(self)@.nid(),
                    nss.spec_bytes(),
                    old(self)@.r_component(),
                    old(self)@.q_component(),
                    old(self)@.f_component(),
                ),
            ),
    {
        self.inner.set_nss(nss)
    }

    /// Sets or removes the r-component; see [`UrnSlice::set_r_component`].
    ///
    /// # Errors
    /// `InvalidRComponent` if the new r-component is empty or not valid.
    pub fn set_r_component(&mut self, r_component: Option<&str>) -> (r: Result<()>)
        ensures
            set_result(
                r,
                old(self)@,
                final(self)@,
                build_spec(
                    old(self)@.nid(),
                    old(self)@.nss(),
                    opt_bytes(r_component),
                    old(self)@.q_component(),
                    old(self)@.f_component(),
                ),
            ),
    {
        self.inner.set_r_component(r_component)
    }

    /// Sets or removes the q-component; see [`UrnSlice::set_q_component`].
    ///
    /// # Errors
    /// `InvalidQComponent` if the new q-component is empty or not valid.
    pub fn set_q_component(&mut self, q_component: Option<&str>) -> (r: Result<()>)
        ensures
            set_result(
                r,
                old(self)@,
                final(self)@,
                build_spec(
                    old(self)@.nid(),
                    old(self)@.nss(),
                    old(self)@.r_component(),
                    opt_bytes(q_component),
                    old(self)@.f_component(),
                ),
            ),
    {
        self.inner.set_q_component(q_component)
    }

    /// Sets or removes the f-component; see [`UrnSlice::set_f_component`].
    ///
    /// # Errors
    /// `InvalidFComponent` if the new f-component is not valid.
    pub fn set_f_component(&mut self, f_component: Option<&str>) -> (r: Result<()>)
        ensures
            set_result(
                r,
                old(self)@,
                final(self)@,
                build_spec(
                    old(self)@.nid(),
                    old(self)@.nss(),
                    old(self)@.r_component(),
                    old(self)@.q_component(),
                    opt_bytes(f_component),
                ),
            ),
    {
        self.inner.set_f_component(f_component)
    }
}

impl core::str::FromStr for Urn {
    type Err = Error;

    /// Parses a URN; see [`Urn::try_from`].
    fn from_str(s: &str) -> (r: Result<Urn>)
        ensures
            matches_view(r, parse_urn_spec(s.spec_bytes())),
    {
        Urn::try_from(s)
    }
}

impl PartialEq for Urn {
    fn eq(&self, other: &Self) -> (r: bool) {
        self.inner.equivalent(&other.inner)
    }
}

impl vstd::std_specs::cmp::PartialEqSpecImpl for Urn {
    open spec fn obeys_eq_spec() -> bool {
        true
    }

    open spec fn eq_spec(&self, other: &Urn) -> bool {
        self@.equivalent(other@)
    }
}

/// Appends the bytes `b` to `v`.
fn append_bytes(v: &mut Vec<u8>, b: &[u8])
    ensures
        final(v)@ == old(v)@ + b@,
{
    let ghost start = v@;
    let mut i: usize = 0;
    while i < b.len()
        invariant
            i <= b@.len(),
            v@ == start + b@.subrange(0, i as int),
        decreases b@.len() - i,
    {
        v.push(b[i]);
        i += 1;
        assert(v@ =~= start + b@.subrange(0, i as int));
    }
    assert(b@.subrange(0, b@.len() as int) =~= b@);
}

/// Builds a URN from its parts.
pub struct UrnBuilder<'a> {
    nid: &'a str,
    nss: &'a str,
    r_component: Option<&'a str>,
    q_component: Option<&'a str>,
    f_component: Option<&'a str>,
}

impl<'a> UrnBuilder<'a> {
    pub closed spec fn spec_nid(&self) -> Seq<u8> {
        self.nid.spec_bytes()
    }

    pub closed spec fn spec_nss(&self) -> Seq<u8> {
        self.nss.spec_bytes()
    }

    pub closed spec fn spec_r(&self) -> Option<Seq<u8>> {
        opt_bytes(self.r_component)
    }

    pub closed spec fn spec_q(&self) -> Option<Seq<u8>> {
        opt_bytes(self.q_component)
    }

    pub closed spec fn spec_f(&self) -> Option<Seq<u8>> {
        opt_bytes(self.f_component)
    }

    /// A builder with the given NID and NSS and no other component.
    pub fn new(nid: &'a str, nss: &'a str) -> (r: Self)
        ensures
            r.spec_nid() == nid.spec_bytes(),
            r.spec_nss() == nss.spec_bytes(),
            r.spec_r() is None,
            r.spec_q() is None,
            r.spec_f() is None,
    {
        UrnBuilder { nid, nss, r_component: None, q_component: None, f_component: None }
    }

    /// Sets the NID.
    pub fn nid(self, nid: &'a str) -> (r: Self)
        ensures
            r.spec_nid() == nid.spec_bytes(),
            r.spec_nss() == self.spec_nss(),
            r.spec_r() == self.spec_r(),
            r.spec_q() == self.spec_q(),
            r.spec_f() == self.spec_f(),
    {
        UrnBuilder { nid, ..self }
    }

    /// Sets the NSS (already percent-encoded).
    pub fn nss(self, nss: &'a str) -> (r: Self)
        ensures
            r.spec_nid() == self.spec_nid(),
            r.spec_nss() == nss.spec_bytes(),
            r.spec_r() == self.spec_r(),
            r.spec_q() == self.spec_q(),
            r.spec_f() == self.spec_f(),
    {
        UrnBuilder { nss, ..self }
    }

    /// Sets or removes the r-component (already percent-encoded).
    pub fn r_component(self, r_component: Option<&'a str>) -> (r: Self)
        ensures
            r.spec_nid() == self.spec_nid(),
            r.spec_nss() == self.spec_nss(),
            r.spec_r() == opt_bytes(r_component),
            r.spec_q() == self.spec_q(),
            r.spec_f() == self.spec_f(),
    {
        UrnBuilder { r_component, ..self }
    }

    /// Sets or removes the q-component (already percent-encoded).
    pub fn q_component(self, q_component: Option<&'a str>) -> (r: Self)
        ensures
            r.spec_nid() == self.spec_nid(),
            r.spec_nss() == self.spec_nss(),
            r.spec_r() == self.spec_r(),
            r.spec_q() == opt_bytes(q_component),
            r.spec_f() == self.spec_f(),
    {
        UrnBuilder { q_component, ..self }
    }

    /// Sets or removes the f-component (already percent-encoded).
    pub fn f_component(self, f_component: Option<&'a str>) -> (r: Self)
        ensures
            r.spec_nid() == self.spec_nid(),
            r.spec_nss() == self.spec_nss(),
            r.spec_r() == self.spec_r(),
            r.spec_q() == self.spec_q(),
            r.spec_f() == opt_bytes(f_component),
    {
        UrnBuilder { f_component, ..self }
    }

    /// The text `urn:<nid>:<nss>[?+<r>][?=<q>][#<f>]` of the parts as given.
    fn assemble_text(&self) -> (v: Vec<u8>)
        ensures
            v@ == assemble(self.spec_nid(), self.spec_nss(), self.spec_r(), self.spec_q(), self.spec_f()),
    {
        let mut v: Vec<u8> = Vec::new();
        v.push(0x75);
        v.push(0x72);
        v.push(0x6E);
        v.push(B_COLON);
        assert(v@ =~= urn_prefix());
        append_bytes(&mut v, self.nid.as_bytes());
        v.push(B_COLON);
        append_bytes(&mut v, self.nss.as_bytes());
        let ghost p0 = v@;
        assert(p0 =~= urn_prefix() + self.spec_nid() + seq![B_COLON] + self.spec_nss());
        match self.r_component {
            Some(c) => {
                v.push(B_QUESTION);
                v.push(B_PLUS);
                append_bytes(&mut v, c.as_bytes());
            },
            None => {},
        }
        let ghost p1 = v@;
        assert(p1 =~= p0 + opt_part(seq![B_QUESTION, B_PLUS], self.spec_r()));
        match self.q_component {
            Some(c) => {
                v.push(B_QUESTION);
                v.push(B_EQUALS);
                append_bytes(&mut v, c.as_bytes());
            },
            None => {},
        }
        let ghost p2 = v@;
        assert(p2 =~= p1 + opt_part(seq![B_QUESTION, B_EQUALS], self.spec_q()));
        match self.f_component {
            Some(c) => {
                v.push(B_HASH);
                append_bytes(&mut v, c.as_bytes());
            },
            None => {},
        }
        assert(v@ =~= p2 + opt_part(seq![B_HASH], self.spec_f()));
        v
    }

    /// Validates the parts and builds the URN.
    ///
    /// # Errors
    /// The error of the first invalid part, as `build_spec` gives it.
    #[verifier::rlimit(60)]
    pub fn build(&self) -> (r: Result<Urn>)
        ensures
            matches_view(
                r,
                build_spec(self.spec_nid(), self.spec_nss(), self.spec_r(), self.spec_q(), self.spec_f()),
            ),
    {
        let ghost nid_s = self.spec_nid();
        let ghost nss_s = self.spec_nss();
        let ghost r_s = self.spec_r();
        let ghost q_s = self.spec_q();
        let ghost f_s = self.spec_f();
        let ghost t = assemble(nid_s, nss_s, r_s, q_s, f_s);
        let nid = self.nid.as_bytes();
        let nid_len = nid.len();
        if !valid_nid(nid, 0, nid_len) {
            assert(nid@.subrange(0, nid_len as int) =~= nid@);
            return Err(Error::InvalidNid);
        }
        assert(nid@.subrange(0, nid_len as int) =~= nid@);
        let nss = self.nss.as_bytes();
        let v = self.assemble_text();
        let total = v.len();
        let nss_len = nss.len();
        let ns = 5 + nid_len;
        let ne = ns + nss_len;
        let mut s = TriCow::Owned(v);
        let e1 = match parse_nss(&mut s, ns) {
            Ok(e) => e,
            Err(e) => return Err(e),
        };
        if nss_len == 0 || e1 != ne {
            return Err(Error::InvalidNss);
        }
        let ghost t1 = s@;
        proof {
            lemma_scan_component(t, ns as int, ns as int, PctEncoded::Nss);
        }
        let mut end = ne;
        let r_len = match self.r_component {
            Some(c) => {
                let rs = end + 2;
                let l = c.as_bytes().len();
                let re = rs + l;
                let e2 = match parse_r_component(&mut s, rs) {
                    Ok(e) => e,
                    Err(e) => return Err(e),
                };
                if l == 0 || e2 != re {
                    return Err(Error::InvalidRComponent);
                }
                proof {
                    lemma_scan_component(t1, rs as int, rs as int, PctEncoded::RComponent);
                }
                end = re;
                Some(l)
            },
            None => None,
        };
        let ghost t2 = s@;
        let ghost re = end;
        let q_len = match self.q_component {
            Some(c) => {
                let qs = end + 2;
                let l = c.as_bytes().len();
                let qe = qs + l;
                let e3 = match parse_q_component(&mut s, qs) {
                    Ok(e) => e,
                    Err(e) => return Err(e),
                };
                if l == 0 || e3 != qe {
                    return Err(Error::InvalidQComponent);
                }
                proof {
                    lemma_scan_component(t2, qs as int, qs as int, PctEncoded::QComponent);
                }
                end = qe;
                Some(l)
            },
            None => None,
        };
        let ghost t3 = s@;
        let f_len = match self.f_component {
            Some(c) => {
                let fs = end + 1;
                let l = c.as_bytes().len();
                let fe = fs + l;
                let e4 = match parse_f_component(&mut s, fs) {
                    Ok(e) => e,
                    Err(e) => return Err(e),
                };
                if e4 != fe {
                    return Err(Error::InvalidFComponent);
                }
                proof {
                    lemma_scan_component(t3, fs as int, fs as int, PctEncoded::FComponent);
                }
                end = fe;
                Some(l)
            },
            None => None,
        };
        proof {
            assert(t[3] == B_COLON && t[4 + nid_len] == B_COLON);
            assert(s@[3] == B_COLON && s@[4 + nid_len] == B_COLON);
            lemma_ascii_char_boundaries(s@, 3);
            lemma_ascii_char_boundaries(s@, 4 + nid_len);
        }
        let _ = s.make_lowercase(4..4 + nid_len);
        proof {
            assert(build_spec(nid_s, nss_s, r_s, q_s, f_s) is Ok);
            lemma_build_wf(nid_s, nss_s, r_s, q_s, f_s);
            law_build_parses_back(nid_s, nss_s, r_s, q_s, f_s);
        }
        let u = UrnSlice {
            urn: s,
            nid_len,
            nss_len,
            r_component_len: r_len,
            q_component_len: q_len,
            f_component_len: f_len,
        };
        proof {
            assert(build_spec(nid_s, nss_s, r_s, q_s, f_s) == Ok::<UrnView, Error>(u@));
        }
        Ok(Urn { inner: u })
    }
}

} // verus!
