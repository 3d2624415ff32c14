//! Percent-encoding and decoding of the components of a URN, and the component
//! scanner that the URN parser uses.
use crate::cow::{keeps_storage, lemma_ascii_char_boundaries, upper_range, TriCow};
use crate::error::{Error, Result};
use crate::tables::{
    ascii_upper, hex_value, hex_value_byte, is_enc_nss_plain, is_enc_nss_plain_byte,
    is_enc_rqf_plain, is_enc_rqf_plain_byte, is_hex_digit, is_hex_digit_byte, is_lower,
    is_parse_plain, is_parse_plain_byte, B_EQUALS, B_HASH, B_PERCENT, B_QUESTION, B_SLASH,
};
use crate::text::{all_ascii, ascii_chars, ascii_to_string, lemma_ascii_utf8, string_from_utf8};
use vstd::prelude::*;
use vstd::string::StringSliceAdditionalSpecFns;
use vstd::utf8::{decode_utf8, encode_utf8, valid_utf8};

verus! {

/// The component kinds, which are percent-encoded differently.
#[derive(Debug, Clone, Copy, PartialEq, Eq, Structural)]
pub enum PctEncoded {
    Nss,
    RComponent,
    QComponent,
    FComponent,
}

/// Whether a `?` at index `i` belongs to a component of kind `kind` that starts
/// at `start` in `s`.
pub open spec fn question_ok(s: Seq<u8>, start: int, i: int, kind: PctEncoded) -> bool {
    match kind {
        PctEncoded::FComponent => true,
        PctEncoded::QComponent => i != start,
        PctEncoded::RComponent => i != start && !(i + 1 < s.len() && s[i + 1] == B_EQUALS),
        PctEncoded::Nss => false,
    }
}

/// Whether a `/` at index `i` belongs to a component of kind `kind` that starts
/// at `start`.
pub open spec fn slash_ok(start: int, i: int, kind: PctEncoded) -> bool {
    kind == PctEncoded::FComponent || i != start
}

/// Whether index `i` of `s` starts a `%` followed by two hex digits.
pub open spec fn pct_triplet(s: Seq<u8>, i: int) -> bool {
    &&& 0 <= i
    &&& i + 2 < s.len()
    &&& s[i] == B_PERCENT
    &&& is_hex_digit(s[i + 1])
    &&& is_hex_digit(s[i + 2])
}

/// Whether the byte at index `i` (not a `%`) is kept by the component scanner.
pub open spec fn single_ok(s: Seq<u8>, start: int, i: int, kind: PctEncoded) -> bool {
    ||| is_parse_plain(s[i])
    ||| (s[i] == B_QUESTION && question_ok(s, start, i, kind))
    ||| (s[i] == B_SLASH && slash_ok(start, i, kind))
}

/// Scans the component of kind `kind` that starts at `start`, from index `i` on.
/// Returns the index where the component ends, and `s` with the hex digits of
/// every `%XX` triplet met on the way uppercased.
pub open spec fn scan_component(s: Seq<u8>, start: int, i: int, kind: PctEncoded) -> (
    int,
    Seq<u8>,
)
    decreases s.len() - i,
{
    if i < 0 || i >= s.len() {
        (s.len() as int, s)
    } else if single_ok(s, start, i, kind) {
        scan_component(s, start, i + 1, kind)
    } else if pct_triplet(s, i) {
        scan_component(upper_range(s, i + 1, i + 3), start, i + 3, kind)
    } else {
        (i, s)
    }
}

/// The end of the component of kind `kind` that starts at `start` in `s`.
pub open spec fn component_end(s: Seq<u8>, start: int, kind: PctEncoded) -> int {
    scan_component(s, start, start, kind).0
}

/// `s` with the percent-encoding of the component that starts at `start`
/// normalized (hex digits uppercased).
pub open spec fn component_norm(s: Seq<u8>, start: int, kind: PctEncoded) -> Seq<u8> {
    scan_component(s, start, start, kind).1
}

/// Facts about a scan: the length is kept, the end lies between `i` and the
/// length, and nothing outside `i..end` changes.
pub proof fn lemma_scan_component(s: Seq<u8>, start: int, i: int, kind: PctEncoded)
    requires
        0 <= i,
    ensures
        ({
            let (e, t) = scan_component(s, start, i, kind);
            &&& t.len() == s.len()
            &&& (i <= s.len() ==> i <= e <= s.len())
            &&& (i > s.len() ==> e == s.len())
            &&& forall|j: int| 0 <= j < s.len() && (j < i || j >= e) ==> #[trigger] t[j] == s[j]
            &&& forall|j: int|
                0 <= j < s.len() ==> (#[trigger] t[j] == s[j] || t[j] == ascii_upper(s[j]))
            &&& forall|j: int| i <= j < e ==> #[trigger] t[j] < 0x80
        }),
    decreases s.len() - i,
{
    if i >= s.len() {
    } else if single_ok(s, start, i, kind) {
        lemma_scan_component(s, start, i + 1, kind);
        let (e, t) = scan_component(s, start, i, kind);
        assert(t[i] == s[i]);
    } else if pct_triplet(s, i) {
        let u = upper_range(s, i + 1, i + 3);
        lemma_scan_component(u, start, i + 3, kind);
        let (e, t) = scan_component(s, start, i, kind);
        assert(t[i] == u[i] && t[i + 1] == u[i + 1] && t[i + 2] == u[i + 2]);
        assert(u[i + 1] == ascii_upper(s[i + 1]) && u[i + 2] == ascii_upper(s[i + 2]));
        assert forall|j: int| 0 <= j < s.len() implies (#[trigger] t[j] == s[j] || t[j]
            == ascii_upper(s[j])) by {
            if i + 1 <= j < i + 3 {
                if t[j] != u[j] {
                    assert(t[j] == ascii_upper(u[j]));
                    assert(u[j] == ascii_upper(s[j]));
                    assert(ascii_upper(ascii_upper(s[j])) == ascii_upper(s[j]));
                }
            }
        }
    } else {
    }
}

/// The tests a scan makes of a byte do not depend on the case of a letter.
pub proof fn lemma_case_blind(a: u8, b: u8)
    requires
        ascii_upper(a) == ascii_upper(b),
    ensures
        is_parse_plain(a) == is_parse_plain(b),
        is_hex_digit(a) == is_hex_digit(b),
        (a == B_QUESTION) == (b == B_QUESTION),
        (a == B_SLASH) == (b == B_SLASH),
        (a == B_PERCENT) == (b == B_PERCENT),
        (a == B_EQUALS) == (b == B_EQUALS),
{
}

/// A scan of text that already holds what a scan produced ends at the same
/// index and changes nothing. `s2` must agree with the scan's output inside
/// the component, and with `s` up to the case of letters after it.
pub proof fn lemma_scan_stable(s: Seq<u8>, s2: Seq<u8>, start: int, i: int, kind: PctEncoded)
    requires
        0 <= i,
        s2.len() == s.len(),
        forall|j: int|
            i <= j < scan_component(s, start, i, kind).0 ==> #[trigger] s2[j] == scan_component(
                s,
                start,
                i,
                kind,
            ).1[j],
        forall|j: int|
            scan_component(s, start, i, kind).0 <= j < s.len() ==> ascii_upper(#[trigger] s2[j])
                == ascii_upper(s[j]),
    ensures
        scan_component(s2, start, i, kind) == (scan_component(s, start, i, kind).0, s2),
    decreases s.len() - i,
{
    let (e, t) = scan_component(s, start, i, kind);
    if i >= s.len() {
    } else if single_ok(s, start, i, kind) {
        lemma_scan_component(s, start, i + 1, kind);
        assert(t[i] == s[i]);
        assert(s2[i] == s[i]);
        if i + 1 < s.len() {
            if i + 1 < e {
                assert(s2[i + 1] == t[i + 1]);
                lemma_case_blind(t[i + 1], s[i + 1]);
            } else {
                assert(ascii_upper(s2[i + 1]) == ascii_upper(s[i + 1]));
            }
            lemma_case_blind(s2[i + 1], s[i + 1]);
        }
        assert(single_ok(s2, start, i, kind));
        lemma_scan_stable(s, s2, start, i + 1, kind);
    } else if pct_triplet(s, i) {
        let u = upper_range(s, i + 1, i + 3);
        lemma_scan_component(u, start, i + 3, kind);
        assert(s2[i] == u[i] && s2[i + 1] == u[i + 1] && s2[i + 2] == u[i + 2]);
        lemma_case_blind(s2[i + 1], s[i + 1]);
        lemma_case_blind(s2[i + 2], s[i + 2]);
        assert(!single_ok(s2, start, i, kind));
        assert(pct_triplet(s2, i));
        assert(upper_range(s2, i + 1, i + 3) =~= s2);
        lemma_scan_stable(u, s2, start, i + 3, kind);
    } else {
        assert(ascii_upper(s2[i]) == ascii_upper(s[i]));
        lemma_case_blind(s2[i], s[i]);
        if i + 1 < s.len() {
            assert(ascii_upper(s2[i + 1]) == ascii_upper(s[i + 1]));
            lemma_case_blind(s2[i + 1], s[i + 1]);
        }
        if i + 2 < s.len() {
            assert(ascii_upper(s2[i + 2]) == ascii_upper(s[i + 2]));
            lemma_case_blind(s2[i + 2], s[i + 2]);
        }
        assert(!single_ok(s2, start, i, kind));
        assert(!pct_triplet(s2, i));
    }
}

/// A scan over a component with no `%` in it changes nothing.
pub proof fn lemma_scan_no_pct(s: Seq<u8>, start: int, i: int, kind: PctEncoded)
    requires
        0 <= i,
        forall|j: int| i <= j < scan_component(s, start, i, kind).0 ==> #[trigger] s[j] != B_PERCENT,
    ensures
        scan_component(s, start, i, kind).1 == s,
    decreases s.len() - i,
{
    if i >= s.len() {
    } else if single_ok(s, start, i, kind) {
        lemma_scan_no_pct(s, start, i + 1, kind);
    } else if pct_triplet(s, i) {
        let u = upper_range(s, i + 1, i + 3);
        lemma_scan_component(u, start, i + 3, kind);
        assert(s[i] != B_PERCENT);
    } else {
    }
}

/// Index of the first byte at or after `i` that the plain-run scan stops at.
pub open spec fn plain_run_end_ok(s: Seq<u8>, i: int, r: int) -> bool {
    if i >= s.len() {
        r == i
    } else {
        &&& i <= r <= s.len()
        &&& forall|j: int| i <= j < r ==> is_parse_plain(#[trigger] s[j])
        &&& (r == s.len() || !is_parse_plain(s[r]))
    }
}

proof fn lemma_or_bit(m: u32, k: u32, j: u32)
    by (bit_vector)
    requires
        k < 32,
        j < 32,
    ensures
        (((m | (1u32 << k)) >> j) & 1u32 == 1u32) == (((m >> j) & 1u32 == 1u32) || j == k),
{
}

proof fn lemma_zero_bits(m: u32)
    by (bit_vector)
    requires
        m == 0,
    ensures
        forall|j: u32| j < 32 ==> #[trigger] ((m >> j) & 1u32) == 0u32,
{
}

/// Scans a run of plain pchar bytes starting at `i`, eight bytes at a time
/// while eight remain. Returns the first index that is either out of bounds or
/// a non-plain byte.
pub fn scan_plain_run(bytes: &[u8], start: usize) -> (r: usize)
    ensures
        plain_run_end_ok(bytes@, start as int, r as int),
{
    let n = bytes.len();
    let i0 = start;
    let mut i = start;
    while n >= 8 && i <= n - 8
        invariant
            n == bytes@.len(),
            i0 == start,
            i0 <= i,
            i0 < n ==> i <= n,
            i0 >= n ==> i == i0,
            forall|j: int| i0 <= j < i ==> is_parse_plain(#[trigger] bytes@[j]),
        decreases n - i,
    {
        let mut mask: u32 = 0;
        let mut k: u32 = 0;
        proof {
            lemma_zero_bits(mask);
        }
        while k < 8
            invariant
                k <= 8,
                n == bytes@.len(),
                i + 8 <= n,
                forall|j: u32|
                    j < 32 ==> (#[trigger] ((mask >> j) & 1u32) == 1u32) == (j < k
                        && !is_parse_plain(bytes@[i + j])),
            decreases 8 - k,
        {
            if !is_parse_plain_byte(bytes[i + k as usize]) {
                proof {
                    assert forall|j: u32| j < 32 implies (#[trigger] (((mask | (1u32 << k))
                        >> j) & 1u32) == 1u32) == (j < k + 1 && !is_parse_plain(
                        bytes@[i + j],
                    )) by {
                        lemma_or_bit(mask, k, j);
                    }
                }
                mask = mask | (1u32 << k);
            }
            k += 1;
        }
        if mask == 0 {
            proof {
                lemma_zero_bits(mask);
                assert forall|j: int| i0 <= j < i + 8 implies is_parse_plain(
                    #[trigger] bytes@[j],
                ) by {
                    if j >= i {
                        let jj = (j - i) as u32;
                        assert(((mask >> jj) & 1u32) == 0u32);
                    }
                }
            }
            i += 8;
        } else {
            let t = mask.trailing_zeros();
            proof {
                vstd::std_specs::bits::axiom_u32_trailing_zeros(mask);
                assert(((mask >> t) & 1u32) == 1u32);
                assert(t < 8);
                assert(!is_parse_plain(bytes@[i + t]));
                assert forall|j: int| i0 <= j < i + t implies is_parse_plain(
                    #[trigger] bytes@[j],
                ) by {
                    if j >= i {
                        let jj = (j - i) as u32;
                        assert(((mask >> jj) & 1u32) == 0u32);
                    }
                }
            }
            return i + t as usize;
        }
    }
    while i < n && is_parse_plain_byte(bytes[i])
        invariant
            n == bytes@.len(),
            i0 == start,
            i0 <= i,
            i0 < n ==> i <= n,
            i0 >= n ==> i == i0,
            forall|j: int| i0 <= j < i ==> is_parse_plain(#[trigger] bytes@[j]),
        decreases n - i,
    {
        i += 1;
    }
    i
}

/// Skipping a plain run does not change where a scan ends or what it produces.
pub proof fn lemma_scan_skip_plain(s: Seq<u8>, start: int, i: int, r: int, kind: PctEncoded)
    requires
        0 <= i <= r <= s.len(),
        forall|j: int| i <= j < r ==> is_parse_plain(#[trigger] s[j]),
    ensures
        scan_component(s, start, i, kind) == scan_component(s, start, r, kind),
    decreases r - i,
{
    if i < r {
        assert(single_ok(s, start, i, kind));
        lemma_scan_skip_plain(s, start, i + 1, r, kind);
    }
}

/// Parses and normalizes the percent-encoded component of kind `kind` that
/// starts at `start`. Returns its end.
fn parse(s: &mut TriCow, start: usize, kind: PctEncoded) -> (r: Result<usize>)
    ensures
        r == Ok::<usize, Error>(component_end(old(s)@, start as int, kind) as usize),
        final(s)@ == component_norm(old(s)@, start as int, kind),
        keeps_storage(*old(s), *final(s)),
{
    let ghost orig = s@;
    let ghost target = scan_component(orig, start as int, start as int, kind);
    let mut bytes = s.as_bytes();
    let mut i = start;
    while i < bytes.len()
        invariant
            bytes@ == s@,
            orig == old(s)@,
            target == scan_component(orig, start as int, start as int, kind),
            s@.len() == orig.len(),
            start <= i,
            scan_component(s@, start as int, i as int, kind) == target,
            keeps_storage(*old(s), *s),
            forall|j: int| 0 <= j < s@.len() ==> #[trigger] s@[j] == orig[j] || s@[j] == ascii_upper(orig[j]),
        decreases s@.len() - i,
    {
        let ghost before = i;
        i = scan_plain_run(bytes, i);
        proof {
            lemma_scan_skip_plain(s@, start as int, before as int, i as int, kind);
        }
        if i >= bytes.len() {
            assert(scan_component(s@, start as int, i as int, kind) == (s@.len() as int, s@));
            return Ok(s.len());
        }
        assert(!is_parse_plain(s@[i as int]));
        let ch = bytes[i];
        if ch == B_QUESTION {
            let ok = match kind {
                PctEncoded::FComponent => true,
                PctEncoded::QComponent => i != start,
                PctEncoded::RComponent => i != start && !(i + 1 < bytes.len() && bytes[i + 1]
                    == B_EQUALS),
                PctEncoded::Nss => false,
            };
            if !ok {
                assert(!single_ok(s@, start as int, i as int, kind));
                assert(scan_component(s@, start as int, i as int, kind) == (i as int, s@));
                return Ok(i);
            }
        } else if ch == B_SLASH {
            let ok = match kind {
                PctEncoded::FComponent => true,
                _ => i != start,
            };
            if !ok {
                assert(scan_component(s@, start as int, i as int, kind) == (i as int, s@));
                return Ok(i);
            }
        } else if ch == B_PERCENT {
            if bytes.len() - i > 2 && is_hex_digit_byte(bytes[i + 1]) && is_hex_digit_byte(
                bytes[i + 2],
            ) {
                // percent-encoding is normalized by uppercasing it
                let ghost prev = s@;
                proof {
                    lemma_ascii_char_boundaries(prev, i + 1);
                    lemma_ascii_char_boundaries(prev, i + 2);
                }
                let _ = s.make_uppercase(i + 1..i + 3);
                proof {
                    if prev != orig {
                        let j = choose|j: int| 0 <= j < prev.len() && prev[j] != orig[j];
                        assert(prev.len() == orig.len());
                        if forall|j: int| 0 <= j < prev.len() ==> prev[j] == orig[j] {
                            assert(prev =~= orig);
                        }
                        assert(s@[j] != orig[j]);
                    }
                }
                bytes = s.as_bytes();
                i += 3;
                continue;
            }
            assert(scan_component(s@, start as int, i as int, kind) == (i as int, s@));
            return Ok(i);
        } else {
            assert(scan_component(s@, start as int, i as int, kind) == (i as int, s@));
            return Ok(i);
        }
        i += 1;
    }
    // this was the last component
    assert(scan_component(s@, start as int, i as int, kind) == (s@.len() as int, s@));
    Ok(s.len())
}

/// Returns the NSS end.
pub(crate) fn parse_nss(s: &mut TriCow, start: usize) -> (r: Result<usize>)
    ensures
        r == Ok::<usize, Error>(component_end(old(s)@, start as int, PctEncoded::Nss) as usize),
        final(s)@ == component_norm(old(s)@, start as int, PctEncoded::Nss),
        keeps_storage(*old(s), *final(s)),
{
    parse(s, start, PctEncoded::Nss)
}

/// Two uppercasing passes in a row: each byte of the outcome is the input's
/// byte or its uppercase, and the outcome is the input only when the first
/// pass changed nothing.
pub(crate) proof fn lemma_upper_steps(a: Seq<u8>, b: Seq<u8>, c: Seq<u8>)
    requires
        b.len() == a.len(),
        c.len() == b.len(),
        forall|j: int| 0 <= j < a.len() ==> #[trigger] b[j] == a[j] || b[j] == ascii_upper(a[j]),
        forall|j: int| 0 <= j < b.len() ==> #[trigger] c[j] == b[j] || c[j] == ascii_upper(b[j]),
    ensures
        forall|j: int| 0 <= j < a.len() ==> #[trigger] c[j] == a[j] || c[j] == ascii_upper(a[j]),
        c == a ==> b == a,
{
    assert forall|j: int| 0 <= j < a.len() implies #[trigger] c[j] == a[j] || c[j] == ascii_upper(
        a[j],
    ) by {
        assert(b[j] == a[j] || b[j] == ascii_upper(a[j]));
        assert(c[j] == b[j] || c[j] == ascii_upper(b[j]));
    }
    if c == a {
        assert forall|j: int| 0 <= j < a.len() implies b[j] == a[j] by {
            assert(b[j] == a[j] || b[j] == ascii_upper(a[j]));
            assert(c[j] == b[j] || c[j] == ascii_upper(b[j]));
        }
        assert(b =~= a);
    }
}

/// Returns the r-component end.
pub(crate) fn parse_r_component(s: &mut TriCow, start: usize) -> (r: Result<usize>)
    ensures
        r == Ok::<usize, Error>(
            component_end(old(s)@, start as int, PctEncoded::RComponent) as usize,
        ),
        final(s)@ == component_norm(old(s)@, start as int, PctEncoded::RComponent),
        keeps_storage(*old(s), *final(s)),
{
    parse(s, start, PctEncoded::RComponent)
}

/// Returns the q-component end.
pub(crate) fn parse_q_component(s: &mut TriCow, start: usize) -> (r: Result<usize>)
    ensures
        r == Ok::<usize, Error>(
            component_end(old(s)@, start as int, PctEncoded::QComponent) as usize,
        ),
        final(s)@ == component_norm(old(s)@, start as int, PctEncoded::QComponent),
        keeps_storage(*old(s), *final(s)),
{
    parse(s, start, PctEncoded::QComponent)
}

/// Returns the f-component end.
pub(crate) fn parse_f_component(s: &mut TriCow, start: usize) -> (r: Result<usize>)
    ensures
        r == Ok::<usize, Error>(
            component_end(old(s)@, start as int, PctEncoded::FComponent) as usize,
        ),
        final(s)@ == component_norm(old(s)@, start as int, PctEncoded::FComponent),
        keeps_storage(*old(s), *final(s)),
{
    parse(s, start, PctEncoded::FComponent)
}

/// One decoding step at index `i` of a component `b` (which starts at index
/// 0): the decoded byte and the index of the next step, or `None` when the
/// component is malformed at `i`.
pub open spec fn decode_step(b: Seq<u8>, i: int, kind: PctEncoded) -> Option<(u8, int)> {
    if single_ok(b, 0, i, kind) {
        Some((b[i], i + 1))
    } else if pct_triplet(b, i) {
        Some(((hex_value(b[i + 1]) * 16 + hex_value(b[i + 2])) as u8, i + 3))
    } else {
        None
    }
}

/// The bytes that `b` decodes to from index `i` on, or `None` when it is
/// malformed there.
pub open spec fn decode_from(b: Seq<u8>, i: int, kind: PctEncoded) -> Option<Seq<u8>>
    decreases b.len() - i,
{
    if i < 0 || i >= b.len() {
        Some(Seq::empty())
    } else if single_ok(b, 0, i, kind) {
        match decode_from(b, i + 1, kind) {
            Some(rest) => Some(seq![b[i]] + rest),
            None => None,
        }
    } else if pct_triplet(b, i) {
        match decode_from(b, i + 3, kind) {
            Some(rest) => Some(seq![(hex_value(b[i + 1]) * 16 + hex_value(b[i + 2])) as u8] + rest),
            None => None,
        }
    } else {
        None
    }
}

/// The bytes that the component `b` of kind `kind` decodes to, or `None` when
/// it is malformed.
pub open spec fn decode_bytes(b: Seq<u8>, kind: PctEncoded) -> Option<Seq<u8>> {
    decode_from(b, 0, kind)
}

/// What one call of `DecodeIter::next` at index `i` does agrees with
/// decoding the whole rest: on success it gives the first byte of what the
/// rest decodes to and moves to where the remainder starts; it fails exactly
/// when the rest does not decode because of this position.
pub proof fn law_decode_iter_step(b: Seq<u8>, i: int, kind: PctEncoded)
    requires
        0 <= i < b.len(),
    ensures
        decode_from(b, i, kind) == match decode_step(b, i, kind) {
            Some((v, j)) => prepend(seq![v], decode_from(b, j, kind)),
            None => None::<Seq<u8>>,
        },
{
}

/// What a decoder standing at index `i` of `b` gives, call after call, until
/// it gives `None`: each decoded byte as `Ok`, and `Err(err)` once where a
/// step fails.
pub open spec fn decode_items(b: Seq<u8>, i: int, kind: PctEncoded, err: Error) -> Seq<Result<u8>>
    decreases b.len() - i,
{
    if i < 0 || i >= b.len() {
        Seq::empty()
    } else if single_ok(b, 0, i, kind) {
        seq![Ok(b[i])] + decode_items(b, i + 1, kind, err)
    } else if pct_triplet(b, i) {
        seq![Ok((hex_value(b[i + 1]) * 16 + hex_value(b[i + 2])) as u8)] + decode_items(
            b,
            i + 3,
            kind,
            err,
        )
    } else {
        seq![Err(err)]
    }
}

/// The bytes decoded from index `i` of `b` on, up to the end or to the first
/// malformed position.
pub open spec fn decoded_run(b: Seq<u8>, i: int, kind: PctEncoded) -> Seq<u8>
    decreases b.len() - i,
{
    if i < 0 || i >= b.len() {
        Seq::empty()
    } else if single_ok(b, 0, i, kind) {
        seq![b[i]] + decoded_run(b, i + 1, kind)
    } else if pct_triplet(b, i) {
        seq![(hex_value(b[i + 1]) * 16 + hex_value(b[i + 2])) as u8] + decoded_run(b, i + 3, kind)
    } else {
        Seq::empty()
    }
}

/// A decoder yields the bytes of the longest well-formed run, each as `Ok`,
/// followed by `Err(err)` exactly when the component is malformed; when it is
/// well formed, that run is what the whole component decodes to.
pub proof fn law_decode_items(b: Seq<u8>, i: int, kind: PctEncoded, err: Error)
    requires
        0 <= i,
    ensures
        decode_items(b, i, kind, err) == decoded_run(b, i, kind).map_values(
            |x: u8| Ok::<u8, Error>(x),
        ) + if decode_from(b, i, kind) is Some {
            Seq::<Result<u8>>::empty()
        } else {
            seq![Err::<u8, Error>(err)]
        },
        decode_from(b, i, kind) is Some ==> decode_from(b, i, kind) == Some(decoded_run(b, i, kind)),
    decreases b.len() - i,
{
    let tail = if decode_from(b, i, kind) is Some {
        Seq::<Result<u8>>::empty()
    } else {
        seq![Err::<u8, Error>(err)]
    };
    if i >= b.len() {
        assert(decoded_run(b, i, kind).map_values(|x: u8| Ok::<u8, Error>(x)) + tail =~= Seq::<
            Result<u8>,
        >::empty());
    } else if single_ok(b, 0, i, kind) || pct_triplet(b, i) {
        let j = if single_ok(b, 0, i, kind) {
            i + 1
        } else {
            i + 3
        };
        law_decode_items(b, j, kind, err);
        let rest = decoded_run(b, j, kind);
        let v = decoded_run(b, i, kind)[0];
        assert(decoded_run(b, i, kind) == seq![v] + rest);
        assert(decoded_run(b, i, kind).map_values(|x: u8| Ok::<u8, Error>(x)) =~= seq![
            Ok::<u8, Error>(v),
        ] + rest.map_values(|x: u8| Ok::<u8, Error>(x)));
        assert(decode_from(b, i, kind) is Some <==> decode_from(b, j, kind) is Some);
        assert(seq![Ok::<u8, Error>(v)] + rest.map_values(|x: u8| Ok::<u8, Error>(x)) + tail =~= seq![
            Ok::<u8, Error>(v),
        ] + (rest.map_values(|x: u8| Ok::<u8, Error>(x)) + tail));
    } else {
        assert(decoded_run(b, i, kind).map_values(|x: u8| Ok::<u8, Error>(x)) + tail =~= seq![
            Err::<u8, Error>(err),
        ]);
    }
}

/// Iterator-like decoder of a component, one byte per call of `next`, without
/// allocating.
///
/// `next` gives `Some(Ok(byte))` for each decoded byte, and
/// `Some(Err(error))` once on the first validation failure, after which it
/// gives `None`. Callers that want the decoded bytes as a `String` must check
/// the UTF-8 themselves.
pub struct DecodeIter<'a> {
    bytes: &'a [u8],
    i: usize,
    kind: PctEncoded,
    err: Error,
    done: bool,
}

impl<'a> DecodeIter<'a> {
    /// The component being decoded.
    pub closed spec fn spec_bytes(&self) -> Seq<u8> {
        self.bytes@
    }

    /// Index of the next step.
    pub closed spec fn spec_pos(&self) -> int {
        self.i as int
    }

    pub closed spec fn spec_kind(&self) -> PctEncoded {
        self.kind
    }

    /// The error given on a validation failure.
    pub closed spec fn spec_err(&self) -> Error {
        self.err
    }

    /// Whether a validation failure has been reported.
    pub closed spec fn spec_done(&self) -> bool {
        self.done
    }

    /// What the calls of `next` from here on give, in order, before the
    /// first `None`.
    pub open spec fn spec_remaining(&self) -> Seq<Result<u8>> {
        if self.spec_done() {
            Seq::empty()
        } else {
            decode_items(self.spec_bytes(), self.spec_pos(), self.spec_kind(), self.spec_err())
        }
    }

    fn new(s: &'a str, kind: PctEncoded, err: Error) -> (r: Self)
        ensures
            r.spec_bytes() == s.spec_bytes(),
            r.spec_pos() == 0,
            r.spec_kind() == kind,
            r.spec_err() == err,
            !r.spec_done(),
    {
        DecodeIter { bytes: s.as_bytes(), i: 0, kind, err, done: false }
    }

    /// The next decoded byte, the error on a validation failure, or `None`
    /// at the end and after a failure.
    pub fn next(&mut self) -> (r: Option<Result<u8>>)
        ensures
            final(self).spec_bytes() == old(self).spec_bytes(),
            final(self).spec_kind() == old(self).spec_kind(),
            final(self).spec_err() == old(self).spec_err(),
            old(self).spec_done() || old(self).spec_pos() >= old(self).spec_bytes().len() ==> r
                is None && final(self).spec_pos() == old(self).spec_pos() && final(self).spec_done()
                == old(self).spec_done(),
            !(old(self).spec_done() || old(self).spec_pos() >= old(self).spec_bytes().len()) ==> (
            match decode_step(old(self).spec_bytes(), old(self).spec_pos(), old(self).spec_kind()) {
                Some((v, j)) => r == Some(Ok::<u8, Error>(v)) && final(self).spec_pos() == j
                    && !final(self).spec_done(),
                None => r == Some(Err::<u8, Error>(old(self).spec_err())) && final(self).spec_done() && final(self).spec_pos() == old(self).spec_pos(),
            }),
            match r {
                None => old(self).spec_remaining().len() == 0 && final(self).spec_remaining().len()
                    == 0,
                Some(x) => old(self).spec_remaining() == seq![x] + final(self).spec_remaining(),
            },
    {
        if self.done || self.i >= self.bytes.len() {
            return None;
        }
        let i = self.i;
        let ch = self.bytes[i];
        if is_parse_plain_byte(ch) {
            self.i = i + 1;
            return Some(Ok(ch));
        }
        if ch == B_QUESTION {
            let ok = match self.kind {
                PctEncoded::FComponent => true,
                PctEncoded::QComponent => i != 0,
                PctEncoded::RComponent => i != 0 && !(i + 1 < self.bytes.len() && self.bytes[i
                    + 1] == B_EQUALS),
                PctEncoded::Nss => false,
            };
            if !ok {
                self.done = true;
                return Some(Err(self.err));
            }
        } else if ch == B_SLASH {
            let ok = match self.kind {
                PctEncoded::FComponent => true,
                _ => i != 0,
            };
            if !ok {
                self.done = true;
                return Some(Err(self.err));
            }
        } else if ch == B_PERCENT {
            if self.bytes.len() - i <= 2 {
                self.done = true;
                return Some(Err(self.err));
            }
            let hi = hex_value_byte(self.bytes[i + 1]);
            let lo = hex_value_byte(self.bytes[i + 2]);
            if hi == 0xFF || lo == 0xFF {
                self.done = true;
                return Some(Err(self.err));
            }
            self.i = i + 3;
            assert((hi << 4u8) | lo == (hi * 16 + lo) as u8) by (bit_vector)
                requires
                    hi < 16,
                    lo < 16,
            ;
            return Some(Ok((hi << 4) | lo));
        } else {
            self.done = true;
            return Some(Err(self.err));
        }
        self.i = i + 1;
        Some(Ok(ch))
    }
}

/// A `None` result stays `None`; a `Some` one gets `prefix` in front.
pub open spec fn prepend(prefix: Seq<u8>, rest: Option<Seq<u8>>) -> Option<Seq<u8>> {
    match rest {
        Some(r) => Some(prefix + r),
        None => None,
    }
}

fn decode(s: &str, kind: PctEncoded) -> (r: Option<String>)
    ensures
        r is Some <==> (decode_bytes(s.spec_bytes(), kind) is Some && valid_utf8(
            decode_bytes(s.spec_bytes(), kind).unwrap(),
        )),
        r matches Some(t) ==> t@ == decode_utf8(decode_bytes(s.spec_bytes(), kind).unwrap()),
{
    let ghost b = s.spec_bytes();
    let mut it = DecodeIter::new(s, kind, Error::InvalidNss);
    let mut ret: Vec<u8> = Vec::with_capacity(s.len());
    assert(ret@ + Seq::<u8>::empty() =~= Seq::<u8>::empty());
    loop
        invariant
            b == s.spec_bytes(),
            it.spec_bytes() == b,
            it.spec_kind() == kind,
            !it.spec_done(),
            0 <= it.spec_pos(),
            decode_from(b, 0, kind) == prepend(ret@, decode_from(b, it.spec_pos(), kind)),
        ensures
            b == s.spec_bytes(),
            decode_from(b, 0, kind) == Some(ret@),
        decreases b.len() - it.spec_pos(),
    {
        let ghost pos = it.spec_pos();
        match it.next() {
            None => {
                assert(decode_from(b, pos, kind) == Some(Seq::<u8>::empty()));
                assert(ret@ + Seq::<u8>::empty() =~= ret@);
                break ;
            },
            Some(Ok(v)) => {
                proof {
                    let rest = decode_from(b, it.spec_pos(), kind);
                    assert(decode_from(b, pos, kind) == prepend(seq![v], rest));
                    match rest {
                        Some(r) => {
                            assert(ret@ + (seq![v] + r) =~= ret@.push(v) + r);
                        },
                        None => {},
                    }
                }
                ret.push(v);
            },
            Some(Err(_)) => {
                return None;
            },
        }
    }
    string_from_utf8(ret)
}

/// Percent-decodes an NSS.
///
/// # Errors
/// Returns [`Error::InvalidNss`] when `s` is malformed or does not decode to
/// UTF-8.
pub fn decode_nss(s: &str) -> (r: Result<String>)
    ensures
        r is Ok <==> (decode_bytes(s.spec_bytes(), PctEncoded::Nss) is Some && valid_utf8(
            decode_bytes(s.spec_bytes(), PctEncoded::Nss).unwrap(),
        )),
        r matches Ok(t) ==> t@ == decode_utf8(decode_bytes(s.spec_bytes(), PctEncoded::Nss).unwrap()),
        r matches Err(e) ==> e == Error::InvalidNss,
{
    match decode(s, PctEncoded::Nss) {
        Some(t) => Ok(t),
        None => Err(Error::InvalidNss),
    }
}

/// Percent-decodes an r-component.
///
/// # Errors
/// Returns [`Error::InvalidRComponent`] when `s` is malformed or does not
/// decode to UTF-8.
pub fn decode_r_component(s: &str) -> (r: Result<String>)
    ensures
        r is Ok <==> (decode_bytes(s.spec_bytes(), PctEncoded::RComponent) is Some && valid_utf8(
            decode_bytes(s.spec_bytes(), PctEncoded::RComponent).unwrap(),
        )),
        r matches Ok(t) ==> t@ == decode_utf8(
            decode_bytes(s.spec_bytes(), PctEncoded::RComponent).unwrap(),
        ),
        r matches Err(e) ==> e == Error::InvalidRComponent,
{
    match decode(s, PctEncoded::RComponent) {
        Some(t) => Ok(t),
        None => Err(Error::InvalidRComponent),
    }
}

/// Percent-decodes a q-component.
///
/// # Errors
/// Returns [`Error::InvalidQComponent`] when `s` is malformed or does not
/// decode to UTF-8.
pub fn decode_q_component(s: &str) -> (r: Result<String>)
    ensures
        r is Ok <==> (decode_bytes(s.spec_bytes(), PctEncoded::QComponent) is Some && valid_utf8(
            decode_bytes(s.spec_bytes(), PctEncoded::QComponent).unwrap(),
        )),
        r matches Ok(t) ==> t@ == decode_utf8(
            decode_bytes(s.spec_bytes(), PctEncoded::QComponent).unwrap(),
        ),
        r matches Err(e) ==> e == Error::InvalidQComponent,
{
    match decode(s, PctEncoded::QComponent) {
        Some(t) => Ok(t),
        None => Err(Error::InvalidQComponent),
    }
}

/// Percent-decodes an f-component.
///
/// # Errors
/// Returns [`Error::InvalidFComponent`] when `s` is malformed or does not
/// decode to UTF-8.
pub fn decode_f_component(s: &str) -> (r: Result<String>)
    ensures
        r is Ok <==> (decode_bytes(s.spec_bytes(), PctEncoded::FComponent) is Some && valid_utf8(
            decode_bytes(s.spec_bytes(), PctEncoded::FComponent).unwrap(),
        )),
        r matches Ok(t) ==> t@ == decode_utf8(
            decode_bytes(s.spec_bytes(), PctEncoded::FComponent).unwrap(),
        ),
        r matches Err(e) ==> e == Error::InvalidFComponent,
{
    match decode(s, PctEncoded::FComponent) {
        Some(t) => Ok(t),
        None => Err(Error::InvalidFComponent),
    }
}

/// Percent-decodes an NSS byte by byte without allocating; failures are
/// reported as [`Error::InvalidNss`].
pub fn decode_nss_iter(s: &str) -> (r: DecodeIter<'_>)
    ensures
        r.spec_bytes() == s.spec_bytes(),
        r.spec_pos() == 0,
        r.spec_kind() == PctEncoded::Nss,
        r.spec_err() == Error::InvalidNss,
        !r.spec_done(),
        r.spec_remaining() == decode_items(s.spec_bytes(), 0, PctEncoded::Nss, Error::InvalidNss),
{
    DecodeIter::new(s, PctEncoded::Nss, Error::InvalidNss)
}

/// Percent-decodes an r-component byte by byte without allocating; failures
/// are reported as [`Error::InvalidRComponent`].
pub fn decode_r_component_iter(s: &str) -> (r: DecodeIter<'_>)
    ensures
        r.spec_bytes() == s.spec_bytes(),
        r.spec_pos() == 0,
        r.spec_kind() == PctEncoded::RComponent,
        r.spec_err() == Error::InvalidRComponent,
        !r.spec_done(),
        r.spec_remaining() == decode_items(s.spec_bytes(), 0, PctEncoded::RComponent, Error::InvalidRComponent),
{
    DecodeIter::new(s, PctEncoded::RComponent, Error::InvalidRComponent)
}

/// Percent-decodes a q-component byte by byte without allocating; failures
/// are reported as [`Error::InvalidQComponent`].
pub fn decode_q_component_iter(s: &str) -> (r: DecodeIter<'_>)
    ensures
        r.spec_bytes() == s.spec_bytes(),
        r.spec_pos() == 0,
        r.spec_kind() == PctEncoded::QComponent,
        r.spec_err() == Error::InvalidQComponent,
        !r.spec_done(),
        r.spec_remaining() == decode_items(s.spec_bytes(), 0, PctEncoded::QComponent, Error::InvalidQComponent),
{
    DecodeIter::new(s, PctEncoded::QComponent, Error::InvalidQComponent)
}

/// Percent-decodes an f-component byte by byte without allocating; failures
/// are reported as [`Error::InvalidFComponent`].
pub fn decode_f_component_iter(s: &str) -> (r: DecodeIter<'_>)
    ensures
        r.spec_bytes() == s.spec_bytes(),
        r.spec_pos() == 0,
        r.spec_kind() == PctEncoded::FComponent,
        r.spec_err() == Error::InvalidFComponent,
        !r.spec_done(),
        r.spec_remaining() == decode_items(s.spec_bytes(), 0, PctEncoded::FComponent, Error::InvalidFComponent),
{
    DecodeIter::new(s, PctEncoded::FComponent, Error::InvalidFComponent)
}

/// Uppercase hex digit of a value below 16.
pub open spec fn hex_digit_upper(v: u8) -> u8 {
    if v < 10 {
        (0x30 + v) as u8
    } else {
        (0x41 + v - 10) as u8
    }
}

/// Whether the encoder keeps the `/` at index `i`.
pub open spec fn enc_slash_ok(i: int, kind: PctEncoded) -> bool {
    match kind {
        PctEncoded::FComponent => true,
        PctEncoded::RComponent | PctEncoded::QComponent => i != 0,
        PctEncoded::Nss => false,
    }
}

/// Whether the encoder keeps the byte at index `i` of `b` as it is.
pub open spec fn enc_keep(b: Seq<u8>, i: int, kind: PctEncoded) -> bool {
    ||| (if kind == PctEncoded::Nss {
        is_enc_nss_plain(b[i])
    } else {
        is_enc_rqf_plain(b[i])
    })
    ||| (b[i] == B_QUESTION && question_ok(b, 0, i, kind))
    ||| (b[i] == B_SLASH && enc_slash_ok(i, kind))
}

/// What the encoder writes for the byte at index `i` of `b`: the byte itself,
/// or `%` and its two uppercase hex digits.
pub open spec fn enc_unit(b: Seq<u8>, i: int, kind: PctEncoded) -> Seq<u8> {
    if enc_keep(b, i, kind) {
        seq![b[i]]
    } else {
        seq![B_PERCENT, hex_digit_upper(b[i] / 16), hex_digit_upper(b[i] % 16)]
    }
}

/// What the encoder writes for the first `n` bytes of `b`.
pub open spec fn enc_prefix(b: Seq<u8>, n: int, kind: PctEncoded) -> Seq<u8>
    decreases n,
{
    if n <= 0 {
        Seq::empty()
    } else {
        enc_prefix(b, n - 1, kind) + enc_unit(b, n - 1, kind)
    }
}

/// The percent-encoding of the bytes `b` as a component of kind `kind`.
pub open spec fn encode_bytes(b: Seq<u8>, kind: PctEncoded) -> Seq<u8> {
    enc_prefix(b, b.len() as int, kind)
}

/// The two uppercase hex digits of `n`.
fn to_hex(n: u8) -> (r: [u8; 2])
    ensures
        r[0] == hex_digit_upper(n / 16),
        r[1] == hex_digit_upper(n % 16),
{
    let a = (n & 0xF0) >> 4;
    let b = n & 0xF;
    assert(a == n / 16 && b == n % 16) by (bit_vector)
        requires
            a == (n & 0xF0) >> 4,
            b == n & 0xF,
    ;
    let a = if a < 10 {
        0x30 + a
    } else {
        0x41 + (a - 10)
    };
    let b = if b < 10 {
        0x30 + b
    } else {
        0x41 + (b - 10)
    };
    [a, b]
}

proof fn lemma_enc_prefix_ascii(b: Seq<u8>, n: int, kind: PctEncoded)
    requires
        0 <= n <= b.len(),
    ensures
        all_ascii(enc_prefix(b, n, kind)),
    decreases n,
{
    if n > 0 {
        lemma_enc_prefix_ascii(b, n - 1, kind);
        let u = enc_unit(b, n - 1, kind);
        assert(all_ascii(u));
        assert forall|j: int| 0 <= j < enc_prefix(b, n, kind).len() implies #[trigger] enc_prefix(
            b,
            n,
            kind,
        )[j] < 0x80 by {
            let p = enc_prefix(b, n - 1, kind);
            if j >= p.len() {
                assert(enc_prefix(b, n, kind)[j] == u[j - p.len()]);
            }
        }
    }
}

/// Appends the encoding of one byte that is percent-encoded.
fn push_triplet(out: &mut Vec<u8>, byte: u8)
    ensures
        final(out)@ == old(out)@ + seq![B_PERCENT, hex_digit_upper(byte / 16), hex_digit_upper(byte % 16)],
{
    let hex = to_hex(byte);
    out.push(B_PERCENT);
    out.push(hex[0]);
    out.push(hex[1]);
}

fn encode(s: &str, kind: PctEncoded) -> (r: String)
    ensures
        r@ == ascii_chars(encode_bytes(s.spec_bytes(), kind)),
{
    let bytes = s.as_bytes();
    let n = bytes.len();
    let mut ret: Vec<u8> = Vec::with_capacity(n);
    let mut i: usize = 0;
    while i < n
        invariant
            n == bytes@.len(),
            bytes@ == s.spec_bytes(),
            i <= n,
            ret@ == enc_prefix(bytes@, i as int, kind),
        decreases n - i,
    {
        let b = bytes[i];
        if b < 0x80 {
            let plain = match kind {
                PctEncoded::Nss => is_enc_nss_plain_byte(b),
                _ => is_enc_rqf_plain_byte(b),
            };
            let allowed = plain || if b == B_QUESTION {
                match kind {
                    PctEncoded::FComponent => true,
                    PctEncoded::QComponent => i != 0,
                    PctEncoded::RComponent => i != 0 && !(i + 1 < n && bytes[i + 1] == B_EQUALS),
                    PctEncoded::Nss => false,
                }
            } else if b == B_SLASH {
                match kind {
                    PctEncoded::FComponent => true,
                    PctEncoded::RComponent | PctEncoded::QComponent => i != 0,
                    PctEncoded::Nss => false,
                }
            } else {
                false
            };
            assert(allowed == enc_keep(bytes@, i as int, kind));
            if allowed {
                ret.push(b);
            } else {
                push_triplet(&mut ret, b);
            }
            i += 1;
        } else {
            // Non-ASCII: a multi-byte UTF-8 sequence. Every byte of it
            // (continuation bytes have the pattern 10xxxxxx) is percent-encoded.
            let start = i;
            i += 1;
            while i < n && (bytes[i] & 0xC0) == 0x80
                invariant
                    n == bytes@.len(),
                    start < i <= n,
                    forall|j: int| start <= j < i ==> #[trigger] bytes@[j] >= 0x80,
                decreases n - i,
            {
                let c = bytes[i];
                assert((c & 0xC0) == 0x80 ==> c >= 0x80) by (bit_vector);
                i += 1;
            }
            let mut j = start;
            while j < i
                invariant
                    n == bytes@.len(),
                    start <= j <= i <= n,
                    forall|k: int| start <= k < i ==> #[trigger] bytes@[k] >= 0x80,
                    ret@ == enc_prefix(bytes@, j as int, kind),
                decreases i - j,
            {
                assert(!enc_keep(bytes@, j as int, kind));
                push_triplet(&mut ret, bytes[j]);
                j += 1;
            }
        }
    }
    proof {
        lemma_enc_prefix_ascii(bytes@, n as int, kind);
    }
    ascii_to_string(ret)
}

/// Percent-encodes an NSS.
///
/// # Errors
/// Returns [`Error::InvalidNss`] when `s` is empty.
pub fn encode_nss(s: &str) -> (r: Result<String>)
    ensures
        s@.len() == 0 <==> r is Err,
        r matches Err(e) ==> e == Error::InvalidNss,
        r matches Ok(t) ==> t@ == ascii_chars(encode_bytes(s.spec_bytes(), PctEncoded::Nss)),
{
    if s.is_empty() {
        return Err(Error::InvalidNss);
    }
    Ok(encode(s, PctEncoded::Nss))
}

/// Percent-encodes an r-component.
///
/// # Errors
/// Returns [`Error::InvalidRComponent`] when `s` is empty.
pub fn encode_r_component(s: &str) -> (r: Result<String>)
    ensures
        s@.len() == 0 <==> r is Err,
        r matches Err(e) ==> e == Error::InvalidRComponent,
        r matches Ok(t) ==> t@ == ascii_chars(
            encode_bytes(s.spec_bytes(), PctEncoded::RComponent),
        ),
{
    if s.is_empty() {
        return Err(Error::InvalidRComponent);
    }
    Ok(encode(s, PctEncoded::RComponent))
}

/// Percent-encodes a q-component.
///
/// # Errors
/// Returns [`Error::InvalidQComponent`] when `s` is empty.
pub fn encode_q_component(s: &str) -> (r: Result<String>)
    ensures
        s@.len() == 0 <==> r is Err,
        r matches Err(e) ==> e == Error::InvalidQComponent,
        r matches Ok(t) ==> t@ == ascii_chars(
            encode_bytes(s.spec_bytes(), PctEncoded::QComponent),
        ),
{
    if s.is_empty() {
        return Err(Error::InvalidQComponent);
    }
    Ok(encode(s, PctEncoded::QComponent))
}

/// Percent-encodes an f-component. The f-component may be empty, so this
/// never fails; it returns a `Result` like the other encoders.
pub fn encode_f_component(s: &str) -> (r: Result<String>)
    ensures
        r matches Ok(t) && t@ == ascii_chars(encode_bytes(s.spec_bytes(), PctEncoded::FComponent)),
{
    // fragment is allowed to be empty
    Ok(encode(s, PctEncoded::FComponent))
}

proof fn lemma_hex_digit_roundtrip(v: u8)
    requires
        v < 16,
    ensures
        is_hex_digit(hex_digit_upper(v)),
        hex_value(hex_digit_upper(v)) == v,
        !is_lower(hex_digit_upper(v)),
{
}

/// A longer encoded prefix extends a shorter one.
pub proof fn lemma_enc_prefix_extends(b: Seq<u8>, i: int, m: int, kind: PctEncoded)
    requires
        0 <= i <= m <= b.len(),
    ensures
        enc_prefix(b, m, kind).len() >= enc_prefix(b, i, kind).len() + (m - i),
        forall|k: int|
            0 <= k < enc_prefix(b, i, kind).len() ==> #[trigger] enc_prefix(b, m, kind)[k]
                == enc_prefix(b, i, kind)[k],
    decreases m - i,
{
    if i < m {
        lemma_enc_prefix_extends(b, i, m - 1, kind);
        assert(enc_unit(b, m - 1, kind).len() >= 1);
    }
}

/// The encoding of byte `i` sits at offset `enc_prefix(b, i).len()` of the
/// whole encoding.
proof fn lemma_enc_unit_at(b: Seq<u8>, i: int, kind: PctEncoded)
    requires
        0 <= i < b.len(),
    ensures
        ({
            let e = encode_bytes(b, kind);
            let p = enc_prefix(b, i, kind).len();
            let u = enc_unit(b, i, kind);
            &&& enc_prefix(b, i + 1, kind).len() == p + u.len()
            &&& p + u.len() <= e.len()
            &&& forall|k: int| 0 <= k < u.len() ==> #[trigger] e[p + k] == u[k]
        }),
{
    lemma_enc_prefix_extends(b, i + 1, b.len() as int, kind);
    let p = enc_prefix(b, i, kind).len();
    let u = enc_unit(b, i, kind);
    assert forall|k: int| 0 <= k < u.len() implies #[trigger] encode_bytes(b, kind)[p + k]
        == u[k] by {
        assert(enc_prefix(b, i + 1, kind)[p + k] == u[k]);
    }
}

proof fn lemma_decode_encoded_from(b: Seq<u8>, i: int, kind: PctEncoded)
    requires
        0 <= i <= b.len(),
    ensures
        decode_from(encode_bytes(b, kind), enc_prefix(b, i, kind).len() as int, kind) == Some(
            b.subrange(i, b.len() as int),
        ),
    decreases b.len() - i,
{
    let e = encode_bytes(b, kind);
    let n = b.len() as int;
    let p = enc_prefix(b, i, kind).len() as int;
    lemma_enc_prefix_extends(b, i, n, kind);
    if i == n {
        assert(b.subrange(i, n) =~= Seq::<u8>::empty());
    } else {
        lemma_enc_unit_at(b, i, kind);
        lemma_decode_encoded_from(b, i + 1, kind);
        let u = enc_unit(b, i, kind);
        let q = enc_prefix(b, i + 1, kind).len() as int;
        assert(i > 0 ==> p > 0) by {
            if i > 0 {
                lemma_enc_prefix_extends(b, 0, i, kind);
            }
        }
        assert(e[p + 0] == u[0]);
        assert(p + 0 == p);
        if enc_keep(b, i, kind) {
            assert(e[p] == b[i]);
            if b[i] == B_QUESTION && question_ok(b, 0, i, kind) && kind == PctEncoded::RComponent {
                if p + 1 < e.len() {
                    assert(i + 1 < n) by {
                        if i + 1 >= n {
                            lemma_enc_prefix_extends(b, i + 1, n, kind);
                        }
                    }
                    lemma_enc_unit_at(b, i + 1, kind);
                    assert(q == p + 1);
                    assert(e[q + 0] == enc_unit(b, i + 1, kind)[0]);
                    assert(e[p + 1] == enc_unit(b, i + 1, kind)[0]);
                }
            }
            assert(single_ok(e, 0, p, kind));
            assert(b.subrange(i, n) =~= seq![b[i]] + b.subrange(i + 1, n));
        } else {
            lemma_hex_digit_roundtrip(b[i] / 16);
            lemma_hex_digit_roundtrip(b[i] % 16);
            assert(e[p] == B_PERCENT);
            assert(e[p + 1] == hex_digit_upper(b[i] / 16));
            assert(e[p + 2] == hex_digit_upper(b[i] % 16));
            assert(!single_ok(e, 0, p, kind));
            assert(pct_triplet(e, p));
            assert((hex_value(e[p + 1]) * 16 + hex_value(e[p + 2])) as u8 == b[i]);
            assert(b.subrange(i, n) =~= seq![b[i]] + b.subrange(i + 1, n));
        }
    }
}

/// Percent-decoding what percent-encoding produced gives back the bytes that
/// were encoded, for every component kind.
pub proof fn lemma_decode_encode_bytes(b: Seq<u8>, kind: PctEncoded)
    ensures
        decode_bytes(encode_bytes(b, kind), kind) == Some(b),
{
    lemma_decode_encoded_from(b, 0, kind);
    assert(b.subrange(0, b.len() as int) =~= b);
}

proof fn lemma_scan_encoded_from(b: Seq<u8>, i: int, kind: PctEncoded)
    requires
        0 <= i <= b.len(),
    ensures
        scan_component(encode_bytes(b, kind), 0, enc_prefix(b, i, kind).len() as int, kind) == (
            encode_bytes(b, kind).len() as int,
            encode_bytes(b, kind),
        ),
    decreases b.len() - i,
{
    let e = encode_bytes(b, kind);
    let n = b.len() as int;
    let p = enc_prefix(b, i, kind).len() as int;
    lemma_enc_prefix_extends(b, i, n, kind);
    if i < n {
        lemma_enc_unit_at(b, i, kind);
        lemma_scan_encoded_from(b, i + 1, kind);
        let u = enc_unit(b, i, kind);
        let q = enc_prefix(b, i + 1, kind).len() as int;
        assert(i > 0 ==> p > 0) by {
            if i > 0 {
                lemma_enc_prefix_extends(b, 0, i, kind);
            }
        }
        assert(e[p + 0] == u[0]);
        assert(p + 0 == p);
        if enc_keep(b, i, kind) {
            assert(e[p] == b[i]);
            if b[i] == B_QUESTION && question_ok(b, 0, i, kind) && kind == PctEncoded::RComponent {
                if p + 1 < e.len() {
                    assert(i + 1 < n) by {
                        if i + 1 >= n {
                            lemma_enc_prefix_extends(b, i + 1, n, kind);
                        }
                    }
                    lemma_enc_unit_at(b, i + 1, kind);
                    assert(q == p + 1);
                    assert(e[q + 0] == enc_unit(b, i + 1, kind)[0]);
                    assert(e[p + 1] == enc_unit(b, i + 1, kind)[0]);
                }
            }
            assert(single_ok(e, 0, p, kind));
        } else {
            lemma_hex_digit_roundtrip(b[i] / 16);
            lemma_hex_digit_roundtrip(b[i] % 16);
            assert(e[p] == B_PERCENT);
            assert(e[p + 1] == hex_digit_upper(b[i] / 16));
            assert(e[p + 2] == hex_digit_upper(b[i] % 16));
            assert(!single_ok(e, 0, p, kind));
            assert(pct_triplet(e, p));
            assert(upper_range(e, p + 1, p + 3) =~= e);
        }
    }
}

/// What percent-encoding produces is a whole component of its kind as the
/// parser reads it, with its encoding already normalized: a scan of it runs
/// to its end and changes nothing.
pub proof fn law_encode_is_normalized_component(b: Seq<u8>, kind: PctEncoded)
    ensures
        scan_component(encode_bytes(b, kind), 0, 0, kind) == (
            encode_bytes(b, kind).len() as int,
            encode_bytes(b, kind),
        ),
{
    lemma_scan_encoded_from(b, 0, kind);
}

/// What follows a component of kind `kind` inside a URN text: nothing, a `#`,
/// or a `?` that starts the next component (`?=` after an r-component).
pub open spec fn stops_after(suf: Seq<u8>, kind: PctEncoded) -> bool {
    ||| suf.len() == 0
    ||| suf[0] == B_HASH
    ||| (suf[0] == B_QUESTION && (kind == PctEncoded::Nss || (kind == PctEncoded::RComponent
        && suf.len() >= 2 && suf[1] == B_EQUALS)))
}

/// A component is scanned inside a URN text as it is scanned on its own:
/// the scan of `pre + c + suf` from the start of `c` ends where the scan of
/// `c` alone ends, shifted, and changes `c` the same way.
pub proof fn lemma_scan_embedded(c: Seq<u8>, pre: Seq<u8>, suf: Seq<u8>, k: int, kind: PctEncoded)
    requires
        0 <= k <= c.len(),
        stops_after(suf, kind),
    ensures
        scan_component(pre + c + suf, pre.len() as int, pre.len() + k, kind) == (
            pre.len() + scan_component(c, 0, k, kind).0,
            pre + scan_component(c, 0, k, kind).1 + suf,
        ),
    decreases c.len() - k,
{
    let s = pre + c + suf;
    let o = pre.len() as int;
    let n = c.len() as int;
    if k >= n {
        if n < s.len() - o {
            assert(s[o + n] == suf[0]);
            if suf.len() >= 2 {
                assert(s[o + n + 1] == suf[1]);
            }
        }
        assert(s =~= pre + c + suf);
    } else {
        assert(s[o + k] == c[k]);
        if k + 1 < n {
            assert(s[o + k + 1] == c[k + 1]);
        } else if suf.len() > 0 {
            assert(s[o + k + 1] == suf[0]);
        }
        if k + 2 < n {
            assert(s[o + k + 2] == c[k + 2]);
        } else if k + 2 == n && suf.len() > 0 {
            assert(s[o + k + 2] == suf[0]);
        }
        if single_ok(c, 0, k, kind) {
            assert(single_ok(s, o, o + k, kind));
            lemma_scan_embedded(c, pre, suf, k + 1, kind);
        } else if pct_triplet(c, k) {
            assert(!single_ok(s, o, o + k, kind));
            assert(pct_triplet(s, o + k));
            let u = upper_range(c, k + 1, k + 3);
            assert(upper_range(s, o + k + 1, o + k + 3) =~= pre + u + suf);
            lemma_scan_embedded(u, pre, suf, k + 3, kind);
        } else {
            assert(!single_ok(s, o, o + k, kind));
            assert(!pct_triplet(s, o + k));
        }
    }
}

/// Percent-decoding the text that percent-encoding a string gives returns
/// that string: for the output `t` of `encode_*`, `decode_*(t)` is `Ok` with
/// the text that was encoded.
pub proof fn law_percent_roundtrip(s: Seq<char>, kind: PctEncoded)
    ensures
        ({
            let t = ascii_chars(encode_bytes(encode_utf8(s), kind));
            let d = decode_bytes(encode_utf8(t), kind);
            &&& d is Some
            &&& valid_utf8(d.unwrap())
            &&& decode_utf8(d.unwrap()) == s
        }),
{
    let e = encode_bytes(encode_utf8(s), kind);
    lemma_enc_prefix_ascii(encode_utf8(s), encode_utf8(s).len() as int, kind);
    lemma_ascii_utf8(e);
    lemma_decode_encode_bytes(encode_utf8(s), kind);
    vstd::utf8::encode_utf8_valid_utf8(s);
    vstd::utf8::encode_utf8_decode_utf8(s);
}

proof fn lemma_enc_prefix_plain(b: Seq<u8>, n: int, kind: PctEncoded)
    requires
        0 <= n <= b.len(),
        forall|i: int| 0 <= i < b.len() ==> enc_keep(b, i, kind),
    ensures
        enc_prefix(b, n, kind) == b.subrange(0, n),
    decreases n,
{
    if n > 0 {
        lemma_enc_prefix_plain(b, n - 1, kind);
        assert(b.subrange(0, n - 1) + seq![b[n - 1]] =~= b.subrange(0, n));
    }
}

/// Text made only of ASCII letters, digits and `-` `.` `_` `!` `$` `'` `(`
/// `)` `*` `+` `,` `;` `=` `:` `@`, and also `&` outside an NSS, is left as
/// it is by the encoder of every kind.
pub proof fn law_encode_keeps_plain(b: Seq<u8>, kind: PctEncoded)
    requires
        forall|i: int|
            0 <= i < b.len() ==> {
                let x = #[trigger] b[i];
                ||| 0x30 <= x <= 0x39
                ||| 0x41 <= x <= 0x5A
                ||| 0x61 <= x <= 0x7A
                ||| x == 0x2D || x == 0x2E || x == 0x5F || x == 0x21 || x == 0x24 || x == 0x27
                ||| x == 0x28 || x == 0x29 || x == 0x2A || x == 0x2B || x == 0x2C || x == 0x3B
                ||| x == 0x3D || x == 0x3A || x == 0x40
                ||| (x == 0x26 && kind != PctEncoded::Nss)
            },
    ensures
        encode_bytes(b, kind) == b,
{
    assert forall|i: int| 0 <= i < b.len() implies enc_keep(b, i, kind) by {
        let x = b[i];
        assert(x == b[i]);
    }
    lemma_enc_prefix_plain(b, b.len() as int, kind);
    assert(b.subrange(0, b.len() as int) =~= b);
}

/// A single byte is kept by the encoder exactly when it is an ASCII letter or
/// digit, one of `-` `.` `_` `!` `$` `'` `(` `)` `*` `+` `,` `;` `=` `:`
/// `@`, an `&` outside an NSS, or a `?` or `/` starting an f-component; any
/// other byte becomes `%` and its two uppercase hex digits.
pub proof fn law_encode_single(x: u8, kind: PctEncoded)
    ensures
        encode_bytes(seq![x], kind) == if ({
            ||| 0x30 <= x <= 0x39
            ||| 0x41 <= x <= 0x5A
            ||| 0x61 <= x <= 0x7A
            ||| x == 0x2D || x == 0x2E || x == 0x5F || x == 0x21 || x == 0x24 || x == 0x27
            ||| x == 0x28 || x == 0x29 || x == 0x2A || x == 0x2B || x == 0x2C || x == 0x3B
            ||| x == 0x3D || x == 0x3A || x == 0x40
            ||| (x == 0x26 && kind != PctEncoded::Nss)
            ||| ((x == 0x3F || x == 0x2F) && kind == PctEncoded::FComponent)
        }) {
            seq![x]
        } else {
            seq![
                0x25u8,
                (if x / 16 < 10 {
                    0x30 + x / 16
                } else {
                    0x37 + x / 16
                }) as u8,
                (if x % 16 < 10 {
                    0x30 + x % 16
                } else {
                    0x37 + x % 16
                }) as u8,
            ]
        },
{
    let b = seq![x];
    assert(enc_prefix(b, 0, kind) == Seq::<u8>::empty());
    assert(enc_prefix(b, 1, kind) == enc_prefix(b, 0, kind) + enc_unit(b, 0, kind));
    assert(Seq::<u8>::empty() + enc_unit(b, 0, kind) =~= enc_unit(b, 0, kind));
}

proof fn lemma_decode_scan(b: Seq<u8>, s: Seq<u8>, i: int, kind: PctEncoded)
    requires
        0 <= i <= b.len(),
        s.len() == b.len(),
        forall|j: int| i <= j < b.len() ==> #[trigger] s[j] == b[j],
    ensures
        decode_from(b, i, kind) is Some <==> scan_component(s, 0, i, kind).0 == b.len(),
        (forall|j: int| i <= j < b.len() ==> #[trigger] b[j] != B_PERCENT) ==> (decode_from(
            b,
            i,
            kind,
        ) is Some ==> decode_from(b, i, kind) == Some(b.subrange(i, b.len() as int))),
    decreases b.len() - i,
{
    if i >= b.len() {
        assert(b.subrange(i, b.len() as int) =~= Seq::<u8>::empty());
    } else {
        assert(s[i] == b[i]);
        if i + 1 < b.len() {
            assert(s[i + 1] == b[i + 1]);
        }
        if i + 2 < b.len() {
            assert(s[i + 2] == b[i + 2]);
        }
        if single_ok(b, 0, i, kind) {
            assert(single_ok(s, 0, i, kind));
            lemma_decode_scan(b, s, i + 1, kind);
            assert(seq![b[i]] + b.subrange(i + 1, b.len() as int) =~= b.subrange(i, b.len() as int));
        } else if pct_triplet(b, i) {
            assert(!single_ok(s, 0, i, kind));
            assert(pct_triplet(s, i));
            let u = upper_range(s, i + 1, i + 3);
            lemma_decode_scan(b, u, i + 3, kind);
        } else {
            assert(!single_ok(s, 0, i, kind));
            assert(!pct_triplet(s, i));
        }
    }
}

/// The decoders accept exactly the components that the parser accepts: a
/// component decodes exactly when the scanner reads it to its end; and one
/// without `%` decodes to itself.
pub proof fn law_decode_accepts_components(b: Seq<u8>, kind: PctEncoded)
    ensures
        decode_bytes(b, kind) is Some <==> component_end(b, 0, kind) == b.len(),
        (forall|j: int| 0 <= j < b.len() ==> #[trigger] b[j] != 0x25) && component_end(b, 0, kind)
            == b.len() ==> decode_bytes(b, kind) == Some(b),
{
    lemma_decode_scan(b, b, 0, kind);
    assert(b.subrange(0, b.len() as int) =~= b);
}

proof fn lemma_decode_plain_from(b: Seq<u8>, i: int, kind: PctEncoded)
    requires
        0 <= i <= b.len(),
        forall|j: int| 0 <= j < b.len() ==> single_ok(b, 0, j, kind),
    ensures
        decode_from(b, i, kind) == Some(b.subrange(i, b.len() as int)),
    decreases b.len() - i,
{
    if i >= b.len() {
        assert(b.subrange(i, b.len() as int) =~= Seq::<u8>::empty());
    } else {
        lemma_decode_plain_from(b, i + 1, kind);
        assert(seq![b[i]] + b.subrange(i + 1, b.len() as int) =~= b.subrange(i, b.len() as int));
    }
}

/// Text made only of ASCII letters, digits and `-` `.` `_` `~` `!` `$` `&`
/// `'` `(` `)` `*` `+` `,` `;` `=` `:` `@`, with `/` anywhere but first (or
/// anywhere in an f-component), and `?` anywhere in an f-component, decodes
/// to itself, for every kind.
pub proof fn law_decode_plain(b: Seq<u8>, kind: PctEncoded)
    requires
        forall|i: int|
            0 <= i < b.len() ==> {
                let x = #[trigger] b[i];
                ||| 0x30 <= x <= 0x39
                ||| 0x41 <= x <= 0x5A
                ||| 0x61 <= x <= 0x7A
                ||| x == 0x2D || x == 0x2E || x == 0x5F || x == 0x7E || x == 0x21 || x == 0x24
                ||| x == 0x26 || x == 0x27 || x == 0x28 || x == 0x29 || x == 0x2A || x == 0x2B
                ||| x == 0x2C || x == 0x3B || x == 0x3D || x == 0x3A || x == 0x40
                ||| (x == 0x2F && (i > 0 || kind == PctEncoded::FComponent))
                ||| (x == 0x3F && kind == PctEncoded::FComponent)
            },
    ensures
        decode_bytes(b, kind) == Some(b),
{
    assert forall|j: int| 0 <= j < b.len() implies single_ok(b, 0, j, kind) by {
        let x = b[j];
        assert(x == b[j]);
    }
    lemma_decode_plain_from(b, 0, kind);
    assert(b.subrange(0, b.len() as int) =~= b);
}

/// `%` followed by two hex digits, of either case, decodes to the byte with
/// that value, in every kind.
pub proof fn law_decode_escape(h: u8, l: u8, kind: PctEncoded)
    requires
        0x30 <= h <= 0x39 || 0x41 <= h <= 0x46 || 0x61 <= h <= 0x66,
        0x30 <= l <= 0x39 || 0x41 <= l <= 0x46 || 0x61 <= l <= 0x66,
    ensures
        decode_bytes(seq![0x25u8, h, l], kind) == Some(
            seq![
                ((if h <= 0x39 {
                    h - 0x30
                } else if h <= 0x46 {
                    h - 0x37
                } else {
                    h - 0x57
                }) * 16 + (if l <= 0x39 {
                    l - 0x30
                } else if l <= 0x46 {
                    l - 0x37
                } else {
                    l - 0x57
                })) as u8,
            ],
        ),
{
    let b = seq![0x25u8, h, l];
    assert(!single_ok(b, 0, 0, kind));
    assert(pct_triplet(b, 0));
    assert(decode_from(b, 3, kind) == Some(Seq::<u8>::empty()));
    let v = (hex_value(h) * 16 + hex_value(l)) as u8;
    assert(seq![v] + Seq::<u8>::empty() =~= seq![v]);
}

} // verus!
