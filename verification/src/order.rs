//! The order of URNs: by NID, then by NSS, byte by byte. It agrees with URN
//! equivalence: the r-, q- and f-components do not count.
use crate::syntax::UrnView;
use crate::urn::{Urn, UrnSlice};
use core::cmp::Ordering;
use vstd::prelude::*;

verus! {

/// The byte-by-byte order of `a` and `b` from index `i` on: -1, 0 or 1.
pub open spec fn lex_from(a: Seq<u8>, b: Seq<u8>, i: int) -> int
    decreases a.len() - i,
{
    if i < 0 || i >= a.len() {
        if i >= b.len() {
            0
        } else {
            -1
        }
    } else if i >= b.len() {
        1
    } else if a[i] < b[i] {
        -1
    } else if a[i] > b[i] {
        1
    } else {
        lex_from(a, b, i + 1)
    }
}

/// The byte-by-byte (lexicographic) order of `a` and `b`: -1, 0 or 1.
pub open spec fn lex_order(a: Seq<u8>, b: Seq<u8>) -> int {
    lex_from(a, b, 0)
}

/// The order of two URNs: by NID, then by NSS; -1, 0 or 1.
pub open spec fn urn_order(a: UrnView, b: UrnView) -> int {
    let n = lex_order(a.nid(), b.nid());
    if n != 0 {
        n
    } else {
        lex_order(a.nss(), b.nss())
    }
}

/// The `Ordering` that -1, 0 or 1 stands for.
pub open spec fn ordering_of(c: int) -> Ordering {
    if c < 0 {
        Ordering::Less
    } else if c == 0 {
        Ordering::Equal
    } else {
        Ordering::Greater
    }
}

/// Compares `a` and `b` byte by byte.
fn compare_bytes(a: &[u8], b: &[u8]) -> (r: i8)
    ensures
        r == lex_order(a@, b@),
{
    let mut i: usize = 0;
    while i < a.len() && i < b.len()
        invariant
            i <= a@.len(),
            i <= b@.len(),
            lex_from(a@, b@, 0) == lex_from(a@, b@, i as int),
        decreases a@.len() - i,
    {
        if a[i] < b[i] {
            return -1;
        }
        if a[i] > b[i] {
            return 1;
        }
        i += 1;
    }
    if i < a.len() {
        1
    } else if i < b.len() {
        -1
    } else {
        0
    }
}

/// The order of two URNs by their NID and NSS.
fn compare_urns(a: &UrnSlice, b: &UrnSlice) -> (r: i8)
    ensures
        r == urn_order(a@, b@),
{
    let n = compare_bytes(a.nid_bytes(), b.nid_bytes());
    if n != 0 {
        n
    } else {
        compare_bytes(a.nss_bytes(), b.nss_bytes())
    }
}

proof fn lemma_lex_eq(a: Seq<u8>, b: Seq<u8>, i: int)
    requires
        0 <= i <= a.len(),
        i <= b.len(),
    ensures
        lex_from(a, b, i) == 0 <==> (a.len() == b.len() && forall|k: int|
            i <= k < a.len() ==> #[trigger] a[k] == b[k]),
        -1 <= lex_from(a, b, i) <= 1,
    decreases a.len() - i,
{
    if i < a.len() && i < b.len() {
        lemma_lex_eq(a, b, i + 1);
    }
}

proof fn lemma_lex_flip(a: Seq<u8>, b: Seq<u8>, i: int)
    requires
        0 <= i,
    ensures
        lex_from(a, b, i) == -lex_from(b, a, i),
    decreases a.len() - i,
{
    if i < a.len() && i < b.len() && a[i] == b[i] {
        lemma_lex_flip(a, b, i + 1);
    }
}

proof fn lemma_lex_trans(a: Seq<u8>, b: Seq<u8>, c: Seq<u8>, i: int)
    requires
        0 <= i,
        lex_from(a, b, i) <= 0,
        lex_from(b, c, i) <= 0,
    ensures
        lex_from(a, c, i) <= 0,
    decreases a.len() - i,
{
    if i < a.len() && i < b.len() && i < c.len() && a[i] == b[i] && b[i] == c[i] {
        lemma_lex_trans(a, b, c, i + 1);
    }
}

/// The order of byte strings is a total order: it is 0 exactly on equal
/// strings, flips when the sides are swapped, and is transitive.
pub proof fn law_lex_order(a: Seq<u8>, b: Seq<u8>, c: Seq<u8>)
    ensures
        lex_order(a, b) == 0 <==> a == b,
        lex_order(a, b) == -lex_order(b, a),
        lex_order(a, b) <= 0 && lex_order(b, c) <= 0 ==> lex_order(a, c) <= 0,
        -1 <= lex_order(a, b) <= 1,
{
    lemma_lex_eq(a, b, 0);
    lemma_lex_flip(a, b, 0);
    if lex_order(a, b) <= 0 && lex_order(b, c) <= 0 {
        lemma_lex_trans(a, b, c, 0);
    }
    if lex_order(a, b) == 0 {
        assert(a =~= b);
    }
}

proof fn lemma_lex_common_prefix(a: Seq<u8>, b: Seq<u8>, k: int, i: int)
    requires
        0 <= k <= i <= a.len(),
        i <= b.len(),
        forall|j: int| 0 <= j < i ==> #[trigger] a[j] == b[j],
    ensures
        lex_from(a, b, k) == lex_from(a, b, i),
    decreases i - k,
{
    if k < i {
        lemma_lex_common_prefix(a, b, k + 1, i);
    }
}

/// Byte strings are ordered as in a dictionary: at the first index where
/// they differ, the string with the smaller byte comes first whatever the
/// lengths, and a proper prefix comes before the longer string.
pub proof fn law_lex_first_difference(a: Seq<u8>, b: Seq<u8>, i: int)
    requires
        0 <= i <= a.len(),
        i <= b.len(),
        forall|j: int| 0 <= j < i ==> #[trigger] a[j] == b[j],
    ensures
        i < a.len() && i < b.len() && a[i] < b[i] ==> lex_order(a, b) == -1,
        i < a.len() && i < b.len() && a[i] > b[i] ==> lex_order(a, b) == 1,
        i == a.len() && i < b.len() ==> lex_order(a, b) == -1,
        i < a.len() && i == b.len() ==> lex_order(a, b) == 1,
        i == a.len() && i == b.len() ==> lex_order(a, b) == 0,
{
    lemma_lex_common_prefix(a, b, 0, i);
}

/// URNs are ordered by NID first: where the NIDs first differ at a byte,
/// the URN with the smaller byte comes first whatever the rest; a NID that
/// is a proper prefix of the other comes first.
pub proof fn law_urn_order_by_nid(a: UrnView, b: UrnView, i: int)
    requires
        0 <= i <= a.nid().len(),
        i <= b.nid().len(),
        forall|j: int| 0 <= j < i ==> #[trigger] a.nid()[j] == b.nid()[j],
        (i < a.nid().len() && i < b.nid().len() && a.nid()[i] < b.nid()[i]) || (i == a.nid().len()
            && i < b.nid().len()),
    ensures
        urn_order(a, b) == -1,
{
    law_lex_first_difference(a.nid(), b.nid(), i);
}

/// URNs with the same NID are ordered by NSS, as in a dictionary.
pub proof fn law_urn_order_by_nss(a: UrnView, b: UrnView, i: int)
    requires
        a.nid() == b.nid(),
        0 <= i <= a.nss().len(),
        i <= b.nss().len(),
        forall|j: int| 0 <= j < i ==> #[trigger] a.nss()[j] == b.nss()[j],
        (i < a.nss().len() && i < b.nss().len() && a.nss()[i] < b.nss()[i]) || (i == a.nss().len()
            && i < b.nss().len()),
    ensures
        urn_order(a, b) == -1,
{
    law_lex_order(a.nid(), b.nid(), b.nid());
    law_lex_first_difference(a.nss(), b.nss(), i);
}

/// The order of URNs agrees with their equivalence, flips when the sides are
/// swapped, and is transitive.
pub proof fn law_urn_order(a: UrnView, b: UrnView, c: UrnView)
    ensures
        urn_order(a, b) == 0 <==> a.equivalent(b),
        urn_order(a, b) == -urn_order(b, a),
        urn_order(a, b) <= 0 && urn_order(b, c) <= 0 ==> urn_order(a, c) <= 0,
{
    law_lex_order(a.nid(), b.nid(), c.nid());
    law_lex_order(b.nid(), c.nid(), a.nid());
    law_lex_order(a.nid(), c.nid(), b.nid());
    law_lex_order(a.nss(), b.nss(), c.nss());
    law_lex_order(b.nss(), c.nss(), a.nss());
    law_lex_order(a.nss(), c.nss(), b.nss());
    if lex_order(a.nid(), b.nid()) == 0 && lex_order(b.nid(), c.nid()) == 0 {
        law_lex_order(a.nid(), c.nid(), c.nid());
    }
}

impl<'a> PartialOrd for UrnSlice<'a> {
    fn partial_cmp(&self, other: &Self) -> (r: Option<Ordering>) {
        let c = compare_urns(self, other);
        if c < 0 {
            Some(Ordering::Less)
        } else if c == 0 {
            Some(Ordering::Equal)
        } else {
            Some(Ordering::Greater)
        }
    }
}

impl<'a> vstd::std_specs::cmp::PartialOrdSpecImpl for UrnSlice<'a> {
    open spec fn obeys_partial_cmp_spec() -> bool {
        true
    }

    open spec fn partial_cmp_spec(&self, other: &UrnSlice<'a>) -> Option<Ordering> {
        Some(ordering_of(urn_order(self@, other@)))
    }
}

impl PartialOrd for Urn {
    fn partial_cmp(&self, other: &Self) -> (r: Option<Ordering>) {
        let c = compare_urns(self.as_slice(), other.as_slice());
        if c < 0 {
            Some(Ordering::Less)
        } else if c == 0 {
            Some(Ordering::Equal)
        } else {
            Some(Ordering::Greater)
        }
    }
}

impl vstd::std_specs::cmp::PartialOrdSpecImpl for Urn {
    open spec fn obeys_partial_cmp_spec() -> bool {
        true
    }

    open spec fn partial_cmp_spec(&self, other: &Urn) -> Option<Ordering> {
        Some(ordering_of(urn_order(self@, other@)))
    }
}

} // verus!
