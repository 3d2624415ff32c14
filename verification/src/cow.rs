//! A byte buffer that is owned, shared-borrowed or mutably borrowed, and is
//! copied into an owned buffer only when a change requires it.
use crate::error::Result;
use crate::tables::{ascii_lower, ascii_upper, is_lower, is_upper, to_ascii_lower, to_ascii_upper};
use vstd::prelude::*;
use vstd::utf8::{is_char_boundary, is_continuation_byte, valid_utf8};

verus! {

/// URN text that is owned, borrowed, or mutably borrowed.
pub enum TriCow<'a> {
    Owned(Vec<u8>),
    Borrowed(&'a [u8]),
    MutBorrowed(&'a mut [u8]),
}

/// `s` with every byte in `start..end` mapped to its ASCII uppercase.
pub open spec fn upper_range(s: Seq<u8>, start: int, end: int) -> Seq<u8> {
    Seq::new(s.len(), |j: int| if start <= j < end { ascii_upper(s[j]) } else { s[j] })
}

/// `s` with every byte in `start..end` mapped to its ASCII lowercase.
pub open spec fn lower_range(s: Seq<u8>, start: int, end: int) -> Seq<u8> {
    Seq::new(s.len(), |j: int| if start <= j < end { ascii_lower(s[j]) } else { s[j] })
}

/// Whether some byte of `s` in `start..end` is an ASCII lowercase letter.
pub open spec fn has_lower_in(s: Seq<u8>, start: int, end: int) -> bool {
    exists|j: int| start <= j < end && is_lower(#[trigger] s[j])
}

/// Whether some byte of `s` in `start..end` is an ASCII uppercase letter.
pub open spec fn has_upper_in(s: Seq<u8>, start: int, end: int) -> bool {
    exists|j: int| start <= j < end && is_upper(#[trigger] s[j])
}

/// `s` with `start..end` replaced by `with`.
pub open spec fn replaced(s: Seq<u8>, start: int, end: int, with: Seq<u8>) -> Seq<u8> {
    s.subrange(0, start) + with + s.subrange(end, s.len() as int)
}

/// What a normalizing pass does to where the text is kept: an owned or
/// mutably borrowed buffer stays so, and a borrowed one stays as it was
/// (nothing copied) when no byte changed, else becomes owned.
pub open spec fn keeps_storage(before: TriCow, after: TriCow) -> bool {
    &&& before is Owned ==> after is Owned
    &&& before is MutBorrowed ==> after is MutBorrowed
    &&& before is Borrowed ==> (after == before || (after is Owned && after@ != before@))
}

/// Two passes that each keep the storage keep it together, when the bytes
/// that come out of both are the input's only if the first pass changed
/// nothing.
pub proof fn lemma_keeps_storage_chain(a: TriCow, b: TriCow, c: TriCow)
    requires
        keeps_storage(a, b),
        keeps_storage(b, c),
        c@ == a@ ==> b@ == a@,
    ensures
        keeps_storage(a, c),
{
}

/// Whether `start` and `end` fall on character boundaries of `s`, where `s`
/// is UTF-8 text.
pub open spec fn on_char_boundaries(s: Seq<u8>, start: int, end: int) -> bool {
    valid_utf8(s) ==> is_char_boundary(s, start) && is_char_boundary(s, end)
}

/// In UTF-8 text, an ASCII byte starts a character, and so does the byte
/// after it (or the text ends there).
pub proof fn lemma_ascii_char_boundaries(s: Seq<u8>, k: int)
    requires
        0 <= k < s.len(),
        s[k] < 0x80,
    ensures
        valid_utf8(s) ==> is_char_boundary(s, k) && is_char_boundary(s, k + 1),
{
    if valid_utf8(s) {
        let x = s[k];
        assert(!is_continuation_byte(x)) by (bit_vector)
            requires
                x < 0x80,
        ;
        vstd::utf8::is_char_boundary_iff_not_is_continuation_byte(s, k);
        vstd::utf8::valid_utf8_split(s, k);
        let t = s.subrange(k, s.len() as int);
        assert(t[0] == x);
        assert(vstd::utf8::length_of_first_scalar(t) == 1);
        let rest = vstd::utf8::pop_first_scalar(t);
        assert(valid_utf8(rest));
        assert(rest =~= s.subrange(k + 1, s.len() as int));
        if k + 1 < s.len() {
            vstd::utf8::is_char_boundary_iff_not_is_continuation_byte(rest, 0);
            assert(rest[0] == s[k + 1]);
            vstd::utf8::is_char_boundary_iff_not_is_continuation_byte(s, k + 1);
        } else {
            vstd::utf8::is_char_boundary_start_end_of_seq(s);
        }
    }
}

impl<'a> View for TriCow<'a> {
    type V = Seq<u8>;

    open spec fn view(&self) -> Seq<u8> {
        match self {
            TriCow::Owned(v) => v@,
            TriCow::Borrowed(s) => s@,
            TriCow::MutBorrowed(s) => s@,
        }
    }
}

/// Maps the bytes of `s` in `start..end` to ASCII uppercase.
fn upper_in_place(s: &mut [u8], start: usize, end: usize)
    requires
        start <= end <= old(s)@.len(),
    ensures
        final(s)@ == upper_range(old(s)@, start as int, end as int),
{
    let ghost orig = s@;
    let mut j = start;
    while j < end
        invariant
            start <= j <= end,
            end <= orig.len(),
            s@.len() == orig.len(),
            forall|k: int|
                0 <= k < orig.len() ==> #[trigger] s@[k] == (if start <= k < j {
                    ascii_upper(orig[k])
                } else {
                    orig[k]
                }),
        decreases end - j,
    {
        let b = to_ascii_upper(s[j]);
        s[j] = b;
        j += 1;
    }
    assert(s@ =~= upper_range(orig, start as int, end as int));
}

/// Maps the bytes of `s` in `start..end` to ASCII lowercase.
fn lower_in_place(s: &mut [u8], start: usize, end: usize)
    requires
        start <= end <= old(s)@.len(),
    ensures
        final(s)@ == lower_range(old(s)@, start as int, end as int),
{
    let ghost orig = s@;
    let mut j = start;
    while j < end
        invariant
            start <= j <= end,
            end <= orig.len(),
            s@.len() == orig.len(),
            forall|k: int|
                0 <= k < orig.len() ==> #[trigger] s@[k] == (if start <= k < j {
                    ascii_lower(orig[k])
                } else {
                    orig[k]
                }),
        decreases end - j,
    {
        let b = to_ascii_lower(s[j]);
        s[j] = b;
        j += 1;
    }
    assert(s@ =~= lower_range(orig, start as int, end as int));
}

/// Whether any byte of `bytes[start..end]` is an ASCII lowercase letter.
fn has_ascii_lower(bytes: &[u8], start: usize, end: usize) -> (r: bool)
    requires
        start <= end <= bytes@.len(),
    ensures
        r == has_lower_in(bytes@, start as int, end as int),
{
    let mut j = start;
    while j < end
        invariant
            start <= j <= end <= bytes@.len(),
            forall|k: int| start <= k < j ==> !is_lower(#[trigger] bytes@[k]),
        decreases end - j,
    {
        if 0x61 <= bytes[j] && bytes[j] <= 0x7A {
            return true;
        }
        j += 1;
    }
    false
}

/// Eight bytes packed into one word, byte `k` in bits `8k..8k+8`.
pub open spec fn pack8(b0: u8, b1: u8, b2: u8, b3: u8, b4: u8, b5: u8, b6: u8, b7: u8) -> u64 {
    (b0 as u64) | ((b1 as u64) << 8u64) | ((b2 as u64) << 16u64) | ((b3 as u64) << 24u64) | ((
    b4 as u64) << 32u64) | ((b5 as u64) << 40u64) | ((b6 as u64) << 48u64) | ((b7 as u64)
        << 56u64)
}

/// The word test of `has_ascii_upper`: for each byte, `b & 0x7F` is checked for
/// `0x41 <= _ <= 0x5A` by two carries, masked by the bytes whose top bit is clear.
pub open spec fn swar_upper(w: u64) -> bool {
    let low7 = w & 0x7F7F_7F7F_7F7F_7F7Fu64;
    let ge_a = ((low7 + 0x3F3F_3F3F_3F3F_3F3Fu64) as u64) & 0x8080_8080_8080_8080u64;
    let gt_z = ((low7 + 0x2525_2525_2525_2525u64) as u64) & 0x8080_8080_8080_8080u64;
    let in_range = ge_a ^ gt_z;
    let ascii = !w & 0x8080_8080_8080_8080u64;
    in_range & ascii != 0u64
}

proof fn lemma_swar_upper(b0: u8, b1: u8, b2: u8, b3: u8, b4: u8, b5: u8, b6: u8, b7: u8)
    by (bit_vector)
    ensures
        swar_upper(pack8(b0, b1, b2, b3, b4, b5, b6, b7)) == ((0x41u8 <= b0 && b0 <= 0x5Au8) || (
        0x41u8 <= b1 && b1 <= 0x5Au8) || (0x41u8 <= b2 && b2 <= 0x5Au8) || (0x41u8 <= b3 && b3
            <= 0x5Au8) || (0x41u8 <= b4 && b4 <= 0x5Au8) || (0x41u8 <= b5 && b5 <= 0x5Au8) || (
        0x41u8 <= b6 && b6 <= 0x5Au8) || (0x41u8 <= b7 && b7 <= 0x5Au8)),
{
}

/// Whether any byte of `bytes` is an ASCII uppercase letter. Eight bytes are
/// tested at a time with one word computation; the rest one by one.
pub fn has_ascii_upper(bytes: &[u8]) -> (r: bool)
    ensures
        r == has_upper_in(bytes@, 0, bytes@.len() as int),
{
    let n = bytes.len();
    let mut i: usize = 0;
    while n >= 8 && i <= n - 8
        invariant
            i <= n,
            n == bytes@.len(),
            forall|k: int| 0 <= k < i ==> !is_upper(#[trigger] bytes@[k]),
        decreases n - i,
    {
        let w: u64 = (bytes[i] as u64) | ((bytes[i + 1] as u64) << 8u64) | ((bytes[i + 2] as u64)
            << 16u64) | ((bytes[i + 3] as u64) << 24u64) | ((bytes[i + 4] as u64) << 32u64) | ((
        bytes[i + 5] as u64) << 40u64) | ((bytes[i + 6] as u64) << 48u64) | ((bytes[i + 7] as u64)
            << 56u64);
        let low7 = w & 0x7F7F_7F7F_7F7F_7F7Fu64;
        let ge_a = low7.wrapping_add(0x3F3F_3F3F_3F3F_3F3Fu64) & 0x8080_8080_8080_8080u64;
        let gt_z = low7.wrapping_add(0x2525_2525_2525_2525u64) & 0x8080_8080_8080_8080u64;
        let in_range = ge_a ^ gt_z;
        let ascii = !w & 0x8080_8080_8080_8080u64;
        proof {
            lemma_swar_upper(
                bytes@[i as int],
                bytes@[i + 1],
                bytes@[i + 2],
                bytes@[i + 3],
                bytes@[i + 4],
                bytes@[i + 5],
                bytes@[i + 6],
                bytes@[i + 7],
            );
            assert(w == pack8(
                bytes@[i as int],
                bytes@[i + 1],
                bytes@[i + 2],
                bytes@[i + 3],
                bytes@[i + 4],
                bytes@[i + 5],
                bytes@[i + 6],
                bytes@[i + 7],
            ));
            assert(low7 <= 0x7F7F_7F7F_7F7F_7F7Fu64) by (bit_vector)
                requires
                    low7 == w & 0x7F7F_7F7F_7F7F_7F7Fu64,
            ;
            let ghost s1 = (low7 + 0x3F3F_3F3F_3F3F_3F3Fu64) as u64;
            let ghost s2 = (low7 + 0x2525_2525_2525_2525u64) as u64;
            assert(ge_a == s1 & 0x8080_8080_8080_8080u64);
            assert(gt_z == s2 & 0x8080_8080_8080_8080u64);
            assert((in_range & ascii != 0u64) == swar_upper(w)) by (bit_vector)
                requires
                    low7 == w & 0x7F7F_7F7F_7F7F_7F7Fu64,
                    s1 == (low7 + 0x3F3F_3F3F_3F3F_3F3Fu64) as u64,
                    s2 == (low7 + 0x2525_2525_2525_2525u64) as u64,
                    ge_a == s1 & 0x8080_8080_8080_8080u64,
                    gt_z == s2 & 0x8080_8080_8080_8080u64,
                    in_range == ge_a ^ gt_z,
                    ascii == !w & 0x8080_8080_8080_8080u64,
            ;
        }
        if in_range & ascii != 0 {
            assert(is_upper(bytes@[i as int]) || is_upper(bytes@[i + 1]) || is_upper(bytes@[i + 2])
                || is_upper(bytes@[i + 3]) || is_upper(bytes@[i + 4]) || is_upper(bytes@[i + 5])
                || is_upper(bytes@[i + 6]) || is_upper(bytes@[i + 7]));
            return true;
        }
        assert forall|k: int| 0 <= k < i + 8 implies !is_upper(#[trigger] bytes@[k]) by {
            if k >= i {
                assert(k == i || k == i + 1 || k == i + 2 || k == i + 3 || k == i + 4 || k == i + 5
                    || k == i + 6 || k == i + 7);
            }
        }
        i += 8;
    }
    while i < n
        invariant
            i <= n,
            n == bytes@.len(),
            forall|k: int| 0 <= k < i ==> !is_upper(#[trigger] bytes@[k]),
        decreases n - i,
    {
        if 0x41 <= bytes[i] && bytes[i] <= 0x5A {
            return true;
        }
        i += 1;
    }
    false
}

impl<'a> TriCow<'a> {
    /// The number of bytes.
    pub fn len(&self) -> (r: usize)
        ensures
            r == self@.len(),
    {
        match self {
            TriCow::Owned(v) => v.len(),
            TriCow::Borrowed(s) => s.len(),
            TriCow::MutBorrowed(s) => s.len(),
        }
    }

    /// The bytes, whatever the variant.
    pub fn as_bytes(&self) -> (r: &[u8])
        ensures
            r@ == self@,
    {
        match self {
            TriCow::Owned(v) => v.as_slice(),
            TriCow::Borrowed(s) => s,
            TriCow::MutBorrowed(s) => s,
        }
    }

    /// Promotes `Borrowed` to `Owned`; no-op for `Owned` and `MutBorrowed`.
    pub fn ensure_owned(&mut self) -> (r: Result<()>)
        ensures
            r is Ok,
            final(self)@ == old(self)@,
            *old(self) is Borrowed ==> *final(self) is Owned,
            !(*old(self) is Borrowed) ==> *final(self) == *old(self),
    {
        if let TriCow::Borrowed(s) = self {
            let v = vstd::slice::slice_to_vec(s);
            *self = TriCow::Owned(v);
        }
        Ok(())
    }

    /// Replaces the bytes in `range` by `with`. A `MutBorrowed` buffer is
    /// changed in place when `with` has the range's length; in any other case
    /// the result is `Owned`.
    /// Where the bytes are UTF-8 text, both ends of `range` lie on character
    /// boundaries.
    pub fn replace_range(&mut self, range: core::ops::Range<usize>, with: &[u8]) -> (r: Result<()>)
        requires
            range.start <= range.end <= old(self)@.len(),
            on_char_boundaries(old(self)@, range.start as int, range.end as int),
        ensures
            r is Ok,
            final(self)@ == replaced(old(self)@, range.start as int, range.end as int, with@),
            *old(self) is MutBorrowed && with@.len() == range.end - range.start ==> *final(self) is MutBorrowed,
            !(*old(self) is MutBorrowed && with@.len() == range.end - range.start) ==> *final(self) is Owned,
    {
        let start = range.start;
        let end = range.end;
        if let TriCow::MutBorrowed(s) = self {
            if end - start == with.len() {
                let ghost orig = s@;
                let mut j: usize = 0;
                while j < with.len()
                    invariant
                        start + with@.len() == end,
                        end <= orig.len(),
                        j <= with@.len(),
                        s@.len() == orig.len(),
                        forall|k: int|
                            0 <= k < orig.len() ==> #[trigger] s@[k] == (if start <= k < start + j {
                                with@[k - start]
                            } else {
                                orig[k]
                            }),
                    decreases with@.len() - j,
                {
                    s[start + j] = with[j];
                    j += 1;
                }
                assert(s@ =~= replaced(orig, start as int, end as int, with@));
                return Ok(());
            }
        }
        let bytes = self.as_bytes();
        let n = bytes.len();
        let mut out: Vec<u8> = Vec::new();
        let mut j: usize = 0;
        while j < start
            invariant
                j <= start <= end <= n,
                n == bytes@.len(),
                out@ == bytes@.subrange(0, j as int),
            decreases start - j,
        {
            out.push(bytes[j]);
            j += 1;
            assert(out@ =~= bytes@.subrange(0, j as int));
        }
        let mut k: usize = 0;
        while k < with.len()
            invariant
                k <= with@.len(),
                out@ == bytes@.subrange(0, start as int) + with@.subrange(0, k as int),
            decreases with@.len() - k,
        {
            out.push(with[k]);
            k += 1;
            assert(out@ =~= bytes@.subrange(0, start as int) + with@.subrange(0, k as int));
        }
        assert(with@.subrange(0, with@.len() as int) =~= with@);
        let mut j: usize = end;
        while j < n
            invariant
                end <= j <= n,
                n == bytes@.len(),
                out@ == bytes@.subrange(0, start as int) + with@ + bytes@.subrange(
                    end as int,
                    j as int,
                ),
            decreases n - j,
        {
            out.push(bytes[j]);
            j += 1;
            assert(out@ =~= bytes@.subrange(0, start as int) + with@ + bytes@.subrange(
                end as int,
                j as int,
            ));
        }
        *self = TriCow::Owned(out);
        Ok(())
    }

    /// The bytes, mutably. A `Borrowed` buffer is first copied into an owned
    /// one.
    fn to_mut(&mut self) -> (r: &mut [u8])
        ensures
            r@ == old(self)@,
            final(self)@ == final(r)@,
            *old(self) is MutBorrowed ==> *final(self) is MutBorrowed,
            !(*old(self) is MutBorrowed) ==> *final(self) is Owned,
    {
        if let TriCow::Borrowed(s) = self {
            let v = vstd::slice::slice_to_vec(s);
            *self = TriCow::Owned(v);
        }
        match self {
            TriCow::Owned(v) => v.as_mut_slice(),
            TriCow::MutBorrowed(s) => s,
            TriCow::Borrowed(_) => vstd::pervasive::unreached(),
        }
    }

    /// Uppercases the ASCII letters in `range`. A `Borrowed` buffer is copied
    /// into an owned one only when the range holds a lowercase letter.
    /// Where the bytes are UTF-8 text, both ends of `range` lie on character
    /// boundaries.
    pub fn make_uppercase(&mut self, range: core::ops::Range<usize>) -> (r: Result<()>)
        requires
            range.start <= range.end <= old(self)@.len(),
            on_char_boundaries(old(self)@, range.start as int, range.end as int),
        ensures
            r is Ok,
            final(self)@ == upper_range(old(self)@, range.start as int, range.end as int),
            *old(self) is Owned ==> *final(self) is Owned,
            *old(self) is MutBorrowed ==> *final(self) is MutBorrowed,
            *old(self) is Borrowed && has_lower_in(old(self)@, range.start as int, range.end as int)
                ==> *final(self) is Owned,
            *old(self) is Borrowed && !has_lower_in(
                old(self)@,
                range.start as int,
                range.end as int,
            ) ==> *final(self) == *old(self),
            keeps_storage(*old(self), *final(self)),
    {
        let start = range.start;
        let end = range.end;
        match self {
            TriCow::Owned(v) => {
                upper_in_place(v.as_mut_slice(), start, end);
            },
            TriCow::MutBorrowed(s) => {
                upper_in_place(s, start, end);
            },
            TriCow::Borrowed(s) => {
                if has_ascii_lower(s, start, end) {
                    upper_in_place(self.to_mut(), start, end);
                } else {
                    assert(s@ =~= upper_range(s@, start as int, end as int));
                }
            },
        }
        Ok(())
    }

    /// Lowercases the ASCII letters in `range`. A `Borrowed` buffer is copied
    /// into an owned one only when the range holds an uppercase letter.
    /// Where the bytes are UTF-8 text, both ends of `range` lie on character
    /// boundaries.
    pub fn make_lowercase(&mut self, range: core::ops::Range<usize>) -> (r: Result<()>)
        requires
            range.start <= range.end <= old(self)@.len(),
            on_char_boundaries(old(self)@, range.start as int, range.end as int),
        ensures
            r is Ok,
            final(self)@ == lower_range(old(self)@, range.start as int, range.end as int),
            *old(self) is Owned ==> *final(self) is Owned,
            *old(self) is MutBorrowed ==> *final(self) is MutBorrowed,
            *old(self) is Borrowed && has_upper_in(old(self)@, range.start as int, range.end as int)
                ==> *final(self) is Owned,
            *old(self) is Borrowed && !has_upper_in(
                old(self)@,
                range.start as int,
                range.end as int,
            ) ==> *final(self) == *old(self),
            keeps_storage(*old(self), *final(self)),
    {
        let start = range.start;
        let end = range.end;
        match self {
            TriCow::Owned(v) => {
                lower_in_place(v.as_mut_slice(), start, end);
            },
            TriCow::MutBorrowed(s) => {
                lower_in_place(s, start, end);
            },
            TriCow::Borrowed(s) => {
                let part = vstd::slice::slice_subrange(s, start, end);
                if has_ascii_upper(part) {
                    proof {
                        let k = choose|k: int| 0 <= k < part@.len() && is_upper(#[trigger] part@[k]);
                        assert(s@[start + k] == part@[k]);
                    }
                    lower_in_place(self.to_mut(), start, end);
                } else {
                    assert(s@ =~= lower_range(s@, start as int, end as int)) by {
                        assert forall|j: int| start <= j < end implies !is_upper(s@[j]) by {
                            assert(part@[j - start] == s@[j]);
                        }
                    }
                }
            },
        }
        Ok(())
    }
}

} // verus!
