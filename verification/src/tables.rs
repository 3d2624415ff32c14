//! Byte classes used by the parse, encode and decode paths.
//!
//! Each byte value belongs to a set of character classes. The classes are given
//! here as spec predicates, as executable tests, and as the bit-mask table that
//! `build_byte_class` produces (one mask per byte value).
use vstd::prelude::*;

verus! {

/// pchar set accepted by the component parser in every kind.
pub const PLAIN_PARSE: u8 = 1u8;

/// Encoder "no percent-encode" set for r/q/f components.
pub const PLAIN_ENC_RQF: u8 = 2u8;

/// Encoder "no percent-encode" set for the NSS (the r/q/f set without `&`).
pub const PLAIN_ENC_NSS: u8 = 4u8;

/// ASCII hex digit.
pub const HEX: u8 = 8u8;

/// NID byte: alphanumeric or `-`.
pub const NID: u8 = 16u8;

pub const B_PERCENT: u8 = 0x25u8;
pub const B_QUESTION: u8 = 0x3Fu8;
pub const B_SLASH: u8 = 0x2Fu8;
pub const B_EQUALS: u8 = 0x3Du8;
pub const B_PLUS: u8 = 0x2Bu8;
pub const B_HASH: u8 = 0x23u8;
pub const B_COLON: u8 = 0x3Au8;
pub const B_HYPHEN: u8 = 0x2Du8;
pub const B_TILDE: u8 = 0x7Eu8;
pub const B_AMP: u8 = 0x26u8;

pub open spec fn is_digit(b: u8) -> bool {
    0x30 <= b <= 0x39
}

pub open spec fn is_upper(b: u8) -> bool {
    0x41 <= b <= 0x5A
}

pub open spec fn is_lower(b: u8) -> bool {
    0x61 <= b <= 0x7A
}

pub open spec fn is_alnum(b: u8) -> bool {
    is_digit(b) || is_upper(b) || is_lower(b)
}

pub open spec fn is_hex_digit(b: u8) -> bool {
    is_digit(b) || (0x41 <= b <= 0x46) || (0x61 <= b <= 0x66)
}

/// Bytes that the r/q/f encoder leaves as they are: alphanumeric and
/// `- . _ ! $ & ' ( ) * + , ; = : @`.
pub open spec fn is_enc_rqf_plain(b: u8) -> bool {
    ||| is_alnum(b)
    ||| b == 0x2D || b == 0x2E || b == 0x5F || b == 0x21 || b == 0x24
    ||| b == 0x26 || b == 0x27 || b == 0x28 || b == 0x29 || b == 0x2A
    ||| b == 0x2B || b == 0x2C || b == 0x3B || b == 0x3D || b == 0x3A
    ||| b == 0x40
}

/// Bytes that the NSS encoder leaves as they are: the r/q/f set without `&`.
pub open spec fn is_enc_nss_plain(b: u8) -> bool {
    is_enc_rqf_plain(b) && b != 0x26
}

/// Bytes that every component parser accepts as they are: the r/q/f encoder
/// set plus `~`.
pub open spec fn is_parse_plain(b: u8) -> bool {
    is_enc_rqf_plain(b) || b == 0x7E
}

pub open spec fn is_nid_byte(b: u8) -> bool {
    is_alnum(b) || b == 0x2D
}

/// Numeric value of a hex digit, `0xFF` for any other byte.
pub open spec fn hex_value(b: u8) -> u8 {
    if is_digit(b) {
        (b - 0x30) as u8
    } else if 0x41 <= b <= 0x46 {
        (b - 0x41 + 10) as u8
    } else if 0x61 <= b <= 0x66 {
        (b - 0x61 + 10) as u8
    } else {
        0xFFu8
    }
}

/// The class mask of a byte: one bit per class it belongs to.
pub open spec fn byte_class(b: u8) -> u8 {
    (if is_parse_plain(b) { PLAIN_PARSE } else { 0u8 }) | (if is_enc_rqf_plain(b) {
        PLAIN_ENC_RQF
    } else {
        0u8
    }) | (if is_enc_nss_plain(b) { PLAIN_ENC_NSS } else { 0u8 }) | (if is_hex_digit(b) {
        HEX
    } else {
        0u8
    }) | (if is_nid_byte(b) { NID } else { 0u8 })
}

pub open spec fn ascii_upper(b: u8) -> u8 {
    if is_lower(b) {
        (b - 0x20) as u8
    } else {
        b
    }
}

pub open spec fn ascii_lower(b: u8) -> u8 {
    if is_upper(b) {
        (b + 0x20) as u8
    } else {
        b
    }
}

/// `b` with each ASCII letter lowercased.
pub open spec fn lower_all(b: Seq<u8>) -> Seq<u8> {
    b.map_values(|x: u8| ascii_lower(x))
}

/// Each bit of a class mask tells membership of the matching class.
pub proof fn lemma_byte_class_bits(b: u8)
    ensures
        (byte_class(b) & PLAIN_PARSE != 0) == is_parse_plain(b),
        (byte_class(b) & PLAIN_ENC_RQF != 0) == is_enc_rqf_plain(b),
        (byte_class(b) & PLAIN_ENC_NSS != 0) == is_enc_nss_plain(b),
        (byte_class(b) & HEX != 0) == is_hex_digit(b),
        (byte_class(b) & NID != 0) == is_nid_byte(b),
{
    let p0 = is_parse_plain(b);
    let p1 = is_enc_rqf_plain(b);
    let p2 = is_enc_nss_plain(b);
    let p3 = is_hex_digit(b);
    let p4 = is_nid_byte(b);
    let c = byte_class(b);
    assert(c == ((if p0 { 1u8 } else { 0u8 }) | (if p1 { 2u8 } else { 0u8 }) | (if p2 {
        4u8
    } else {
        0u8
    }) | (if p3 { 8u8 } else { 0u8 }) | (if p4 { 16u8 } else { 0u8 })));
    assert(((c & 1u8) != 0) == p0 && ((c & 2u8) != 0) == p1 && ((c & 4u8) != 0) == p2 && ((c
        & 8u8) != 0) == p3 && ((c & 16u8) != 0) == p4) by (bit_vector)
        requires
            c == ((if p0 { 1u8 } else { 0u8 }) | (if p1 { 2u8 } else { 0u8 }) | (if p2 {
                4u8
            } else {
                0u8
            }) | (if p3 { 8u8 } else { 0u8 }) | (if p4 { 16u8 } else { 0u8 })),
    ;
}

pub fn is_parse_plain_byte(b: u8) -> (r: bool)
    ensures
        r == is_parse_plain(b),
{
    is_enc_rqf_plain_byte(b) || b == B_TILDE
}

pub fn is_enc_rqf_plain_byte(b: u8) -> (r: bool)
    ensures
        r == is_enc_rqf_plain(b),
{
    is_alnum_byte(b) || b == 0x2D || b == 0x2E || b == 0x5F || b == 0x21 || b == 0x24 || b
        == 0x26 || b == 0x27 || b == 0x28 || b == 0x29 || b == 0x2A || b == 0x2B || b == 0x2C
        || b == 0x3B || b == 0x3D || b == 0x3A || b == 0x40
}

pub fn is_enc_nss_plain_byte(b: u8) -> (r: bool)
    ensures
        r == is_enc_nss_plain(b),
{
    is_enc_rqf_plain_byte(b) && b != B_AMP
}

pub fn is_alnum_byte(b: u8) -> (r: bool)
    ensures
        r == is_alnum(b),
{
    (0x30 <= b && b <= 0x39) || (0x41 <= b && b <= 0x5A) || (0x61 <= b && b <= 0x7A)
}

pub fn is_hex_digit_byte(b: u8) -> (r: bool)
    ensures
        r == is_hex_digit(b),
{
    (0x30 <= b && b <= 0x39) || (0x41 <= b && b <= 0x46) || (0x61 <= b && b <= 0x66)
}

pub fn is_nid_byte_exec(b: u8) -> (r: bool)
    ensures
        r == is_nid_byte(b),
{
    is_alnum_byte(b) || b == B_HYPHEN
}

pub fn hex_value_byte(b: u8) -> (r: u8)
    ensures
        r == hex_value(b),
{
    if 0x30 <= b && b <= 0x39 {
        b - 0x30
    } else if 0x41 <= b && b <= 0x46 {
        b - 0x41 + 10
    } else if 0x61 <= b && b <= 0x66 {
        b - 0x61 + 10
    } else {
        0xFF
    }
}

pub fn to_ascii_upper(b: u8) -> (r: u8)
    ensures
        r == ascii_upper(b),
{
    if 0x61 <= b && b <= 0x7A {
        b - 0x20
    } else {
        b
    }
}

pub fn to_ascii_lower(b: u8) -> (r: u8)
    ensures
        r == ascii_lower(b),
{
    if 0x41 <= b && b <= 0x5A {
        b + 0x20
    } else {
        b
    }
}

/// The class mask of one byte value.
pub fn class_of(b: u8) -> (m: u8)
    ensures
        m == byte_class(b),
{
    let pp = is_parse_plain_byte(b);
    let rqf = is_enc_rqf_plain_byte(b);
    let nss = is_enc_nss_plain_byte(b);
    let hex = is_hex_digit_byte(b);
    let nid = is_nid_byte_exec(b);
    (if pp { PLAIN_PARSE } else { 0u8 }) | (if rqf { PLAIN_ENC_RQF } else { 0u8 }) | (if nss {
        PLAIN_ENC_NSS
    } else {
        0u8
    }) | (if hex { HEX } else { 0u8 }) | (if nid { NID } else { 0u8 })
}

/// The class table: entry `b` is the class mask of byte `b`.
pub fn build_byte_class() -> (t: [u8; 256])
    ensures
        forall|i: int| 0 <= i < 256 ==> #[trigger] t[i] == byte_class(i as u8),
{
    let mut t = [0u8; 256];
    let mut i: usize = 0;
    while i < 256
        invariant
            i <= 256,
            forall|j: int| 0 <= j < i ==> #[trigger] t[j] == byte_class(j as u8),
        decreases 256 - i,
    {
        let m = class_of(i as u8);
        t[i] = m;
        i += 1;
    }
    t
}

/// The hex value table: entry `b` is the value of hex digit `b`, `0xFF` for
/// any other byte.
pub fn build_hex_val() -> (t: [u8; 256])
    ensures
        forall|i: int| 0 <= i < 256 ==> #[trigger] t[i] == hex_value(i as u8),
{
    let mut t = [0xFFu8; 256];
    let mut i: usize = 0;
    while i < 256
        invariant
            i <= 256,
            forall|j: int| 0 <= j < i ==> #[trigger] t[j] == hex_value(j as u8),
        decreases 256 - i,
    {
        let v = hex_value_byte(i as u8);
        t[i] = v;
        i += 1;
    }
    t
}

} // verus!
