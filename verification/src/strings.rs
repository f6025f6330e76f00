//! Ordering and equality helpers for strings.
//!
//! The store lists its entries in ascending key order. The order used is the
//! one `str` carries in std: lexicographic comparison of the UTF-8 bytes.
//! This module defines that order as a spec function, brings the comparison
//! into verified code through one trusted wrapper, and proves the order
//! properties (totality, antisymmetry, transitivity) that sorted-container
//! reasoning needs.

use vstd::prelude::*;

verus! {

use vstd::utf8::{encode_utf8, encode_utf8_decode_utf8};

/// UTF-8 byte sequence of a character sequence; the bytes `str` and
/// `String` values carry at runtime.
pub open spec fn utf8_bytes(s: Seq<char>) -> Seq<u8> {
    encode_utf8(s)
}

/// Lexicographic "less or equal" over byte sequences; the empty sequence is
/// least, otherwise the first differing byte decides.
pub open spec fn lex_le(a: Seq<u8>, b: Seq<u8>) -> bool
    decreases a.len(),
{
    if a.len() == 0 {
        true
    } else if b.len() == 0 {
        false
    } else if a[0] < b[0] {
        true
    } else if a[0] > b[0] {
        false
    } else {
        lex_le(a.drop_first(), b.drop_first())
    }
}

/// Strict lexicographic order over byte sequences.
pub open spec fn lex_lt(a: Seq<u8>, b: Seq<u8>) -> bool {
    lex_le(a, b) && a != b
}

/// Relies on `str`'s `PartialOrd`: `<=` on string slices compares the
/// UTF-8 bytes lexicographically.
#[verifier::external_body]
pub(crate) fn str_le(a: &str, b: &str) -> (r: bool)
    ensures
        r == lex_le(utf8_bytes(a@), utf8_bytes(b@)),
{
    a <= b
}

pub proof fn lemma_lex_le_total(a: Seq<u8>, b: Seq<u8>)
    ensures
        lex_le(a, b) || lex_le(b, a),
    decreases a.len(),
{
    if a.len() != 0 && b.len() != 0 && a[0] == b[0] {
        lemma_lex_le_total(a.drop_first(), b.drop_first());
    }
}

pub proof fn lemma_lex_le_antisymmetric(a: Seq<u8>, b: Seq<u8>)
    requires
        lex_le(a, b),
        lex_le(b, a),
    ensures
        a == b,
    decreases a.len(),
{
    if a.len() == 0 {
        assert(b.len() == 0);
        assert(a =~= b);
    } else {
        lemma_lex_le_antisymmetric(a.drop_first(), b.drop_first());
        assert(a =~= seq![a[0]] + a.drop_first());
        assert(b =~= seq![b[0]] + b.drop_first());
    }
}

pub proof fn lemma_lex_le_transitive(a: Seq<u8>, b: Seq<u8>, c: Seq<u8>)
    requires
        lex_le(a, b),
        lex_le(b, c),
    ensures
        lex_le(a, c),
    decreases a.len(),
{
    if a.len() != 0 && b.len() != 0 && c.len() != 0 && a[0] == b[0] && b[0] == c[0] {
        lemma_lex_le_transitive(a.drop_first(), b.drop_first(), c.drop_first());
    }
}

/// UTF-8 encoding is injective: equal byte sequences come from equal
/// character sequences.
pub proof fn lemma_utf8_bytes_injective(a: Seq<char>, b: Seq<char>)
    requires
        utf8_bytes(a) == utf8_bytes(b),
    ensures
        a == b,
{
    encode_utf8_decode_utf8(a);
    encode_utf8_decode_utf8(b);
}

pub proof fn lemma_lex_le_reflexive(a: Seq<u8>)
    ensures
        lex_le(a, a),
{
    lemma_lex_le_total(a, a);
}

/// A strict link followed by a weak link is strict.
pub proof fn lemma_lex_lt_le_trans(a: Seq<u8>, b: Seq<u8>, c: Seq<u8>)
    requires
        lex_lt(a, b),
        lex_le(b, c),
    ensures
        lex_lt(a, c),
{
    lemma_lex_le_transitive(a, b, c);
    if a == c {
        lemma_lex_le_antisymmetric(a, b);
    }
}

/// Character-wise equality of two string slices, decided by comparing both
/// ways in the byte order.
pub fn str_eq_chars(a: &str, b: &str) -> (r: bool)
    ensures
        r == (a@ == b@),
{
    let le_ab = str_le(a, b);
    let le_ba = str_le(b, a);
    proof {
        if le_ab && le_ba {
            lemma_lex_le_antisymmetric(utf8_bytes(a@), utf8_bytes(b@));
            lemma_utf8_bytes_injective(a@, b@);
        } else if a@ == b@ {
            lemma_lex_le_reflexive(utf8_bytes(a@));
        }
    }
    le_ab && le_ba
}

/// Strict byte-lexicographic comparison of two string slices.
pub fn str_lt(a: &str, b: &str) -> (r: bool)
    ensures
        r == lex_lt(utf8_bytes(a@), utf8_bytes(b@)),
{
    let le_ab = str_le(a, b);
    let le_ba = str_le(b, a);
    proof {
        lemma_lex_le_total(utf8_bytes(a@), utf8_bytes(b@));
        if le_ab && le_ba {
            lemma_lex_le_antisymmetric(utf8_bytes(a@), utf8_bytes(b@));
        }
    }
    le_ab && !le_ba
}

} // verus!
