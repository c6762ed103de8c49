//! Fingerprints: one bit per lowercase ASCII letter.
//!
//! Decoding a single letter from a mask is a precondition of
//! `bitset_to_letter`; `missing_letter` is the total form, which answers
//! `None` when the mask does not leave exactly one letter uncovered.
use vstd::prelude::*;

verus! {

/// Number of letters in the alphabet (`'a'` to `'z'`).
pub const ALPHABET_SIZE: u32 = 26;

/// Mask with one bit set for each letter of the alphabet.
pub const ALPHABET_MASK: u32 = 0x03ff_ffff;

/// A lowercase ASCII letter.
pub open spec fn is_letter(c: char) -> bool {
    'a' <= c && c <= 'z'
}

/// A word made of lowercase ASCII letters only.
pub open spec fn is_word(w: Seq<char>) -> bool {
    forall|k: int| 0 <= k < w.len() ==> is_letter(#[trigger] w[k])
}

/// Position of a letter in the alphabet.
pub open spec fn letter_index(c: char) -> u32 {
    (c as u32 - 'a' as u32) as u32
}

/// The bit that stands for a letter.
pub open spec fn letter_bit(c: char) -> u32 {
    1u32 << letter_index(c)
}

/// The fingerprint of a word: the union of the bits of its letters.
pub open spec fn fingerprint(w: Seq<char>) -> u32
    decreases w.len(),
{
    if w.len() == 0 {
        0
    } else {
        fingerprint(w.drop_last()) | letter_bit(w.last())
    }
}

/// Computes the fingerprint of `word`: bit `i` is set iff the `i`-th letter
/// of the alphabet occurs in `word`.
pub fn make_bitset(word: &str) -> (r: u32)
    requires
        is_word(word@),
    ensures
        r == fingerprint(word@),
{
    let n = word.unicode_len();
    let mut bitset: u32 = 0;
    let mut k: usize = 0;
    while k < n
        invariant
            n == word@.len(),
            k <= n,
            is_word(word@),
            bitset == fingerprint(word@.subrange(0, k as int)),
        decreases n - k,
    {
        let c = word.get_char(k);
        assert(is_letter(word@[k as int]));
        let i: u32 = c as u32 - 'a' as u32;
        let bit: u32 = 1u32 << i;
        assert(word@.subrange(0, k as int + 1).drop_last() =~= word@.subrange(0, k as int));
        bitset = bitset | bit;
        k = k + 1;
    }
    assert(word@.subrange(0, n as int) =~= word@);
    bitset
}


proof fn lemma_or_bit(a: u32, i: u32, j: u32)
    requires
        i < 32,
        j < 32,
    ensures
        (a | (1u32 << j)) & (1u32 << i) != 0 <==> (a & (1u32 << i) != 0 || i == j),
{
    assert((a | (1u32 << j)) & (1u32 << i) != 0 <==> (a & (1u32 << i) != 0 || i == j))
        by (bit_vector)
        requires
            i < 32,
            j < 32,
    ;
}

/// A fingerprint has bit `i` set exactly when the `i`-th letter occurs in the
/// word; in particular the empty word has fingerprint 0.
pub proof fn lemma_fingerprint_bits(w: Seq<char>, i: u32)
    requires
        is_word(w),
        i < 32,
    ensures
        fingerprint(w) & (1u32 << i) != 0 <==> exists|k: int|
            0 <= k < w.len() && letter_index(#[trigger] w[k]) == i,
        w.len() == 0 ==> fingerprint(w) == 0,
    decreases w.len(),
{
    if w.len() > 0 {
        let p = w.drop_last();
        assert(is_word(p)) by {
            assert forall|k: int| 0 <= k < p.len() implies is_letter(#[trigger] p[k]) by {
                assert(p[k] == w[k]);
            }
        }
        lemma_fingerprint_bits(p, i);
        assert(is_letter(w[w.len() - 1]));
        lemma_or_bit(fingerprint(p), i, letter_index(w.last()));
        if fingerprint(w) & (1u32 << i) != 0 {
            if fingerprint(p) & (1u32 << i) != 0 {
                let k = choose|k: int| 0 <= k < p.len() && letter_index(#[trigger] p[k]) == i;
                assert(w[k] == p[k]);
            } else {
                assert(letter_index(w[w.len() - 1]) == i);
            }
        } else {
            assert forall|k: int| 0 <= k < w.len() implies letter_index(#[trigger] w[k]) != i by {
                if k < p.len() {
                    assert(w[k] == p[k]);
                }
            }
        }
    } else {
        assert(0u32 & (1u32 << i) == 0) by (bit_vector);
    }
}

/// Holds for a mask whose only set bit stands for a letter of the alphabet.
pub open spec fn is_letter_mask(m: u32) -> bool {
    exists|i: u32| i < ALPHABET_SIZE && m == 1u32 << i
}

/// The letters absent from a union of fingerprints, as a mask.
pub open spec fn absent_letters(u: u32) -> u32 {
    !u & ALPHABET_MASK
}

/// Exactly one letter of the alphabet is absent from `u`.
pub open spec fn has_one_missing(u: u32) -> bool {
    is_letter_mask(absent_letters(u))
}

/// Finds the position of the single set bit of `m` within the alphabet.
fn single_bit_index(m: u32) -> (r: Option<u32>)
    ensures
        r matches Some(i) ==> i < ALPHABET_SIZE && m == 1u32 << i,
        r is None ==> !is_letter_mask(m),
{
    let mut i: u32 = 0;
    while i < ALPHABET_SIZE
        invariant
            i <= ALPHABET_SIZE,
            forall|j: u32| j < i ==> m != 1u32 << j,
        decreases ALPHABET_SIZE - i,
    {
        if m == 1u32 << i {
            return Some(i);
        }
        i = i + 1;
    }
    None
}

/// The letter whose bit is set in the single-letter mask `b`.
pub fn bitset_to_letter(b: u32) -> (r: char)
    requires
        is_letter_mask(b),
    ensures
        is_letter(r),
        b == letter_bit(r),
{
    match single_bit_index(b) {
        Some(i) => {
            let c = (97u8 + i as u8) as char;
            c
        },
        None => 'a',
    }
}

/// The one letter absent from the union `u`, or `None` where not exactly one
/// letter of the alphabet is absent.
pub fn missing_letter(u: u32) -> (r: Option<char>)
    ensures
        r is Some <==> has_one_missing(u),
        r matches Some(c) ==> is_letter(c) && absent_letters(u) == letter_bit(c),
{
    let m = !u & ALPHABET_MASK;
    match single_bit_index(m) {
        Some(_) => Some(bitset_to_letter(m)),
        None => None,
    }
}

} // verus!
