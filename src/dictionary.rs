//! Reduction of a word list to admissible fingerprints and anagram classes.
use vstd::prelude::*;

use std::collections::HashMap;

use crate::codec::{fingerprint, is_word, lemma_fingerprint_bits, letter_index, make_bitset};

verus! {

broadcast use vstd::std_specs::hash::group_hash_axioms;

/// Number of set bits of `x`.
pub open spec fn popcount(x: u32) -> nat
    decreases x,
{
    if x == 0 {
        0
    } else {
        (x % 2) as nat + popcount(x / 2)
    }
}

/// Counts the set bits of `x`.
pub fn count_bits(x: u32) -> (r: u32)
    ensures
        r == popcount(x),
{
    let mut v: u32 = x;
    let mut n: u32 = 0;
    while v != 0
        invariant
            n + popcount(v) == popcount(x),
            n + v <= x,
        decreases v,
    {
        n = n + v % 2;
        v = v / 2;
    }
    n
}

/// A word is kept when its fingerprint has exactly `len` set bits, that is
/// when it is made of `len` distinct letters.
pub open spec fn admissible(w: Seq<char>, len: nat) -> bool {
    popcount(fingerprint(w)) == len
}

/// The distinct fingerprints of the admissible words of `ws`, in the order
/// of their first occurrence.
pub open spec fn first_seen(ws: Seq<Seq<char>>, len: nat) -> Seq<u32>
    decreases ws.len(),
{
    if ws.len() == 0 {
        Seq::empty()
    } else {
        let p = first_seen(ws.drop_last(), len);
        let w = ws.last();
        if admissible(w, len) && !p.contains(fingerprint(w)) {
            p.push(fingerprint(w))
        } else {
            p
        }
    }
}

/// The admissible words of `ws` whose fingerprint is `b`, in input order.
pub open spec fn class_of(ws: Seq<Seq<char>>, len: nat, b: u32) -> Seq<Seq<char>>
    decreases ws.len(),
{
    if ws.len() == 0 {
        Seq::empty()
    } else {
        let p = class_of(ws.drop_last(), len, b);
        let w = ws.last();
        if admissible(w, len) && fingerprint(w) == b {
            p.push(w)
        } else {
            p
        }
    }
}

/// The words of a list, as character sequences.
pub open spec fn words_view(ws: Seq<String>) -> Seq<Seq<char>> {
    ws.map_values(|s: String| s@)
}

/// The admissible fingerprints of a word list, each with the words that
/// have it.
pub struct Dictionary {
    /// Distinct admissible fingerprints, in order of first occurrence.
    pub bitsets: Vec<u32>,
    /// `groups[i]` holds the words whose fingerprint is `bitsets[i]`.
    pub groups: Vec<Vec<String>>,
    /// Position of each fingerprint in `bitsets`.
    pub positions: HashMap<u32, usize>,
}

impl Dictionary {
    /// The fingerprints are distinct, each class sits beside its
    /// fingerprint, and `positions` maps each fingerprint to its place.
    pub open spec fn wf(&self) -> bool {
        &&& self.groups@.len() == self.bitsets@.len()
        &&& self.bitsets@.no_duplicates()
        &&& forall|b: u32| #[trigger]
            self.positions@.contains_key(b) <==> self.bitsets@.contains(b)
        &&& forall|i: int|
            0 <= i < self.bitsets@.len() ==> self.positions@[#[trigger] self.bitsets@[i]] == i
    }

    /// The dictionary is the reduction of `ws` to words of `len` distinct
    /// letters.
    pub open spec fn reduces(&self, ws: Seq<Seq<char>>, len: nat) -> bool {
        &&& self.wf()
        &&& self.bitsets@ == first_seen(ws, len)
        &&& forall|i: int|
            0 <= i < self.bitsets@.len() ==> words_view(#[trigger] self.groups@[i]@) == class_of(
                ws,
                len,
                self.bitsets@[i],
            )
    }

    /// Reduces `words` to their admissible fingerprints and groups the words
    /// by fingerprint; words with a repeated letter are left out.
    pub fn reduce_words(words: &Vec<String>, len: usize) -> (r: Dictionary)
        requires
            forall|k: int| 0 <= k < words@.len() ==> is_word(#[trigger] words@[k]@),
        ensures
            r.reduces(words_view(words@), len as nat),
    {
        let ghost ws = words_view(words@);
        let mut d = Dictionary { bitsets: Vec::new(), groups: Vec::new(), positions: HashMap::new() };
        let mut k: usize = 0;
        proof {
            assert(ws.subrange(0, 0) =~= Seq::<Seq<char>>::empty());
        }
        while k < words.len()
            invariant
                k <= words@.len(),
                ws == words_view(words@),
                forall|k: int| 0 <= k < words@.len() ==> is_word(#[trigger] words@[k]@),
                d.reduces(ws.subrange(0, k as int), len as nat),
            decreases words@.len() - k,
        {
            let ghost pre = ws.subrange(0, k as int);
            let ghost post = ws.subrange(0, k as int + 1);
            let ghost old_bitsets = d.bitsets@;
            let ghost old_groups = d.groups@;
            let word = &words[k];
            assert(post.drop_last() =~= pre);
            assert(post.last() == word@);
            let b = make_bitset(word.as_str());
            let ghost keep = admissible(word@, len as nat);
            if count_bits(b) as usize == len {
                match d.positions.get(&b) {
                    Some(i) => {
                        let i = *i;
                        assert(d.bitsets@.contains(b));
                        let ghost j = choose|j: int| 0 <= j < d.bitsets@.len() && d.bitsets@[j] == b;
                        assert(i == j);
                        d.groups[i].push(word.clone());
                        proof {
                            assert(d.bitsets@ == first_seen(post, len as nat));
                            assert forall|t: int| 0 <= t < d.bitsets@.len() implies words_view(
                                #[trigger] d.groups@[t]@,
                            ) == class_of(post, len as nat, d.bitsets@[t]) by {
                                lemma_class_push(pre, word@, len as nat, d.bitsets@[t]);
                                assert(d.bitsets@[t] == b <==> t == i);
                                if t == i {
                                    assert(words_view(d.groups@[t]@) =~= words_view(old_groups[t]@).push(word@));
                                } else {
                                    assert(d.groups@[t] == old_groups[t]);
                                }
                            }
                        }
                    },
                    None => {
                        let n = d.bitsets.len();
                        let ghost old_positions = d.positions@;
                        d.positions.insert(b, n);
                        d.bitsets.push(b);
                        let mut g: Vec<String> = Vec::new();
                        g.push(word.clone());
                        d.groups.push(g);
                        proof {
                            assert(!old_bitsets.contains(b));
                            assert(d.bitsets@ == first_seen(post, len as nat));
                            assert forall|t: int| 0 <= t < d.bitsets@.len() implies words_view(
                                #[trigger] d.groups@[t]@,
                            ) == class_of(post, len as nat, d.bitsets@[t]) by {
                                lemma_class_push(pre, word@, len as nat, d.bitsets@[t]);
                                if t == n {
                                    assert(class_of(pre, len as nat, b) =~= Seq::<Seq<char>>::empty()) by {
                                        if class_of(pre, len as nat, b).len() > 0 {
                                            lemma_class_seen(pre, len as nat, b);
                                        }
                                    }
                                    assert(words_view(d.groups@[t]@) =~= seq![word@]);
                                } else {
                                    assert(d.groups@[t] == old_groups[t]);
                                    assert(d.bitsets@[t] == old_bitsets[t]);
                                    assert(old_bitsets[t] != b);
                                }
                            }
                            assert forall|t: int| 0 <= t < d.bitsets@.len() implies d.positions@[
                                #[trigger] d.bitsets@[t]] == t by {
                                if t < n {
                                    assert(d.bitsets@[t] == old_bitsets[t]);
                                }
                            }
                            assert forall|c: u32| #[trigger] d.positions@.contains_key(c)
                                <==> d.bitsets@.contains(c) by {
                                assert(d.bitsets@[n as int] == b);
                                if c != b {
                                    assert(d.positions@.contains_key(c) == old_positions.contains_key(c));
                                }
                                if old_bitsets.contains(c) {
                                    let t = choose|t: int| 0 <= t < old_bitsets.len() && old_bitsets[t] == c;
                                    assert(d.bitsets@[t] == c);
                                }
                                if d.bitsets@.contains(c) && c != b {
                                    let t = choose|t: int| 0 <= t < d.bitsets@.len() && d.bitsets@[t] == c;
                                    assert(old_bitsets[t] == c);
                                }
                            }
                        }
                    },
                }
            } else {
                proof {
                    assert(d.bitsets@ == first_seen(post, len as nat));
                    assert forall|t: int| 0 <= t < d.bitsets@.len() implies words_view(
                        #[trigger] d.groups@[t]@,
                    ) == class_of(post, len as nat, d.bitsets@[t]) by {
                        lemma_class_push(pre, word@, len as nat, d.bitsets@[t]);
                    }
                }
            }
            k = k + 1;
        }
        proof {
            assert(ws.subrange(0, words@.len() as int) =~= ws);
        }
        d
    }
}

/// Appending a word to the list appends it to its own class only.
proof fn lemma_class_push(ws: Seq<Seq<char>>, w: Seq<char>, len: nat, b: u32)
    ensures
        class_of(ws.push(w), len, b) == if admissible(w, len) && fingerprint(w) == b {
            class_of(ws, len, b).push(w)
        } else {
            class_of(ws, len, b)
        },
{
    let s = ws.push(w);
    assert(s.drop_last() =~= ws);
    assert(s.last() == w);
}

/// A fingerprint that some admissible word has is among the first-seen ones.
proof fn lemma_class_seen(ws: Seq<Seq<char>>, len: nat, b: u32)
    requires
        class_of(ws, len, b).len() > 0,
    ensures
        first_seen(ws, len).contains(b),
    decreases ws.len(),
{
    let p = ws.drop_last();
    let w = ws.last();
    assert(p.push(w) =~= ws);
    lemma_class_push(p, w, len, b);
    let q = first_seen(p, len);
    if admissible(w, len) && fingerprint(w) == b {
        if !q.contains(b) {
            assert(q.push(b)[q.len() as int] == b);
        }
    } else {
        lemma_class_seen(p, len, b);
        let u = choose|u: int| 0 <= u < q.len() && q[u] == b;
        if admissible(w, len) && !q.contains(fingerprint(w)) {
            assert(q.push(fingerprint(w))[u] == b);
        }
    }
}


/// A word lies in the class of `b` exactly when it is one of the words,
/// admissible, and has the fingerprint `b`.
proof fn lemma_class_contains(ws: Seq<Seq<char>>, len: nat, b: u32, w: Seq<char>)
    ensures
        class_of(ws, len, b).contains(w) <==> (ws.contains(w) && admissible(w, len) && fingerprint(w)
            == b),
    decreases ws.len(),
{
    if ws.len() > 0 {
        let p = ws.drop_last();
        let l = ws.last();
        assert(p.push(l) =~= ws);
        lemma_class_push(p, l, len, b);
        lemma_class_contains(p, len, b, w);
        let q = class_of(p, len, b);
        if q.contains(w) {
            let i = choose|i: int| 0 <= i < q.len() && q[i] == w;
            if admissible(l, len) && fingerprint(l) == b {
                assert(q.push(l)[i] == w);
            }
            let t = choose|t: int| 0 <= t < p.len() && p[t] == w;
            assert(ws[t] == w);
        }
        if ws.contains(w) && admissible(w, len) && fingerprint(w) == b {
            let t = choose|t: int| 0 <= t < ws.len() && ws[t] == w;
            if t < p.len() {
                assert(p[t] == w);
                let i = choose|i: int| 0 <= i < q.len() && q[i] == w;
                if admissible(l, len) && fingerprint(l) == b {
                    assert(q.push(l)[i] == w);
                }
            } else {
                assert(q.push(l)[q.len() as int] == w);
            }
        }
        if class_of(ws, len, b).contains(w) && !q.contains(w) {
            assert(w == l);
            assert(ws[ws.len() - 1] == w);
        }
    }
}

/// A word of the input survives reduction, that is, lies in one of the
/// classes, exactly when its fingerprint has `len` set bits.
pub proof fn lemma_survives_iff_admissible(d: Dictionary, ws: Seq<Seq<char>>, len: nat, w: Seq<char>)
    requires
        d.reduces(ws, len),
        ws.contains(w),
    ensures
        (exists|i: int| 0 <= i < d.groups@.len() && words_view(#[trigger] d.groups@[i]@).contains(w))
            <==> admissible(w, len),
{
    if admissible(w, len) {
        let b = fingerprint(w);
        lemma_class_contains(ws, len, b, w);
        lemma_class_seen(ws, len, b);
        let i = choose|i: int| 0 <= i < d.bitsets@.len() && d.bitsets@[i] == b;
        assert(words_view(d.groups@[i]@) == class_of(ws, len, d.bitsets@[i]));
    }
    if exists|i: int| 0 <= i < d.groups@.len() && words_view(#[trigger] d.groups@[i]@).contains(w) {
        let i = choose|i: int| 0 <= i < d.groups@.len() && words_view(#[trigger] d.groups@[i]@).contains(w);
        lemma_class_contains(ws, len, d.bitsets@[i], w);
    }
}

/// Setting bit `j` adds one to the count unless it was already set.
proof fn lemma_popcount_or_bit(a: u32, j: u32)
    requires
        j < 32,
    ensures
        popcount(a | (1u32 << j)) == popcount(a) + if a & (1u32 << j) != 0 { 0nat } else { 1nat },
    decreases j,
{
    let b = a | (1u32 << j);
    if j == 0 {
        assert(b % 2 == 1 && b / 2 == a / 2 && (a & 1u32 != 0 <==> a % 2 == 1) && b != 0) by (bit_vector)
            requires b == a | (1u32 << 0u32);
        assert(1u32 << 0u32 == 1u32) by (bit_vector);
        if a == 0 {
        }
    } else {
        let h = (j - 1) as u32;
        assert(b % 2 == a % 2 && b / 2 == (a / 2) | (1u32 << h) && b != 0 && (a & (1u32 << j) != 0
            <==> (a / 2) & (1u32 << h) != 0)) by (bit_vector)
            requires
                b == a | (1u32 << j),
                h == j - 1,
                0 < j < 32,
        ;
        lemma_popcount_or_bit(a / 2, h);
        if a == 0 {
            assert(a / 2 == 0);
        }
    }
}

/// A word of lowercase letters has at most as many fingerprint bits as
/// letters, and fewer when some letter repeats.
proof fn lemma_popcount_fingerprint(w: Seq<char>)
    requires
        is_word(w),
    ensures
        popcount(fingerprint(w)) <= w.len(),
        (exists|k1: int, k2: int| 0 <= k1 < k2 < w.len() && w[k1] == w[k2]) ==> popcount(
            fingerprint(w),
        ) < w.len(),
    decreases w.len(),
{
    if w.len() > 0 {
        let p = w.drop_last();
        let l = w.last();
        assert(is_word(p)) by {
            assert forall|k: int| 0 <= k < p.len() implies crate::codec::is_letter(#[trigger] p[k]) by {
                assert(p[k] == w[k]);
            }
        }
        assert(crate::codec::is_letter(w[w.len() - 1]));
        lemma_popcount_fingerprint(p);
        let j = letter_index(l);
        lemma_popcount_or_bit(fingerprint(p), j);
        if exists|k1: int, k2: int| 0 <= k1 < k2 < w.len() && w[k1] == w[k2] {
            let (k1, k2) = choose|k1: int, k2: int| 0 <= k1 < k2 < w.len() && w[k1] == w[k2];
            if k2 == w.len() - 1 {
                lemma_fingerprint_bits(p, j);
                assert(p[k1] == l);
            } else {
                assert(p[k1] == w[k1] && p[k2] == w[k2]);
            }
        }
    }
}

/// A word of `len` lowercase letters in which some letter repeats is never
/// admissible, so reduction always leaves it out.
pub proof fn lemma_repeated_letter_excluded(w: Seq<char>, len: nat)
    requires
        is_word(w),
        w.len() == len,
        exists|k1: int, k2: int| 0 <= k1 < k2 < w.len() && w[k1] == w[k2],
    ensures
        !admissible(w, len),
{
    lemma_popcount_fingerprint(w);
}

} // verus!
