//! Expansion of a tuple of fingerprints into rows of concrete words.
use vstd::prelude::*;

use crate::dictionary::{words_view, Dictionary};

verus! {

broadcast use vstd::std_specs::hash::group_hash_axioms;

/// The words that have the fingerprint `f` in `d`.
pub open spec fn class_words(d: Dictionary, f: u32) -> Seq<Seq<char>> {
    words_view(d.groups@[d.positions@[f] as int]@)
}

/// `tail` takes one word from the class of each fingerprint of
/// `combo[level..]`, slot by slot.
pub open spec fn is_row_tail(d: Dictionary, combo: Seq<u32>, level: int, tail: Seq<Seq<char>>) -> bool {
    &&& tail.len() == combo.len() - level
    &&& forall|a: int| 0 <= a < tail.len() ==> class_words(d, combo[level + a]).contains(#[trigger] tail[a])
}

/// Number of rows from `level` on: the product of the class sizes.
pub open spec fn rows_count(d: Dictionary, combo: Seq<u32>, level: int) -> nat
    decreases combo.len() - level,
{
    if level >= combo.len() || level < 0 {
        1
    } else {
        class_words(d, combo[level]).len() * rows_count(d, combo, level + 1)
    }
}

/// `v` is `p` followed by a row tail from `level` on.
pub open spec fn is_row_entry(
    d: Dictionary,
    combo: Seq<u32>,
    level: int,
    p: Seq<Seq<char>>,
    v: Seq<Seq<char>>,
) -> bool {
    exists|tail: Seq<Seq<char>>| is_row_tail(d, combo, level, tail) && v == p + tail
}

/// Some row of `out` at or after `from` reads `v`.
pub open spec fn holds_row(out: Seq<Vec<String>>, from: int, v: Seq<Seq<char>>) -> bool {
    exists|e: int| from <= e < out.len() && words_view(out[e]@) == v
}

/// Every fingerprint of `combo` has a class in `d`.
pub open spec fn known_fingerprints(d: Dictionary, combo: Seq<u32>) -> bool {
    forall|a: int| 0 <= a < combo.len() ==> d.bitsets@.contains(#[trigger] combo[a])
}

/// A copy of a row of words.
fn copy_row(row: &Vec<String>) -> (r: Vec<String>)
    ensures
        words_view(r@) == words_view(row@),
{
    let mut r: Vec<String> = Vec::new();
    let mut i: usize = 0;
    while i < row.len()
        invariant
            i <= row@.len(),
            r@.len() == i,
            forall|k: int| 0 <= k < i ==> (#[trigger] r@[k])@ == row@[k]@,
        decreases row@.len() - i,
    {
        r.push(row[i].clone());
        i = i + 1;
    }
    assert(words_view(r@) =~= words_view(row@));
    r
}

/// Appends to `out` the rows `prefix` followed by one word of each class of
/// `combo[level..]`, for every such choice; rows already in `out` stay.
pub fn expand_from(
    d: &Dictionary,
    combo: &Vec<u32>,
    level: usize,
    prefix: &mut Vec<String>,
    out: &mut Vec<Vec<String>>,
)
    requires
        d.wf(),
        level <= combo@.len(),
        known_fingerprints(*d, combo@),
    ensures
        final(prefix)@ == old(prefix)@,
        final(out)@.len() == old(out)@.len() + rows_count(*d, combo@, level as int),
        final(out)@.subrange(0, old(out)@.len() as int) == old(out)@,
        forall|e: int|
            old(out)@.len() <= e < final(out)@.len() ==> #[trigger] is_row_entry(
                *d,
                combo@,
                level as int,
                words_view(old(prefix)@),
                words_view(final(out)@[e]@),
            ),
        forall|tail: Seq<Seq<char>>|
            #[trigger] is_row_tail(*d, combo@, level as int, tail) ==> holds_row(
                final(out)@,
                old(out)@.len() as int,
                words_view(old(prefix)@) + tail,
            ),
    decreases combo@.len() - level,
{
    let ghost p0 = words_view(prefix@);
    let ghost out0 = out@;
    let ghost n0 = out@.len() as int;
    if level == combo.len() {
        let row = copy_row(prefix);
        out.push(row);
        proof {
            assert(out@.subrange(0, n0) =~= out0);
            assert(is_row_tail(*d, combo@, level as int, Seq::empty()));
            assert(words_view(out@[n0]@) =~= p0 + Seq::<Seq<char>>::empty());
            assert forall|tail: Seq<Seq<char>>| #[trigger] is_row_tail(*d, combo@, level as int, tail)
                implies holds_row(out@, n0, p0 + tail) by {
                assert(tail =~= Seq::<Seq<char>>::empty());
                assert(words_view(out@[n0]@) == p0 + tail);
            }
        }
        return;
    }
    let f = combo[level];
    proof {
        assert(d.bitsets@.contains(combo@[level as int]));
    }
    let pos: usize = match d.positions.get(&f) {
        Some(p) => *p,
        None => 0,
    };
    let class = &d.groups[pos];
    let ghost cw = class_words(*d, f);
    assert(words_view(class@) == cw);
    let mut i: usize = 0;
    let next: usize = level + 1;
    let ghost q0 = prefix@;
    proof {
        assert(out@.subrange(0, n0) =~= out0);
    }
    while i < class.len()
        invariant
            d.wf(),
            level < combo@.len(),
            known_fingerprints(*d, combo@),
            f == combo@[level as int],
            words_view(class@) == cw,
            cw == class_words(*d, f),
            i <= class@.len(),
            next == level + 1,
            prefix@ == q0,
            words_view(q0) == p0,
            out@.len() == n0 + i * rows_count(*d, combo@, level + 1),
            out0.len() == n0,
            out@.subrange(0, n0) == out0,
            forall|e: int|
                n0 <= e < out@.len() ==> #[trigger] is_row_entry(
                    *d,
                    combo@,
                    level as int,
                    p0,
                    words_view(out@[e]@),
                ),
            forall|tail: Seq<Seq<char>>|
                #[trigger] is_row_tail(*d, combo@, level as int, tail) && cw.subrange(
                    0,
                    i as int,
                ).contains(tail[0]) ==> holds_row(out@, n0, p0 + tail),
        decreases class@.len() - i,
    {
        let ghost out1 = out@;
        let ghost n1 = out@.len() as int;
        let w = class[i].clone();
        prefix.push(w);
        let ghost p1 = words_view(prefix@);
        assert(p1 =~= p0.push(cw[i as int]));
        expand_from(d, combo, next, prefix, out);
        prefix.pop();
        proof {
            let rc = rows_count(*d, combo@, level + 1);
            assert((i + 1) * rc == i * rc + rc) by (nonlinear_arith);
            assert(prefix@ =~= q0);
            assert forall|e: int| 0 <= e < n1 implies out@[e] == out1[e] by {
                assert(out@.subrange(0, n1)[e] == out@[e]);
            }
            assert(out@.subrange(0, n0) =~= out0) by {
                assert forall|e: int| 0 <= e < n0 implies out@[e] == out0[e] by {
                    assert(out1.subrange(0, n0)[e] == out1[e]);
                }
            }
            assert forall|e: int| n0 <= e < out@.len() implies #[trigger] is_row_entry(
                *d,
                combo@,
                level as int,
                p0,
                words_view(out@[e]@),
            ) by {
                if e >= n1 {
                    assert(is_row_entry(*d, combo@, level + 1, p1, words_view(out@[e]@)));
                    let t = choose|t: Seq<Seq<char>>|
                        is_row_tail(*d, combo@, level + 1, t) && words_view(out@[e]@) == p1 + t;
                    let tail = seq![cw[i as int]] + t;
                    assert(cw.contains(cw[i as int]));
                    assert forall|a: int| 0 <= a < tail.len() implies class_words(
                        *d,
                        combo@[level + a],
                    ).contains(#[trigger] tail[a]) by {
                        if a > 0 {
                            assert(tail[a] == t[a - 1]);
                            assert(level + 1 + (a - 1) == level + a);
                        }
                    }
                    assert(is_row_tail(*d, combo@, level as int, tail));
                    assert(p1 + t =~= p0 + tail);
                } else {
                    assert(out@[e] == out1[e]);
                }
            }
            assert forall|tail: Seq<Seq<char>>|
                #[trigger] is_row_tail(*d, combo@, level as int, tail) && cw.subrange(
                    0,
                    i + 1,
                ).contains(tail[0]) implies holds_row(out@, n0, p0 + tail) by {
                let u = choose|u: int| 0 <= u < i + 1 && #[trigger] cw.subrange(0, i + 1)[u] == tail[0];
                if u < i {
                    assert(cw.subrange(0, i as int)[u] == tail[0]);
                    let e = choose|e: int| n0 <= e < out1.len() && words_view(out1[e]@) == p0 + tail;
                    assert(out@[e] == out1[e]);
                } else {
                    let t = tail.drop_first();
                    assert forall|a: int| 0 <= a < t.len() implies class_words(
                        *d,
                        combo@[level + 1 + a],
                    ).contains(#[trigger] t[a]) by {
                        assert(t[a] == tail[a + 1]);
                    }
                    assert(is_row_tail(*d, combo@, level + 1, t));
                    assert(p1 + t =~= p0 + tail);
                    let e = choose|e: int| n1 <= e < out@.len() && words_view(out@[e]@) == p1 + t;
                }
            }
        }
        i = i + 1;
    }
    proof {
        assert(cw.len() == class@.len());
        assert(cw.subrange(0, i as int) =~= cw);
        assert forall|tail: Seq<Seq<char>>| #[trigger] is_row_tail(*d, combo@, level as int, tail)
            implies holds_row(out@, n0, p0 + tail) by {
            assert(class_words(*d, combo@[level + 0]).contains(tail[0]));
        }
    }
}

/// Every row made of one word of each class of `combo`, slot by slot.
pub fn expand_rows(d: &Dictionary, combo: &Vec<u32>) -> (r: Vec<Vec<String>>)
    requires
        d.wf(),
        known_fingerprints(*d, combo@),
    ensures
        r@.len() == rows_count(*d, combo@, 0),
        forall|e: int| 0 <= e < r@.len() ==> is_row_tail(*d, combo@, 0, words_view(#[trigger] r@[e]@)),
        forall|tail: Seq<Seq<char>>| #[trigger] is_row_tail(*d, combo@, 0, tail) ==> holds_row(r@, 0, tail),
{
    let mut prefix: Vec<String> = Vec::new();
    let mut out: Vec<Vec<String>> = Vec::new();
    expand_from(d, combo, 0, &mut prefix, &mut out);
    proof {
        let p0 = words_view(Seq::<String>::empty());
        assert(p0 =~= Seq::<Seq<char>>::empty());
        assert forall|e: int| 0 <= e < out@.len() implies is_row_tail(*d, combo@, 0, words_view(
            #[trigger] out@[e]@,
        )) by {
            assert(is_row_entry(*d, combo@, 0, p0, words_view(out@[e]@)));
            let t = choose|t: Seq<Seq<char>>| is_row_tail(*d, combo@, 0, t) && words_view(out@[e]@) == p0 + t;
            assert(p0 + t =~= t);
        }
        assert forall|tail: Seq<Seq<char>>| #[trigger] is_row_tail(*d, combo@, 0, tail) implies holds_row(
            out@,
            0,
            tail,
        ) by {
            assert(p0 + tail =~= tail);
        }
    }
    out
}


/// Words separated by single spaces.
pub open spec fn joined(ws: Seq<Seq<char>>) -> Seq<char>
    decreases ws.len(),
{
    if ws.len() == 0 {
        Seq::empty()
    } else if ws.len() == 1 {
        ws[0]
    } else {
        joined(ws.drop_last()) + seq![' '] + ws.last()
    }
}

/// The output line of a row: its words, then the missing letter if any,
/// separated by spaces.
pub open spec fn line_of(row: Seq<Seq<char>>, missing: Option<char>) -> Seq<char> {
    match missing {
        Some(c) => joined(row.push(seq![c])),
        None => joined(row),
    }
}

/// `v` is the output line of some row of `combo`.
pub open spec fn is_line(d: Dictionary, combo: Seq<u32>, missing: Option<char>, v: Seq<char>) -> bool {
    exists|tail: Seq<Seq<char>>| is_row_tail(d, combo, 0, tail) && v == line_of(tail, missing)
}

/// Relies on `<[String]>::join`: the strings, in order, with one space
/// between neighbours.
#[verifier::external_body]
fn join_words(words: &Vec<String>) -> (r: String)
    ensures
        r@ == joined(words_view(words@)),
{
    words.join(" ")
}

/// Relies on `char::to_string`: the one-character string.
#[verifier::external_body]
fn letter_string(c: char) -> (r: String)
    ensures
        r@ == seq![c],
{
    c.to_string()
}

/// The output lines of a combination: one per choice of a word from each
/// class of `combo`, each followed by `missing` when it is given.
pub fn gen_words(d: &Dictionary, combo: &Vec<u32>, missing: Option<char>) -> (r: Vec<String>)
    requires
        d.wf(),
        known_fingerprints(*d, combo@),
    ensures
        r@.len() == rows_count(*d, combo@, 0),
        forall|e: int| 0 <= e < r@.len() ==> #[trigger] is_line(*d, combo@, missing, r@[e]@),
        forall|tail: Seq<Seq<char>>|
            #[trigger] is_row_tail(*d, combo@, 0, tail) ==> exists|e: int|
                0 <= e < r@.len() && r@[e]@ == line_of(tail, missing),
{
    let rows = expand_rows(d, combo);
    let mut out: Vec<String> = Vec::new();
    let mut i: usize = 0;
    while i < rows.len()
        invariant
            i <= rows@.len(),
            out@.len() == i,
            forall|e: int| 0 <= e < i ==> (#[trigger] out@[e])@ == line_of(words_view(rows@[e]@), missing),
        decreases rows@.len() - i,
    {
        let mut row = copy_row(&rows[i]);
        match missing {
            Some(c) => {
                let ghost before = row@;
                row.push(letter_string(c));
                assert(words_view(row@) =~= words_view(before).push(seq![c]));
            },
            None => {},
        }
        out.push(join_words(&row));
        i = i + 1;
    }
    proof {
        assert forall|e: int| 0 <= e < out@.len() implies #[trigger] is_line(
            *d,
            combo@,
            missing,
            out@[e]@,
        ) by {
            let tail = words_view(rows@[e]@);
            assert(is_row_tail(*d, combo@, 0, tail));
            assert(out@[e]@ == line_of(tail, missing));
        }
        assert forall|tail: Seq<Seq<char>>| #[trigger] is_row_tail(*d, combo@, 0, tail) implies exists|e: int|
            0 <= e < out@.len() && out@[e]@ == line_of(tail, missing) by {
            assert(holds_row(rows@, 0, tail));
            let e = choose|e: int| 0 <= e < rows@.len() && words_view(rows@[e]@) == tail;
            assert(out@[e]@ == line_of(tail, missing));
        }
    }
    out
}

} // verus!
