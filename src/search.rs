//! Backtracking enumeration of tuples of pairwise disjoint fingerprints.
use vstd::prelude::*;

use crate::codec::{has_one_missing, missing_letter};

verus! {

/// What a tuple of disjoint fingerprints must cover to count as complete.
#[derive(Clone, Copy, Debug)]
pub enum Completion {
    /// Any tuple of the requested size counts.
    AnyDisjoint,
    /// The union must leave exactly one letter of the alphabet uncovered.
    OneMissing,
}

/// Whether the union `u` of a tuple meets the completion policy.
pub open spec fn completes(policy: Completion, u: u32) -> bool {
    match policy {
        Completion::AnyDisjoint => true,
        Completion::OneMissing => has_one_missing(u),
    }
}

/// Bitwise union of the candidates at the positions `x`.
pub open spec fn union_of(c: Seq<u32>, x: Seq<usize>) -> u32
    decreases x.len(),
{
    if x.len() == 0 {
        0
    } else {
        c[x[0] as int] | union_of(c, x.drop_first())
    }
}

/// `x` is a choice of `k` positions of `c`, all at or after `start`, in
/// increasing order, whose candidates share no letter with `acc` nor with
/// each other.
pub open spec fn is_pick(c: Seq<u32>, start: int, k: nat, acc: u32, x: Seq<usize>) -> bool {
    &&& x.len() == k
    &&& forall|a: int| 0 <= a < x.len() ==> start <= #[trigger] x[a] < c.len()
    &&& forall|a: int, b: int| 0 <= a < b < x.len() ==> x[a] < x[b]
    &&& forall|a: int| 0 <= a < x.len() ==> c[#[trigger] x[a] as int] & acc == 0
    &&& forall|a: int, b: int|
        0 <= a < b < x.len() ==> #[trigger] c[x[a] as int] & #[trigger] c[x[b] as int] == 0
}

/// A pick whose union with `acc` also meets the completion policy.
pub open spec fn is_full_pick(
    c: Seq<u32>,
    start: int,
    k: nat,
    acc: u32,
    policy: Completion,
    x: Seq<usize>,
) -> bool {
    is_pick(c, start, k, acc, x) && completes(policy, acc | union_of(c, x))
}

/// The entries of `out` from position `from` on are pairwise distinct.
pub open spec fn distinct_from(out: Seq<Vec<usize>>, from: int) -> bool {
    forall|i: int, j: int| from <= i < j < out.len() ==> out[i]@ != out[j]@
}

/// Bitwise facts the pick lemmas rely on.
proof fn lemma_bits(p: u32, a: u32, b: u32)
    ensures
        p & (a | b) == 0 <==> (p & a == 0 && p & b == 0),
        p & a == a & p,
        a | (b | p) == (a | b) | p,
        a | 0 == a,
{
    assert(p & (a | b) == 0 <==> (p & a == 0 && p & b == 0)) by (bit_vector);
    assert(p & a == a & p) by (bit_vector);
    assert(a | (b | p) == (a | b) | p) by (bit_vector);
    assert(a | 0 == a) by (bit_vector);
}

/// A full pick that starts at position `j` is `j` followed by a full pick of
/// the later positions against the union grown by `c[j]`.
proof fn lemma_pick_head(
    c: Seq<u32>,
    start: int,
    k: nat,
    acc: u32,
    policy: Completion,
    x: Seq<usize>,
)
    requires
        x.len() == k,
        k >= 1,
        start <= x[0] < c.len(),
        c[x[0] as int] & acc == 0,
    ensures
        is_full_pick(c, start, k, acc, policy, x) <==> is_full_pick(
            c,
            x[0] + 1,
            (k - 1) as nat,
            acc | c[x[0] as int],
            policy,
            x.drop_first(),
        ),
{
    let j = x[0] as int;
    let y = x.drop_first();
    let cj = c[j];
    lemma_bits(0, acc, cj);
    lemma_bits(0, cj, union_of(c, y));
    assert(union_of(c, x) == cj | union_of(c, y));
    assert(acc | union_of(c, x) == (acc | cj) | union_of(c, y)) by {
        lemma_bits(union_of(c, y), acc, cj);
    }
    if is_pick(c, start, k, acc, x) {
        assert forall|a: int| 0 <= a < y.len() implies c[#[trigger] y[a] as int] & (acc | cj)
            == 0 by {
            assert(y[a] == x[a + 1]);
            lemma_bits(c[y[a] as int], acc, cj);
            lemma_bits(c[y[a] as int], cj, acc);
            assert(c[x[0] as int] & c[x[a + 1] as int] == 0);
        }
        assert forall|a: int| 0 <= a < y.len() implies j + 1 <= #[trigger] y[a] < c.len() by {
            assert(y[a] == x[a + 1]);
            assert(x[0] < x[a + 1]);
        }
        assert forall|a: int, b: int| 0 <= a < b < y.len() implies #[trigger] c[y[a] as int]
            & #[trigger] c[y[b] as int] == 0 by {
            assert(y[a] == x[a + 1] && y[b] == x[b + 1]);
        }
        assert forall|a: int, b: int| 0 <= a < b < y.len() implies y[a] < y[b] by {
            assert(y[a] == x[a + 1] && y[b] == x[b + 1]);
        }
    }
    if is_pick(c, j + 1, (k - 1) as nat, acc | cj, y) {
        assert forall|a: int| 0 <= a < x.len() implies start <= #[trigger] x[a] < c.len() by {
            if a > 0 {
                assert(x[a] == y[a - 1]);
            }
        }
        assert forall|a: int, b: int| 0 <= a < b < x.len() implies x[a] < x[b] by {
            if a > 0 {
                assert(x[a] == y[a - 1]);
            }
            assert(x[b] == y[b - 1]);
        }
        assert forall|a: int| 0 <= a < x.len() implies c[#[trigger] x[a] as int] & acc == 0 by {
            if a > 0 {
                assert(x[a] == y[a - 1]);
                lemma_bits(c[x[a] as int], acc, cj);
            }
        }
        assert forall|a: int, b: int| 0 <= a < b < x.len() implies #[trigger] c[x[a] as int]
            & #[trigger] c[x[b] as int] == 0 by {
            assert(x[b] == y[b - 1]);
            if a > 0 {
                assert(x[a] == y[a - 1]);
            } else {
                lemma_bits(c[x[b] as int], acc, cj);
                lemma_bits(c[x[b] as int], cj, acc);
            }
        }
    }
}


/// Whether the union `u` meets the completion policy.
pub fn is_complete(policy: Completion, u: u32) -> (r: bool)
    ensures
        r == completes(policy, u),
{
    match policy {
        Completion::AnyDisjoint => true,
        Completion::OneMissing => missing_letter(u).is_some(),
    }
}

/// `v` is `p` followed by a full pick whose first position is below `bound`.
pub open spec fn is_entry_below(
    c: Seq<u32>,
    start: int,
    k: nat,
    acc: u32,
    policy: Completion,
    p: Seq<usize>,
    v: Seq<usize>,
    bound: int,
) -> bool {
    exists|x: Seq<usize>| is_full_pick(c, start, k, acc, policy, x) && x[0] < bound && v == p + x
}

/// `v` is `p` followed by a full pick.
pub open spec fn is_entry(
    c: Seq<u32>,
    start: int,
    k: nat,
    acc: u32,
    policy: Completion,
    p: Seq<usize>,
    v: Seq<usize>,
) -> bool {
    exists|x: Seq<usize>| is_full_pick(c, start, k, acc, policy, x) && v == p + x
}

/// Some entry of `out` at or after `from` has the view `v`.
pub open spec fn holds_entry(out: Seq<Vec<usize>>, from: int, v: Seq<usize>) -> bool {
    exists|e: int| from <= e < out.len() && out[e]@ == v
}

/// `after` is `before` followed by `p + x` for every full pick `x` whose
/// first position is below `bound`, each exactly once when `before` held no
/// repeated entries after its own length.
pub open spec fn appends_picks_below(
    c: Seq<u32>,
    start: int,
    k: nat,
    acc: u32,
    policy: Completion,
    p: Seq<usize>,
    before: Seq<Vec<usize>>,
    after: Seq<Vec<usize>>,
    bound: int,
) -> bool {
    &&& after.len() >= before.len()
    &&& after.subrange(0, before.len() as int) == before
    &&& forall|e: int|
        before.len() <= e < after.len() ==> #[trigger] is_entry_below(
            c,
            start,
            k,
            acc,
            policy,
            p,
            after[e]@,
            bound,
        )
    &&& forall|x: Seq<usize>|
        #[trigger] is_full_pick(c, start, k, acc, policy, x) && x[0] < bound ==> holds_entry(
            after,
            before.len() as int,
            p + x,
        )
    &&& distinct_from(before, before.len() as int) ==> distinct_from(after, before.len() as int)
}

/// `after` is `before` followed by `p + x` for every full pick `x`, each
/// exactly once when `before` held no repeated entries after its own length.
pub open spec fn appends_picks(
    c: Seq<u32>,
    start: int,
    k: nat,
    acc: u32,
    policy: Completion,
    p: Seq<usize>,
    before: Seq<Vec<usize>>,
    after: Seq<Vec<usize>>,
) -> bool {
    &&& after.len() >= before.len()
    &&& after.subrange(0, before.len() as int) == before
    &&& forall|e: int|
        before.len() <= e < after.len() ==> #[trigger] is_entry(
            c,
            start,
            k,
            acc,
            policy,
            p,
            after[e]@,
        )
    &&& forall|x: Seq<usize>|
        #[trigger] is_full_pick(c, start, k, acc, policy, x) ==> holds_entry(
            after,
            before.len() as int,
            p + x,
        )
    &&& distinct_from(before, before.len() as int) ==> distinct_from(after, before.len() as int)
}

/// What holds after position `j` has been taken into the pick and the
/// recursive search has appended its picks.
pub open spec fn accept_step_holds(
    c: Seq<u32>,
    start: int,
    k: nat,
    acc: u32,
    policy: Completion,
    p0: Seq<usize>,
    out0: Seq<Vec<usize>>,
    out1: Seq<Vec<usize>>,
    out2: Seq<Vec<usize>>,
    j: usize,
) -> bool {
    &&& k >= 1
    &&& start <= j < c.len()
    &&& c[j as int] & acc == 0
    &&& appends_picks_below(c, start, k, acc, policy, p0, out0, out1, j as int)
    &&& appends_picks(
        c,
        j + 1,
        (k - 1) as nat,
        acc | c[j as int],
        policy,
        p0.push(j),
        out1,
        out2,
    )
}

/// The recursive search keeps every entry that was already there.
proof fn lemma_accept_prefix(
    c: Seq<u32>,
    start: int,
    k: nat,
    acc: u32,
    policy: Completion,
    p0: Seq<usize>,
    out0: Seq<Vec<usize>>,
    out1: Seq<Vec<usize>>,
    out2: Seq<Vec<usize>>,
    j: usize,
)
    requires
        accept_step_holds(c, start, k, acc, policy, p0, out0, out1, out2, j),
    ensures
        out2.subrange(0, out0.len() as int) == out0,
        forall|e: int| 0 <= e < out1.len() ==> out2[e] == out1[e],
{
    let n0 = out0.len() as int;
    let n1 = out1.len() as int;
    assert forall|e: int| 0 <= e < n1 implies out2[e] == out1[e] by {
        assert(out2.subrange(0, n1)[e] == out2[e]);
    }
    assert forall|e: int| 0 <= e < n0 implies out2[e] == out0[e] by {
        assert(out1.subrange(0, n0)[e] == out1[e]);
    }
    assert(out2.subrange(0, n0) =~= out0);
}

/// Every entry appended so far is a full pick starting below `j + 1`.
proof fn lemma_accept_sound(
    c: Seq<u32>,
    start: int,
    k: nat,
    acc: u32,
    policy: Completion,
    p0: Seq<usize>,
    out0: Seq<Vec<usize>>,
    out1: Seq<Vec<usize>>,
    out2: Seq<Vec<usize>>,
    j: usize,
)
    requires
        accept_step_holds(c, start, k, acc, policy, p0, out0, out1, out2, j),
    ensures
        forall|e: int|
            out0.len() <= e < out2.len() ==> #[trigger] is_entry_below(
                c,
                start,
                k,
                acc,
                policy,
                p0,
                out2[e]@,
                j + 1,
            ),
{
    lemma_accept_prefix(c, start, k, acc, policy, p0, out0, out1, out2, j);
    let n1 = out1.len() as int;
    let p1 = p0.push(j);
    assert forall|e: int| out0.len() <= e < out2.len() implies #[trigger] is_entry_below(
        c,
        start,
        k,
        acc,
        policy,
        p0,
        out2[e]@,
        j + 1,
    ) by {
        if e < n1 {
            assert(out2[e] == out1[e]);
            assert(is_entry_below(c, start, k, acc, policy, p0, out1[e]@, j as int));
            let x = choose|x: Seq<usize>|
                is_full_pick(c, start, k, acc, policy, x) && x[0] < j && out1[e]@ == p0 + x;
            assert(is_full_pick(c, start, k, acc, policy, x) && x[0] < j + 1 && out2[e]@ == p0 + x);
        } else {
            assert(is_entry(c, j + 1, (k - 1) as nat, acc | c[j as int], policy, p1, out2[e]@));
            let y = choose|y: Seq<usize>|
                is_full_pick(c, j + 1, (k - 1) as nat, acc | c[j as int], policy, y) && out2[e]@
                    == p1 + y;
            let x = seq![j].add(y);
            assert(x.drop_first() =~= y);
            assert(x[0] == j);
            lemma_pick_head(c, start, k, acc, policy, x);
            assert(p1 + y =~= p0 + x) by {
                assert forall|i: int| 0 <= i < p1.len() + y.len() implies (p1 + y)[i] == (p0
                    + x)[i] by {
                    if i > p0.len() {
                        assert(x[i - p0.len()] == y[i - p0.len() - 1]);
                    }
                }
            }
            assert(is_full_pick(c, start, k, acc, policy, x) && x[0] < j + 1 && out2[e]@ == p0 + x);
        }
    }
}

/// Every full pick starting below `j + 1` has been appended.
proof fn lemma_accept_complete(
    c: Seq<u32>,
    start: int,
    k: nat,
    acc: u32,
    policy: Completion,
    p0: Seq<usize>,
    out0: Seq<Vec<usize>>,
    out1: Seq<Vec<usize>>,
    out2: Seq<Vec<usize>>,
    j: usize,
)
    requires
        accept_step_holds(c, start, k, acc, policy, p0, out0, out1, out2, j),
    ensures
        forall|x: Seq<usize>|
            #[trigger] is_full_pick(c, start, k, acc, policy, x) && x[0] < j + 1 ==> holds_entry(
                out2,
                out0.len() as int,
                p0 + x,
            ),
{
    lemma_accept_prefix(c, start, k, acc, policy, p0, out0, out1, out2, j);
    let n1 = out1.len() as int;
    let p1 = p0.push(j);
    assert forall|x: Seq<usize>| #[trigger] is_full_pick(c, start, k, acc, policy, x) && x[0] < j
        + 1 implies holds_entry(out2, out0.len() as int, p0 + x) by {
        if x[0] < j {
            assert(holds_entry(out1, out0.len() as int, p0 + x));
            let e = choose|e: int| out0.len() <= e < out1.len() && out1[e]@ == p0 + x;
            assert(out2[e] == out1[e]);
        } else {
            lemma_pick_head(c, start, k, acc, policy, x);
            let y = x.drop_first();
            assert(p1 + y =~= p0 + x);
            assert(is_full_pick(c, j + 1, (k - 1) as nat, acc | c[j as int], policy, y));
            assert(holds_entry(out2, n1, p1 + y));
            let e = choose|e: int| n1 <= e < out2.len() && out2[e]@ == p1 + y;
        }
    }
}

/// Entries appended for `j` differ from those appended before, which
/// start below `j`.
proof fn lemma_accept_distinct(
    c: Seq<u32>,
    start: int,
    k: nat,
    acc: u32,
    policy: Completion,
    p0: Seq<usize>,
    out0: Seq<Vec<usize>>,
    out1: Seq<Vec<usize>>,
    out2: Seq<Vec<usize>>,
    j: usize,
)
    requires
        accept_step_holds(c, start, k, acc, policy, p0, out0, out1, out2, j),
        distinct_from(out0, out0.len() as int),
    ensures
        distinct_from(out2, out0.len() as int),
{
    lemma_accept_prefix(c, start, k, acc, policy, p0, out0, out1, out2, j);
    let n1 = out1.len() as int;
    let p1 = p0.push(j);
    assert forall|a: int, b: int| out0.len() <= a < b < out2.len() implies out2[a]@ != out2[b]@ by {
        if b >= n1 {
            assert(is_entry(c, j + 1, (k - 1) as nat, acc | c[j as int], policy, p1, out2[b]@));
            let yb = choose|y: Seq<usize>|
                is_full_pick(c, j + 1, (k - 1) as nat, acc | c[j as int], policy, y) && out2[b]@
                    == p1 + y;
            assert(out2[b]@[p0.len() as int] == j);
            if a < n1 {
                assert(out2[a] == out1[a]);
                assert(is_entry_below(c, start, k, acc, policy, p0, out1[a]@, j as int));
                let xa = choose|x: Seq<usize>|
                    is_full_pick(c, start, k, acc, policy, x) && x[0] < j && out1[a]@ == p0 + x;
                assert(out2[a]@[p0.len() as int] == xa[0]);
            }
        } else {
            assert(out2[a] == out1[a]);
            assert(out2[b] == out1[b]);
        }
    }
}

/// Taking position `j` into the pick extends what was appended below `j` to
/// what is appended below `j + 1`.
proof fn lemma_accept_step(
    c: Seq<u32>,
    start: int,
    k: nat,
    acc: u32,
    policy: Completion,
    p0: Seq<usize>,
    out0: Seq<Vec<usize>>,
    out1: Seq<Vec<usize>>,
    out2: Seq<Vec<usize>>,
    j: usize,
)
    requires
        accept_step_holds(c, start, k, acc, policy, p0, out0, out1, out2, j),
    ensures
        appends_picks_below(c, start, k, acc, policy, p0, out0, out2, j + 1),
{
    lemma_accept_prefix(c, start, k, acc, policy, p0, out0, out1, out2, j);
    lemma_accept_sound(c, start, k, acc, policy, p0, out0, out1, out2, j);
    lemma_accept_complete(c, start, k, acc, policy, p0, out0, out1, out2, j);
    if distinct_from(out0, out0.len() as int) {
        lemma_accept_distinct(c, start, k, acc, policy, p0, out0, out1, out2, j);
    }
}

/// Skipping a position that no full pick can start with keeps what was
/// appended below it.
proof fn lemma_reject_step(
    c: Seq<u32>,
    start: int,
    k: nat,
    acc: u32,
    policy: Completion,
    p0: Seq<usize>,
    out0: Seq<Vec<usize>>,
    out1: Seq<Vec<usize>>,
    j: usize,
)
    requires
        k >= 1,
        j < c.len(),
        c[j as int] & acc != 0,
        appends_picks_below(c, start, k, acc, policy, p0, out0, out1, j as int),
    ensures
        appends_picks_below(c, start, k, acc, policy, p0, out0, out1, j + 1),
{
    assert forall|e: int| out0.len() <= e < out1.len() implies #[trigger] is_entry_below(
        c,
        start,
        k,
        acc,
        policy,
        p0,
        out1[e]@,
        j + 1,
    ) by {
        assert(is_entry_below(c, start, k, acc, policy, p0, out1[e]@, j as int));
        let x = choose|x: Seq<usize>|
            is_full_pick(c, start, k, acc, policy, x) && x[0] < j && out1[e]@ == p0 + x;
        assert(is_full_pick(c, start, k, acc, policy, x) && x[0] < j + 1 && out1[e]@ == p0 + x);
    }
    assert forall|x: Seq<usize>| #[trigger] is_full_pick(c, start, k, acc, policy, x) && x[0] < j
        + 1 implies holds_entry(out1, out0.len() as int, p0 + x) by {
        assert(c[x[0] as int] & acc == 0);
        assert(x[0] < j);
    }
}

/// Once every position has been tried, all full picks have been appended.
proof fn lemma_below_end(
    c: Seq<u32>,
    start: int,
    k: nat,
    acc: u32,
    policy: Completion,
    p0: Seq<usize>,
    out0: Seq<Vec<usize>>,
    out1: Seq<Vec<usize>>,
)
    requires
        k >= 1,
        appends_picks_below(c, start, k, acc, policy, p0, out0, out1, c.len() as int),
    ensures
        appends_picks(c, start, k, acc, policy, p0, out0, out1),
{
    assert forall|e: int| out0.len() <= e < out1.len() implies #[trigger] is_entry(
        c,
        start,
        k,
        acc,
        policy,
        p0,
        out1[e]@,
    ) by {
        assert(is_entry_below(c, start, k, acc, policy, p0, out1[e]@, c.len() as int));
        let x = choose|x: Seq<usize>|
            is_full_pick(c, start, k, acc, policy, x) && x[0] < c.len() && out1[e]@ == p0 + x;
        assert(is_full_pick(c, start, k, acc, policy, x) && out1[e]@ == p0 + x);
    }
    assert forall|x: Seq<usize>| #[trigger] is_full_pick(c, start, k, acc, policy, x) implies holds_entry(
        out1,
        out0.len() as int,
        p0 + x,
    ) by {
        assert(x[0] < c.len());
    }
}

/// Appends to `out`, once each, `prefix` followed by every full pick of `k`
/// positions of `c` at or after `start` against the running union `acc`.
/// Entries already in `out` are kept as they are.
pub fn search_from(
    c: &Vec<u32>,
    start: usize,
    k: usize,
    acc: u32,
    policy: Completion,
    prefix: &mut Vec<usize>,
    out: &mut Vec<Vec<usize>>,
)
    requires
        start <= c@.len(),
    ensures
        final(prefix)@ == old(prefix)@,
        appends_picks(c@, start as int, k as nat, acc, policy, old(prefix)@, old(out)@, final(out)@),
    decreases c@.len() - start,
{
    let ghost p0 = prefix@;
    let ghost out0 = out@;
    let ghost n0 = out@.len() as int;
    if k == 0 {
        proof {
            lemma_bits(0, acc, 0);
            assert forall|x: Seq<usize>| is_full_pick(c@, start as int, 0, acc, policy, x)
                implies x =~= Seq::<usize>::empty() && completes(policy, acc) by {}
            assert(union_of(c@, Seq::<usize>::empty()) == 0);
        }
        if is_complete(policy, acc) {
            let entry = prefix.clone();
            out.push(entry);
            proof {
                let x = Seq::<usize>::empty();
                assert(is_full_pick(c@, start as int, 0, acc, policy, x));
                assert(out@[n0]@ =~= p0 + x);
                assert(is_entry(c@, start as int, 0, acc, policy, p0, out@[n0]@));
                assert(holds_entry(out@, n0, p0 + x));
                assert(out@.subrange(0, n0) =~= out0);
            }
        } else {
            assert(out@.subrange(0, n0) =~= out0);
        }
        return;
    }
    let n = c.len();
    let mut j: usize = start;
    proof {
        assert(out@.subrange(0, n0) =~= out0);
    }
    while j < n
        invariant
            start <= j <= n,
            n == c@.len(),
            k >= 1,
            prefix@ == p0,
            out0.len() == n0,
            appends_picks_below(c@, start as int, k as nat, acc, policy, p0, out0, out@, j as int),
        decreases n - j,
    {
        if c[j] & acc == 0 {
            let ghost out1 = out@;
            prefix.push(j);
            search_from(c, j + 1, k - 1, acc | c[j], policy, prefix, out);
            prefix.pop();
            proof {
                lemma_accept_step(c@, start as int, k as nat, acc, policy, p0, out0, out1, out@, j);
            }
        } else {
            proof {
                lemma_reject_step(c@, start as int, k as nat, acc, policy, p0, out0, out@, j);
            }
        }
        j = j + 1;
    }
    proof {
        lemma_below_end(c@, start as int, k as nat, acc, policy, p0, out0, out@);
    }
}


/// `r` lists, once each, every full pick of `k` positions of `c` against
/// the starting union `acc`, and nothing else.
pub open spec fn enumerates(c: Seq<u32>, k: nat, acc: u32, policy: Completion, r: Seq<Vec<usize>>) -> bool {
    appends_picks(c, 0, k, acc, policy, Seq::empty(), Seq::empty(), r)
}

/// Every tuple of `n` positions of `bitsets`, in increasing order, whose
/// fingerprints are pairwise disjoint and meet the completion policy.
pub fn find_combinations(bitsets: &Vec<u32>, n: usize, policy: Completion) -> (r: Vec<Vec<usize>>)
    ensures
        enumerates(bitsets@, n as nat, 0, policy, r@),
{
    let mut prefix: Vec<usize> = Vec::new();
    let mut out: Vec<Vec<usize>> = Vec::new();
    search_from(bitsets, 0, n, 0, policy, &mut prefix, &mut out);
    out
}

/// The search of one partition: every tuple of `others` positions of
/// `candidates`, in increasing order, whose fingerprints are pairwise
/// disjoint, disjoint from `base`, and together with `base` meet the
/// completion policy.
pub fn search_partition(base: u32, candidates: &Vec<u32>, others: usize, policy: Completion) -> (r: Vec<Vec<usize>>)
    ensures
        enumerates(candidates@, others as nat, base, policy, r@),
{
    let mut prefix: Vec<usize> = Vec::new();
    let mut out: Vec<Vec<usize>> = Vec::new();
    search_from(candidates, 0, others, base, policy, &mut prefix, &mut out);
    out
}


/// Bitwise union of a sequence of fingerprints.
pub open spec fn union_all(s: Seq<u32>) -> u32
    decreases s.len(),
{
    if s.len() == 0 {
        0
    } else {
        union_all(s.drop_last()) | s.last()
    }
}

/// The fingerprints of a partition's tuple: `base`, then the candidates at
/// the picked positions.
pub fn partition_combo(base: u32, candidates: &Vec<u32>, picks: &Vec<usize>) -> (r: Vec<u32>)
    requires
        forall|a: int| 0 <= a < picks@.len() ==> #[trigger] picks@[a] < candidates@.len(),
    ensures
        r@.len() == picks@.len() + 1,
        r@[0] == base,
        forall|a: int| 0 <= a < picks@.len() ==> r@[a + 1] == candidates@[#[trigger] picks@[a] as int],
{
    let mut r: Vec<u32> = Vec::new();
    r.push(base);
    let mut a: usize = 0;
    while a < picks.len()
        invariant
            a <= picks@.len(),
            r@.len() == a + 1,
            r@[0] == base,
            forall|t: int| 0 <= t < picks@.len() ==> #[trigger] picks@[t] < candidates@.len(),
            forall|t: int| 0 <= t < a ==> r@[t + 1] == candidates@[#[trigger] picks@[t] as int],
        decreases picks@.len() - a,
    {
        r.push(candidates[picks[a]]);
        a = a + 1;
    }
    r
}

/// The union of all fingerprints of `fps`.
pub fn union_of_all(fps: &Vec<u32>) -> (r: u32)
    ensures
        r == union_all(fps@),
{
    let mut u: u32 = 0;
    let mut a: usize = 0;
    while a < fps.len()
        invariant
            a <= fps@.len(),
            u == union_all(fps@.subrange(0, a as int)),
        decreases fps@.len() - a,
    {
        assert(fps@.subrange(0, a + 1).drop_last() =~= fps@.subrange(0, a as int));
        u = u | fps[a];
        a = a + 1;
    }
    assert(fps@.subrange(0, fps@.len() as int) =~= fps@);
    u
}

/// Every emitted tuple is made of fingerprints that share no letter with
/// each other nor with the starting union.
pub proof fn lemma_emitted_disjoint(
    c: Seq<u32>,
    k: nat,
    acc: u32,
    policy: Completion,
    r: Seq<Vec<usize>>,
    e: int,
    a: int,
    b: int,
)
    requires
        enumerates(c, k, acc, policy, r),
        0 <= e < r.len(),
        0 <= a < b < k,
    ensures
        c[r[e]@[a] as int] & c[r[e]@[b] as int] == 0,
        c[r[e]@[a] as int] & acc == 0,
        r[e]@[a] < r[e]@[b] < c.len(),
{
    assert(is_entry(c, 0, k, acc, policy, Seq::empty(), r[e]@));
    let x = choose|x: Seq<usize>| is_full_pick(c, 0, k, acc, policy, x) && r[e]@ == Seq::<usize>::empty() + x;
    assert(r[e]@ =~= x);
}

/// In the one-missing-letter mode, every emitted tuple together with the
/// starting union leaves exactly one letter of the alphabet uncovered.
pub proof fn lemma_emitted_one_missing(c: Seq<u32>, k: nat, acc: u32, r: Seq<Vec<usize>>, e: int)
    requires
        enumerates(c, k, acc, Completion::OneMissing, r),
        0 <= e < r.len(),
    ensures
        has_one_missing(acc | union_of(c, r[e]@)),
{
    assert(is_entry(c, 0, k, acc, Completion::OneMissing, Seq::empty(), r[e]@));
    let x = choose|x: Seq<usize>|
        is_full_pick(c, 0, k, acc, Completion::OneMissing, x) && r[e]@ == Seq::<usize>::empty() + x;
    assert(r[e]@ =~= x);
}

/// Two strictly increasing sequences with the same elements are equal.
proof fn lemma_increasing_set_eq(x: Seq<usize>, y: Seq<usize>)
    requires
        forall|a: int, b: int| 0 <= a < b < x.len() ==> x[a] < x[b],
        forall|a: int, b: int| 0 <= a < b < y.len() ==> y[a] < y[b],
        x.to_set() == y.to_set(),
    ensures
        x == y,
    decreases x.len() + y.len(),
{
    if x.len() == 0 || y.len() == 0 {
        if x.len() > 0 {
            assert(x.to_set().contains(x[0]));
        }
        if y.len() > 0 {
            assert(y.to_set().contains(y[0]));
        }
        assert(x =~= y);
    } else {
        assert(x.to_set().contains(x[0]));
        assert(y.to_set().contains(y[0]));
        let i = choose|i: int| 0 <= i < y.len() && y[i] == x[0];
        let j = choose|j: int| 0 <= j < x.len() && x[j] == y[0];
        assert(x[0] == y[0]) by {
            if i > 0 {
                assert(y[0] < y[i]);
                if j > 0 {
                    assert(x[0] < x[j]);
                }
            }
        }
        let x1 = x.drop_first();
        let y1 = y.drop_first();
        assert(x1.to_set() =~= y1.to_set()) by {
            assert forall|v: usize| x1.to_set().contains(v) implies y1.to_set().contains(v) by {
                let a = choose|a: int| 0 <= a < x1.len() && x1[a] == v;
                assert(x[a + 1] == v && x[0] < v);
                assert(y.to_set().contains(v));
                let b = choose|b: int| 0 <= b < y.len() && y[b] == v;
                assert(b != 0);
                assert(y1[b - 1] == v);
            }
            assert forall|v: usize| y1.to_set().contains(v) implies x1.to_set().contains(v) by {
                let a = choose|a: int| 0 <= a < y1.len() && y1[a] == v;
                assert(y[a + 1] == v && y[0] < v);
                assert(x.to_set().contains(v));
                let b = choose|b: int| 0 <= b < x.len() && x[b] == v;
                assert(b != 0);
                assert(x1[b - 1] == v);
            }
        }
        lemma_increasing_set_eq(x1, y1);
        assert(x =~= seq![x[0]] + x1);
        assert(y =~= seq![y[0]] + y1);
    }
}

/// No two emitted tuples hold the same positions in another order: each
/// set of disjoint fingerprints is reported at most once.
pub proof fn lemma_emitted_once_as_set(
    c: Seq<u32>,
    k: nat,
    acc: u32,
    policy: Completion,
    r: Seq<Vec<usize>>,
    e1: int,
    e2: int,
)
    requires
        enumerates(c, k, acc, policy, r),
        0 <= e1 < e2 < r.len(),
    ensures
        r[e1]@.to_set() != r[e2]@.to_set(),
{
    assert(is_entry(c, 0, k, acc, policy, Seq::empty(), r[e1]@));
    assert(is_entry(c, 0, k, acc, policy, Seq::empty(), r[e2]@));
    let x1 = choose|x: Seq<usize>| is_full_pick(c, 0, k, acc, policy, x) && r[e1]@ == Seq::<usize>::empty() + x;
    let x2 = choose|x: Seq<usize>| is_full_pick(c, 0, k, acc, policy, x) && r[e2]@ == Seq::<usize>::empty() + x;
    assert(r[e1]@ =~= x1);
    assert(r[e2]@ =~= x2);
    assert(distinct_from(Seq::<Vec<usize>>::empty(), 0));
    if r[e1]@.to_set() == r[e2]@.to_set() {
        lemma_increasing_set_eq(r[e1]@, r[e2]@);
    }
}

} // verus!
