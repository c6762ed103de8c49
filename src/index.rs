//! For each fingerprint, the later fingerprints that share no letter with it.
use vstd::prelude::*;

use crate::search::{is_full_pick, is_pick, union_of, Completion};

verus! {

/// The members of `s` that share no bit with `base`, in order.
pub open spec fn disjoint_from(base: u32, s: Seq<u32>) -> Seq<u32>
    decreases s.len(),
{
    if s.len() == 0 {
        Seq::empty()
    } else {
        let p = disjoint_from(base, s.drop_last());
        if s.last() & base == 0 {
            p.push(s.last())
        } else {
            p
        }
    }
}

/// The fingerprints after position `i` of `c` that share no letter with `c[i]`.
pub open spec fn compatible_after(c: Seq<u32>, i: int) -> Seq<u32> {
    disjoint_from(c[i], c.subrange(i + 1, c.len() as int))
}

/// Pairs each fingerprint of `bitsets` with the later fingerprints that
/// share no letter with it.
pub fn build_index(bitsets: &Vec<u32>) -> (r: Vec<(u32, Vec<u32>)>)
    ensures
        r@.len() == bitsets@.len(),
        forall|i: int|
            0 <= i < r@.len() ==> (#[trigger] r@[i]).0 == bitsets@[i] && r@[i].1@
                == compatible_after(bitsets@, i),
{
    let n = bitsets.len();
    let mut r: Vec<(u32, Vec<u32>)> = Vec::new();
    let mut i: usize = 0;
    while i < n
        invariant
            n == bitsets@.len(),
            i <= n,
            r@.len() == i,
            forall|t: int|
                0 <= t < i ==> (#[trigger] r@[t]).0 == bitsets@[t] && r@[t].1@
                    == compatible_after(bitsets@, t),
        decreases n - i,
    {
        let mut v: Vec<u32> = Vec::new();
        let mut j: usize = i + 1;
        proof {
            assert(bitsets@.subrange(i + 1, i + 1) =~= Seq::<u32>::empty());
        }
        while j < n
            invariant
                n == bitsets@.len(),
                i < n,
                i + 1 <= j <= n,
                v@ == disjoint_from(bitsets@[i as int], bitsets@.subrange(i + 1, j as int)),
            decreases n - j,
        {
            proof {
                let s = bitsets@.subrange(i + 1, j + 1);
                assert(s.drop_last() =~= bitsets@.subrange(i + 1, j as int));
                assert(s.last() == bitsets@[j as int]);
            }
            if bitsets[j] & bitsets[i] == 0 {
                v.push(bitsets[j]);
            }
            j = j + 1;
        }
        r.push((bitsets[i], v));
        i = i + 1;
    }
    r
}


/// How many members of `s` before position `p` share no bit with `base`.
pub open spec fn kept_before(base: u32, s: Seq<u32>, p: int) -> int {
    disjoint_from(base, s.subrange(0, p)).len() as int
}

/// A shorter prefix of `s` filters to a prefix of what a longer one does.
proof fn lemma_disjoint_prefix(base: u32, s: Seq<u32>, p: int, p2: int)
    requires
        0 <= p <= p2 <= s.len(),
    ensures
        disjoint_from(base, s.subrange(0, p)).len() <= disjoint_from(base, s.subrange(0, p2)).len(),
        forall|q: int|
            0 <= q < disjoint_from(base, s.subrange(0, p)).len() ==> disjoint_from(
                base,
                s.subrange(0, p2),
            )[q] == #[trigger] disjoint_from(base, s.subrange(0, p))[q],
    decreases p2 - p,
{
    if p < p2 {
        lemma_disjoint_prefix(base, s, p, p2 - 1);
        assert(s.subrange(0, p2).drop_last() =~= s.subrange(0, p2 - 1));
    }
}

/// A kept member of `s` sits in the filtered sequence at the number of
/// kept members before it.
proof fn lemma_kept_position(base: u32, s: Seq<u32>, p: int)
    requires
        0 <= p < s.len(),
        s[p] & base == 0,
    ensures
        0 <= kept_before(base, s, p) < disjoint_from(base, s).len(),
        disjoint_from(base, s)[kept_before(base, s, p)] == s[p],
        kept_before(base, s, p + 1) == kept_before(base, s, p) + 1,
{
    assert(s.subrange(0, p + 1).drop_last() =~= s.subrange(0, p));
    assert(s.subrange(0, s.len() as int) =~= s);
    lemma_disjoint_prefix(base, s, p + 1, s.len() as int);
    assert(disjoint_from(base, s.subrange(0, p + 1))[kept_before(base, s, p)] == s[p]);
}

/// Every member of the filtered sequence comes from a kept member of `s`.
proof fn lemma_kept_source(base: u32, s: Seq<u32>, big: int, q: int)
    requires
        0 <= big <= s.len(),
        0 <= q < disjoint_from(base, s.subrange(0, big)).len(),
    ensures
        exists|p: int|
            0 <= p < big && s[p] & base == 0 && #[trigger] kept_before(base, s, p) == q,
    decreases big,
{
    let t = s.subrange(0, big);
    assert(t.drop_last() =~= s.subrange(0, big - 1));
    if q < disjoint_from(base, s.subrange(0, big - 1)).len() {
        lemma_kept_source(base, s, big - 1, q);
        let p = choose|p: int| 0 <= p < big - 1 && s[p] & base == 0 && #[trigger] kept_before(base, s, p) == q;
    } else {
        assert(s[big - 1] & base == 0);
        assert(kept_before(base, s, big - 1) == q);
    }
}

/// The union of picks depends only on the fingerprints they pick.
proof fn lemma_union_same(c: Seq<u32>, x: Seq<usize>, v: Seq<u32>, y: Seq<usize>)
    requires
        x.len() == y.len(),
        forall|a: int| 0 <= a < x.len() ==> c[#[trigger] x[a] as int] == v[y[a] as int],
    ensures
        union_of(c, x) == union_of(v, y),
    decreases x.len(),
{
    if x.len() > 0 {
        assert forall|a: int| 0 <= a < x.len() - 1 implies c[#[trigger] x.drop_first()[a] as int]
            == v[y.drop_first()[a] as int] by {
            assert(x.drop_first()[a] == x[a + 1]);
        }
        lemma_union_same(c, x.drop_first(), v, y.drop_first());
        assert(c[x[0] as int] == v[y[0] as int]);
    }
}

/// The positions `z` of `v` pick the same fingerprints as the positions of
/// `x` after its first.
pub open spec fn matches_rest(v: Seq<u32>, z: Seq<usize>, c: Seq<u32>, x: Seq<usize>) -> bool {
    &&& z.len() + 1 == x.len()
    &&& forall|a: int| 0 <= a < z.len() ==> #[trigger] v[z[a] as int] == c[x[a + 1] as int]
}

/// Filtering never lengthens a sequence.
proof fn lemma_disjoint_len(base: u32, s: Seq<u32>)
    ensures
        disjoint_from(base, s).len() <= s.len(),
    decreases s.len(),
{
    if s.len() > 0 {
        lemma_disjoint_len(base, s.drop_last());
    }
}

/// A full pick over all fingerprints that starts at `i` has a matching
/// pick in the partition of `i`.
proof fn lemma_partition_forward(c: Seq<u32>, n: nat, policy: Completion, i: int, x: Seq<usize>)
    requires
        n >= 1,
        0 <= i < c.len(),
        c.len() <= usize::MAX,
        is_full_pick(c, 0, n, 0, policy, x),
        x[0] == i,
    ensures
        exists|z: Seq<usize>|
            is_full_pick(compatible_after(c, i), 0, (n - 1) as nat, c[i], policy, z) && matches_rest(
                compatible_after(c, i),
                z,
                c,
                x,
            ),
{
    let s = c.subrange(i + 1, c.len() as int);
    let v = compatible_after(c, i);
    let base = c[i];
    assert(v == disjoint_from(base, s));
    assert(forall|u: u32| #![auto] u & 0 == 0 && 0 | u == u) by {
        assert(forall|u: u32| #![auto] u & 0 == 0 && 0 | u == u) by (bit_vector);
    }
    assert(forall|p: u32, q: u32| #![auto] p & q == q & p) by {
        assert(forall|p: u32, q: u32| #![auto] p & q == q & p) by (bit_vector);
    }
    let z = Seq::new((n - 1) as nat, |a: int| kept_before(base, s, x[a + 1] - i - 1) as usize);
    let xt = x.drop_first();
    assert forall|a: int| 0 <= a < n - 1 implies #[trigger] v[z[a] as int] == c[x[a + 1] as int]
        && 0 <= kept_before(base, s, x[a + 1] - i - 1) < v.len() && z[a] as int == kept_before(
        base,
        s,
        x[a + 1] - i - 1,
    ) by {
        assert(x[0] < x[a + 1]);
        assert(c[x[0] as int] & c[x[a + 1] as int] == 0);
        assert(s[x[a + 1] - i - 1] == c[x[a + 1] as int]);
        lemma_kept_position(base, s, x[a + 1] - i - 1);
        lemma_disjoint_len(base, s);
    }
    assert forall|a: int, b: int| 0 <= a < b < z.len() implies z[a] < z[b] by {
        assert(x[a + 1] < x[b + 1]);
        assert(c[x[0] as int] & c[x[a + 1] as int] == 0);
        assert(c[x[0] as int] & c[x[b + 1] as int] == 0);
        lemma_kept_position(base, s, x[a + 1] - i - 1);
        lemma_kept_position(base, s, x[b + 1] - i - 1);
        lemma_disjoint_len(base, s);
        lemma_disjoint_prefix(base, s, x[a + 1] - i, x[b + 1] - i - 1);
    }
    assert forall|a: int| 0 <= a < z.len() implies v[#[trigger] z[a] as int] & base == 0 by {
        assert(c[x[0] as int] & c[x[a + 1] as int] == 0);
    }
    assert forall|a: int, b: int| 0 <= a < b < z.len() implies #[trigger] v[z[a] as int]
        & #[trigger] v[z[b] as int] == 0 by {
        assert(c[x[a + 1] as int] & c[x[b + 1] as int] == 0);
    }
    assert(is_pick(v, 0, (n - 1) as nat, base, z));
    assert forall|a: int| 0 <= a < xt.len() implies c[#[trigger] xt[a] as int] == v[z[a] as int] by {
        assert(xt[a] == x[a + 1]);
    }
    lemma_union_same(c, xt, v, z);
    assert(union_of(c, x) == base | union_of(c, xt));
    assert(is_full_pick(v, 0, (n - 1) as nat, base, policy, z));
    assert(matches_rest(v, z, c, x));
}

/// A full pick in the partition of `i` comes from a full pick over all
/// fingerprints that starts at `i`.
proof fn lemma_partition_backward(c: Seq<u32>, n: nat, policy: Completion, i: int, y: Seq<usize>)
    requires
        n >= 1,
        0 <= i < c.len(),
        c.len() <= usize::MAX,
        is_full_pick(compatible_after(c, i), 0, (n - 1) as nat, c[i], policy, y),
    ensures
        exists|z: Seq<usize>|
            is_full_pick(c, 0, n, 0, policy, z) && z[0] == i && matches_rest(
                compatible_after(c, i),
                y,
                c,
                z,
            ),
{
    let s = c.subrange(i + 1, c.len() as int);
    let v = compatible_after(c, i);
    let base = c[i];
    assert(v == disjoint_from(base, s));
    assert(forall|u: u32| #![auto] u & 0 == 0 && 0 | u == u) by {
        assert(forall|u: u32| #![auto] u & 0 == 0 && 0 | u == u) by (bit_vector);
    }
    assert(forall|p: u32, q: u32| #![auto] p & q == q & p) by {
        assert(forall|p: u32, q: u32| #![auto] p & q == q & p) by (bit_vector);
    }
    assert(s.subrange(0, s.len() as int) =~= s);
    assert forall|a: int| 0 <= a < y.len() implies exists|p: int|
        0 <= p < s.len() && s[p] & base == 0 && #[trigger] kept_before(base, s, p) == #[trigger] y[a] by {
        lemma_kept_source(base, s, s.len() as int, y[a] as int);
    }
    let src = Seq::new((n - 1) as nat, |a: int| choose|p: int|
        0 <= p < s.len() && s[p] & base == 0 && #[trigger] kept_before(base, s, p) == y[a]);
    let zt = Seq::new((n - 1) as nat, |a: int| (i + 1 + src[a]) as usize);
    let z = seq![i as usize] + zt;
    assert forall|a: int| 0 <= a < n - 1 implies #[trigger] v[y[a] as int] == c[zt[a] as int]
        && c[zt[a] as int] & base == 0 && z[a + 1] == zt[a] && i < zt[a] < c.len() by {
        let p = src[a];
        assert(0 <= p < s.len() && s[p] & base == 0 && kept_before(base, s, p) == y[a]);
        lemma_kept_position(base, s, p);
        assert(s[p] == c[i + 1 + p]);
    }
    assert forall|a: int, b: int| 0 <= a < b < n - 1 implies zt[a] < zt[b] by {
        let pa = src[a];
        let pb = src[b];
        assert(y[a] < y[b]);
        if pb <= pa {
            lemma_kept_position(base, s, pb);
            lemma_disjoint_prefix(base, s, pb + 1, pa);
            lemma_kept_position(base, s, pa);
        }
    }
    assert forall|a: int| 0 <= a < z.len() implies 0 <= #[trigger] z[a] < c.len() by {
        if a > 0 {
            assert(z[a] == zt[a - 1]);
        }
    }
    assert forall|a: int, b: int| 0 <= a < b < z.len() implies z[a] < z[b] by {
        assert(z[b] == zt[b - 1]);
        if a > 0 {
            assert(z[a] == zt[a - 1]);
        }
    }
    assert forall|a: int, b: int| 0 <= a < b < z.len() implies #[trigger] c[z[a] as int]
        & #[trigger] c[z[b] as int] == 0 by {
        assert(z[b] == zt[b - 1]);
        if a > 0 {
            assert(z[a] == zt[a - 1]);
            assert(v[y[a - 1] as int] & v[y[b - 1] as int] == 0);
        }
    }
    assert forall|a: int| 0 <= a < z.len() implies c[#[trigger] z[a] as int] & 0 == 0 by {}
    assert(is_pick(c, 0, n, 0, z));
    assert(z.drop_first() =~= zt);
    assert forall|a: int| 0 <= a < zt.len() implies c[#[trigger] zt[a] as int] == v[y[a] as int] by {}
    lemma_union_same(c, zt, v, y);
    assert(union_of(c, z) == base | union_of(c, zt));
    assert(is_full_pick(c, 0, n, 0, policy, z));
    assert(matches_rest(v, y, c, z));
}

/// The search of the partition of position `i` finds, over its compatible
/// fingerprints, exactly the tuples that the search over all fingerprints
/// finds starting at `i`: each full pick of `n` positions of `c` that starts
/// at `i` has a full pick of `n - 1` positions of `compatible_after(c, i)`
/// against `c[i]` with the same remaining fingerprints, and each such pick
/// comes from one.
pub proof fn lemma_partition_matches(
    c: Seq<u32>,
    n: nat,
    policy: Completion,
    i: int,
    x: Seq<usize>,
    y: Seq<usize>,
)
    requires
        n >= 1,
        0 <= i < c.len(),
        c.len() <= usize::MAX,
    ensures
        is_full_pick(c, 0, n, 0, policy, x) && x[0] == i ==> exists|z: Seq<usize>|
            is_full_pick(compatible_after(c, i), 0, (n - 1) as nat, c[i], policy, z) && matches_rest(
                compatible_after(c, i),
                z,
                c,
                x,
            ),
        is_full_pick(compatible_after(c, i), 0, (n - 1) as nat, c[i], policy, y) ==> exists|
            z: Seq<usize>,
        |
            is_full_pick(c, 0, n, 0, policy, z) && z[0] == i && matches_rest(
                compatible_after(c, i),
                y,
                c,
                z,
            ),
{
    if is_full_pick(c, 0, n, 0, policy, x) && x[0] == i {
        lemma_partition_forward(c, n, policy, i, x);
    }
    if is_full_pick(compatible_after(c, i), 0, (n - 1) as nat, c[i], policy, y) {
        lemma_partition_backward(c, n, policy, i, y);
    }
}

} // verus!
