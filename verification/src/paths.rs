//! Paths through a binary relation: splitting a path, and the bound on the
//! length of the paths that matter. A relation whose atoms lie in a set of
//! `m` atoms joins two atoms by some path exactly when it joins them by a
//! path of at most `m` steps.

use vstd::prelude::*;

use vstd::arithmetic::power2::{lemma_pow2_unfold, pow2};
use vstd::set_lib::{lemma_len_subset, lemma_len_union, lemma_map_size};

use crate::relspec::{closure_spec, join_spec, lemma_join_binary, lemma_reaches_chain, lemma_reaches_peel_right, lemma_reaches_right, pair, reaches};

verus! {

/// A path splits after any of its first steps.
pub proof fn lemma_reaches_split(r: Set<Seq<nat>>, x: nat, y: nat, n: nat, a: nat) -> (z: nat)
    requires
        a < n,
        reaches(r, x, y, n),
    ensures
        reaches(r, x, z, a),
        reaches(r, z, y, (n - a - 1) as nat),
    decreases a,
{
    let z1 = choose|z: nat| #[trigger] r.contains(pair(x, z)) && reaches(r, z, y, (n - 1) as nat);
    if a == 0 {
        z1
    } else {
        let z = lemma_reaches_split(r, z1, y, (n - 1) as nat, (a - 1) as nat);
        assert(r.contains(pair(x, z1)) && reaches(r, z1, z, (a - 1) as nat));
        z
    }
}

/// The atoms `x` reaches in at most `k + 1` steps.
pub open spec fn reach_within(r: Set<Seq<nat>>, x: nat, k: nat) -> Set<nat> {
    Set::new(|y: nat| exists|n: nat| n <= k && #[trigger] reaches(r, x, y, n))
}

/// The atoms one step after some atom of `ys`.
pub open spec fn succ(r: Set<Seq<nat>>, ys: Set<nat>) -> Set<nat> {
    Set::new(|z: nat| exists|w: nat| ys.contains(w) && #[trigger] r.contains(pair(w, z)))
}

/// Every pair of `r` joins two atoms of `s`.
pub open spec fn over(r: Set<Seq<nat>>, s: Set<nat>) -> bool {
    forall|t: Seq<nat>| #[trigger] r.contains(t) ==> t.len() == 2 && s.contains(t[0]) && s.contains(t[1])
}

/// One more step: the atoms within `k + 2` steps are those within `k + 1`
/// and their successors; the atoms within one step are the successors of
/// `x`.
proof fn lemma_reach_step(r: Set<Seq<nat>>, x: nat, k: nat)
    ensures
        reach_within(r, x, k + 1) == reach_within(r, x, k).union(succ(r, reach_within(r, x, k))),
        reach_within(r, x, 0) == succ(r, set![x]),
{
    let a = reach_within(r, x, k + 1);
    let b = reach_within(r, x, k).union(succ(r, reach_within(r, x, k)));
    assert forall|y: nat| a.contains(y) implies b.contains(y) by {
        let n = choose|n: nat| n <= k + 1 && #[trigger] reaches(r, x, y, n);
        if n == k + 1 {
            let w = lemma_reaches_peel_right(r, x, y, n);
            assert(reach_within(r, x, k).contains(w));
        }
    }
    assert forall|y: nat| b.contains(y) implies a.contains(y) by {
        if !reach_within(r, x, k).contains(y) {
            let w = choose|w: nat| reach_within(r, x, k).contains(w) && #[trigger] r.contains(pair(w, y));
            let n = choose|n: nat| n <= k && #[trigger] reaches(r, x, w, n);
            lemma_reaches_right(r, x, w, y, n);
        }
    }
    assert(a =~= b);
    assert forall|y: nat| reach_within(r, x, 0).contains(y) <==> succ(r, set![x]).contains(y) by {
        if succ(r, set![x]).contains(y) {
            assert(reaches(r, x, y, 0));
        }
    }
    assert(reach_within(r, x, 0) =~= succ(r, set![x]));
}

/// Reach sets grow with the step bound.
proof fn lemma_reach_mono(r: Set<Seq<nat>>, x: nat, k: nat, j: nat)
    requires
        k <= j,
    ensures
        reach_within(r, x, k).subset_of(reach_within(r, x, j)),
{
}

/// Every atom reached lies in a set the relation's pairs stay within.
proof fn lemma_reach_over(r: Set<Seq<nat>>, s: Set<nat>, x: nat, k: nat)
    requires
        over(r, s),
    ensures
        reach_within(r, x, k).subset_of(s),
{
    assert forall|y: nat| reach_within(r, x, k).contains(y) implies s.contains(y) by {
        let n = choose|n: nat| n <= k && #[trigger] reaches(r, x, y, n);
        if n == 0 {
            assert(r.contains(pair(x, y)));
        } else {
            let w = lemma_reaches_peel_right(r, x, y, n);
            assert(r.contains(pair(w, y)));
        }
    }
}

/// Once a reach set stops growing it never grows again.
proof fn lemma_reach_stable(r: Set<Seq<nat>>, x: nat, k: nat, j: nat)
    requires
        reach_within(r, x, k) == reach_within(r, x, k + 1),
        k <= j,
    ensures
        reach_within(r, x, j) == reach_within(r, x, k),
    decreases j,
{
    if j > k {
        lemma_reach_stable(r, x, k, (j - 1) as nat);
        lemma_reach_step(r, x, (j - 1) as nat);
        lemma_reach_step(r, x, k);
    }
}

/// A finite proper subset is smaller.
proof fn lemma_strict_subset_len(a: Set<nat>, b: Set<nat>)
    requires
        b.finite(),
        a.subset_of(b),
        a != b,
    ensures
        a.len() < b.len(),
{
    if b.subset_of(a) {
        assert(a =~= b);
    }
    let w = choose|w: nat| b.contains(w) && !a.contains(w);
    assert(a.subset_of(b.remove(w)));
    lemma_len_subset(a, b.remove(w));
}

/// A reach set still growing after `k + 1` steps has at least `k + 2`
/// atoms.
proof fn lemma_reach_grows(r: Set<Seq<nat>>, s: Set<nat>, x: nat, k: nat)
    requires
        s.finite(),
        over(r, s),
        reach_within(r, x, k) != reach_within(r, x, k + 1),
    ensures
        reach_within(r, x, k + 1).len() >= k + 2,
    decreases k,
{
    lemma_reach_over(r, s, x, k);
    lemma_reach_over(r, s, x, k + 1);
    lemma_len_subset(reach_within(r, x, k + 1), s);
    lemma_len_subset(reach_within(r, x, k), s);
    lemma_reach_mono(r, x, k, k + 1);
    lemma_strict_subset_len(reach_within(r, x, k), reach_within(r, x, k + 1));
    if k == 0 {
        if reach_within(r, x, 0).len() == 0 {
            reach_within(r, x, 0).lemma_len0_is_empty();
            lemma_reach_step(r, x, 0);
            assert(succ(r, reach_within(r, x, 0)) =~= Set::<nat>::empty());
            assert(reach_within(r, x, 1) =~= reach_within(r, x, 0));
        }
    } else {
        if reach_within(r, x, (k - 1) as nat) == reach_within(r, x, k) {
            lemma_reach_stable(r, x, (k - 1) as nat, k + 1);
        }
        lemma_reach_grows(r, s, x, (k - 1) as nat);
    }
}

/// Over a set of `m` atoms, a path joins two atoms only if a path of fewer
/// than `m + 1` steps does (at most `m` edges).
pub proof fn lemma_short_path(r: Set<Seq<nat>>, s: Set<nat>, x: nat, y: nat, n: nat)
    requires
        s.finite(),
        over(r, s),
        reaches(r, x, y, n),
    ensures
        exists|n2: nat| n2 < s.len() && #[trigger] reaches(r, x, y, n2),
{
    assert(reach_within(r, x, n).contains(y));
    lemma_reach_over(r, s, x, n);
    let m = s.len();
    assert(m >= 1) by {
        if m == 0 {
            s.lemma_len0_is_empty();
        }
    }
    let k0 = (m - 1) as nat;
    if reach_within(r, x, k0) != reach_within(r, x, k0 + 1) {
        lemma_reach_grows(r, s, x, k0);
        lemma_reach_over(r, s, x, k0 + 1);
        lemma_len_subset(reach_within(r, x, k0 + 1), s);
    }
    let j = if n > k0 { n } else { k0 };
    lemma_reach_stable(r, x, k0, j);
    lemma_reach_mono(r, x, n, j);
    let n2 = choose|n2: nat| n2 <= k0 && #[trigger] reaches(r, x, y, n2);
}

/// The pairs joined by a path of at most `2^k` steps.
pub open spec fn paths_within(r: Set<Seq<nat>>, k: nat) -> Set<Seq<nat>> {
    Set::new(|t: Seq<nat>| t.len() == 2 && exists|n: nat| n < pow2(k) && #[trigger] reaches(r, t[0], t[1], n))
}

/// A binary relation is its own paths of one step.
pub proof fn lemma_paths_zero(r: Set<Seq<nat>>)
    requires
        forall|t: Seq<nat>| #[trigger] r.contains(t) ==> t.len() == 2,
    ensures
        paths_within(r, 0) == r,
{
    vstd::arithmetic::power2::lemma2_to64();
    assert forall|t: Seq<nat>| paths_within(r, 0).contains(t) <==> r.contains(t) by {
        if r.contains(t) {
            assert(t =~= pair(t[0], t[1]));
            assert(reaches(r, t[0], t[1], 0));
        }
        if paths_within(r, 0).contains(t) {
            let n = choose|n: nat| n < pow2(0) && #[trigger] reaches(r, t[0], t[1], n);
            assert(t =~= pair(t[0], t[1]));
        }
    }
    assert(paths_within(r, 0) =~= r);
}

/// Squaring: the paths of at most `2^(k+1)` steps are those of at most
/// `2^k` and the joins of two of them.
pub proof fn lemma_paths_square(r: Set<Seq<nat>>, k: nat)
    ensures
        paths_within(r, k + 1) == paths_within(r, k).union(join_spec(paths_within(r, k), paths_within(r, k))),
{
    let p = paths_within(r, k);
    let p1 = paths_within(r, k + 1);
    lemma_pow2_unfold(k + 1);
    assert forall|t: Seq<nat>| #[trigger] p.contains(t) ==> t.len() == 2 by {}
    lemma_join_binary(p, p);
    assert forall|t: Seq<nat>| p1.contains(t) implies p.union(join_spec(p, p)).contains(t) by {
        let n = choose|n: nat| n < pow2(k + 1) && #[trigger] reaches(r, t[0], t[1], n);
        if n >= pow2(k) {
            let a = (pow2(k) - 1) as nat;
            let z = lemma_reaches_split(r, t[0], t[1], n, a);
            assert(p.contains(pair(t[0], z)));
            assert(p.contains(pair(z, t[1])));
        }
    }
    assert forall|t: Seq<nat>| p.union(join_spec(p, p)).contains(t) implies p1.contains(t) by {
        if p.contains(t) {
            let n = choose|n: nat| n < pow2(k) && #[trigger] reaches(r, t[0], t[1], n);
        } else {
            let m = choose|m: nat| p.contains(pair(t[0], m)) && p.contains(pair(m, t[1]));
            let n1 = choose|n: nat| n < pow2(k) && #[trigger] reaches(r, t[0], m, n);
            let n2 = choose|n: nat| n < pow2(k) && #[trigger] reaches(r, m, t[1], n);
            lemma_reaches_chain(r, t[0], m, t[1], n1, n2);
        }
    }
    assert(p1 =~= p.union(join_spec(p, p)));
}

/// Once `2^k` covers the number of atoms, the short paths are the whole
/// closure.
pub proof fn lemma_paths_closure(r: Set<Seq<nat>>, s: Set<nat>, k: nat)
    requires
        s.finite(),
        over(r, s),
        s.len() <= pow2(k),
    ensures
        paths_within(r, k) == closure_spec(r),
{
    assert forall|t: Seq<nat>| closure_spec(r).contains(t) implies paths_within(r, k).contains(t) by {
        let n = choose|n: nat| reaches(r, t[0], t[1], n);
        lemma_short_path(r, s, t[0], t[1], n);
        let n2 = choose|n2: nat| n2 < s.len() && #[trigger] reaches(r, t[0], t[1], n2);
    }
    assert(paths_within(r, k) =~= closure_spec(r));
}

/// The pairs over a set of atoms.
pub open spec fn pairs_over(s: Set<nat>) -> Set<Seq<nat>> {
    Set::new(|t: Seq<nat>| t.len() == 2 && s.contains(t[0]) && s.contains(t[1]))
}

/// There are at most `m²` pairs over `m` atoms.
pub proof fn lemma_pairs_over_len(s: Set<nat>)
    requires
        s.finite(),
    ensures
        pairs_over(s).finite(),
        pairs_over(s).len() <= s.len() * s.len(),
    decreases s.len(),
{
    if s.len() == 0 {
        s.lemma_len0_is_empty();
        assert(pairs_over(s) =~= Set::<Seq<nat>>::empty());
    } else {
        let a = s.choose();
        let s1 = s.remove(a);
        lemma_pairs_over_len(s1);
        let row = s.map(|b: nat| pair(a, b));
        let col = s1.map(|b: nat| pair(b, a));
        assert(vstd::relations::injective_on(|b: nat| pair(a, b), s)) by {
            assert forall|x: nat, y: nat| s.contains(x) && s.contains(y) && pair(a, x) == pair(a, y) implies x == y by {
                assert(pair(a, x)[1] == pair(a, y)[1]);
            }
        }
        assert(vstd::relations::injective_on(|b: nat| pair(b, a), s1)) by {
            assert forall|x: nat, y: nat| s1.contains(x) && s1.contains(y) && pair(x, a) == pair(y, a) implies x == y by {
                assert(pair(x, a)[0] == pair(y, a)[0]);
            }
        }
        lemma_map_size(s, row, |b: nat| pair(a, b));
        lemma_map_size(s1, col, |b: nat| pair(b, a));
        let u = pairs_over(s1).union(row).union(col);
        assert(pairs_over(s).subset_of(u)) by {
            assert forall|t: Seq<nat>| pairs_over(s).contains(t) implies u.contains(t) by {
                if t[0] == a {
                    assert(t =~= pair(a, t[1]));
                    assert(row.contains(pair(a, t[1])));
                } else if t[1] == a {
                    assert(t =~= pair(t[0], a));
                    assert(s1.contains(t[0]));
                    assert(col.contains(pair(t[0], a)));
                }
            }
        }
        lemma_len_union(pairs_over(s1), row);
        lemma_len_union(pairs_over(s1).union(row), col);
        lemma_len_subset(pairs_over(s), u);
        let m = s.len();
        assert((m - 1) * (m - 1) + m + (m - 1) == m * m) by (nonlinear_arith)
            requires
                m >= 1,
        ;
    }
}

} // verus!
