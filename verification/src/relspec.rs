//! The mathematical meaning of the relational operators, over sets of atom
//! sequences, and the facts about them the implementations rely on.

use vstd::prelude::*;

use crate::ir::{RelBinOp, RelConst, RelUnOp};

verus! {

/// The relation a constant stands for over a universe of `n` atoms: nothing,
/// every atom, or every atom paired with itself.
pub open spec fn const_spec(c: RelConst, n: nat) -> Set<Seq<nat>> {
    match c {
        RelConst::Empty => Set::empty(),
        RelConst::Univ => Set::new(|t: Seq<nat>| t.len() == 1 && t[0] < n),
        RelConst::Iden => Set::new(|t: Seq<nat>| t.len() == 2 && t[0] == t[1] && t[0] < n),
    }
}

/// The arity of a constant.
pub open spec fn const_arity(c: RelConst) -> nat {
    match c {
        RelConst::Iden => 2,
        _ => 1,
    }
}

/// The meaning of a unary relational operator over a universe of `n` atoms:
/// the transpose, the transitive closure, or that closure with the identity.
pub open spec fn rel_unary_spec(op: RelUnOp, a: Set<Seq<nat>>, n: nat) -> Set<Seq<nat>> {
    match op {
        RelUnOp::Transpose => transpose_spec(a),
        RelUnOp::Closure => closure_spec(a),
        RelUnOp::ReflexiveClosure => closure_spec(a).union(const_spec(RelConst::Iden, n)),
    }
}

/// The pair `<x, y>`.
pub open spec fn pair(x: nat, y: nat) -> Seq<nat> {
    seq![x, y]
}

/// Cartesian product: every concatenation of a tuple of `a` with one of `b`.
pub open spec fn product_spec(a: Set<Seq<nat>>, b: Set<Seq<nat>>) -> Set<Seq<nat>> {
    Set::new(
        |t: Seq<nat>|
            exists|x: Seq<nat>, y: Seq<nat>| a.contains(x) && b.contains(y) && t == x + y,
    )
}

/// Relational join: for each `x ∈ a` and `y ∈ b` whose last and first atoms
/// agree, `x` without its last atom followed by `y` without its first.
pub open spec fn join_spec(a: Set<Seq<nat>>, b: Set<Seq<nat>>) -> Set<Seq<nat>> {
    Set::new(
        |t: Seq<nat>|
            exists|x: Seq<nat>, y: Seq<nat>|
                #![trigger a.contains(x), b.contains(y)]
                a.contains(x) && b.contains(y) && x.len() >= 1 && y.len() >= 1 && x.last() == y[0]
                    && t == x.drop_last() + y.drop_first(),
    )
}

/// The first atoms of the tuples of `b`.
pub open spec fn domain_spec(b: Set<Seq<nat>>) -> Set<nat> {
    Set::new(|v: nat| exists|y: Seq<nat>| b.contains(y) && y.len() >= 1 && y[0] == v)
}

/// Override `a ++ b`: all of `b`, plus the tuples of `a` whose first atom is
/// not a first atom of `b`.
pub open spec fn override_spec(a: Set<Seq<nat>>, b: Set<Seq<nat>>) -> Set<Seq<nat>> {
    b + a.filter(|x: Seq<nat>| !domain_spec(b).contains(x[0]))
}

/// Transpose of a binary relation: every pair reversed.
pub open spec fn transpose_spec(a: Set<Seq<nat>>) -> Set<Seq<nat>> {
    Set::new(|t: Seq<nat>| t.len() == 2 && a.contains(pair(t[1], t[0])))
}

/// `x` reaches `y` through `r` in exactly `n + 1` steps.
pub open spec fn reaches(r: Set<Seq<nat>>, x: nat, y: nat, n: nat) -> bool
    decreases n,
{
    if n == 0 {
        r.contains(pair(x, y))
    } else {
        exists|z: nat| #[trigger] r.contains(pair(x, z)) && reaches(r, z, y, (n - 1) as nat)
    }
}

/// Transitive closure of a binary relation: the pairs joined by some path.
pub open spec fn closure_spec(r: Set<Seq<nat>>) -> Set<Seq<nat>> {
    Set::new(|t: Seq<nat>| t.len() == 2 && exists|n: nat| reaches(r, t[0], t[1], n))
}

/// A binary relation is transitive.
pub open spec fn transitive(s: Set<Seq<nat>>) -> bool {
    forall|x: nat, y: nat, z: nat|
        #![trigger s.contains(pair(x, y)), s.contains(pair(y, z))]
        s.contains(pair(x, y)) && s.contains(pair(y, z)) ==> s.contains(pair(x, z))
}

/// A set of tuples all of length `n`.
pub open spec fn all_of_arity(s: Set<Seq<nat>>, n: nat) -> bool {
    forall|t: Seq<nat>| #[trigger] s.contains(t) ==> t.len() == n
}

/// Two paths chain into one.
pub proof fn lemma_reaches_chain(r: Set<Seq<nat>>, x: nat, z: nat, y: nat, n: nat, m: nat)
    requires
        reaches(r, x, z, n),
        reaches(r, z, y, m),
    ensures
        reaches(r, x, y, n + m + 1),
    decreases n,
{
    if n == 0 {
        assert(r.contains(pair(x, z)));
        assert(reaches(r, x, y, m + 1));
    } else {
        let w = choose|w: nat| #[trigger] r.contains(pair(x, w)) && reaches(r, w, z, (n - 1) as nat);
        lemma_reaches_chain(r, w, z, y, (n - 1) as nat, m);
        assert(reaches(r, w, y, ((n - 1) + m + 1) as nat));
        assert(reaches(r, x, y, n + m + 1));
    }
}

/// The closure is transitive.
pub proof fn lemma_closure_transitive(r: Set<Seq<nat>>)
    ensures
        transitive(closure_spec(r)),
{
    let c = closure_spec(r);
    assert forall|x: nat, y: nat, z: nat|
        c.contains(pair(x, y)) && c.contains(pair(y, z)) implies c.contains(pair(x, z)) by {
        let n = choose|n: nat| reaches(r, x, y, n);
        let m = choose|m: nat| reaches(r, y, z, m);
        lemma_reaches_chain(r, x, y, z, n, m);
        assert(pair(x, z)[0] == x && pair(x, z)[1] == z);
    }
}

/// A transitive binary relation containing `r` contains `r`'s closure.
pub proof fn lemma_closure_least(r: Set<Seq<nat>>, s: Set<Seq<nat>>)
    requires
        r.subset_of(s),
        transitive(s),
    ensures
        closure_spec(r).subset_of(s),
{
    assert forall|t: Seq<nat>| closure_spec(r).contains(t) implies s.contains(t) by {
        let n = choose|n: nat| reaches(r, t[0], t[1], n);
        lemma_reaches_in(r, s, t[0], t[1], n);
        assert(t =~= pair(t[0], t[1]));
    }
}

/// Every path of `r` is an edge of a transitive superset of `r`.
pub proof fn lemma_reaches_in(r: Set<Seq<nat>>, s: Set<Seq<nat>>, x: nat, y: nat, n: nat)
    requires
        r.subset_of(s),
        transitive(s),
        reaches(r, x, y, n),
    ensures
        s.contains(pair(x, y)),
    decreases n,
{
    if n > 0 {
        let z = choose|z: nat| #[trigger] r.contains(pair(x, z)) && reaches(r, z, y, (n - 1) as nat);
        lemma_reaches_in(r, s, z, y, (n - 1) as nat);
        assert(s.contains(pair(x, z)));
    }
}

/// A binary relation contains its closure's generator.
pub proof fn lemma_closure_contains(r: Set<Seq<nat>>)
    requires
        all_of_arity(r, 2),
    ensures
        r.subset_of(closure_spec(r)),
{
    assert forall|t: Seq<nat>| r.contains(t) implies closure_spec(r).contains(t) by {
        assert(t =~= pair(t[0], t[1]));
        assert(reaches(r, t[0], t[1], 0));
    }
}

/// The join of a binary relation with itself, over a binary relation, is
/// binary, and joining two binary relations gives the pairs composed through a
/// middle atom.
pub proof fn lemma_join_binary(a: Set<Seq<nat>>, b: Set<Seq<nat>>)
    requires
        all_of_arity(a, 2),
        all_of_arity(b, 2),
    ensures
        forall|t: Seq<nat>| #[trigger]
            join_spec(a, b).contains(t) <==> (t.len() == 2 && exists|m: nat|
                a.contains(pair(t[0], m)) && b.contains(pair(m, t[1]))),
{
    assert forall|t: Seq<nat>| #[trigger]
        join_spec(a, b).contains(t) <==> (t.len() == 2 && exists|m: nat|
            a.contains(pair(t[0], m)) && b.contains(pair(m, t[1]))) by {
        if join_spec(a, b).contains(t) {
            let (x, y) = choose|x: Seq<nat>, y: Seq<nat>|
                #![trigger a.contains(x), b.contains(y)]
                a.contains(x) && b.contains(y) && x.len() >= 1 && y.len() >= 1 && x.last() == y[0]
                    && t == x.drop_last() + y.drop_first();
            assert(x =~= pair(t[0], x[1]));
            assert(y =~= pair(x[1], t[1]));
        }
        if t.len() == 2 && exists|m: nat| a.contains(pair(t[0], m)) && b.contains(pair(m, t[1])) {
            let m = choose|m: nat| a.contains(pair(t[0], m)) && b.contains(pair(m, t[1]));
            let x = pair(t[0], m);
            let y = pair(m, t[1]);
            assert(t =~= x.drop_last() + y.drop_first());
        }
    }
}

/// Pairs of atoms below `n`, as the image of an integer range.
pub open spec fn square(n: nat) -> Set<Seq<nat>> {
    vstd::set_lib::set_int_range(0, (n * n) as int).map(|k: int| pair((k / n as int) as nat, (k % n as int) as nat))
}

/// The pairs below `n` form a finite set containing every such pair.
pub proof fn lemma_square(n: nat)
    ensures
        square(n).finite(),
        forall|t: Seq<nat>|
            t.len() == 2 && t[0] < n && t[1] < n ==> #[trigger] square(n).contains(t),
{
    vstd::set_lib::lemma_int_range(0, (n * n) as int);
    vstd::set_lib::lemma_map_size_bound(
        vstd::set_lib::set_int_range(0, (n * n) as int),
        square(n),
        |k: int| pair((k / n as int) as nat, (k % n as int) as nat),
    );
    assert forall|t: Seq<nat>| t.len() == 2 && t[0] < n && t[1] < n implies #[trigger] square(
        n,
    ).contains(t) by {
        let k: int = (t[0] * n + t[1]) as int;
        vstd::arithmetic::div_mod::lemma_fundamental_div_mod_converse(k, n as int, t[0] as int, t[1] as int);
        assert(t[0] * n + t[1] < n * n) by (nonlinear_arith)
            requires
                t[0] < n,
                t[1] < n,
        ;
        assert(0 <= t[0] * n) by (nonlinear_arith);
        assert(vstd::set_lib::set_int_range(0, (n * n) as int).contains(k));
        assert(t =~= pair((k / n as int) as nat, (k % n as int) as nat));
    }
}

/// A prefix one longer adds one element to the prefix's set.
pub proof fn lemma_take_to_set_step<A>(s: Seq<A>, i: int)
    requires
        0 <= i < s.len(),
    ensures
        s.take(i + 1).to_set() == s.take(i).to_set().insert(s[i]),
{
    assert(s.take(i + 1) =~= s.take(i).push(s[i]));
    assert(s.take(i).push(s[i]).to_set() =~= s.take(i).to_set().insert(s[i])) by {
        assert forall|x: A| s.take(i).push(s[i]).to_set().contains(x) implies s.take(
            i,
        ).to_set().insert(s[i]).contains(x) by {
            let k = choose|k: int| 0 <= k < s.take(i).push(s[i]).len() && s.take(i).push(s[i])[k] == x;
            if k < i {
                assert(s.take(i)[k] == x);
            }
        }
        assert forall|x: A| s.take(i).to_set().insert(s[i]).contains(x) implies s.take(i).push(
            s[i],
        ).to_set().contains(x) by {
            if x == s[i] {
                assert(s.take(i).push(s[i])[i] == x);
            } else {
                let k = choose|k: int| 0 <= k < s.take(i).len() && s.take(i)[k] == x;
                assert(s.take(i).push(s[i])[k] == x);
            }
        }
    }
}

/// The empty prefix has the empty set; the full prefix has the whole set.
pub proof fn lemma_take_to_set_ends<A>(s: Seq<A>)
    ensures
        s.take(0).to_set() == Set::<A>::empty(),
        s.take(s.len() as int).to_set() == s.to_set(),
{
    assert(s.take(0).to_set() =~= Set::<A>::empty());
    assert(s.take(s.len() as int) =~= s);
}

/// Adding a tuple to the left operand of a product adds that tuple's row.
pub proof fn lemma_product_insert(a: Set<Seq<nat>>, x: Seq<nat>, b: Set<Seq<nat>>)
    ensures
        product_spec(a.insert(x), b) == product_spec(a, b) + b.map(|y: Seq<nat>| x + y),
{
    assert(product_spec(a.insert(x), b) =~= product_spec(a, b) + b.map(|y: Seq<nat>| x + y)) by {
        assert forall|t: Seq<nat>| #[trigger] product_spec(a.insert(x), b).contains(t) implies (
        product_spec(a, b) + b.map(|y: Seq<nat>| x + y)).contains(t) by {
            let (u, y) = choose|u: Seq<nat>, y: Seq<nat>|
                a.insert(x).contains(u) && b.contains(y) && t == u + y;
            if u == x {
                assert(b.map(|y: Seq<nat>| x + y).contains(t));
            }
        }
    }
}

/// The product with an empty left operand is empty.
pub proof fn lemma_product_empty(b: Set<Seq<nat>>)
    ensures
        product_spec(Set::empty(), b) == Set::<Seq<nat>>::empty(),
{
    assert(product_spec(Set::empty(), b) =~= Set::<Seq<nat>>::empty());
}

/// The join contribution of a single left tuple `x` against `b`.
pub open spec fn join_row(x: Seq<nat>, b: Set<Seq<nat>>) -> Set<Seq<nat>> {
    b.filter(|y: Seq<nat>| y.len() >= 1 && y[0] == x.last()).map(
        |y: Seq<nat>| x.drop_last() + y.drop_first(),
    )
}

/// Adding a tuple to the left operand of a join adds that tuple's row.
pub proof fn lemma_join_insert(a: Set<Seq<nat>>, x: Seq<nat>, b: Set<Seq<nat>>)
    requires
        x.len() >= 1,
    ensures
        join_spec(a.insert(x), b) == join_spec(a, b) + join_row(x, b),
{
    assert(join_spec(a.insert(x), b) =~= join_spec(a, b) + join_row(x, b)) by {
        assert forall|t: Seq<nat>| #[trigger] join_spec(a.insert(x), b).contains(t) implies (
        join_spec(a, b) + join_row(x, b)).contains(t) by {
            let (u, y) = choose|u: Seq<nat>, y: Seq<nat>|
                #![trigger a.insert(x).contains(u), b.contains(y)]
                a.insert(x).contains(u) && b.contains(y) && u.len() >= 1 && y.len() >= 1 && u.last()
                    == y[0] && t == u.drop_last() + y.drop_first();
            if u == x {
                assert(b.filter(|y: Seq<nat>| y.len() >= 1 && y[0] == x.last()).contains(y));
            } else {
                assert(a.contains(u));
            }
        }
        assert forall|t: Seq<nat>| #[trigger] join_row(x, b).contains(t) implies join_spec(
            a.insert(x),
            b,
        ).contains(t) by {
            let y = choose|y: Seq<nat>|
                b.filter(|y: Seq<nat>| y.len() >= 1 && y[0] == x.last()).contains(y) && t == x.drop_last()
                    + y.drop_first();
            assert(a.insert(x).contains(x));
        }
        assert forall|t: Seq<nat>| #[trigger] join_spec(a, b).contains(t) implies join_spec(
            a.insert(x),
            b,
        ).contains(t) by {
            let (u, y) = choose|u: Seq<nat>, y: Seq<nat>|
                #![trigger a.contains(u), b.contains(y)]
                a.contains(u) && b.contains(y) && u.len() >= 1 && y.len() >= 1 && u.last() == y[0]
                    && t == u.drop_last() + y.drop_first();
            assert(a.insert(x).contains(u));
        }
    }
}

/// The join with an empty left operand is empty.
pub proof fn lemma_join_empty(b: Set<Seq<nat>>)
    ensures
        join_spec(Set::empty(), b) == Set::<Seq<nat>>::empty(),
{
    assert(join_spec(Set::empty(), b) =~= Set::<Seq<nat>>::empty());
}

/// One more than every atom occurring in the first two positions of the
/// listed tuples.
pub open spec fn pair_bound(s: Seq<Seq<nat>>) -> nat
    decreases s.len(),
{
    if s.len() == 0 {
        0
    } else {
        let t = s.last();
        let rest = pair_bound(s.drop_last());
        let m = if t[0] + 1 > rest { t[0] + 1 } else { rest };
        if t[1] + 1 > m {
            (t[1] + 1) as nat
        } else {
            m as nat
        }
    }
}

/// Every listed pair has both atoms below the bound.
pub proof fn lemma_pair_bound(s: Seq<Seq<nat>>)
    ensures
        forall|i: int|
            0 <= i < s.len() && (#[trigger] s[i]).len() == 2 ==> s[i][0] < pair_bound(s) && s[i][1]
                < pair_bound(s),
    decreases s.len(),
{
    if s.len() > 0 {
        lemma_pair_bound(s.drop_last());
        assert forall|i: int|
            0 <= i < s.len() && (#[trigger] s[i]).len() == 2 implies s[i][0] < pair_bound(s) && s[i][1]
                < pair_bound(s) by {
            if i < s.len() - 1 {
                assert(s[i] == s.drop_last()[i]);
            }
        }
    }
}

/// The closure of a relation whose atoms are all below `n` stays below `n`.
pub proof fn lemma_closure_in_square(r: Set<Seq<nat>>, n: nat)
    requires
        forall|t: Seq<nat>| #[trigger] r.contains(t) ==> t.len() == 2 && t[0] < n && t[1] < n,
    ensures
        closure_spec(r).subset_of(square(n)),
{
    lemma_square(n);
    assert forall|t: Seq<nat>| closure_spec(r).contains(t) implies square(n).contains(t) by {
        let m = choose|m: nat| reaches(r, t[0], t[1], m);
        lemma_reaches_below(r, n, t[0], t[1], m);
    }
}

/// Both ends of a path lie below any bound on the relation's atoms.
pub proof fn lemma_reaches_below(r: Set<Seq<nat>>, n: nat, x: nat, y: nat, m: nat)
    requires
        forall|t: Seq<nat>| #[trigger] r.contains(t) ==> t.len() == 2 && t[0] < n && t[1] < n,
        reaches(r, x, y, m),
    ensures
        x < n,
        y < n,
    decreases m,
{
    if m == 0 {
        assert(r.contains(pair(x, y)));
    } else {
        let z = choose|z: nat| #[trigger] r.contains(pair(x, z)) && reaches(r, z, y, (m - 1) as nat);
        assert(r.contains(pair(x, z)));
        lemma_reaches_below(r, n, z, y, (m - 1) as nat);
    }
}

/// The arities for which a binary operator is defined: equal arities for the
/// set operators and override, a positive result arity for join, and a
/// result arity that fits a machine word for product and join.
pub open spec fn rel_binary_defined(op: RelBinOp, a: nat, b: nat) -> bool {
    match op {
        RelBinOp::Union | RelBinOp::Intersect | RelBinOp::Diff | RelBinOp::Override => a == b,
        RelBinOp::Join => a + b >= 3 && a + b <= usize::MAX,
        RelBinOp::Product => a + b <= usize::MAX,
    }
}

/// The arity of a binary operator's result.
pub open spec fn rel_binary_arity(op: RelBinOp, a: nat, b: nat) -> nat {
    match op {
        RelBinOp::Union | RelBinOp::Intersect | RelBinOp::Diff | RelBinOp::Override => a,
        RelBinOp::Join => (a + b - 2) as nat,
        RelBinOp::Product => a + b,
    }
}

/// The value of a binary operator.
pub open spec fn rel_binary_spec(op: RelBinOp, a: Set<Seq<nat>>, b: Set<Seq<nat>>) -> Set<Seq<nat>> {
    match op {
        RelBinOp::Union => a + b,
        RelBinOp::Intersect => a.intersect(b),
        RelBinOp::Diff => a.difference(b),
        RelBinOp::Join => join_spec(a, b),
        RelBinOp::Product => product_spec(a, b),
        RelBinOp::Override => override_spec(a, b),
    }
}

/// A path followed by one more edge is a path one step longer.
pub proof fn lemma_reaches_right(r: Set<Seq<nat>>, x: nat, m: nat, y: nat, k: nat)
    requires
        reaches(r, x, m, k),
        r.contains(pair(m, y)),
    ensures
        reaches(r, x, y, k + 1),
{
    assert(reaches(r, m, y, 0));
    lemma_reaches_chain(r, x, m, y, k, 0);
}

/// A path of more than one step ends with an edge.
pub proof fn lemma_reaches_peel_right(r: Set<Seq<nat>>, x: nat, y: nat, k: nat) -> (w: nat)
    requires
        k > 0,
        reaches(r, x, y, k),
    ensures
        reaches(r, x, w, (k - 1) as nat),
        r.contains(pair(w, y)),
    decreases k,
{
    let z = choose|z: nat| #[trigger] r.contains(pair(x, z)) && reaches(r, z, y, (k - 1) as nat);
    if k == 1 {
        assert(reaches(r, x, z, 0));
        z
    } else {
        let w = lemma_reaches_peel_right(r, z, y, (k - 1) as nat);
        assert(reaches(r, x, w, (k - 1) as nat)) by {
            assert(r.contains(pair(x, z)));
        }
        w
    }
}

} // verus!
