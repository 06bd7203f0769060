//! Concrete relational algebra over [`TupleSet`]s: the value-level semantics
//! that the boolean encoding of every relational operator must agree with.

use vstd::prelude::*;

use vstd::arithmetic::power2::pow2;

use crate::bounds::{tuple_views, AtomId, Tuple, TupleSet, atom_indices};
use crate::encode::integer::{in_range, wrap};
use crate::encode::terms::{atom_int_value, atom_values, guard_spec, running_sum};
use crate::ir::{RelBinOp, RelConst, RelUnOp};
use crate::relspec::{
    domain_spec, join_row, join_spec, lemma_join_empty, lemma_join_insert, lemma_product_empty,
    lemma_product_insert, lemma_take_to_set_ends, lemma_take_to_set_step, override_spec, pair,
    product_spec, transpose_spec, closure_spec, lemma_closure_contains, lemma_closure_in_square,
    lemma_closure_least, lemma_closure_transitive, lemma_join_binary, lemma_pair_bound,
    lemma_square, pair_bound, rel_binary_arity, rel_binary_defined, rel_binary_spec, square,
    transitive, const_arity, const_spec, rel_unary_spec,
};

verus! {

broadcast use TupleSet::lemma_wf;

/// Union of two same-arity sets.
pub fn union(a: &TupleSet, b: &TupleSet) -> (r: TupleSet)
    requires
        a.wf(),
        b.wf(),
        a.ar() == b.ar(),
    ensures
        r.wf(),
        r.ar() == a.ar(),
        r@ == a@ + b@,
{
    let mut out = TupleSet::empty(a.arity());
    let ta = a.iter();
    let mut i: usize = 0;
    proof {
        lemma_take_to_set_ends(a.ordered());
    }
    while i < ta.len()
        invariant
            a.wf(),
            out.wf(),
            out.ar() == a.ar(),
            tuple_views(ta@) == a.ordered(),
            i <= ta@.len(),
            out@ == a.ordered().take(i as int).to_set(),
        decreases ta.len() - i,
    {
        proof {
            assert(a@.contains(a.ordered()[i as int]));
            lemma_take_to_set_step(a.ordered(), i as int);
        }
        out.insert(ta[i].duplicate());
        i = i + 1;
    }
    proof {
        lemma_take_to_set_ends(a.ordered());
        lemma_take_to_set_ends(b.ordered());
    }
    let tb = b.iter();
    let mut j: usize = 0;
    while j < tb.len()
        invariant
            a.wf(),
            b.wf(),
            a.ar() == b.ar(),
            out.wf(),
            out.ar() == a.ar(),
            tuple_views(tb@) == b.ordered(),
            j <= tb@.len(),
            out@ == a@ + b.ordered().take(j as int).to_set(),
        decreases tb.len() - j,
    {
        proof {
            assert(b@.contains(b.ordered()[j as int]));
            lemma_take_to_set_step(b.ordered(), j as int);
            assert(a@ + b.ordered().take(j + 1).to_set() =~= (a@ + b.ordered().take(
                j as int,
            ).to_set()).insert(b.ordered()[j as int]));
        }
        out.insert(tb[j].duplicate());
        j = j + 1;
    }
    proof {
        lemma_take_to_set_ends(b.ordered());
    }
    out
}

/// Intersection of two same-arity sets.
pub fn intersect(a: &TupleSet, b: &TupleSet) -> (r: TupleSet)
    requires
        a.wf(),
        b.wf(),
        a.ar() == b.ar(),
    ensures
        r.wf(),
        r.ar() == a.ar(),
        r@ == a@.intersect(b@),
{
    let mut out = TupleSet::empty(a.arity());
    let ta = a.iter();
    let mut i: usize = 0;
    proof {
        lemma_take_to_set_ends(a.ordered());
        assert(Set::<Seq<nat>>::empty().intersect(b@) =~= Set::<Seq<nat>>::empty());
    }
    while i < ta.len()
        invariant
            a.wf(),
            b.wf(),
            out.wf(),
            out.ar() == a.ar(),
            tuple_views(ta@) == a.ordered(),
            i <= ta@.len(),
            out@ == a.ordered().take(i as int).to_set().intersect(b@),
        decreases ta.len() - i,
    {
        proof {
            assert(a@.contains(a.ordered()[i as int]));
            lemma_take_to_set_step(a.ordered(), i as int);
        }
        if b.contains(&ta[i]) {
            out.insert(ta[i].duplicate());
            assert(out@ =~= a.ordered().take(i + 1).to_set().intersect(b@));
        } else {
            assert(out@ =~= a.ordered().take(i + 1).to_set().intersect(b@));
        }
        i = i + 1;
    }
    proof {
        lemma_take_to_set_ends(a.ordered());
    }
    out
}

/// Difference of two same-arity sets.
pub fn diff(a: &TupleSet, b: &TupleSet) -> (r: TupleSet)
    requires
        a.wf(),
        b.wf(),
        a.ar() == b.ar(),
    ensures
        r.wf(),
        r.ar() == a.ar(),
        r@ == a@.difference(b@),
{
    let mut out = TupleSet::empty(a.arity());
    let ta = a.iter();
    let mut i: usize = 0;
    proof {
        lemma_take_to_set_ends(a.ordered());
        assert(Set::<Seq<nat>>::empty().difference(b@) =~= Set::<Seq<nat>>::empty());
    }
    while i < ta.len()
        invariant
            a.wf(),
            b.wf(),
            out.wf(),
            out.ar() == a.ar(),
            tuple_views(ta@) == a.ordered(),
            i <= ta@.len(),
            out@ == a.ordered().take(i as int).to_set().difference(b@),
        decreases ta.len() - i,
    {
        proof {
            assert(a@.contains(a.ordered()[i as int]));
            lemma_take_to_set_step(a.ordered(), i as int);
        }
        if !b.contains(&ta[i]) {
            out.insert(ta[i].duplicate());
            assert(out@ =~= a.ordered().take(i + 1).to_set().difference(b@));
        } else {
            assert(out@ =~= a.ordered().take(i + 1).to_set().difference(b@));
        }
        i = i + 1;
    }
    proof {
        lemma_take_to_set_ends(a.ordered());
    }
    out
}

/// Cartesian product: every concatenation of a tuple of `a` with one of `b`.
pub fn product(a: &TupleSet, b: &TupleSet) -> (r: TupleSet)
    requires
        a.wf(),
        b.wf(),
        a.ar() + b.ar() <= usize::MAX,
    ensures
        r.wf(),
        r.ar() == a.ar() + b.ar(),
        r@ == product_spec(a@, b@),
{
    let mut out = TupleSet::empty(a.arity() + b.arity());
    let ta = a.iter();
    let tb = b.iter();
    let mut i: usize = 0;
    proof {
        lemma_take_to_set_ends(a.ordered());
        lemma_take_to_set_ends(b.ordered());
        lemma_product_empty(b@);
    }
    while i < ta.len()
        invariant
            a.wf(),
            b.wf(),
            out.wf(),
            out.ar() == a.ar() + b.ar(),
            tuple_views(ta@) == a.ordered(),
            tuple_views(tb@) == b.ordered(),
            i <= ta@.len(),
            out@ == product_spec(a.ordered().take(i as int).to_set(), b@),
        decreases ta.len() - i,
    {
        let x = &ta[i];
        let ghost xv = a.ordered()[i as int];
        let ghost before = out@;
        proof {
            assert(a@.contains(xv));
            assert(x@ == xv);
        }
        let mut j: usize = 0;
        while j < tb.len()
            invariant
                a.wf(),
                b.wf(),
                out.wf(),
                out.ar() == a.ar() + b.ar(),
                x@ == xv,
                xv.len() == a.ar(),
                tuple_views(tb@) == b.ordered(),
                j <= tb@.len(),
                out@ == before + b.ordered().take(j as int).to_set().map(|y: Seq<nat>| xv + y),
            decreases tb.len() - j,
        {
            proof {
                assert(b@.contains(b.ordered()[j as int]));
                lemma_take_to_set_step(b.ordered(), j as int);
                b.ordered().take(j as int).to_set().lemma_set_map_insert_commute(
                    b.ordered()[j as int],
                    |y: Seq<nat>| xv + y,
                );
            }
            out.insert(x.concat(&tb[j]));
            j = j + 1;
            proof {
                assert(out@ =~= before + b.ordered().take(j as int).to_set().map(
                    |y: Seq<nat>| xv + y,
                ));
            }
        }
        proof {
            lemma_take_to_set_step(a.ordered(), i as int);
            lemma_product_insert(a.ordered().take(i as int).to_set(), xv, b@);
            lemma_take_to_set_ends(b.ordered());
            assert(b.ordered().take(b.ordered().len() as int).to_set() == b@);
            assert(out@ =~= product_spec(a.ordered().take(i + 1).to_set(), b@));
        }
        i = i + 1;
    }
    proof {
        lemma_take_to_set_ends(a.ordered());
    }
    out
}

/// Relational join `a . b` over the shared middle atom: the last atom of a
/// left tuple meets the first atom of a right tuple.
pub fn join(a: &TupleSet, b: &TupleSet) -> (r: TupleSet)
    requires
        a.wf(),
        b.wf(),
        a.ar() + b.ar() >= 3,
        a.ar() + b.ar() <= usize::MAX,
    ensures
        r.wf(),
        r.ar() == a.ar() + b.ar() - 2,
        r@ == join_spec(a@, b@),
{
    let mut out = TupleSet::empty(a.arity() + b.arity() - 2);
    let ta = a.iter();
    let tb = b.iter();
    let mut i: usize = 0;
    proof {
        lemma_take_to_set_ends(a.ordered());
        lemma_take_to_set_ends(b.ordered());
        lemma_join_empty(b@);
    }
    while i < ta.len()
        invariant
            a.wf(),
            b.wf(),
            a.ar() + b.ar() >= 3,
            out.wf(),
            out.ar() == a.ar() + b.ar() - 2,
            tuple_views(ta@) == a.ordered(),
            tuple_views(tb@) == b.ordered(),
            i <= ta@.len(),
            out@ == join_spec(a.ordered().take(i as int).to_set(), b@),
        decreases ta.len() - i,
    {
        let x = &ta[i];
        let ghost xv = a.ordered()[i as int];
        let ghost before = out@;
        proof {
            assert(a@.contains(xv));
            assert(x@ == xv);
        }
        let mid = x.atom(x.arity() - 1);
        let mut j: usize = 0;
        while j < tb.len()
            invariant
                a.wf(),
                b.wf(),
                a.ar() + b.ar() >= 3,
                out.wf(),
                out.ar() == a.ar() + b.ar() - 2,
                x@ == xv,
                xv.len() == a.ar(),
                mid.index == xv.last(),
                tuple_views(tb@) == b.ordered(),
                j <= tb@.len(),
                out@ == before + join_row(xv, b.ordered().take(j as int).to_set()),
            decreases tb.len() - j,
        {
            let y = &tb[j];
            let ghost yv = b.ordered()[j as int];
            proof {
                assert(b@.contains(yv));
                assert(y@ == yv);
                lemma_take_to_set_step(b.ordered(), j as int);
            }
            let ghost t_before = b.ordered().take(j as int).to_set();
            let ghost p = |y: Seq<nat>| y.len() >= 1 && y[0] == xv.last();
            let ghost f = |y: Seq<nat>| xv.drop_last() + y.drop_first();
            if y.atom(0).index == mid.index {
                out.insert(x.join_with(y));
                proof {
                    assert(t_before.insert(yv).filter(p) =~= t_before.filter(p).insert(yv));
                    t_before.filter(p).lemma_set_map_insert_commute(yv, f);
                    assert(out@ =~= before + join_row(xv, t_before.insert(yv)));
                }
            } else {
                proof {
                    assert(t_before.insert(yv).filter(p) =~= t_before.filter(p));
                }
            }
            j = j + 1;
        }
        proof {
            lemma_take_to_set_step(a.ordered(), i as int);
            lemma_join_insert(a.ordered().take(i as int).to_set(), xv, b@);
            lemma_take_to_set_ends(b.ordered());
            assert(b.ordered().take(b.ordered().len() as int).to_set() == b@);
            assert(out@ =~= join_spec(a.ordered().take(i + 1).to_set(), b@));
        }
        i = i + 1;
    }
    proof {
        lemma_take_to_set_ends(a.ordered());
    }
    out
}

/// Whether `atom` occurs in `atoms`.
fn atoms_contain(atoms: &Vec<AtomId>, atom: AtomId) -> (b: bool)
    ensures
        b == atom_indices(atoms@).contains(atom.index as nat),
{
    let mut i: usize = 0;
    while i < atoms.len()
        invariant
            i <= atoms.len(),
            forall|k: int| 0 <= k < i ==> atoms@[k].index != atom.index,
        decreases atoms.len() - i,
    {
        if atoms[i].index == atom.index {
            assert(atom_indices(atoms@)[i as int] == atom.index as nat);
            return true;
        }
        i = i + 1;
    }
    proof {
        if atom_indices(atoms@).contains(atom.index as nat) {
            let k = choose|k: int| 0 <= k < atom_indices(atoms@).len() && atom_indices(atoms@)[k] == atom.index as nat;
            assert(atoms@[k].index == atom.index);
        }
    }
    false
}

/// Override `a ++ b`: all of `b`, plus the tuples of `a` whose first atom is
/// not the first atom of any tuple of `b`.
pub fn override_(a: &TupleSet, b: &TupleSet) -> (r: TupleSet)
    requires
        a.wf(),
        b.wf(),
        a.ar() == b.ar(),
    ensures
        r.wf(),
        r.ar() == a.ar(),
        r@ == override_spec(a@, b@),
{
    let ta = a.iter();
    let tb = b.iter();
    // The first atoms of `b`'s tuples.
    let mut dom: Vec<AtomId> = Vec::new();
    let mut k: usize = 0;
    while k < tb.len()
        invariant
            b.wf(),
            tuple_views(tb@) == b.ordered(),
            k <= tb@.len(),
            dom@.len() == k,
            forall|v: nat|
                atom_indices(dom@).contains(v) <==> exists|m: int|
                    0 <= m < k && (#[trigger] b.ordered()[m])[0] == v,
        decreases tb.len() - k,
    {
        proof {
            assert(b@.contains(b.ordered()[k as int]));
        }
        let first = tb[k].atom(0);
        let ghost old_dom = dom@;
        dom.push(first);
        proof {
            assert(atom_indices(dom@) =~= atom_indices(old_dom).push(first.index as nat));
            assert(first.index == b.ordered()[k as int][0]);
            assert forall|v: nat| atom_indices(dom@).contains(v) <==> exists|m: int|
                0 <= m < k + 1 && (#[trigger] b.ordered()[m])[0] == v by {
                if atom_indices(dom@).contains(v) {
                    let q = choose|q: int| 0 <= q < atom_indices(dom@).len() && atom_indices(dom@)[q] == v;
                    if q < old_dom.len() {
                        assert(atom_indices(old_dom)[q] == v);
                        assert(atom_indices(old_dom).contains(v));
                        let m = choose|m: int| 0 <= m < k && (#[trigger] b.ordered()[m])[0] == v;
                        assert(0 <= m < k + 1 && b.ordered()[m][0] == v);
                    } else {
                        assert(b.ordered()[k as int][0] == v);
                    }
                }
                if exists|m: int| 0 <= m < k + 1 && (#[trigger] b.ordered()[m])[0] == v {
                    let m = choose|m: int| 0 <= m < k + 1 && (#[trigger] b.ordered()[m])[0] == v;
                    if m < k {
                        assert(atom_indices(old_dom).contains(v));
                        let q = choose|q: int| 0 <= q < atom_indices(old_dom).len() && atom_indices(old_dom)[q] == v;
                        assert(atom_indices(dom@)[q] == v);
                    } else {
                        assert(atom_indices(dom@)[k as int] == v);
                    }
                }
            }
        }
        k = k + 1;
    }
    proof {
        assert forall|v: nat| atom_indices(dom@).contains(v) <==> domain_spec(b@).contains(v) by {
            if atom_indices(dom@).contains(v) {
                let m = choose|m: int| 0 <= m < k && (#[trigger] b.ordered()[m])[0] == v;
                assert(b@.contains(b.ordered()[m]));
            }
            if domain_spec(b@).contains(v) {
                let y = choose|y: Seq<nat>| b@.contains(y) && y.len() >= 1 && y[0] == v;
                let m = choose|m: int| 0 <= m < b.ordered().len() && b.ordered()[m] == y;
            }
        }
    }
    let ghost keep = |x: Seq<nat>| !domain_spec(b@).contains(x[0]);
    let mut out = TupleSet::empty(a.arity());
    let mut i: usize = 0;
    proof {
        lemma_take_to_set_ends(a.ordered());
        assert(Set::<Seq<nat>>::empty().filter(keep) =~= Set::<Seq<nat>>::empty());
    }
    while i < ta.len()
        invariant
            a.wf(),
            b.wf(),
            a.ar() == b.ar(),
            out.wf(),
            out.ar() == a.ar(),
            tuple_views(ta@) == a.ordered(),
            i <= ta@.len(),
            forall|v: nat| atom_indices(dom@).contains(v) <==> domain_spec(b@).contains(v),
            keep == (|x: Seq<nat>| !domain_spec(b@).contains(x[0])),
            out@ == a.ordered().take(i as int).to_set().filter(keep),
        decreases ta.len() - i,
    {
        let x = &ta[i];
        proof {
            assert(a@.contains(a.ordered()[i as int]));
            lemma_take_to_set_step(a.ordered(), i as int);
        }
        if !atoms_contain(&dom, x.atom(0)) {
            out.insert(x.duplicate());
            assert(out@ =~= a.ordered().take(i + 1).to_set().filter(keep));
        } else {
            assert(out@ =~= a.ordered().take(i + 1).to_set().filter(keep));
        }
        i = i + 1;
    }
    proof {
        lemma_take_to_set_ends(a.ordered());
        lemma_take_to_set_ends(b.ordered());
    }
    let ghost kept = out@;
    let mut j: usize = 0;
    while j < tb.len()
        invariant
            b.wf(),
            a.ar() == b.ar(),
            out.wf(),
            out.ar() == a.ar(),
            tuple_views(tb@) == b.ordered(),
            j <= tb@.len(),
            out@ == kept + b.ordered().take(j as int).to_set(),
        decreases tb.len() - j,
    {
        proof {
            assert(b@.contains(b.ordered()[j as int]));
            lemma_take_to_set_step(b.ordered(), j as int);
        }
        out.insert(tb[j].duplicate());
        j = j + 1;
        assert(out@ =~= kept + b.ordered().take(j as int).to_set());
    }
    proof {
        lemma_take_to_set_ends(b.ordered());
        assert(out@ =~= override_spec(a@, b@));
    }
    out
}

/// Transpose of a binary set: every pair reversed.
pub fn transpose(a: &TupleSet) -> (r: TupleSet)
    requires
        a.wf(),
        a.ar() == 2,
    ensures
        r.wf(),
        r.ar() == 2,
        r@ == transpose_spec(a@),
{
    let mut out = TupleSet::empty(2);
    let ta = a.iter();
    let mut i: usize = 0;
    proof {
        lemma_take_to_set_ends(a.ordered());
    }
    while i < ta.len()
        invariant
            a.wf(),
            a.ar() == 2,
            out.wf(),
            out.ar() == 2,
            tuple_views(ta@) == a.ordered(),
            i <= ta@.len(),
            out@ == transpose_spec(a.ordered().take(i as int).to_set()),
        decreases ta.len() - i,
    {
        let t = &ta[i];
        let ghost tv = a.ordered()[i as int];
        proof {
            assert(a@.contains(tv));
            lemma_take_to_set_step(a.ordered(), i as int);
        }
        let rev = Tuple::new(vec![t.atom(1), t.atom(0)]);
        proof {
            assert(rev@ =~= pair(tv[1], tv[0]));
            assert(tv =~= pair(tv[0], tv[1]));
        }
        out.insert(rev);
        proof {
            assert(out@ =~= transpose_spec(a.ordered().take(i + 1).to_set())) by {
                assert forall|u: Seq<nat>| #[trigger] transpose_spec(a.ordered().take(i + 1).to_set()).contains(u)
                    implies out@.contains(u) by {
                    if pair(u[1], u[0]) == tv {
                        assert(u =~= pair(tv[1], tv[0]));
                    }
                }
            }
        }
        i = i + 1;
    }
    proof {
        lemma_take_to_set_ends(a.ordered());
    }
    out
}

/// Transitive closure `^r` by fixpoint: `s ← s ∪ (s . s)` until it stops
/// growing.
pub fn closure(r: &TupleSet) -> (c: TupleSet)
    requires
        r.wf(),
        r.ar() == 2,
    ensures
        c.wf(),
        c.ar() == 2,
        c@ == closure_spec(r@),
{
    let ghost n = pair_bound(r.ordered());
    proof {
        lemma_pair_bound(r.ordered());
        assert forall|t: Seq<nat>| #[trigger] r@.contains(t) implies t.len() == 2 && t[0] < n && t[1]
            < n by {
            let i = choose|i: int| 0 <= i < r.ordered().len() && r.ordered()[i] == t;
        }
        lemma_closure_in_square(r@, n);
        lemma_square(n);
        lemma_closure_contains(r@);
        lemma_closure_transitive(r@);
    }
    let mut s = r.duplicate();
    proof {
        vstd::set_lib::lemma_len_subset(s@, square(n));
    }
    loop
        invariant
            r.wf(),
            r.ar() == 2,
            s.wf(),
            s.ar() == 2,
            r@.subset_of(s@),
            s@.subset_of(closure_spec(r@)),
            closure_spec(r@).subset_of(square(n)),
            square(n).finite(),
            transitive(closure_spec(r@)),
            s@.len() <= square(n).len(),
        decreases square(n).len() - s@.len(),
    {
        let sq = join(&s, &s);
        let grown = union(&s, &sq);
        proof {
            lemma_join_binary(s@, s@);
        }
        if grown.len() == s.len() {
            proof {
                vstd::set_lib::lemma_subset_equality(s@, grown@);
                assert(transitive(s@)) by {
                    assert forall|x: nat, y: nat, z: nat|
                        s@.contains(pair(x, y)) && s@.contains(pair(y, z)) implies s@.contains(
                        pair(x, z),
                    ) by {
                        assert(pair(x, z)[0] == x && pair(x, z)[1] == z);
                        assert(sq@.contains(pair(x, z)));
                    }
                }
                lemma_closure_least(r@, s@);
            }
            return grown;
        }
        proof {
            assert(grown@.subset_of(closure_spec(r@))) by {
                assert forall|t: Seq<nat>| grown@.contains(t) implies closure_spec(r@).contains(t) by {
                    if sq@.contains(t) {
                        let m = choose|m: nat| s@.contains(pair(t[0], m)) && s@.contains(pair(m, t[1]));
                        assert(closure_spec(r@).contains(pair(t[0], m)));
                        assert(closure_spec(r@).contains(pair(m, t[1])));
                        assert(t =~= pair(t[0], t[1]));
                    }
                }
            }
            vstd::set_lib::lemma_len_subset(s@, grown@);
            vstd::set_lib::lemma_len_subset(grown@, square(n));
        }
        s = grown;
    }
}

/// A binary relational operation over two concrete sets.
pub fn rel_binary(op: RelBinOp, a: &TupleSet, b: &TupleSet) -> (r: TupleSet)
    requires
        a.wf(),
        b.wf(),
        rel_binary_defined(op, a.ar(), b.ar()),
    ensures
        r.wf(),
        r.ar() == rel_binary_arity(op, a.ar(), b.ar()),
        r@ == rel_binary_spec(op, a@, b@),
{
    match op {
        RelBinOp::Union => union(a, b),
        RelBinOp::Intersect => intersect(a, b),
        RelBinOp::Diff => diff(a, b),
        RelBinOp::Join => join(a, b),
        RelBinOp::Product => product(a, b),
        RelBinOp::Override => override_(a, b),
    }
}

/// A relational constant over a universe of `universe_len` atoms: nothing,
/// every atom, or every atom paired with itself.
pub fn const_value(c: RelConst, universe_len: usize) -> (r: TupleSet)
    ensures
        r.wf(),
        r.ar() == const_arity(c),
        r@ == const_spec(c, universe_len as nat),
{
    match c {
        RelConst::Empty => {
            let r = TupleSet::empty(1);
            proof {
                assert(r@ =~= const_spec(c, universe_len as nat));
            }
            r
        },
        RelConst::Univ | RelConst::Iden => {
            let arity: usize = if c == RelConst::Univ {
                1
            } else {
                2
            };
            let mut r = TupleSet::empty(arity);
            let mut i: usize = 0;
            while i < universe_len
                invariant
                    i <= universe_len,
                    arity == const_arity(c),
                    c == RelConst::Univ || c == RelConst::Iden,
                    r.wf(),
                    r.ar() == arity,
                    forall|t: Seq<nat>| #[trigger] r@.contains(t) <==> (t.len() == arity && t[0] < i && (arity == 2 ==> t[1] == t[0])),
                decreases universe_len - i,
            {
                let a = AtomId::from_index(i);
                let mut atoms: Vec<AtomId> = Vec::new();
                atoms.push(a);
                if arity == 2 {
                    atoms.push(a);
                }
                let t = Tuple::new(atoms);
                proof {
                    if arity == 2 {
                        assert(t@ =~= seq![i as nat, i as nat]);
                    } else {
                        assert(t@ =~= seq![i as nat]);
                    }
                }
                r.insert(t);
                proof {
                    assert forall|tt: Seq<nat>| #[trigger] r@.contains(tt) <==> (tt.len() == arity && tt[0] < i + 1 && (arity == 2 ==> tt[1]
                        == tt[0])) by {
                        if tt.len() == arity && tt[0] == i && (arity == 2 ==> tt[1] == tt[0]) {
                            if arity == 2 {
                                assert(tt =~= seq![i as nat, i as nat]);
                            } else {
                                assert(tt =~= seq![i as nat]);
                            }
                        }
                    }
                }
                i = i + 1;
            }
            proof {
                assert(r@ =~= const_spec(c, universe_len as nat));
            }
            r
        },
    }
}

/// A bound variable's value: the one tuple it is bound to, or nothing when
/// unbound.
pub fn var_value(arity: usize, binding: Option<&Tuple>) -> (r: TupleSet)
    requires
        arity >= 1,
        binding matches Some(t) ==> t@.len() == arity,
    ensures
        r.wf(),
        r.ar() == arity,
        r@ == match binding {
            Some(t) => set![t@],
            None => Set::<Seq<nat>>::empty(),
        },
{
    let mut r = TupleSet::empty(arity);
    match binding {
        Some(t) => {
            r.insert(t.duplicate());
            proof {
                assert(r@ =~= set![t@]);
            }
        },
        None => {},
    }
    r
}

/// A unary relational operation over a binary set, in a universe of
/// `universe_len` atoms.
pub fn rel_unary(op: RelUnOp, a: &TupleSet, universe_len: usize) -> (r: TupleSet)
    requires
        a.wf(),
        a.ar() == 2,
    ensures
        r.wf(),
        r.ar() == 2,
        r@ == rel_unary_spec(op, a@, universe_len as nat),
{
    match op {
        RelUnOp::Transpose => transpose(a),
        RelUnOp::Closure => closure(a),
        RelUnOp::ReflexiveClosure => {
            let c = closure(a);
            let iden = const_value(RelConst::Iden, universe_len);
            union(&c, &iden)
        },
    }
}

/// `acc + v` wrapped to `bw` bits, and whether the sum left the signed range.
fn add_wrapped(acc: i64, v: i64, bw: u32) -> (r: (i64, bool))
    requires
        1 <= bw <= 63,
        in_range(acc as int, bw as nat),
        in_range(v as int, bw as nat),
    ensures
        r.0 as int == wrap(acc + v, bw as nat),
        r.1 == !in_range(acc + v, bw as nat),
        in_range(r.0 as int, bw as nat),
{
    proof {
        vstd::arithmetic::power2::lemma2_to64();
        vstd::arithmetic::power2::lemma2_to64_rest();
        if bw - 1 < 62 {
            vstd::arithmetic::power2::lemma_pow2_strictly_increases((bw - 1) as nat, 62);
        }
        vstd::arithmetic::power2::lemma_pow2_unfold(bw as nat);
        vstd::bits::lemma_u64_shl_is_mul(1, (bw - 1) as u64);
    }
    let half_u: u64 = 1u64 << ((bw - 1) as u64);
    let half: i64 = half_u as i64;
    let exact: i64 = acc + v;
    let ghost w = bw as nat;
    if exact < -half {
        let r = (exact + half) + half;
        proof {
            crate::encode::integer::lemma_wrap_in_range(r as int, -1, w);
            assert(exact as int == r + pow2(w) * -1);
        }
        (r, true)
    } else if exact >= half {
        let r = (exact - half) - half;
        proof {
            crate::encode::integer::lemma_wrap_in_range(r as int, 1, w);
            assert(exact as int == r + pow2(w) * 1);
        }
        (r, true)
    } else {
        proof {
            crate::encode::integer::lemma_wrap_in_range(exact as int, 0, w);
        }
        (exact, false)
    }
}

/// `int[m]`: the values of the `Int` atoms among the unary tuples of `m`,
/// in order, summed in two's complement at `bitwidth`; the flag says some
/// addition left the signed range (even when the final value is back in
/// it).
pub fn atom_to_int_value(m: &TupleSet, int_start: usize, int_end: usize, bitwidth: u32) -> (r: (i64, bool))
    requires
        m.wf(),
        bitwidth <= 63,
        int_end <= int_start + pow2(bitwidth as nat),
    ensures
        r.0 as int == running_sum(atom_values(m.ordered(), int_start as nat, int_end as nat, bitwidth as nat), bitwidth as nat).0,
        r.1 == running_sum(atom_values(m.ordered(), int_start as nat, int_end as nat, bitwidth as nat), bitwidth as nat).1,
{
    let tuples = m.iter();
    let ghost ord = m.ordered();
    let ghost bw = bitwidth as nat;
    let ghost is = int_start as nat;
    let ghost ie = int_end as nat;
    let mut acc: i64 = 0;
    let mut of = false;
    let mut i: usize = 0;
    proof {
        assert(ord.take(0) =~= Seq::<Seq<nat>>::empty());
        if bw >= 1 {
            vstd::arithmetic::power2::lemma_pow2_pos((bw - 1) as nat);
        }
    }
    while i < tuples.len()
        invariant
            i <= tuples@.len(),
            tuple_views(tuples@) == ord,
            ord == m.ordered(),
            bw == bitwidth as nat,
            is == int_start as nat,
            ie == int_end as nat,
            bitwidth <= 63,
            int_end <= int_start + pow2(bitwidth as nat),
            acc as int == running_sum(atom_values(ord.take(i as int), is, ie, bw), bw).0,
            of == running_sum(atom_values(ord.take(i as int), is, ie, bw), bw).1,
            bw >= 1 ==> in_range(acc as int, bw),
        decreases tuples@.len() - i,
    {
        let t = &tuples[i];
        proof {
            assert(ord[i as int] == t@);
            assert(ord.take(i + 1).drop_last() =~= ord.take(i as int));
            assert(ord.take(i + 1).last() == t@);
        }
        if t.arity() == 1 {
            let a = t.atom(0);
            match atom_int_value(a, int_start, int_end, bitwidth) {
                Some(v) => {
                    proof {
                        assert(bw >= 1);
                        crate::encode::terms::lemma_atom_value_range(a.index as nat, is, ie, bw, bw);
                        let vals = atom_values(ord.take(i as int), is, ie, bw);
                        assert(atom_values(ord.take(i + 1), is, ie, bw) == vals.push(v as int));
                        assert(vals.push(v as int).drop_last() =~= vals);
                    }
                    let (nacc, step) = add_wrapped(acc, v, bitwidth);
                    acc = nacc;
                    of = of || step;
                },
                None => {},
            }
        }
        i = i + 1;
    }
    proof {
        assert(ord.take(i as int) =~= ord);
    }
    (acc, of)
}

/// One operand's overflow guard on a concrete comparison: an overflow forces
/// the comparison true where the polarity and the operand's universal
/// dependence agree, false where they differ.
pub fn apply_int_guard(atom: bool, of: bool, positive: bool, forall_dep: bool) -> (r: bool)
    ensures
        r == guard_spec(atom, of, positive, forall_dep),
{
    if !of {
        return atom;
    }
    if positive == forall_dep {
        atom || of
    } else {
        atom && !of
    }
}

/// A concrete integer comparison under both operands' guards (left first),
/// or unguarded when overflow is allowed.
pub fn int_compare_guard(atom: bool, oa: bool, ob: bool, allow_overflow: bool, positive: bool, lhs_dep: bool, rhs_dep: bool) -> (r: bool)
    ensures
        r == if allow_overflow {
            atom
        } else {
            guard_spec(guard_spec(atom, oa, positive, lhs_dep), ob, positive, rhs_dep)
        },
{
    if allow_overflow {
        return atom;
    }
    let g = apply_int_guard(atom, oa, positive, lhs_dep);
    apply_int_guard(g, ob, positive, rhs_dep)
}

} // verus!
