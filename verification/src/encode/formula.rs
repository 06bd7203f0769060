//! Formulas over boolean matrices: comparisons, multiplicity tests, the
//! at-most-one constraint and the lexicographic comparison of two cell
//! lists used by symmetry breaking.

use vstd::prelude::*;

use crate::bounds::{tuple_views, Tuple, TupleSet};
use crate::circuit::{all_true, all_valid, any_true, sat, val, valid, Assignment, Bool, Circuit};
use crate::encode::{grown, lemma_cell_at, lemma_cell_valid, lemma_grown_refl, lemma_grown_trans, lemma_sat_back};
use crate::ir::{MultTest, RelCmpOp};
use crate::matrix::Matrix;
use crate::relspec::{lemma_take_to_set_ends, lemma_take_to_set_step};
use crate::tuple_map::{entry_keys, entry_vals};

verus! {

broadcast use crate::matrix::Matrix::lemma_wf, crate::bounds::TupleSet::lemma_wf;

/// The meaning of a relation comparison.
pub open spec fn rel_compare_spec(op: RelCmpOp, a: Set<Seq<nat>>, b: Set<Seq<nat>>) -> bool {
    match op {
        RelCmpOp::Subset => a.subset_of(b),
        RelCmpOp::Equal => a == b,
    }
}

/// At most one element.
pub open spec fn lone(s: Set<Seq<nat>>) -> bool {
    forall|x: Seq<nat>, y: Seq<nat>| s.contains(x) && s.contains(y) ==> x == y
}

/// The meaning of a multiplicity test.
pub open spec fn mult_spec(test: MultTest, s: Set<Seq<nat>>) -> bool {
    match test {
        MultTest::No => s == Set::<Seq<nat>>::empty(),
        MultTest::Nonempty => s != Set::<Seq<nat>>::empty(),
        MultTest::Lone => lone(s),
        MultTest::One => s != Set::<Seq<nat>>::empty() && lone(s),
    }
}

/// No two of the cells hold together.
pub open spec fn at_most_one_spec(cells: Seq<Bool>, s: Assignment) -> bool {
    forall|p: int, q: int| 0 <= p < q < cells.len() ==> !(#[trigger] val(cells[p], s) && #[trigger] val(cells[q], s))
}

/// The two lists agree on their first `k` cells.
pub open spec fn prefix_eq(o: Seq<Bool>, p: Seq<Bool>, k: int, s: Assignment) -> bool {
    forall|j: int| 0 <= j < k ==> val(#[trigger] o[j], s) == val(p[j], s)
}

/// The original cells are lexicographically at most the permuted ones,
/// false before true: at the first position where they differ, the original
/// is false.
pub open spec fn lex_leq_spec(o: Seq<Bool>, p: Seq<Bool>, s: Assignment) -> bool {
    forall|i: int|
        0 <= i < o.len() && i < p.len() ==> #[trigger] prefix_eq(o, p, i, s) ==> (val(o[i], s) ==> val(p[i], s))
}

/// The cells of a matrix, in tuple order.
fn cells_of(m: &Matrix) -> (cells: Vec<Bool>)
    requires
        m.wf(),
    ensures
        cells@ == m.values(),
{
    let e = m.iter();
    let mut cells: Vec<Bool> = Vec::new();
    let mut i: usize = 0;
    while i < e.len()
        invariant
            i <= e.len(),
            entry_vals(e@) == m.values(),
            cells@ == m.values().take(i as int),
        decreases e.len() - i,
    {
        cells.push(e[i].1);
        proof {
            assert(m.values()[i as int] == e@[i as int].1);
        }
        i = i + 1;
        assert(cells@ =~= m.values().take(i as int));
    }
    assert(m.values().take(i as int) =~= m.values());
    cells
}

/// A matrix denotes a nonempty relation exactly when some cell holds.
proof fn lemma_denote_nonempty(m: &Matrix, s: Assignment)
    requires
        m.wf(),
    ensures
        (m.denote(s) != Set::<Seq<nat>>::empty()) == any_true(m.values(), s),
        lone(m.denote(s)) == at_most_one_spec(m.values(), s),
{
    let ks = m.order();
    let vs = m.values();
    if any_true(vs, s) {
        let q = choose|q: int| 0 <= q < vs.len() && val(#[trigger] vs[q], s);
        assert(m.cells()[ks[q]] == vs[q]);
        assert(m.denote(s).contains(ks[q]));
    }
    if m.denote(s) != Set::<Seq<nat>>::empty() {
        assert(!(m.denote(s) =~= Set::<Seq<nat>>::empty()));
        let t = choose|t: Seq<nat>| m.denote(s).contains(t);
        assert(m.dom().contains(t));
        assert(ks.to_set().contains(t));
        let q = choose|q: int| 0 <= q < ks.len() && ks[q] == t;
        assert(m.cells()[ks[q]] == vs[q]);
        assert(val(vs[q], s));
    }
    if lone(m.denote(s)) {
        assert forall|p: int, q: int| 0 <= p < q < vs.len() implies !(#[trigger] val(vs[p], s) && #[trigger] val(vs[q], s)) by {
            assert(m.cells()[ks[p]] == vs[p]);
            assert(m.cells()[ks[q]] == vs[q]);
            assert(ks.to_set().contains(ks[p]));
            assert(ks.to_set().contains(ks[q]));
            if val(vs[p], s) && val(vs[q], s) {
                assert(m.denote(s).contains(ks[p]));
                assert(m.denote(s).contains(ks[q]));
            }
        }
    }
    if at_most_one_spec(vs, s) {
        assert forall|x: Seq<nat>, y: Seq<nat>| m.denote(s).contains(x) && m.denote(s).contains(y) implies x == y by {
            let p = choose|p: int| 0 <= p < ks.len() && ks[p] == x;
            let q = choose|q: int| 0 <= q < ks.len() && ks[q] == y;
            assert(m.cells()[ks[p]] == vs[p]);
            assert(m.cells()[ks[q]] == vs[q]);
            if p < q {
                assert(!(val(vs[p], s) && val(vs[q], s)));
            } else if q < p {
                assert(!(val(vs[q], s) && val(vs[p], s)));
            }
        }
    }
}

/// Some recorded index pair is `(p, q)`.
spec fn covered(idx: Seq<(int, int)>, p: int, q: int) -> bool {
    exists|k: int| 0 <= k < idx.len() && #[trigger] idx[k] == (p, q)
}

/// Pairwise at-most-one: `⋀_{i<j} ¬(cᵢ ∧ cⱼ)`.
pub fn at_most_one(c: &mut Circuit, cells: &[Bool]) -> (r: Bool)
    requires
        old(c).wf(),
        all_valid(cells@, old(c).nv()),
        old(c).nv() + cells@.len() * cells@.len() + 1 <= u32::MAX,
    ensures
        grown(old(c), final(c)),
        final(c).nv() <= old(c).nv() + cells@.len() * cells@.len() + 1,
        valid(r, final(c).nv()),
        forall|s: Assignment| #[trigger] sat(final(c).cls(), s) ==> val(r, s) == at_most_one_spec(cells@, s),
{
    let ghost c0 = *c;
    let ghost n0 = c0.nv();
    let ghost n = cells@.len();
    proof {
        lemma_grown_refl(&c0);
    }
    let mut parts: Vec<Bool> = Vec::new();
    let ghost mut idx: Seq<(int, int)> = Seq::empty();
    let mut i: usize = 0;
    while i < cells.len()
        invariant
            i <= cells.len(),
            n == cells@.len(),
            all_valid(cells@, n0),
            n0 == c0.nv(),
            n0 + n * n + 1 <= u32::MAX,
            grown(&c0, c),
            c.nv() <= n0 + i * n,
            parts@.len() == idx.len(),
            all_valid(parts@, c.nv()),
            forall|k: int| 0 <= k < idx.len() ==> 0 <= (#[trigger] idx[k]).0 < idx[k].1 < n && idx[k].0 < i,
            forall|p: int, q: int| 0 <= p < i && p < q < n ==> #[trigger] covered(idx, p, q),
            forall|s: Assignment| #[trigger] sat(c.cls(), s) ==> forall|k: int| 0 <= k < idx.len() ==> val(#[trigger] parts@[k], s)
                == !(val(cells@[idx[k].0], s) && val(cells@[idx[k].1], s)),
        decreases cells.len() - i,
    {
        let mut j: usize = i + 1;
        proof {
            assert(i * n + n <= n * n) by (nonlinear_arith)
                requires
                    i < n,
            ;
            assert((i + 1) * n == i * n + n) by (nonlinear_arith);
        }
        while j < cells.len()
            invariant
                i < j <= cells.len(),
                i < cells.len(),
                n == cells@.len(),
                all_valid(cells@, n0),
                n0 == c0.nv(),
                n0 + n * n + 1 <= u32::MAX,
                i * n + n <= n * n,
                grown(&c0, c),
                c.nv() <= n0 + i * n + (j - i - 1),
                parts@.len() == idx.len(),
                all_valid(parts@, c.nv()),
                forall|k: int| 0 <= k < idx.len() ==> 0 <= (#[trigger] idx[k]).0 < idx[k].1 < n && idx[k].0 <= i,
                forall|p: int, q: int| (0 <= p < i && p < q < n) || (p == i && i < q < j) ==> #[trigger] covered(idx, p, q),
                forall|s: Assignment| #[trigger] sat(c.cls(), s) ==> forall|k: int| 0 <= k < idx.len() ==> val(#[trigger] parts@[k], s)
                    == !(val(cells@[idx[k].0], s) && val(cells@[idx[k].1], s)),
            decreases cells.len() - j,
        {
            let ghost c1 = *c;
            let both = c.and(cells[i], cells[j]);
            let nb = c.not(both);
            parts.push(nb);
            proof {
                lemma_grown_trans(&c0, &c1, c);
                let k0 = idx.len() as int;
                let idx0 = idx;
                idx = idx.push((i as int, j as int));
                assert(idx.drop_last() =~= idx0);
                assert(idx[k0] == (i as int, j as int));
                assert forall|p: int, q: int| (0 <= p < i && p < q < n) || (p == i && i < q < j + 1) implies #[trigger] covered(idx, p, q) by {
                    if p == i && q == j {
                        assert(idx[k0] == (p, q));
                    } else {
                        assert(covered(idx0, p, q));
                        let k = choose|k: int| 0 <= k < idx.len() - 1 && #[trigger] idx.drop_last()[k] == (p, q);
                        assert(idx.drop_last()[k] == idx[k]);
                    }
                }
                assert forall|k: int| 0 <= k < idx.len() implies 0 <= (#[trigger] idx[k]).0 < idx[k].1 < n && idx[k].0 <= i by {
                    if k < k0 {
                        assert(idx[k] == idx.drop_last()[k]);
                    }
                }
                assert forall|s: Assignment| #[trigger] sat(c.cls(), s) implies forall|k: int| 0 <= k < idx.len() ==> val(#[trigger] parts@[k], s)
                    == !(val(cells@[idx[k].0], s) && val(cells@[idx[k].1], s)) by {
                    lemma_sat_back(&c1, c, s);
                    assert forall|k: int| 0 <= k < idx.len() implies val(#[trigger] parts@[k], s)
                        == !(val(cells@[idx[k].0], s) && val(cells@[idx[k].1], s)) by {
                        if k < k0 {
                            assert(idx[k] == idx.drop_last()[k]);
                            assert(parts@[k] == parts@.drop_last()[k]);
                        }
                    }
                }
            }
            j = j + 1;
        }
        i = i + 1;
    }
    proof {
        assert(n * n <= n * n + 1);
    }
    let ghost c2 = *c;
    let ghost ps = parts@;
    let r = c.and_many(parts);
    proof {
        lemma_grown_trans(&c0, &c2, c);
        assert forall|s: Assignment| #[trigger] sat(c.cls(), s) implies val(r, s) == at_most_one_spec(cells@, s) by {
            lemma_sat_back(&c2, c, s);
            if all_true(ps, s) {
                assert forall|p: int, q: int| 0 <= p < q < cells@.len() implies !(#[trigger] val(cells@[p], s) && #[trigger] val(cells@[q], s)) by {
                    assert(covered(idx, p, q));
                    let k = choose|k: int| 0 <= k < idx.len() && #[trigger] idx[k] == (p, q);
                    assert(val(ps[k], s));
                }
            }
            if at_most_one_spec(cells@, s) {
                assert forall|k: int| 0 <= k < ps.len() implies val(#[trigger] ps[k], s) by {
                    assert(0 <= idx[k].0 < idx[k].1 < n);
                }
            }
        }
    }
    r
}

/// A multiplicity test on a matrix's cells: `no` is the negation of the
/// disjunction, `some` the disjunction, `lone` the pairwise at-most-one, and
/// `one` the disjunction conjoined with at-most-one.
pub fn mult_test(c: &mut Circuit, test: MultTest, m: &Matrix) -> (r: Bool)
    requires
        old(c).wf(),
        m.wf(),
        m.valid_below(old(c).nv()),
        old(c).nv() + m.dom().len() * m.dom().len() + 3 <= u32::MAX,
    ensures
        grown(old(c), final(c)),
        final(c).nv() <= old(c).nv() + m.dom().len() * m.dom().len() + 3,
        valid(r, final(c).nv()),
        forall|s: Assignment| #[trigger] sat(final(c).cls(), s) ==> val(r, s) == mult_spec(test, m.denote(s)),
{
    let ghost c0 = *c;
    let cells = cells_of(m);
    proof {
        lemma_grown_refl(&c0);
        assert forall|q: int| 0 <= q < cells@.len() implies valid(#[trigger] cells@[q], c0.nv()) by {
            lemma_cell_at(m, q, c0.nv());
        }
        assert forall|s: Assignment| true implies (m.denote(s) != Set::<Seq<nat>>::empty()) == any_true(m.values(), s)
            && lone(m.denote(s)) == at_most_one_spec(m.values(), s) by {
            lemma_denote_nonempty(m, s);
        }
    }
    match test {
        MultTest::No => {
            let some = c.or_many(cells);
            let r = c.not(some);
            r
        },
        MultTest::Nonempty => c.or_many(cells),
        MultTest::Lone => at_most_one(c, cells.as_slice()),
        MultTest::One => {
            let ghost cs = cells@;
            let copy = copy_bools(&cells);
            let some = c.or_many(copy);
            let ghost c1 = *c;
            let lone = at_most_one(c, cells.as_slice());
            let ghost c2 = *c;
            let r = c.and(some, lone);
            proof {
                lemma_grown_trans(&c0, &c1, &c2);
                lemma_grown_trans(&c0, &c2, c);
                assert forall|s: Assignment| #[trigger] sat(c.cls(), s) implies val(r, s) == mult_spec(test, m.denote(s)) by {
                    lemma_sat_back(&c2, c, s);
                    lemma_sat_back(&c1, &c2, s);
                }
            }
            r
        },
    }
}

/// The tuples of `a` and of `b`, as one ordered set.
fn key_union(a: &Matrix, b: &Matrix) -> (keys: TupleSet)
    requires
        a.wf(),
        b.wf(),
        a.ar() == b.ar(),
    ensures
        keys.wf(),
        keys@ == a.dom().union(b.dom()),
{
    let mut keys = TupleSet::empty(a.arity());
    let ta = a.tuples();
    let tb = b.tuples();
    let mut i: usize = 0;
    proof {
        lemma_take_to_set_ends(a.order());
        lemma_take_to_set_ends(b.order());
    }
    while i < ta.len()
        invariant
            i <= ta.len(),
            ta@.map_values(|t: Tuple| t@) == a.order(),
            a.wf(),
            keys.wf(),
            keys.ar() == a.ar(),
            keys@ == a.order().take(i as int).to_set(),
        decreases ta.len() - i,
    {
        proof {
            assert(a.order()[i as int] == ta@[i as int]@);
            assert(a.dom().contains(a.order()[i as int]));
            lemma_take_to_set_step(a.order(), i as int);
        }
        keys.insert(ta[i].duplicate());
        i = i + 1;
    }
    let mut j: usize = 0;
    while j < tb.len()
        invariant
            j <= tb.len(),
            i == ta.len(),
            ta@.map_values(|t: Tuple| t@) == a.order(),
            tb@.map_values(|t: Tuple| t@) == b.order(),
            a.wf(),
            b.wf(),
            a.ar() == b.ar(),
            keys.wf(),
            keys.ar() == a.ar(),
            keys@ == a.order().take(i as int).to_set().union(b.order().take(j as int).to_set()),
        decreases tb.len() - j,
    {
        proof {
            assert(b.order()[j as int] == tb@[j as int]@);
            assert(b.dom().contains(b.order()[j as int]));
            lemma_take_to_set_step(b.order(), j as int);
        }
        keys.insert(tb[j].duplicate());
        j = j + 1;
        assert(keys@ =~= a.order().take(i as int).to_set().union(b.order().take(j as int).to_set()));
    }
    proof {
        assert(a.order().len() == ta@.len());
        assert(b.order().len() == tb@.len());
    }
    keys
}

/// A relation comparison: `a in b` is the conjunction over `a`'s tuples of
/// `a[t] → b[t]`; `a = b` the conjunction over the tuples of either of
/// `a[t] ↔ b[t]`.
pub fn rel_compare(c: &mut Circuit, op: RelCmpOp, a: &Matrix, b: &Matrix) -> (r: Bool)
    requires
        old(c).wf(),
        a.wf(),
        b.wf(),
        a.ar() == b.ar(),
        a.valid_below(old(c).nv()),
        b.valid_below(old(c).nv()),
        old(c).nv() + 3 * (a.dom().len() + b.dom().len()) + 1 <= u32::MAX,
    ensures
        grown(old(c), final(c)),
        final(c).nv() <= old(c).nv() + 3 * (a.dom().len() + b.dom().len()) + 1,
        valid(r, final(c).nv()),
        forall|s: Assignment| #[trigger] sat(final(c).cls(), s) ==> val(r, s) == rel_compare_spec(op, a.denote(s), b.denote(s)),
{
    let ghost c0 = *c;
    let ghost n0 = c0.nv();
    proof {
        lemma_grown_refl(&c0);
    }
    match op {
        RelCmpOp::Subset => {
            let ea = a.iter();
            let ghost ka = a.order();
            let mut parts: Vec<Bool> = Vec::new();
            let mut i: usize = 0;
            while i < ea.len()
                invariant
                    i <= ea.len(),
                    entry_keys(ea@) == ka,
                    entry_vals(ea@) == a.values(),
                    ka == a.order(),
                    a.wf(),
                    b.wf(),
                    a.valid_below(n0),
                    b.valid_below(n0),
                    n0 == c0.nv(),
                    n0 + 3 * (a.dom().len() + b.dom().len()) + 1 <= u32::MAX,
                    grown(&c0, c),
                    c.nv() <= n0 + i,
                    parts@.len() == i,
                    all_valid(parts@, c.nv()),
                    forall|s: Assignment| #[trigger] sat(c.cls(), s) ==> forall|k: int| 0 <= k < i ==> val(#[trigger] parts@[k], s)
                        == (a.denote(s).contains(ka[k]) ==> b.denote(s).contains(ka[k])),
                decreases ea.len() - i,
            {
                let t = &ea[i].0;
                let av = ea[i].1;
                proof {
                    assert(ka[i as int] == ea@[i as int].0@);
                    assert(a.values()[i as int] == ea@[i as int].1);
                    lemma_cell_at(a, i as int, c.nv());
                    lemma_cell_valid(b, t@, c.nv());
                }
                let bv = b.get(t);
                let ghost c1 = *c;
                let ghost ps = parts@;
                let imp = c.implies(av, bv);
                parts.push(imp);
                proof {
                    lemma_grown_trans(&c0, &c1, c);
                    assert forall|s: Assignment| #[trigger] sat(c.cls(), s) implies forall|k: int| 0 <= k < i + 1 ==> val(#[trigger] parts@[k], s)
                        == (a.denote(s).contains(ka[k]) ==> b.denote(s).contains(ka[k])) by {
                        lemma_sat_back(&c1, c, s);
                        Matrix::lemma_denote_cell(a, ka[i as int], s);
                        Matrix::lemma_denote_cell(b, ka[i as int], s);
                        assert forall|k: int| 0 <= k < i + 1 implies val(#[trigger] parts@[k], s)
                            == (a.denote(s).contains(ka[k]) ==> b.denote(s).contains(ka[k])) by {
                            if k < i {
                                assert(parts@[k] == ps[k]);
                            }
                        }
                    }
                }
                i = i + 1;
            }
            let ghost c2 = *c;
            let ghost ps = parts@;
            let r = c.and_many(parts);
            proof {
                lemma_grown_trans(&c0, &c2, c);
                assert forall|s: Assignment| #[trigger] sat(c.cls(), s) implies val(r, s) == rel_compare_spec(op, a.denote(s), b.denote(s)) by {
                    lemma_sat_back(&c2, c, s);
                    assert(ka.len() == ea@.len());
                    if all_true(ps, s) {
                        assert forall|t: Seq<nat>| a.denote(s).contains(t) implies b.denote(s).contains(t) by {
                            assert(ka.to_set().contains(t));
                            let k = choose|k: int| 0 <= k < ka.len() && ka[k] == t;
                            assert(val(ps[k], s));
                        }
                    }
                    if a.denote(s).subset_of(b.denote(s)) {
                        assert forall|k: int| 0 <= k < ps.len() implies val(#[trigger] ps[k], s) by {}
                    }
                }
            }
            r
        },
        RelCmpOp::Equal => {
            let keys = key_union(a, b);
            let kt = keys.iter();
            let ghost ko = keys.ordered();
            let mut parts: Vec<Bool> = Vec::new();
            let mut i: usize = 0;
            proof {
                vstd::set_lib::lemma_len_union(a.dom(), b.dom());
                assert(tuple_views(kt@) == ko);
            }
            while i < kt.len()
                invariant
                    i <= kt.len(),
                    tuple_views(kt@) == ko,
                    ko == keys.ordered(),
                    keys.wf(),
                    keys@ == a.dom().union(b.dom()),
                    ko.len() <= a.dom().len() + b.dom().len(),
                    a.wf(),
                    b.wf(),
                    a.valid_below(n0),
                    b.valid_below(n0),
                    n0 == c0.nv(),
                    n0 + 3 * (a.dom().len() + b.dom().len()) + 1 <= u32::MAX,
                    grown(&c0, c),
                    c.nv() <= n0 + 3 * i,
                    parts@.len() == i,
                    all_valid(parts@, c.nv()),
                    forall|s: Assignment| #[trigger] sat(c.cls(), s) ==> forall|k: int| 0 <= k < i ==> val(#[trigger] parts@[k], s)
                        == (a.denote(s).contains(ko[k]) == b.denote(s).contains(ko[k])),
                decreases kt.len() - i,
            {
                let t = &kt[i];
                proof {
                    assert(ko[i as int] == kt@[i as int]@);
                    lemma_cell_valid(a, t@, c.nv());
                    lemma_cell_valid(b, t@, c.nv());
                }
                let av = a.get(t);
                let bv = b.get(t);
                let ghost c1 = *c;
                let ghost ps = parts@;
                let e = c.iff(av, bv);
                parts.push(e);
                proof {
                    lemma_grown_trans(&c0, &c1, c);
                    assert forall|s: Assignment| #[trigger] sat(c.cls(), s) implies forall|k: int| 0 <= k < i + 1 ==> val(#[trigger] parts@[k], s)
                        == (a.denote(s).contains(ko[k]) == b.denote(s).contains(ko[k])) by {
                        lemma_sat_back(&c1, c, s);
                        Matrix::lemma_denote_cell(a, ko[i as int], s);
                        Matrix::lemma_denote_cell(b, ko[i as int], s);
                        assert forall|k: int| 0 <= k < i + 1 implies val(#[trigger] parts@[k], s)
                            == (a.denote(s).contains(ko[k]) == b.denote(s).contains(ko[k])) by {
                            if k < i {
                                assert(parts@[k] == ps[k]);
                            }
                        }
                    }
                }
                i = i + 1;
            }
            let ghost c2 = *c;
            let ghost ps = parts@;
            let r = c.and_many(parts);
            proof {
                lemma_grown_trans(&c0, &c2, c);
                assert forall|s: Assignment| #[trigger] sat(c.cls(), s) implies val(r, s) == rel_compare_spec(op, a.denote(s), b.denote(s)) by {
                    lemma_sat_back(&c2, c, s);
                    assert(ko.len() == kt@.len());
                    if all_true(ps, s) {
                        assert forall|t: Seq<nat>| a.denote(s).contains(t) == b.denote(s).contains(t) by {
                            if a.dom().contains(t) || b.dom().contains(t) {
                                assert(keys@.contains(t));
                                let k = choose|k: int| 0 <= k < ko.len() && ko[k] == t;
                                assert(val(ps[k], s));
                            }
                        }
                        assert(a.denote(s) =~= b.denote(s));
                    }
                    if a.denote(s) == b.denote(s) {
                        assert forall|k: int| 0 <= k < ps.len() implies val(#[trigger] ps[k], s) by {}
                    }
                }
            }
            r
        },
    }
}

/// A copy of a list of cells.
fn copy_bools(v: &Vec<Bool>) -> (r: Vec<Bool>)
    ensures
        r@ == v@,
{
    let mut r: Vec<Bool> = Vec::new();
    let mut i: usize = 0;
    while i < v.len()
        invariant
            i <= v.len(),
            r@ == v@.take(i as int),
        decreases v.len() - i,
    {
        r.push(v[i]);
        i = i + 1;
        assert(r@ =~= v@.take(i as int));
    }
    assert(v@.take(i as int) =~= v@);
    r
}

/// One position of the lex-leq circuit: the clause `prevEq → (o → p)` and
/// the next `prevEq ∧ (o ↔ p)`.
fn lex_step(c: &mut Circuit, o: Bool, p: Bool, prev_eq: Bool) -> (r: (Bool, Bool))
    requires
        old(c).wf(),
        valid(o, old(c).nv()),
        valid(p, old(c).nv()),
        valid(prev_eq, old(c).nv()),
        old(c).nv() + 6 <= u32::MAX,
    ensures
        grown(old(c), final(c)),
        final(c).nv() <= old(c).nv() + 6,
        valid(r.0, final(c).nv()),
        valid(r.1, final(c).nv()),
        forall|s: Assignment| #[trigger] sat(final(c).cls(), s) ==> val(r.0, s) == (val(prev_eq, s) ==> (val(o, s) ==> val(p, s)))
            && val(r.1, s) == (val(prev_eq, s) && val(o, s) == val(p, s)),
{
    let ghost c1 = *c;
    let imp = c.implies(o, p);
    let ghost ca = *c;
    let clause = c.implies(prev_eq, imp);
    let ghost cb = *c;
    let eq = c.iff(o, p);
    let ghost cc = *c;
    let next = c.and(prev_eq, eq);
    proof {
        lemma_grown_trans(&c1, &ca, &cb);
        lemma_grown_trans(&c1, &cb, &cc);
        lemma_grown_trans(&c1, &cc, c);
        assert forall|s: Assignment| #[trigger] sat(c.cls(), s) implies val(clause, s) == (val(prev_eq, s) ==> (val(o, s) ==> val(p, s)))
            && val(next, s) == (val(prev_eq, s) && val(o, s) == val(p, s)) by {
            lemma_sat_back(&cc, c, s);
            lemma_sat_back(&cb, &cc, s);
            lemma_sat_back(&ca, &cb, s);
        }
    }
    (clause, next)
}

/// The lex-leq circuit `⋀_i (prevEq_{i−1} → (oᵢ → pᵢ))` with `prevEq_i =
/// prevEq_{i−1} ∧ (oᵢ ↔ pᵢ)` and `prevEq_{−1} = true`, over the common
/// length of the two lists.
pub fn lex_leq(c: &mut Circuit, original: &[Bool], permuted: &[Bool]) -> (r: Bool)
    requires
        old(c).wf(),
        all_valid(original@, old(c).nv()),
        all_valid(permuted@, old(c).nv()),
        old(c).nv() + 6 * original@.len() + 1 <= u32::MAX,
    ensures
        grown(old(c), final(c)),
        final(c).nv() <= old(c).nv() + 6 * original@.len() + 1,
        valid(r, final(c).nv()),
        forall|s: Assignment| #[trigger] sat(final(c).cls(), s) ==> val(r, s) == lex_leq_spec(original@, permuted@, s),
{
    let ghost c0 = *c;
    let ghost n0 = c0.nv();
    let ghost os = original@;
    let ghost qs = permuted@;
    proof {
        lemma_grown_refl(&c0);
    }
    let mut clauses: Vec<Bool> = Vec::new();
    let mut prev_eq = Bool::Const(true);
    let mut i: usize = 0;
    while i < original.len() && i < permuted.len()
        invariant
            i <= os.len(),
            i <= qs.len(),
            os == original@,
            qs == permuted@,
            all_valid(os, n0),
            all_valid(qs, n0),
            n0 == c0.nv(),
            n0 + 6 * os.len() + 1 <= u32::MAX,
            grown(&c0, c),
            c.nv() <= n0 + 6 * i,
            valid(prev_eq, c.nv()),
            clauses@.len() == i,
            all_valid(clauses@, c.nv()),
            forall|s: Assignment| #[trigger] sat(c.cls(), s) ==> val(prev_eq, s) == prefix_eq(os, qs, i as int, s),
            forall|s: Assignment| #[trigger] sat(c.cls(), s) ==> forall|k: int| 0 <= k < i ==> val(#[trigger] clauses@[k], s) == (
            prefix_eq(os, qs, k, s) ==> (val(os[k], s) ==> val(qs[k], s))),
        decreases os.len() - i,
    {
        let o = original[i];
        let p = permuted[i];
        let ghost c1 = *c;
        let ghost pe = prev_eq;
        let ghost cm = clauses@;
        let (clause, next) = lex_step(c, o, p, prev_eq);
        clauses.push(clause);
        prev_eq = next;
        proof {
            lemma_grown_trans(&c0, &c1, c);
            assert forall|s: Assignment| #[trigger] sat(c.cls(), s) implies val(prev_eq, s) == prefix_eq(os, qs, i + 1, s) by {
                lemma_sat_back(&c1, c, s);
            }
            assert forall|s: Assignment| #[trigger] sat(c.cls(), s) implies forall|k: int| 0 <= k < i + 1 ==> val(#[trigger] clauses@[k], s) == (
            prefix_eq(os, qs, k, s) ==> (val(os[k], s) ==> val(qs[k], s))) by {
                lemma_sat_back(&c1, c, s);
                assert forall|k: int| 0 <= k < i + 1 implies val(#[trigger] clauses@[k], s) == (
                prefix_eq(os, qs, k, s) ==> (val(os[k], s) ==> val(qs[k], s))) by {
                    if k < i {
                        assert(clauses@[k] == cm[k]);
                    }
                }
            }
        }
        i = i + 1;
    }
    let ghost c2 = *c;
    let ghost cs = clauses@;
    let r = c.and_many(clauses);
    proof {
        lemma_grown_trans(&c0, &c2, c);
        assert forall|s: Assignment| #[trigger] sat(c.cls(), s) implies val(r, s) == lex_leq_spec(os, qs, s) by {
            lemma_sat_back(&c2, c, s);
            if all_true(cs, s) {
                assert forall|k: int| 0 <= k < os.len() && k < qs.len() implies #[trigger] prefix_eq(os, qs, k, s) ==> (val(os[k], s)
                    ==> val(qs[k], s)) by {
                    assert(val(cs[k], s));
                }
            }
            if lex_leq_spec(os, qs, s) {
                assert forall|k: int| 0 <= k < cs.len() implies val(#[trigger] cs[k], s) by {
                    assert(prefix_eq(os, qs, k, s) ==> (val(os[k], s) ==> val(qs[k], s)));
                }
            }
        }
    }
    r
}

} // verus!
