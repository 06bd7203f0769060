//! Constructors the bounds phase builds from: tuple sets (a unary set over
//! atoms, the Cartesian product of per-column atom sets), and the IR shapes
//! of its constraints (unions of denotations, and the size witnesses that
//! cap or fix the number of atoms in a signature without counting them).

use vstd::prelude::*;

use vstd::string::StringExecFns;

use crate::bounds::{atom_indices, AtomId, Tuple, TupleSet};
use crate::ir::{
    Formula, FormulaId, FormulaKind, Ir, MultTest, QuantKind, RelBinOp, RelCmpOp, RelConst, RelExpr, RelExprId, RelExprKind, Var,
    VarId,
};
use crate::lower::{
    disjoint_rels, disjoint_tests, formula_ids, pairs_before, push_pairwise_disjoint, union_nodes, union_rel,
};
use crate::numeral::{append_decimal, decimal};
use crate::span::Span;

verus! {

broadcast use TupleSet::lemma_wf;

/// The unary tuples over a set of atom positions.
pub open spec fn unary_spec(atoms: Set<nat>) -> Set<Seq<nat>> {
    Set::new(|t: Seq<nat>| t.len() == 1 && atoms.contains(t[0]))
}

/// The Cartesian product of per-column atom sets: every sequence with one
/// atom from each column, in column order.
pub open spec fn cartesian(cols: Seq<Set<nat>>) -> Set<Seq<nat>> {
    Set::new(
        |t: Seq<nat>|
            t.len() == cols.len() && forall|i: int| 0 <= i < cols.len() ==> #[trigger] cols[i].contains(t[i]),
    )
}

/// The atom positions in each column.
pub open spec fn column_sets(cols: Seq<Vec<AtomId>>) -> Seq<Set<nat>> {
    cols.map_values(|c: Vec<AtomId>| atom_indices(c@).to_set())
}

/// A unary tuple set over `atoms`, in atom order.
pub fn unary_tupleset(atoms: &[AtomId]) -> (s: TupleSet)
    ensures
        s.wf(),
        s.ar() == 1,
        s@ == unary_spec(atom_indices(atoms@).to_set()),
{
    let mut set = TupleSet::empty(1);
    let mut i: usize = 0;
    while i < atoms.len()
        invariant
            i <= atoms.len(),
            set.wf(),
            set.ar() == 1,
            set@ == unary_spec(atom_indices(atoms@).take(i as int).to_set()),
        decreases atoms.len() - i,
    {
        let t = Tuple::new(vec![atoms[i]]);
        set.insert(t);
        i = i + 1;
        proof {
            let prefix = atom_indices(atoms@).take(i as int);
            assert(t@ =~= seq![atoms@[i - 1].index as nat]);
            assert(set@ =~= unary_spec(prefix.to_set())) by {
                assert forall|u: Seq<nat>| unary_spec(prefix.to_set()).contains(u) implies set@.contains(
                    u,
                ) by {
                    let k = choose|k: int| 0 <= k < prefix.len() && prefix[k] == u[0];
                    if k < i - 1 {
                        assert(atom_indices(atoms@).take(i - 1)[k] == u[0]);
                        assert(unary_spec(atom_indices(atoms@).take(i - 1).to_set()).contains(u));
                    } else {
                        assert(u =~= t@);
                    }
                }
                assert forall|u: Seq<nat>| set@.contains(u) implies unary_spec(prefix.to_set()).contains(
                    u,
                ) by {
                    if u != t@ {
                        let old_prefix = atom_indices(atoms@).take(i - 1);
                        assert(unary_spec(old_prefix.to_set()).contains(u));
                        let k = choose|k: int| 0 <= k < old_prefix.len() && old_prefix[k] == u[0];
                        assert(prefix[k] == u[0]);
                    } else {
                        assert(prefix[i - 1] == u[0]);
                    }
                }
            }
        }
    }
    assert(atom_indices(atoms@).take(i as int) =~= atom_indices(atoms@));
    set
}

/// The sequences extending a member of `rows` by one atom of `col`.
pub open spec fn extend_rows(rows: Set<Seq<nat>>, col: Set<nat>) -> Set<Seq<nat>> {
    Set::new(|t: Seq<nat>| t.len() >= 1 && rows.contains(t.drop_last()) && col.contains(t.last()))
}

/// The product over one more column extends the product over the prefix.
proof fn lemma_cartesian_step(cols: Seq<Set<nat>>, k: int)
    requires
        0 <= k < cols.len(),
    ensures
        cartesian(cols.take(k + 1)) == extend_rows(cartesian(cols.take(k)), cols[k]),
{
    assert(cartesian(cols.take(k + 1)) =~= extend_rows(cartesian(cols.take(k)), cols[k])) by {
        assert forall|t: Seq<nat>| cartesian(cols.take(k + 1)).contains(t) implies extend_rows(
            cartesian(cols.take(k)),
            cols[k],
        ).contains(t) by {
            assert forall|i: int| 0 <= i < cols.take(k).len() implies #[trigger] cols.take(k)[i].contains(
                t.drop_last()[i],
            ) by {
                assert(cols.take(k + 1)[i].contains(t[i]));
            }
            assert(cols.take(k + 1)[k].contains(t[k]));
        }
        assert forall|t: Seq<nat>| extend_rows(cartesian(cols.take(k)), cols[k]).contains(
            t,
        ) implies cartesian(cols.take(k + 1)).contains(t) by {
            assert forall|i: int| 0 <= i < cols.take(k + 1).len() implies #[trigger] cols.take(
                k + 1,
            )[i].contains(t[i]) by {
                if i < k {
                    assert(cols.take(k)[i].contains(t.drop_last()[i]));
                }
            }
        }
    }
}

/// The views of a list of atom rows.
pub open spec fn row_views(rows: Seq<Vec<AtomId>>) -> Seq<Seq<nat>> {
    rows.map_values(|r: Vec<AtomId>| atom_indices(r@))
}

/// Inserts into `set` the Cartesian product of `columns` (one atom list per
/// column). An empty column yields no tuples; no columns insert nothing.
pub fn insert_product(set: &mut TupleSet, columns: &[Vec<AtomId>])
    requires
        old(set).wf(),
        columns@.len() == 0 || (exists|i: int| 0 <= i < columns@.len() && columns@[i]@.len() == 0)
            || old(set).ar() == columns@.len(),
    ensures
        final(set).wf(),
        final(set).ar() == old(set).ar(),
        columns@.len() == 0 ==> final(set)@ == old(set)@,
        columns@.len() > 0 ==> final(set)@ == old(set)@ + cartesian(column_sets(columns@)),
{
    let ghost cols = column_sets(columns@);
    if columns.len() == 0 {
        return;
    }
    let mut c: usize = 0;
    let mut has_empty = false;
    while c < columns.len()
        invariant
            c <= columns@.len(),
            cols == column_sets(columns@),
            !has_empty ==> forall|i: int| 0 <= i < c ==> columns@[i]@.len() > 0,
            has_empty ==> cartesian(cols) == Set::<Seq<nat>>::empty(),
        decreases columns.len() - c,
    {
        if columns[c].len() == 0 {
            proof {
                assert(cols[c as int] =~= Set::<nat>::empty());
                assert(cartesian(cols) =~= Set::<Seq<nat>>::empty()) by {
                    assert forall|t: Seq<nat>| !cartesian(cols).contains(t) by {
                        if cartesian(cols).contains(t) {
                            assert(cols[c as int].contains(t[c as int]));
                        }
                    }
                }
            }
            has_empty = true;
        }
        c = c + 1;
    }
    if has_empty {
        proof {
            assert(set@ + cartesian(cols) =~= set@);
        }
        return;
    }
    let mut rows: Vec<Vec<AtomId>> = vec![Vec::new()];
    proof {
        assert(cartesian(cols.take(0)) =~= set![Seq::<nat>::empty()]) by {
            assert forall|t: Seq<nat>| cartesian(cols.take(0)).contains(t) implies t == Seq::<nat>::empty() by {
                assert(t =~= Seq::<nat>::empty());
            }
        }
        assert(row_views(rows@).to_set() =~= set![Seq::<nat>::empty()]) by {
            assert(row_views(rows@)[0] =~= Seq::<nat>::empty());
            assert forall|t: Seq<nat>| row_views(rows@).to_set().contains(t) implies t == Seq::<nat>::empty() by {
                let q = choose|q: int| 0 <= q < row_views(rows@).len() && row_views(rows@)[q] == t;
            }
        }
    }
    let mut k: usize = 0;
    while k < columns.len()
        invariant
            k <= columns@.len(),
            cols == column_sets(columns@),
            row_views(rows@).to_set() == cartesian(cols.take(k as int)),
        decreases columns.len() - k,
    {
        let col = &columns[k];
        let ghost cset = atom_indices(col@).to_set();
        let ghost rset = row_views(rows@).to_set();
        let mut next: Vec<Vec<AtomId>> = Vec::new();
        let mut p: usize = 0;
        while p < rows.len()
            invariant
                p <= rows@.len(),
                rset == row_views(rows@).to_set(),
                cset == atom_indices(col@).to_set(),
                forall|t: Seq<nat>|
                    #[trigger] row_views(next@).to_set().contains(t) <==> (t.len() >= 1 && exists|q: int|
                        0 <= q < p && row_views(rows@)[q] == t.drop_last()) && cset.contains(t.last()),
            decreases rows.len() - p,
        {
            let row = &rows[p];
            let ghost before = row_views(next@);
            let mut a: usize = 0;
            while a < col.len()
                invariant
                    a <= col@.len(),
                    p < rows@.len(),
                    row == &rows@[p as int],
                    cset == atom_indices(col@).to_set(),
                    forall|t: Seq<nat>|
                        #[trigger] row_views(next@).to_set().contains(t) <==> (before.to_set().contains(t) || (
                        t.len() >= 1 && t.drop_last() == atom_indices(row@) && exists|j: int|
                            0 <= j < a && atom_indices(col@)[j] == t.last())),
                decreases col.len() - a,
            {
                let mut extended: Vec<AtomId> = Vec::new();
                let mut m: usize = 0;
                while m < row.len()
                    invariant
                        m <= row@.len(),
                        extended@ == row@.take(m as int),
                    decreases row.len() - m,
                {
                    extended.push(row[m]);
                    m = m + 1;
                    assert(extended@ =~= row@.take(m as int));
                }
                assert(row@.take(m as int) =~= row@);
                extended.push(col[a]);
                let ghost ev = atom_indices(extended@);
                let ghost old_next = row_views(next@);
                next.push(extended);
                proof {
                    assert(ev =~= atom_indices(row@).push(col@[a as int].index as nat));
                    assert(row_views(next@) =~= old_next.push(ev));
                    assert(ev.drop_last() =~= atom_indices(row@));
                    assert forall|t: Seq<nat>|
                        #[trigger] row_views(next@).to_set().contains(t) <==> (before.to_set().contains(t) || (
                        t.len() >= 1 && t.drop_last() == atom_indices(row@) && exists|j: int|
                            0 <= j < a + 1 && atom_indices(col@)[j] == t.last())) by {
                        if row_views(next@).to_set().contains(t) {
                            let q = choose|q: int| 0 <= q < row_views(next@).len() && row_views(next@)[q] == t;
                            if q < old_next.len() {
                                assert(old_next.to_set().contains(t));
                            } else {
                                assert(atom_indices(col@)[a as int] == t.last());
                            }
                        }
                        if before.to_set().contains(t) {
                            assert(old_next.to_set().contains(t));
                            let q = choose|q: int| 0 <= q < old_next.len() && old_next[q] == t;
                            assert(row_views(next@)[q] == t);
                        }
                        if t.len() >= 1 && t.drop_last() == atom_indices(row@) && exists|j: int|
                            0 <= j < a + 1 && atom_indices(col@)[j] == t.last() {
                            let j = choose|j: int| 0 <= j < a + 1 && atom_indices(col@)[j] == t.last();
                            if j < a {
                                assert(old_next.to_set().contains(t));
                                let q = choose|q: int| 0 <= q < old_next.len() && old_next[q] == t;
                                assert(row_views(next@)[q] == t);
                            } else {
                                assert(t =~= ev);
                                assert(row_views(next@)[old_next.len() as int] == t);
                            }
                        }
                    }
                }
                a = a + 1;
            }
            proof {
                assert forall|t: Seq<nat>|
                    #[trigger] row_views(next@).to_set().contains(t) <==> (t.len() >= 1 && exists|q: int|
                        0 <= q < p + 1 && row_views(rows@)[q] == t.drop_last()) && cset.contains(t.last()) by {
                    if row_views(next@).to_set().contains(t) && !before.to_set().contains(t) {
                        let j = choose|j: int| 0 <= j < a && atom_indices(col@)[j] == t.last();
                        assert(row_views(rows@)[p as int] == t.drop_last());
                    }
                    if (t.len() >= 1 && exists|q: int| 0 <= q < p + 1 && row_views(rows@)[q] == t.drop_last())
                        && cset.contains(t.last()) {
                        let q = choose|q: int| 0 <= q < p + 1 && row_views(rows@)[q] == t.drop_last();
                        if q == p {
                            let j = choose|j: int| 0 <= j < atom_indices(col@).len() && atom_indices(col@)[j] == t.last();
                        }
                    }
                }
            }
            p = p + 1;
        }
        proof {
            lemma_cartesian_step(cols, k as int);
            assert(cols[k as int] == cset);
            assert(row_views(next@).to_set() =~= extend_rows(rset, cset)) by {
                assert forall|t: Seq<nat>| row_views(next@).to_set().contains(t) implies extend_rows(
                    rset,
                    cset,
                ).contains(t) by {
                    let q = choose|q: int| 0 <= q < rows@.len() && row_views(rows@)[q] == t.drop_last();
                }
                assert forall|t: Seq<nat>| extend_rows(rset, cset).contains(t) implies row_views(
                    next@,
                ).to_set().contains(t) by {
                    let q = choose|q: int| 0 <= q < row_views(rows@).len() && row_views(rows@)[q] == t.drop_last();
                }
            }
        }
        rows = next;
        k = k + 1;
    }
    proof {
        assert(cols.take(columns@.len() as int) =~= cols);
    }
    let ghost start = set@;
    let mut r: usize = 0;
    while r < rows.len()
        invariant
            r <= rows@.len(),
            set.wf(),
            set.ar() == columns@.len(),
            start == old(set)@,
            row_views(rows@).to_set() == cartesian(cols),
            cols.len() == columns@.len(),
            set@ == start + row_views(rows@).take(r as int).to_set(),
        decreases rows.len() - r,
    {
        let ghost rv = row_views(rows@)[r as int];
        proof {
            assert(row_views(rows@).to_set().contains(rv));
            crate::relspec::lemma_take_to_set_step(row_views(rows@), r as int);
        }
        let mut atoms: Vec<AtomId> = Vec::new();
        let mut m: usize = 0;
        while m < rows[r].len()
            invariant
                r < rows@.len(),
                m <= rows@[r as int]@.len(),
                atoms@ == rows@[r as int]@.take(m as int),
            decreases rows@[r as int]@.len() - m,
        {
            atoms.push(rows[r][m]);
            m = m + 1;
            assert(atoms@ =~= rows@[r as int]@.take(m as int));
        }
        assert(rows@[r as int]@.take(m as int) =~= rows@[r as int]@);
        let t = Tuple::new(atoms);
        set.insert(t);
        r = r + 1;
        assert(set@ =~= start + row_views(rows@).take(r as int).to_set());
    }
    proof {
        crate::relspec::lemma_take_to_set_ends(row_views(rows@));
    }
}

/// A multiplicity-test formula kind over `expr`.
pub fn mult_test(test: MultTest, expr: RelExprId) -> (k: FormulaKind)
    ensures
        k == (FormulaKind::MultTest { test, expr }),
{
    FormulaKind::MultTest { test, expr }
}

/// `parts` folded into a left-nested union (see [`union_rel`]); the empty
/// relation for none.
pub fn union_of(ir: &mut Ir, parts: &[RelExprId], span: Span) -> (r: RelExprId)
    requires
        old(ir).rel_exprs@.len() + parts@.len() < usize::MAX,
    ensures
        final(ir).formulas == old(ir).formulas,
        final(ir).int_exprs == old(ir).int_exprs,
        final(ir).relations == old(ir).relations,
        final(ir).vars == old(ir).vars,
        parts@.len() == 0 ==> r.index == old(ir).rel_exprs@.len() && final(ir).rel_exprs@ == old(ir).rel_exprs@.push(
            RelExpr { kind: RelExprKind::Const(RelConst::Empty), span },
        ),
        parts@.len() == 1 ==> r == parts@[0] && final(ir).rel_exprs@ == old(ir).rel_exprs@,
        parts@.len() >= 2 ==> r.index == old(ir).rel_exprs@.len() + parts@.len() - 2 && final(ir).rel_exprs@ == old(ir).rel_exprs@
            + union_nodes(parts@, old(ir).rel_exprs@.len(), span),
{
    union_rel(ir, parts, span)
}

/// The ids of `n` consecutive relation-expression nodes from `rb`.
pub open spec fn rel_ids(n: nat, rb: nat) -> Seq<RelExprId> {
    Seq::new(n, |k: int| RelExprId { index: (rb + k) as usize })
}

/// `n` nodes each naming one of the variables from `vb` on, in order.
pub open spec fn var_nodes(n: nat, vb: nat, span: Span) -> Seq<RelExpr> {
    Seq::new(n, |k: int| RelExpr { kind: RelExprKind::Var(VarId { index: (vb + k) as usize }), span })
}

/// The variables from `vb` on are `n` unary witnesses named `name`, `tag`
/// and their position.
pub open spec fn witness_vars(vars: Seq<Var>, vb: nat, n: nat, name: Seq<char>, tag: Seq<char>, span: Span) -> bool {
    &&& vars.len() == vb + n
    &&& forall|k: int|
        0 <= k < n ==> (#[trigger] vars[vb + k]).name@ == name + tag + decimal(k as nat) && vars[vb + k].arity == 1
            && vars[vb + k].span == span
}

/// Where the union of `n` nodes from `rb`, folded from position `rb + n`
/// on, ends up.
pub open spec fn union_id(n: nat, rb: nat) -> nat {
    if n <= 1 {
        rb
    } else {
        (rb + n + n - 2) as nat
    }
}

/// The first `count` quantifiers of `some v0, .., v(n-1): denote | body`,
/// built innermost first around the formula at `fb`: quantifier `k` binds
/// variable `vb + n - 1 - k`.
pub open spec fn exists_chain(count: nat, n: nat, vb: nat, fb: nat, denote: RelExprId, span: Span) -> Seq<Formula> {
    Seq::new(
        count,
        |k: int|
            Formula {
                kind: FormulaKind::Quant {
                    kind: QuantKind::Exists,
                    var: VarId { index: (vb + n - 1 - k) as usize },
                    bound: denote,
                    body: FormulaId { index: (fb + k) as usize },
                },
                span,
            },
    )
}

/// Allocates `n` unary witness variables named `name`, `tag` and their
/// position, and a node naming each; returns the nodes' ids.
fn witnesses(ir: &mut Ir, name: &str, tag: &str, n: usize, span: Span) -> (ids: Vec<RelExprId>)
    requires
        old(ir).vars@.len() + n < usize::MAX,
        old(ir).rel_exprs@.len() + n < usize::MAX,
    ensures
        final(ir).formulas == old(ir).formulas,
        final(ir).int_exprs == old(ir).int_exprs,
        final(ir).relations == old(ir).relations,
        final(ir).vars@.take(old(ir).vars@.len() as int) == old(ir).vars@,
        witness_vars(final(ir).vars@, old(ir).vars@.len(), n as nat, name@, tag@, span),
        final(ir).rel_exprs@ == old(ir).rel_exprs@ + var_nodes(n as nat, old(ir).vars@.len(), span),
        ids@ == rel_ids(n as nat, old(ir).rel_exprs@.len()),
{
    let vstart = ir.vars.len();
    let ghost vb = ir.vars@.len();
    let ghost rb = ir.rel_exprs@.len();
    let ghost v0 = ir.vars@;
    let ghost r0 = ir.rel_exprs@;
    let mut k: usize = 0;
    while k < n
        invariant
            k <= n,
            vb == old(ir).vars@.len(),
            v0 == old(ir).vars@,
            vb + n < usize::MAX,
            ir.formulas == old(ir).formulas,
            ir.int_exprs == old(ir).int_exprs,
            ir.relations == old(ir).relations,
            ir.rel_exprs == old(ir).rel_exprs,
            ir.vars@.take(vb as int) == v0,
            witness_vars(ir.vars@, vb, k as nat, name@, tag@, span),
        decreases n - k,
    {
        let mut nm = name.to_owned();
        nm.append(tag);
        append_decimal(&mut nm, k);
        let ghost before = ir.vars@;
        ir.alloc_var(Var { name: nm, arity: 1, span });
        proof {
            assert(ir.vars@.take(vb as int) =~= v0) by {
                assert(ir.vars@.take(vb as int) =~= before.take(vb as int));
            }
            assert forall|j: int| 0 <= j < k + 1 implies (#[trigger] ir.vars@[vb + j]).name@ == name@ + tag@ + decimal(j as nat)
                && ir.vars@[vb + j].arity == 1 && ir.vars@[vb + j].span == span by {
                if j < k {
                    assert(ir.vars@[vb + j] == before[vb + j]);
                }
            }
        }
        k = k + 1;
    }
    let mut ids: Vec<RelExprId> = Vec::new();
    let mut k: usize = 0;
    proof {
        assert(ir.rel_exprs@ =~= r0 + var_nodes(0, vb, span));
        assert(ids@ =~= rel_ids(0, rb));
    }
    while k < n
        invariant
            k <= n,
            vb == old(ir).vars@.len(),
            vstart == vb,
            vb + n < usize::MAX,
            rb == old(ir).rel_exprs@.len(),
            r0 == old(ir).rel_exprs@,
            rb + n < usize::MAX,
            ir.formulas == old(ir).formulas,
            ir.int_exprs == old(ir).int_exprs,
            ir.relations == old(ir).relations,
            ir.vars@.take(vb as int) == old(ir).vars@,
            witness_vars(ir.vars@, vb, n as nat, name@, tag@, span),
            ir.rel_exprs@ == r0 + var_nodes(k as nat, vb, span),
            ids@ == rel_ids(k as nat, rb),
        decreases n - k,
    {
        let v = VarId { index: vstart + k };
        let id = ir.alloc_rel_expr(RelExpr { kind: RelExprKind::Var(v), span });
        ids.push(id);
        k = k + 1;
        proof {
            assert(ir.rel_exprs@ =~= r0 + var_nodes(k as nat, vb, span));
            assert(ids@ =~= rel_ids(k as nat, rb));
        }
    }
    ids
}

/// What [`build_size_witness`] adds to arenas `(vars0, rels0, fs0)`, giving
/// `(vars1, rels1, fs1)` and the formula `f`: `n` witness variables and a
/// node for each, their union, the equation of that union with `denote`,
/// and the chain of `n` existential quantifiers around it.
pub open spec fn size_witness_added(
    vars0: Seq<Var>,
    rels0: Seq<RelExpr>,
    fs0: Seq<Formula>,
    vars1: Seq<Var>,
    rels1: Seq<RelExpr>,
    fs1: Seq<Formula>,
    name: Seq<char>,
    denote: RelExprId,
    n: nat,
    span: Span,
    f: FormulaId,
) -> bool {
    let vb = vars0.len();
    let rb = rels0.len();
    let fb = fs0.len();
    &&& vars1.take(vb as int) == vars0
    &&& witness_vars(vars1, vb, n, name, "_sz"@, span)
    &&& rels1 == rels0 + var_nodes(n, vb, span) + union_nodes(rel_ids(n, rb), rb + n, span)
    &&& fs1 == fs0 + seq![
        Formula {
            kind: FormulaKind::RelCompare { op: RelCmpOp::Equal, lhs: RelExprId { index: union_id(n, rb) as usize }, rhs: denote },
            span,
        },
    ] + exists_chain(n, n, vb, fb, denote, span)
    &&& f.index == fb + n
}

/// What [`build_size_witness_exact`] adds to arenas `(vars0, rels0, fs0)`,
/// giving `(vars1, rels1, fs1)` and the formula `f`: the witnesses and their
/// union as for a cap, then the stages of pairwise disjointness, the
/// equation and the disjointness tests (conjoined when there are two
/// witnesses or more), and the chain of existential quantifiers around them.
pub open spec fn exact_witness_added(
    vars0: Seq<Var>,
    rels0: Seq<RelExpr>,
    fs0: Seq<Formula>,
    vars1: Seq<Var>,
    rels1: Seq<RelExpr>,
    fs1: Seq<Formula>,
    name: Seq<char>,
    denote: RelExprId,
    n: nat,
    span: Span,
    f: FormulaId,
) -> bool {
    let vb = vars0.len();
    let rb = rels0.len();
    let fb = fs0.len() as int;
    let ids = rel_ids(n, rb);
    let base = (rb + 2 * n - 1) as nat;
    let top: int = if n == 1 {
        fb
    } else {
        fb + n
    };
    let covers = Formula {
        kind: FormulaKind::RelCompare { op: RelCmpOp::Equal, lhs: RelExprId { index: union_id(n, rb) as usize }, rhs: denote },
        span,
    };
    &&& vars1.take(vb as int) == vars0
    &&& witness_vars(vars1, vb, n, name, "_ex"@, span)
    &&& rels1 == rels0 + var_nodes(n, vb, span) + union_nodes(ids, rb + n, span) + stages(ids, n, base, span)
    &&& fs1.take(fb + n) == fs0 + seq![covers] + stage_tests(ids, (n - 1) as nat, base, span)
    &&& n >= 2 ==> (fs1[fb + n].kind matches FormulaKind::And(ps) && ps@ == formula_ids(n, fb as nat) && fs1[fb + n].span == span)
    &&& fs1.skip(top + 1) == exists_chain(n, n, vb, top as nat, denote, span)
    &&& fs1.len() == top + 1 + n
    &&& f.index == top + n
}

/// `some v0, .., v(n-1): denote | v0 + .. + v(n-1) = denote`: `n`
/// witnesses, free to coincide, whose union is the signature, so that it
/// holds at most `n` atoms, said without counting them. The witnesses are
/// named `name`, `_sz` and their position.
pub fn build_size_witness(ir: &mut Ir, name: &str, denote: RelExprId, n: usize, span: Span) -> (f: FormulaId)
    requires
        n >= 1,
        old(ir).vars@.len() + n < usize::MAX,
        old(ir).rel_exprs@.len() + 2 * n < usize::MAX,
        old(ir).formulas@.len() + n + 1 < usize::MAX,
    ensures
        final(ir).int_exprs == old(ir).int_exprs,
        final(ir).relations == old(ir).relations,
        size_witness_added(
            old(ir).vars@,
            old(ir).rel_exprs@,
            old(ir).formulas@,
            final(ir).vars@,
            final(ir).rel_exprs@,
            final(ir).formulas@,
            name@,
            denote,
            n as nat,
            span,
            f,
        ),
{
    let vstart = ir.vars.len();
    let ghost vb = ir.vars@.len();
    let ghost rb = ir.rel_exprs@.len();
    let ghost fb = ir.formulas@.len();
    let ghost f0 = ir.formulas@;
    let ids = witnesses(ir, name, "_sz", n, span);
    let ghost r1 = ir.rel_exprs@;
    let union = union_of(ir, ids.as_slice(), span);
    proof {
        assert(union.index == union_id(n as nat, rb));
        if n == 1 {
            assert(ir.rel_exprs@ =~= r1 + union_nodes(rel_ids(n as nat, rb), (rb + n) as nat, span));
        }
    }
    let mut body = ir.alloc_formula(
        Formula { kind: FormulaKind::RelCompare { op: RelCmpOp::Equal, lhs: union, rhs: denote }, span },
    );
    let ghost covers = Formula {
        kind: FormulaKind::RelCompare { op: RelCmpOp::Equal, lhs: RelExprId { index: union_id(n as nat, rb) as usize }, rhs: denote },
        span,
    };
    let mut k: usize = n;
    proof {
        assert(ir.formulas@ =~= f0 + seq![covers] + exists_chain(0, n as nat, vb, fb, denote, span));
    }
    while k > 0
        invariant
            k <= n,
            n >= 1,
            vstart == vb,
            vb + n < usize::MAX,
            fb == old(ir).formulas@.len(),
            f0 == old(ir).formulas@,
            fb + n + 1 < usize::MAX,
            ir.formulas@ == f0 + seq![covers] + exists_chain((n - k) as nat, n as nat, vb, fb, denote, span),
            body.index == fb + (n - k),
            ir.int_exprs == old(ir).int_exprs,
            ir.relations == old(ir).relations,
            ir.vars@.take(vb as int) == old(ir).vars@,
            witness_vars(ir.vars@, vb, n as nat, name@, "_sz"@, span),
            ir.rel_exprs@ == old(ir).rel_exprs@ + var_nodes(n as nat, vb, span) + union_nodes(rel_ids(n as nat, rb), (rb + n) as nat, span),
        decreases k,
    {
        k = k - 1;
        body = ir.alloc_formula(
            Formula { kind: FormulaKind::Quant { kind: QuantKind::Exists, var: VarId { index: vstart + k }, bound: denote, body }, span },
        );
        proof {
            assert(ir.formulas@ =~= f0 + seq![covers] + exists_chain((n - k) as nat, n as nat, vb, fb, denote, span));
        }
    }
    body
}

/// Stage `k` of the staged disjointness of the witnesses `ids`, placed at
/// `base`: the union of the first `k` witnesses (no node for one), then the
/// intersection of witness `k` with it.
pub open spec fn stage_nodes(ids: Seq<RelExprId>, k: nat, base: nat, span: Span) -> Seq<RelExpr> {
    union_nodes(ids.take(k as int), base, span).push(
        RelExpr {
            kind: RelExprKind::Binary {
                op: RelBinOp::Intersect,
                lhs: ids[k as int],
                rhs: if k == 1 {
                    ids[0]
                } else {
                    RelExprId { index: (base + k - 2) as usize }
                },
            },
            span,
        },
    )
}

/// Stages `1 .. upto` one after the other from `base`.
pub open spec fn stages(ids: Seq<RelExprId>, upto: nat, base: nat, span: Span) -> Seq<RelExpr>
    decreases upto,
{
    if upto <= 1 {
        Seq::empty()
    } else {
        let prev = stages(ids, (upto - 1) as nat, base, span);
        prev + stage_nodes(ids, (upto - 1) as nat, base + prev.len(), span)
    }
}

/// The `no` tests over the intersections of the first `count` stages.
pub open spec fn stage_tests(ids: Seq<RelExprId>, count: nat, base: nat, span: Span) -> Seq<Formula> {
    Seq::new(
        count,
        |j: int|
            Formula {
                kind: FormulaKind::MultTest {
                    test: MultTest::No,
                    expr: RelExprId { index: (base + stages(ids, (j + 2) as nat, base, span).len() - 1) as usize },
                },
                span,
            },
    )
}

/// `some v0, .., v(n-1): denote | v0 + .. + v(n-1) = denote` with the
/// witnesses pairwise disjoint (each `no (vk & (v0 + .. + v(k-1)))`): `n`
/// distinct atoms covering the signature, so that it holds exactly `n`,
/// said without counting them. The witnesses are named `name`, `_ex` and
/// their position; with one witness there is no disjointness and no
/// conjunction.
pub fn build_size_witness_exact(ir: &mut Ir, name: &str, denote: RelExprId, n: usize, span: Span) -> (f: FormulaId)
    requires
        n >= 1,
        old(ir).vars@.len() + n < usize::MAX,
        old(ir).rel_exprs@.len() + 2 * n + n * n < usize::MAX,
        old(ir).formulas@.len() + 2 * n + 2 < usize::MAX,
    ensures
        final(ir).int_exprs == old(ir).int_exprs,
        final(ir).relations == old(ir).relations,
        exact_witness_added(
            old(ir).vars@,
            old(ir).rel_exprs@,
            old(ir).formulas@,
            final(ir).vars@,
            final(ir).rel_exprs@,
            final(ir).formulas@,
            name@,
            denote,
            n as nat,
            span,
            f,
        ),
{
    let vstart = ir.vars.len();
    let ghost vb = ir.vars@.len();
    let ghost rb = ir.rel_exprs@.len();
    let ghost fb = ir.formulas@.len();
    let ghost f0 = ir.formulas@;
    let ids = witnesses(ir, name, "_ex", n, span);
    let ghost r1 = ir.rel_exprs@;
    let union = union_of(ir, ids.as_slice(), span);
    proof {
        if n == 1 {
            assert(ir.rel_exprs@ =~= r1 + union_nodes(rel_ids(n as nat, rb), (rb + n) as nat, span));
        }
    }
    let ghost r2 = ir.rel_exprs@;
    let ghost base = (rb + 2 * n - 1) as nat;
    let ghost covers = Formula {
        kind: FormulaKind::RelCompare { op: RelCmpOp::Equal, lhs: RelExprId { index: union_id(n as nat, rb) as usize }, rhs: denote },
        span,
    };
    let first = ir.alloc_formula(
        Formula { kind: FormulaKind::RelCompare { op: RelCmpOp::Equal, lhs: union, rhs: denote }, span },
    );
    let mut parts: Vec<FormulaId> = vec![first];
    let mut k: usize = 1;
    proof {
        assert(r2.len() == base);
        assert(ir.rel_exprs@ =~= r2 + stages(ids@, 1, base, span));
        assert(ir.formulas@ =~= f0 + seq![covers] + stage_tests(ids@, 0, base, span));
        assert(parts@ =~= formula_ids(1, fb));
    }
    while k < n
        invariant
            1 <= k <= n,
            ids@ == rel_ids(n as nat, rb),
            rb == old(ir).rel_exprs@.len(),
            fb == old(ir).formulas@.len(),
            f0 == old(ir).formulas@,
            r2.len() == base,
            base == rb + 2 * n - 1,
            rb + 2 * n + n * n < usize::MAX,
            fb + 2 * n + 2 < usize::MAX,
            ir.rel_exprs@ == r2 + stages(ids@, k as nat, base, span),
            stages(ids@, k as nat, base, span).len() <= k * k,
            ir.formulas@ == f0 + seq![covers] + stage_tests(ids@, (k - 1) as nat, base, span),
            parts@ == formula_ids(k as nat, fb),
            ir.int_exprs == old(ir).int_exprs,
            ir.relations == old(ir).relations,
            ir.vars@.take(vb as int) == old(ir).vars@,
            witness_vars(ir.vars@, vb, n as nat, name@, "_ex"@, span),
        decreases n - k,
    {
        let ghost cur = ir.rel_exprs@.len();
        proof {
            assert(cur + k < usize::MAX) by (nonlinear_arith)
                requires
                    cur == base + stages(ids@, k as nat, base, span).len(),
                    stages(ids@, k as nat, base, span).len() <= k * k,
                    base == rb + 2 * n - 1,
                    rb + 2 * n + n * n < usize::MAX,
                    k < n,
            ;
        }
        let prefix = vstd::slice::slice_subrange(ids.as_slice(), 0, k);
        let prev = union_of(ir, prefix, span);
        let inter = ir.alloc_rel_expr(
            RelExpr { kind: RelExprKind::Binary { op: RelBinOp::Intersect, lhs: ids[k], rhs: prev }, span },
        );
        let t = ir.alloc_formula(Formula { kind: FormulaKind::MultTest { test: MultTest::No, expr: inter }, span });
        parts.push(t);
        proof {
            let st = stages(ids@, k as nat, base, span);
            assert(prefix@ =~= ids@.take(k as int));
            assert(stages(ids@, (k + 1) as nat, base, span) == st + stage_nodes(ids@, k as nat, base + st.len(), span));
            if k == 1 {
                assert(ir.rel_exprs@ =~= r2 + stages(ids@, (k + 1) as nat, base, span));
            } else {
                assert(ir.rel_exprs@ =~= r2 + stages(ids@, (k + 1) as nat, base, span));
            }
            assert(stages(ids@, (k + 1) as nat, base, span).len() <= (k + 1) * (k + 1)) by (nonlinear_arith)
                requires
                    stages(ids@, (k + 1) as nat, base, span).len() == st.len() + k,
                    st.len() <= k * k,
            ;
            assert(inter.index == base + stages(ids@, (k + 1) as nat, base, span).len() - 1);
            assert(ir.formulas@ =~= f0 + seq![covers] + stage_tests(ids@, k as nat, base, span));
            assert(parts@ =~= formula_ids((k + 1) as nat, fb));
        }
        k = k + 1;
    }
    let ghost f1 = ir.formulas@;
    let ghost pids = parts@;
    let mut body = if n == 1 {
        first
    } else {
        ir.alloc_formula(Formula { kind: FormulaKind::And(parts), span })
    };
    let ghost top: int = if n == 1 {
        fb as int
    } else {
        fb + n
    };
    let ghost f2 = ir.formulas@;
    proof {
        assert(f1.len() == fb + n);
        assert(f2.len() == top + 1);
        assert(f2.take(fb + n) =~= f1);
        assert(ir.formulas@.take(top + 1) =~= f2);
        assert(ir.formulas@.skip(top + 1) =~= exists_chain(0, n as nat, vb, top as nat, denote, span));
    }
    let mut k: usize = n;
    while k > 0
        invariant
            k <= n,
            n >= 1,
            vstart == vb,
            vb + n < usize::MAX,
            fb == old(ir).formulas@.len(),
            top + 1 + n < usize::MAX,
            top >= 0,
            f2.len() == top + 1,
            ir.formulas@.len() == top + 1 + (n - k),
            ir.formulas@.take(top + 1) == f2,
            ir.formulas@.skip(top + 1) == exists_chain((n - k) as nat, n as nat, vb, top as nat, denote, span),
            body.index == top + (n - k),
            ir.int_exprs == old(ir).int_exprs,
            ir.relations == old(ir).relations,
            ir.rel_exprs@ == old(ir).rel_exprs@ + var_nodes(n as nat, vb, span) + union_nodes(rel_ids(n as nat, rb), (rb + n) as nat, span)
                + stages(rel_ids(n as nat, rb), n as nat, (rb + 2 * n - 1) as nat, span),
            ir.vars@.take(vb as int) == old(ir).vars@,
            witness_vars(ir.vars@, vb, n as nat, name@, "_ex"@, span),
        decreases k,
    {
        k = k - 1;
        let ghost before = ir.formulas@;
        body = ir.alloc_formula(
            Formula { kind: FormulaKind::Quant { kind: QuantKind::Exists, var: VarId { index: vstart + k }, bound: denote, body }, span },
        );
        proof {
            assert(ir.formulas@.take(top + 1) =~= f2) by {
                assert(ir.formulas@.take(top + 1) =~= before.take(top + 1));
            }
            assert(ir.formulas@.skip(top + 1) =~= exists_chain((n - k) as nat, n as nat, vb, top as nat, denote, span)) by {
                assert(ir.formulas@.skip(top + 1) =~= before.skip(top + 1).push(ir.formulas@.last()));
                assert(before.skip(top + 1) == exists_chain((n - k - 1) as nat, n as nat, vb, top as nat, denote, span));
                assert(exists_chain((n - k) as nat, n as nat, vb, top as nat, denote, span) =~= exists_chain(
                    (n - k - 1) as nat,
                    n as nat,
                    vb,
                    top as nat,
                    denote,
                    span,
                ).push(ir.formulas@.last()));
            }
        }
    }
    proof {
        assert(ir.formulas@.take(fb + n) =~= f2.take(fb + n)) by {
            assert(ir.formulas@.take(fb + n) =~= ir.formulas@.take(top + 1).take(fb + n));
        }
        if n >= 2 {
            assert(ir.formulas@[fb + n] == f2[fb + n]) by {
                assert(ir.formulas@.take(top + 1)[fb + n] == ir.formulas@[fb + n]);
            }
            assert(pids == formula_ids(n as nat, fb));
        }
    }
    body
}

/// The size constraint of a signature of scope `scope`, if its bounds do
/// not already enforce its size, appended to `constraints`.
///
/// An exact abstract signature whose children's lower bounds hold fewer
/// than `scope` atoms gets `scope` disjoint witnesses covering it. Otherwise
/// a signature whose upper bound holds at most `scope` atoms needs nothing;
/// a larger one gets `no s` at scope 0, `lone s` at scope 1, and else `no s
/// or` `scope` witnesses covering it.
pub fn emit_size(
    ir: &mut Ir,
    constraints: &mut Vec<FormulaId>,
    name: &str,
    denote: RelExprId,
    scope: usize,
    is_exact: bool,
    is_abstract: bool,
    has_children: bool,
    child_lower: usize,
    upper: usize,
    span: Span,
)
    requires
        old(ir).vars@.len() + scope < usize::MAX,
        old(ir).rel_exprs@.len() + 2 * scope + scope * scope < usize::MAX,
        old(ir).formulas@.len() + 2 * scope + 3 < usize::MAX,
    ensures
        final(ir).int_exprs == old(ir).int_exprs,
        final(ir).relations == old(ir).relations,
        ({
            let fb = old(ir).formulas@.len();
            let test = |t: MultTest| Formula { kind: FormulaKind::MultTest { test: t, expr: denote }, span };
            if is_exact && is_abstract && has_children && child_lower < scope {
                &&& final(constraints)@.len() == old(constraints)@.len() + 1
                &&& final(constraints)@.drop_last() == old(constraints)@
                &&& exact_witness_added(
                    old(ir).vars@,
                    old(ir).rel_exprs@,
                    old(ir).formulas@,
                    final(ir).vars@,
                    final(ir).rel_exprs@,
                    final(ir).formulas@,
                    name@,
                    denote,
                    scope as nat,
                    span,
                    final(constraints)@.last(),
                )
            } else if upper <= scope {
                &&& final(constraints)@ == old(constraints)@
                &&& final(ir).formulas@ == old(ir).formulas@
                &&& final(ir).rel_exprs@ == old(ir).rel_exprs@
                &&& final(ir).vars@ == old(ir).vars@
            } else if scope <= 1 {
                &&& final(constraints)@ == old(constraints)@.push(FormulaId { index: fb as usize })
                &&& final(ir).formulas@ == old(ir).formulas@.push(
                    test(
                        if scope == 0 {
                            MultTest::No
                        } else {
                            MultTest::Lone
                        },
                    ),
                )
                &&& final(ir).rel_exprs@ == old(ir).rel_exprs@
                &&& final(ir).vars@ == old(ir).vars@
            } else {
                let top = fb + scope + 2;
                &&& final(constraints)@ == old(constraints)@.push(FormulaId { index: top as usize })
                &&& final(ir).formulas@.len() == top + 1
                &&& size_witness_added(
                    old(ir).vars@,
                    old(ir).rel_exprs@,
                    old(ir).formulas@.push(test(MultTest::No)),
                    final(ir).vars@,
                    final(ir).rel_exprs@,
                    final(ir).formulas@.take(top),
                    name@,
                    denote,
                    scope as nat,
                    span,
                    FormulaId { index: (fb + scope + 1) as usize },
                )
                &&& final(ir).formulas@[top].kind matches FormulaKind::Or(ps) && ps@ == seq![
                    FormulaId { index: fb as usize },
                    FormulaId { index: (fb + scope + 1) as usize },
                ]
                &&& final(ir).formulas@[top].span == span
            }
        }),
{
    if is_exact && is_abstract && has_children && child_lower < scope {
        let f = build_size_witness_exact(ir, name, denote, scope, span);
        constraints.push(f);
        proof {
            assert(constraints@.drop_last() =~= old(constraints)@);
        }
        return;
    }
    if upper <= scope {
        return;
    }
    if scope == 0 {
        let f = ir.alloc_formula(Formula { kind: mult_test(MultTest::No, denote), span });
        constraints.push(f);
    } else if scope == 1 {
        let f = ir.alloc_formula(Formula { kind: mult_test(MultTest::Lone, denote), span });
        constraints.push(f);
    } else {
        let empty = ir.alloc_formula(Formula { kind: mult_test(MultTest::No, denote), span });
        let witness = build_size_witness(ir, name, denote, scope, span);
        let ghost mid = ir.formulas@;
        let f = ir.alloc_formula(Formula { kind: FormulaKind::Or(vec![empty, witness]), span });
        constraints.push(f);
        proof {
            assert(ir.formulas@.take(ir.formulas@.len() - 1) =~= mid);
        }
    }
}

/// A signature's declared multiplicity.
#[derive(Copy, Clone, PartialEq, Eq, Debug, Structural)]
pub enum SigMult {
    /// `lone sig`: at most one atom.
    Lone,
    /// `one sig`: exactly one atom.
    One,
    /// `some sig`: at least one atom.
    Nonempty,
}

/// The multiplicity constraint of a signature, where its bounds do not
/// already guarantee it, appended to `constraints`: `some s` for a `some`
/// signature with an empty lower bound, `one s` for a `one` signature not
/// pinned to a single atom. `lone` needs none: the size cap covers it.
pub fn emit_multiplicity(
    ir: &mut Ir,
    constraints: &mut Vec<FormulaId>,
    mult: Option<SigMult>,
    lower: usize,
    upper: usize,
    denote: RelExprId,
    span: Span,
)
    requires
        old(ir).formulas@.len() < usize::MAX,
    ensures
        final(ir).rel_exprs == old(ir).rel_exprs,
        final(ir).int_exprs == old(ir).int_exprs,
        final(ir).relations == old(ir).relations,
        final(ir).vars == old(ir).vars,
        ({
            let test = if mult == Some(SigMult::Nonempty) && lower == 0 {
                Some(MultTest::Nonempty)
            } else if mult == Some(SigMult::One) && !(lower == 1 && upper == 1) {
                Some(MultTest::One)
            } else {
                None
            };
            match test {
                Some(t) => {
                    &&& final(ir).formulas@ == old(ir).formulas@.push(Formula { kind: FormulaKind::MultTest { test: t, expr: denote }, span })
                    &&& final(constraints)@ == old(constraints)@.push(FormulaId { index: old(ir).formulas@.len() as usize })
                },
                None => final(ir).formulas@ == old(ir).formulas@ && final(constraints)@ == old(constraints)@,
            }
        }),
{
    match mult {
        Some(SigMult::Nonempty) => {
            if lower == 0 {
                let f = ir.alloc_formula(Formula { kind: mult_test(MultTest::Nonempty, denote), span });
                constraints.push(f);
            }
        },
        Some(SigMult::One) => {
            if !(lower == 1 && upper == 1) {
                let f = ir.alloc_formula(Formula { kind: mult_test(MultTest::One, denote), span });
                constraints.push(f);
            }
        },
        Some(SigMult::Lone) | None => {},
    }
}

/// `no (a & b)` for every two children `a`, `b` of a signature (by their
/// denotations, in order), appended to `constraints`.
pub fn emit_disjointness(ir: &mut Ir, constraints: &mut Vec<FormulaId>, children: &[RelExprId], span: Span)
    requires
        old(ir).rel_exprs@.len() + children@.len() * children@.len() < usize::MAX,
        old(ir).formulas@.len() + children@.len() * children@.len() < usize::MAX,
    ensures
        ({
            let pairs = pairs_before(children@.len(), children@.len());
            &&& final(ir).int_exprs == old(ir).int_exprs
            &&& final(ir).relations == old(ir).relations
            &&& final(ir).vars == old(ir).vars
            &&& final(ir).rel_exprs@ == old(ir).rel_exprs@ + disjoint_rels(children@, pairs, span)
            &&& final(ir).formulas@ == old(ir).formulas@ + disjoint_tests(pairs.len(), old(ir).rel_exprs@.len(), span)
            &&& final(constraints)@ == old(constraints)@ + formula_ids(pairs.len(), old(ir).formulas@.len())
        }),
{
    push_pairwise_disjoint(ir, children, span, constraints);
}

} // verus!
