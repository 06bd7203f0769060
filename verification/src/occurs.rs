//! The variables a node of the IR mentions.
//!
//! Every variable occurrence below a node is gathered, bound or not. Where no
//! binder below the node binds a variable, mentioning it and having it free
//! coincide, so a check that only asks about variables bound outside the
//! node (those of enclosing quantifiers) can use this cheaper set.

use vstd::prelude::*;

use crate::encode::freevars::{
    acyclic, ascending, children, decl_bound_refs, decl_vars, formula_refs, fv, fv_child, fv_list, free_vars,
    insert_var, node_valid, ranked, the_rank, var_set, NodeRef,
};
use crate::ir::{FormulaId, FormulaKind, IntExprId, IntExprKind, Ir, RelExprId, RelExprKind, VarId};

verus! {

/// The variables mentioned by child `c` of `n` (none where the rank does not
/// decrease, which a ranked IR rules out).
pub open spec fn occ_child(ir: Ir, rank: spec_fn(NodeRef) -> nat, n: NodeRef, c: NodeRef) -> Set<nat>
    decreases rank(n), 0nat, 0nat,
{
    if rank(c) < rank(n) {
        occ(ir, rank, c)
    } else {
        Set::empty()
    }
}

/// The variables mentioned by the children `cs` of `n`, together.
pub open spec fn occ_list(ir: Ir, rank: spec_fn(NodeRef) -> nat, n: NodeRef, cs: Seq<NodeRef>) -> Set<nat>
    decreases rank(n), 1nat, cs.len(),
{
    if cs.len() == 0 {
        Set::empty()
    } else {
        occ_child(ir, rank, n, cs[0]).union(occ_list(ir, rank, n, cs.drop_first()))
    }
}

/// The variable a variable node mentions itself.
pub open spec fn own_var(ir: Ir, n: NodeRef) -> Set<nat> {
    match n {
        NodeRef::Rel(i) => match ir.rel_exprs@[i as int].kind {
            RelExprKind::Var(v) => set![v.index as nat],
            _ => Set::empty(),
        },
        _ => Set::empty(),
    }
}

/// The variables node `n` and everything below it mention.
pub open spec fn occ(ir: Ir, rank: spec_fn(NodeRef) -> nat, n: NodeRef) -> Set<nat>
    decreases rank(n), 2nat, 0nat,
{
    if !node_valid(ir, n) {
        Set::empty()
    } else {
        own_var(ir, n).union(occ_list(ir, rank, n, children(ir, n)))
    }
}

/// The variables node `n` binds itself: a quantifier's or a `sum`'s
/// variable, a comprehension's variables.
pub open spec fn own_binders(ir: Ir, n: NodeRef) -> Set<nat> {
    match n {
        NodeRef::Formula(i) => match ir.formulas@[i as int].kind {
            FormulaKind::Quant { var, .. } => set![var.index as nat],
            _ => Set::empty(),
        },
        NodeRef::Rel(i) => match ir.rel_exprs@[i as int].kind {
            RelExprKind::Comprehension { decls, .. } => decl_vars(decls@),
            _ => Set::empty(),
        },
        NodeRef::Int(i) => match ir.int_exprs@[i as int].kind {
            IntExprKind::Sum { var, .. } => set![var.index as nat],
            _ => Set::empty(),
        },
    }
}

/// The variables bound by child `c` of `n` or below it.
pub open spec fn bnd_child(ir: Ir, rank: spec_fn(NodeRef) -> nat, n: NodeRef, c: NodeRef) -> Set<nat>
    decreases rank(n), 0nat, 0nat,
{
    if rank(c) < rank(n) {
        bnd(ir, rank, c)
    } else {
        Set::empty()
    }
}

/// The variables bound by the children `cs` of `n` or below them.
pub open spec fn bnd_list(ir: Ir, rank: spec_fn(NodeRef) -> nat, n: NodeRef, cs: Seq<NodeRef>) -> Set<nat>
    decreases rank(n), 1nat, cs.len(),
{
    if cs.len() == 0 {
        Set::empty()
    } else {
        bnd_child(ir, rank, n, cs[0]).union(bnd_list(ir, rank, n, cs.drop_first()))
    }
}

/// The variables bound at node `n` or anywhere below it.
pub open spec fn bnd(ir: Ir, rank: spec_fn(NodeRef) -> nat, n: NodeRef) -> Set<nat>
    decreases rank(n), 2nat, 0nat,
{
    if !node_valid(ir, n) {
        Set::empty()
    } else {
        own_binders(ir, n).union(bnd_list(ir, rank, n, children(ir, n)))
    }
}

/// The variables node `n` of an acyclic IR mentions.
pub open spec fn occurring_vars(ir: Ir, n: NodeRef) -> Set<nat> {
    occ(ir, the_rank(ir), n)
}

/// The variables bound at node `n` of an acyclic IR or below it.
pub open spec fn bound_vars(ir: Ir, n: NodeRef) -> Set<nat> {
    bnd(ir, the_rank(ir), n)
}

/// A node's free variables are among those it mentions, and a mentioned
/// variable that nothing at or below the node binds is free in it.
proof fn lemma_fv_occ(ir: Ir, rank: spec_fn(NodeRef) -> nat, n: NodeRef)
    requires
        ranked(ir, rank),
    ensures
        fv(ir, rank, n).subset_of(occ(ir, rank, n)),
        occ(ir, rank, n).difference(bnd(ir, rank, n)).subset_of(fv(ir, rank, n)),
    decreases rank(n), 1nat, 0nat,
{
    if node_valid(ir, n) {
        let cs = children(ir, n);
        assert forall|k: int| 0 <= k < cs.len() implies node_valid(ir, #[trigger] cs[k]) && rank(cs[k]) < rank(n) by {
            assert(node_valid(ir, children(ir, n)[k]));
        }
        lemma_fv_occ_list(ir, rank, n, cs);
        let fl = fv_list(ir, rank, n, cs);
        let ol = occ_list(ir, rank, n, cs);
        let bl = bnd_list(ir, rank, n, cs);
        if cs.len() == 2 {
            lemma_fv_occ(ir, rank, cs[0]);
            lemma_fv_occ(ir, rank, cs[1]);
            assert(cs.drop_first().drop_first() =~= Seq::<NodeRef>::empty());
            assert(cs.drop_first()[0] == cs[1]);
            let rest = cs.drop_first();
            assert(fv_list(ir, rank, n, rest.drop_first()) == Set::<nat>::empty());
            assert(occ_list(ir, rank, n, rest.drop_first()) == Set::<nat>::empty());
            assert(bnd_list(ir, rank, n, rest.drop_first()) == Set::<nat>::empty());
            assert(fv_child(ir, rank, n, cs[0]) == fv(ir, rank, cs[0]));
            assert(fv_child(ir, rank, n, cs[1]) == fv(ir, rank, cs[1]));
            assert(occ_child(ir, rank, n, cs[0]) == occ(ir, rank, cs[0]));
            assert(occ_child(ir, rank, n, cs[1]) == occ(ir, rank, cs[1]));
            assert(bnd_child(ir, rank, n, cs[0]) == bnd(ir, rank, cs[0]));
            assert(bnd_child(ir, rank, n, cs[1]) == bnd(ir, rank, cs[1]));
            assert(fv_list(ir, rank, n, rest) =~= fv(ir, rank, cs[1]));
            assert(occ_list(ir, rank, n, rest) =~= occ(ir, rank, cs[1]));
            assert(bnd_list(ir, rank, n, rest) =~= bnd(ir, rank, cs[1]));
            assert(fl =~= fv(ir, rank, cs[0]).union(fv(ir, rank, cs[1])));
            assert(ol =~= occ(ir, rank, cs[0]).union(occ(ir, rank, cs[1])));
            assert(bl =~= bnd(ir, rank, cs[0]).union(bnd(ir, rank, cs[1])));
        }
        match n {
            NodeRef::Formula(i) => match ir.formulas@[i as int].kind {
                FormulaKind::Quant { var, bound, body, .. } => {
                    assert(cs.len() == 2);
                    assert(fv(ir, rank, n).subset_of(occ(ir, rank, n)));
                    assert(occ(ir, rank, n).difference(bnd(ir, rank, n)).subset_of(fv(ir, rank, n)));
                },
                _ => {
                    assert(fv(ir, rank, n) == fl);
                },
            },
            NodeRef::Rel(i) => match ir.rel_exprs@[i as int].kind {
                RelExprKind::Var(v) => {
                    assert(cs.len() == 0);
                    assert(occ(ir, rank, n) =~= set![v.index as nat]);
                },
                RelExprKind::Comprehension { decls, .. } => {
                    assert(fv(ir, rank, n) == fl.difference(decl_vars(decls@)));
                    assert(occ(ir, rank, n) =~= ol);
                },
                _ => {
                    assert(fv(ir, rank, n) == fl);
                },
            },
            NodeRef::Int(i) => match ir.int_exprs@[i as int].kind {
                IntExprKind::Sum { var, bound, body } => {
                    assert(cs.len() == 2);
                    assert(fv(ir, rank, n).subset_of(occ(ir, rank, n)));
                    assert(occ(ir, rank, n).difference(bnd(ir, rank, n)).subset_of(fv(ir, rank, n)));
                },
                _ => {
                    assert(fv(ir, rank, n) == fl);
                },
            },
        }
    }
}

/// [`lemma_fv_occ`] over a list of children of `n`.
proof fn lemma_fv_occ_list(ir: Ir, rank: spec_fn(NodeRef) -> nat, n: NodeRef, cs: Seq<NodeRef>)
    requires
        ranked(ir, rank),
        forall|k: int| 0 <= k < cs.len() ==> node_valid(ir, #[trigger] cs[k]) && rank(cs[k]) < rank(n),
    ensures
        fv_list(ir, rank, n, cs).subset_of(occ_list(ir, rank, n, cs)),
        occ_list(ir, rank, n, cs).difference(bnd_list(ir, rank, n, cs)).subset_of(fv_list(ir, rank, n, cs)),
    decreases rank(n), 0nat, cs.len(),
{
    if cs.len() > 0 {
        lemma_fv_occ(ir, rank, cs[0]);
        assert forall|k: int| 0 <= k < cs.drop_first().len() implies node_valid(ir, #[trigger] cs.drop_first()[k]) && rank(cs.drop_first()[k]) < rank(n) by {
            assert(cs.drop_first()[k] == cs[k + 1]);
        }
        lemma_fv_occ_list(ir, rank, n, cs.drop_first());
        assert(fv_child(ir, rank, n, cs[0]) == fv(ir, rank, cs[0]));
        assert(occ_child(ir, rank, n, cs[0]) == occ(ir, rank, cs[0]));
        assert(bnd_child(ir, rank, n, cs[0]) == bnd(ir, rank, cs[0]));
        assert(fv_list(ir, rank, n, cs) == fv(ir, rank, cs[0]).union(fv_list(ir, rank, n, cs.drop_first())));
        assert(occ_list(ir, rank, n, cs) == occ(ir, rank, cs[0]).union(occ_list(ir, rank, n, cs.drop_first())));
        assert(bnd_list(ir, rank, n, cs) == bnd(ir, rank, cs[0]).union(bnd_list(ir, rank, n, cs.drop_first())));
    }
}

/// Every free variable of a node is one it mentions; every variable it
/// mentions and that no binder at or below it binds is free in it.
pub proof fn lemma_free_vars_mentioned(ir: Ir, n: NodeRef)
    requires
        acyclic(ir),
    ensures
        free_vars(ir, n).subset_of(occurring_vars(ir, n)),
        occurring_vars(ir, n).difference(bound_vars(ir, n)).subset_of(free_vars(ir, n)),
{
    lemma_fv_occ(ir, the_rank(ir), n);
}

/// The variables mentioned by a list with one more child.
proof fn lemma_occ_list_push(ir: Ir, rank: spec_fn(NodeRef) -> nat, n: NodeRef, cs: Seq<NodeRef>, c: NodeRef)
    ensures
        occ_list(ir, rank, n, cs.push(c)) == occ_list(ir, rank, n, cs).union(occ_child(ir, rank, n, c)),
    decreases cs.len(),
{
    if cs.len() == 0 {
        assert(cs.push(c).drop_first() =~= Seq::<NodeRef>::empty());
        assert(occ_list(ir, rank, n, Seq::<NodeRef>::empty()) == Set::<nat>::empty());
        assert(occ_list(ir, rank, n, cs.push(c)) =~= occ_list(ir, rank, n, cs).union(occ_child(ir, rank, n, c)));
    } else {
        lemma_occ_list_push(ir, rank, n, cs.drop_first(), c);
        assert(cs.push(c).drop_first() =~= cs.drop_first().push(c));
        assert(cs.push(c)[0] == cs[0]);
        assert(occ_list(ir, rank, n, cs.push(c)) =~= occ_list(ir, rank, n, cs).union(occ_child(ir, rank, n, c)));
    }
}

/// The nodes `n` refers to directly, in operand order.
fn node_children(ir: &Ir, n: NodeRef) -> (r: Vec<NodeRef>)
    requires
        node_valid(*ir, n),
    ensures
        r@ == children(*ir, n),
{
    match n {
        NodeRef::Formula(i) => match &ir.formulas[i].kind {
            FormulaKind::Const(_) => Vec::new(),
            FormulaKind::Not(f) => vec![NodeRef::Formula(f.index)],
            FormulaKind::And(parts) | FormulaKind::Or(parts) => {
                let mut out: Vec<NodeRef> = Vec::new();
                let mut k: usize = 0;
                while k < parts.len()
                    invariant
                        k <= parts@.len(),
                        out@ == formula_refs(parts@.take(k as int)),
                    decreases parts@.len() - k,
                {
                    out.push(NodeRef::Formula(parts[k].index));
                    k = k + 1;
                    proof {
                        assert(out@ =~= formula_refs(parts@.take(k as int)));
                    }
                }
                proof {
                    assert(parts@.take(k as int) =~= parts@);
                }
                out
            },
            FormulaKind::Implies { antecedent, consequent } => vec![NodeRef::Formula(antecedent.index), NodeRef::Formula(consequent.index)],
            FormulaKind::Iff(l, r) => vec![NodeRef::Formula(l.index), NodeRef::Formula(r.index)],
            FormulaKind::RelCompare { lhs, rhs, .. } => vec![NodeRef::Rel(lhs.index), NodeRef::Rel(rhs.index)],
            FormulaKind::IntCompare { lhs, rhs, .. } => vec![NodeRef::Int(lhs.index), NodeRef::Int(rhs.index)],
            FormulaKind::MultTest { expr, .. } => vec![NodeRef::Rel(expr.index)],
            FormulaKind::Quant { bound, body, .. } => vec![NodeRef::Rel(bound.index), NodeRef::Formula(body.index)],
            FormulaKind::TemporalUnary { body, .. } => vec![NodeRef::Formula(body.index)],
            FormulaKind::TemporalBinary { lhs, rhs, .. } => vec![NodeRef::Formula(lhs.index), NodeRef::Formula(rhs.index)],
        },
        NodeRef::Rel(i) => match &ir.rel_exprs[i].kind {
            RelExprKind::Relation(_) | RelExprKind::Var(_) | RelExprKind::Const(_) => Vec::new(),
            RelExprKind::Binary { lhs, rhs, .. } => vec![NodeRef::Rel(lhs.index), NodeRef::Rel(rhs.index)],
            RelExprKind::Unary { expr, .. } => vec![NodeRef::Rel(expr.index)],
            RelExprKind::Prime(e) => vec![NodeRef::Rel(e.index)],
            RelExprKind::IfThenElse { cond, then_branch, else_branch } => vec![
                NodeRef::Formula(cond.index),
                NodeRef::Rel(then_branch.index),
                NodeRef::Rel(else_branch.index),
            ],
            RelExprKind::Comprehension { decls, body } => {
                let mut out: Vec<NodeRef> = Vec::new();
                let mut k: usize = 0;
                while k < decls.len()
                    invariant
                        k <= decls@.len(),
                        out@ == decl_bound_refs(decls@.take(k as int)),
                    decreases decls@.len() - k,
                {
                    out.push(NodeRef::Rel(decls[k].bound.index));
                    k = k + 1;
                    proof {
                        assert(out@ =~= decl_bound_refs(decls@.take(k as int)));
                    }
                }
                proof {
                    assert(decls@.take(k as int) =~= decls@);
                }
                out.push(NodeRef::Formula(body.index));
                out
            },
            RelExprKind::IntToAtom(ie) => vec![NodeRef::Int(ie.index)],
        },
        NodeRef::Int(i) => match &ir.int_exprs[i].kind {
            IntExprKind::Const(_) => Vec::new(),
            IntExprKind::Card(r) | IntExprKind::AtomToInt(r) => vec![NodeRef::Rel(r.index)],
            IntExprKind::Neg(e) => vec![NodeRef::Int(e.index)],
            IntExprKind::Binary { lhs, rhs, .. } => vec![NodeRef::Int(lhs.index), NodeRef::Int(rhs.index)],
            IntExprKind::Sum { bound, body, .. } => vec![NodeRef::Rel(bound.index), NodeRef::Int(body.index)],
            IntExprKind::IfThenElse { cond, then_branch, else_branch } => vec![
                NodeRef::Formula(cond.index),
                NodeRef::Int(then_branch.index),
                NodeRef::Int(else_branch.index),
            ],
        },
    }
}

/// Adds to `out` every variable node `n` mentions.
fn add_occurring(ir: &Ir, n: NodeRef, out: &mut Vec<VarId>, Ghost(rank): Ghost<spec_fn(NodeRef) -> nat>)
    requires
        ranked(*ir, rank),
        node_valid(*ir, n),
        ascending(old(out)@),
    ensures
        ascending(final(out)@),
        var_set(final(out)@) == var_set(old(out)@).union(occ(*ir, rank, n)),
    decreases rank(n),
{
    let ghost o0 = out@;
    match n {
        NodeRef::Rel(i) => match &ir.rel_exprs[i].kind {
            RelExprKind::Var(v) => {
                insert_var(out, *v);
            },
            _ => {},
        },
        _ => {},
    }
    proof {
        assert(var_set(out@) =~= var_set(o0).union(own_var(*ir, n)));
    }
    let cs = node_children(ir, n);
    let mut k: usize = 0;
    proof {
        assert(cs@.take(0) =~= Seq::<NodeRef>::empty());
        assert(var_set(out@) =~= var_set(o0).union(own_var(*ir, n)).union(occ_list(*ir, rank, n, cs@.take(0))));
    }
    while k < cs.len()
        invariant
            k <= cs@.len(),
            ranked(*ir, rank),
            node_valid(*ir, n),
            cs@ == children(*ir, n),
            ascending(out@),
            var_set(out@) == var_set(o0).union(own_var(*ir, n)).union(occ_list(*ir, rank, n, cs@.take(k as int))),
        decreases cs@.len() - k,
    {
        let c = cs[k];
        proof {
            assert(node_valid(*ir, children(*ir, n)[k as int]) && rank(children(*ir, n)[k as int]) < rank(n));
            assert(cs@.take(k + 1) =~= cs@.take(k as int).push(c));
            lemma_occ_list_push(*ir, rank, n, cs@.take(k as int), c);
        }
        add_occurring(ir, c, out, Ghost(rank));
        proof {
            assert(var_set(out@) =~= var_set(o0).union(own_var(*ir, n)).union(occ_list(*ir, rank, n, cs@.take(k + 1))));
        }
        k = k + 1;
    }
    proof {
        assert(cs@.take(k as int) =~= cs@);
        assert(var_set(out@) =~= var_set(o0).union(occ(*ir, rank, n)));
    }
}

/// Adds to `out` every variable formula `id` mentions, bound or free.
pub fn collect_formula_vars(ir: &Ir, id: FormulaId, out: &mut Vec<VarId>)
    requires
        acyclic(*ir),
        id.index < ir.formulas@.len(),
        ascending(old(out)@),
    ensures
        ascending(final(out)@),
        var_set(final(out)@) == var_set(old(out)@).union(occurring_vars(*ir, NodeRef::Formula(id.index))),
{
    add_occurring(ir, NodeRef::Formula(id.index), out, Ghost(the_rank(*ir)));
}

/// Adds to `out` every variable relation expression `id` mentions, bound or
/// free.
pub fn collect_rel_vars(ir: &Ir, id: RelExprId, out: &mut Vec<VarId>)
    requires
        acyclic(*ir),
        id.index < ir.rel_exprs@.len(),
        ascending(old(out)@),
    ensures
        ascending(final(out)@),
        var_set(final(out)@) == var_set(old(out)@).union(occurring_vars(*ir, NodeRef::Rel(id.index))),
{
    add_occurring(ir, NodeRef::Rel(id.index), out, Ghost(the_rank(*ir)));
}

/// Adds to `out` every variable integer expression `id` mentions, bound or
/// free.
pub fn collect_int_vars(ir: &Ir, id: IntExprId, out: &mut Vec<VarId>)
    requires
        acyclic(*ir),
        id.index < ir.int_exprs@.len(),
        ascending(old(out)@),
    ensures
        ascending(final(out)@),
        var_set(final(out)@) == var_set(old(out)@).union(occurring_vars(*ir, NodeRef::Int(id.index))),
{
    add_occurring(ir, NodeRef::Int(id.index), out, Ghost(the_rank(*ir)));
}

} // verus!
