//! Free-variable analysis over the IR.
//!
//! For each node this computes the set of quantifier, comprehension and
//! `sum` variables that occur free in it: bound somewhere outside the node.
//! A node that does not mention the innermost bound variable can then share
//! one encoding across every binding of that variable.
//!
//! The IR must be acyclic: some rank decreases from every node to each node
//! it refers to. The sets are a function of the IR alone, each kept as an
//! ascending list of variables.

use vstd::prelude::*;

use crate::ir::{CompDecl, FormulaId, FormulaKind, IntExprId, IntExprKind, Ir, RelExprId, RelExprKind, VarId};

verus! {

/// A node of the IR, by sort and arena position.
#[derive(Copy, Clone, PartialEq, Eq, Debug, Structural)]
pub enum NodeRef {
    /// A formula node.
    Formula(usize),
    /// A relation-expression node.
    Rel(usize),
    /// An integer-expression node.
    Int(usize),
}

/// Whether `n` indexes its arena.
pub open spec fn node_valid(ir: Ir, n: NodeRef) -> bool {
    match n {
        NodeRef::Formula(i) => i < ir.formulas@.len(),
        NodeRef::Rel(i) => i < ir.rel_exprs@.len(),
        NodeRef::Int(i) => i < ir.int_exprs@.len(),
    }
}

/// The formulas of a list, as nodes.
pub open spec fn formula_refs(parts: Seq<FormulaId>) -> Seq<NodeRef> {
    parts.map_values(|f: FormulaId| NodeRef::Formula(f.index))
}

/// The bounds of comprehension bindings, as nodes.
pub open spec fn decl_bound_refs(decls: Seq<CompDecl>) -> Seq<NodeRef> {
    decls.map_values(|d: CompDecl| NodeRef::Rel(d.bound.index))
}

/// The variables comprehension bindings bind.
pub open spec fn decl_vars(decls: Seq<CompDecl>) -> Set<nat> {
    Set::new(|v: nat| exists|k: int| 0 <= k < decls.len() && decls[k].var.index == v)
}

/// The nodes `n` refers to directly.
pub open spec fn children(ir: Ir, n: NodeRef) -> Seq<NodeRef> {
    match n {
        NodeRef::Formula(i) => match ir.formulas@[i as int].kind {
            FormulaKind::Const(_) => seq![],
            FormulaKind::Not(f) => seq![NodeRef::Formula(f.index)],
            FormulaKind::And(parts) => formula_refs(parts@),
            FormulaKind::Or(parts) => formula_refs(parts@),
            FormulaKind::Implies { antecedent, consequent } => seq![NodeRef::Formula(antecedent.index), NodeRef::Formula(consequent.index)],
            FormulaKind::Iff(l, r) => seq![NodeRef::Formula(l.index), NodeRef::Formula(r.index)],
            FormulaKind::RelCompare { lhs, rhs, .. } => seq![NodeRef::Rel(lhs.index), NodeRef::Rel(rhs.index)],
            FormulaKind::IntCompare { lhs, rhs, .. } => seq![NodeRef::Int(lhs.index), NodeRef::Int(rhs.index)],
            FormulaKind::MultTest { expr, .. } => seq![NodeRef::Rel(expr.index)],
            FormulaKind::Quant { bound, body, .. } => seq![NodeRef::Rel(bound.index), NodeRef::Formula(body.index)],
            FormulaKind::TemporalUnary { body, .. } => seq![NodeRef::Formula(body.index)],
            FormulaKind::TemporalBinary { lhs, rhs, .. } => seq![NodeRef::Formula(lhs.index), NodeRef::Formula(rhs.index)],
        },
        NodeRef::Rel(i) => match ir.rel_exprs@[i as int].kind {
            RelExprKind::Relation(_) => seq![],
            RelExprKind::Var(_) => seq![],
            RelExprKind::Const(_) => seq![],
            RelExprKind::Binary { lhs, rhs, .. } => seq![NodeRef::Rel(lhs.index), NodeRef::Rel(rhs.index)],
            RelExprKind::Unary { expr, .. } => seq![NodeRef::Rel(expr.index)],
            RelExprKind::Prime(e) => seq![NodeRef::Rel(e.index)],
            RelExprKind::IfThenElse { cond, then_branch, else_branch } => seq![
                NodeRef::Formula(cond.index),
                NodeRef::Rel(then_branch.index),
                NodeRef::Rel(else_branch.index),
            ],
            RelExprKind::Comprehension { decls, body } => decl_bound_refs(decls@).push(NodeRef::Formula(body.index)),
            RelExprKind::IntToAtom(ie) => seq![NodeRef::Int(ie.index)],
        },
        NodeRef::Int(i) => match ir.int_exprs@[i as int].kind {
            IntExprKind::Const(_) => seq![],
            IntExprKind::Card(r) => seq![NodeRef::Rel(r.index)],
            IntExprKind::AtomToInt(r) => seq![NodeRef::Rel(r.index)],
            IntExprKind::Neg(e) => seq![NodeRef::Int(e.index)],
            IntExprKind::Binary { lhs, rhs, .. } => seq![NodeRef::Int(lhs.index), NodeRef::Int(rhs.index)],
            IntExprKind::Sum { bound, body, .. } => seq![NodeRef::Rel(bound.index), NodeRef::Int(body.index)],
            IntExprKind::IfThenElse { cond, then_branch, else_branch } => seq![
                NodeRef::Formula(cond.index),
                NodeRef::Int(then_branch.index),
                NodeRef::Int(else_branch.index),
            ],
        },
    }
}

/// The IR is acyclic by `rank`: every node refers only to valid nodes of
/// smaller rank.
pub open spec fn ranked(ir: Ir, rank: spec_fn(NodeRef) -> nat) -> bool {
    forall|n: NodeRef, k: int|
        #![trigger children(ir, n)[k]]
        node_valid(ir, n) && 0 <= k < children(ir, n).len() ==> node_valid(ir, children(ir, n)[k]) && rank(children(ir, n)[k]) < rank(n)
}

/// Whether some rank shows the IR acyclic.
pub open spec fn acyclic(ir: Ir) -> bool {
    exists|rank: spec_fn(NodeRef) -> nat| ranked(ir, rank)
}

/// The free variables of child `c` of `n` (none where the rank does not
/// decrease, which a ranked IR rules out).
pub open spec fn fv_child(ir: Ir, rank: spec_fn(NodeRef) -> nat, n: NodeRef, c: NodeRef) -> Set<nat>
    decreases rank(n), 0nat, 0nat,
{
    if rank(c) < rank(n) {
        fv(ir, rank, c)
    } else {
        Set::empty()
    }
}

/// The free variables of the children `cs` of `n`, together.
pub open spec fn fv_list(ir: Ir, rank: spec_fn(NodeRef) -> nat, n: NodeRef, cs: Seq<NodeRef>) -> Set<nat>
    decreases rank(n), 1nat, cs.len(),
{
    if cs.len() == 0 {
        Set::empty()
    } else {
        fv_child(ir, rank, n, cs[0]).union(fv_list(ir, rank, n, cs.drop_first()))
    }
}

/// The free variables of node `n`: those its children have, a variable
/// node's own variable, less what a quantifier, comprehension or `sum`
/// binds over its body.
pub open spec fn fv(ir: Ir, rank: spec_fn(NodeRef) -> nat, n: NodeRef) -> Set<nat>
    decreases rank(n), 2nat, 0nat,
{
    if !node_valid(ir, n) {
        Set::empty()
    } else {
        let cs = children(ir, n);
        match n {
            NodeRef::Formula(i) => match ir.formulas@[i as int].kind {
                FormulaKind::Quant { var, bound, body, .. } => fv_child(ir, rank, n, NodeRef::Rel(bound.index)).union(
                    fv_child(ir, rank, n, NodeRef::Formula(body.index)).remove(var.index as nat),
                ),
                _ => fv_list(ir, rank, n, cs),
            },
            NodeRef::Rel(i) => match ir.rel_exprs@[i as int].kind {
                RelExprKind::Var(v) => set![v.index as nat],
                RelExprKind::Comprehension { decls, .. } => fv_list(ir, rank, n, cs).difference(decl_vars(decls@)),
                _ => fv_list(ir, rank, n, cs),
            },
            NodeRef::Int(i) => match ir.int_exprs@[i as int].kind {
                IntExprKind::Sum { var, bound, body } => fv_child(ir, rank, n, NodeRef::Rel(bound.index)).union(
                    fv_child(ir, rank, n, NodeRef::Int(body.index)).remove(var.index as nat),
                ),
                _ => fv_list(ir, rank, n, cs),
            },
        }
    }
}

/// The variables of an ascending list.
pub open spec fn var_set(v: Seq<VarId>) -> Set<nat> {
    Set::new(|x: nat| exists|k: int| 0 <= k < v.len() && v[k].index == x)
}

/// Strictly ascending by index.
pub open spec fn ascending(v: Seq<VarId>) -> bool {
    forall|i: int, j: int| 0 <= i < j < v.len() ==> (#[trigger] v[i]).index < (#[trigger] v[j]).index
}

/// A copy of a variable list.
fn copy_vars(v: &Vec<VarId>) -> (r: Vec<VarId>)
    ensures
        r@ == v@,
{
    let mut r: Vec<VarId> = Vec::new();
    let mut i: usize = 0;
    while i < v.len()
        invariant
            i <= v@.len(),
            r@ == v@.take(i as int),
        decreases v@.len() - i,
    {
        r.push(v[i]);
        proof {
            assert(v@.take(i + 1) =~= v@.take(i as int).push(v@[i as int]));
        }
        i = i + 1;
    }
    proof {
        assert(v@.take(i as int) =~= v@);
    }
    r
}

/// Adds `x` to an ascending list, keeping it ascending.
pub(crate) fn insert_var(v: &mut Vec<VarId>, x: VarId)
    requires
        ascending(old(v)@),
    ensures
        ascending(final(v)@),
        var_set(final(v)@) == var_set(old(v)@).insert(x.index as nat),
{
    let ghost v0 = v@;
    let mut p: usize = 0;
    while p < v.len() && v[p].index < x.index
        invariant
            p <= v@.len(),
            v@ == v0,
            forall|i: int| 0 <= i < p ==> (#[trigger] v@[i]).index < x.index,
        decreases v@.len() - p,
    {
        p = p + 1;
    }
    if p < v.len() && v[p].index == x.index {
        proof {
            assert(var_set(v@) =~= var_set(v0).insert(x.index as nat)) by {
                assert(v@[p as int].index == x.index);
            }
        }
        return;
    }
    v.insert(p, x);
    proof {
        let q = v@;
        assert(q == v0.insert(p as int, x));
        assert forall|i: int, j: int| 0 <= i < j < q.len() implies (#[trigger] q[i]).index < (#[trigger] q[j]).index by {
            if j < p {
            } else if j == p {
                assert(q[i] == v0[i]);
            } else if i < p {
                assert(q[j] == v0[j - 1]);
                if p < v0.len() {
                    assert(v0[p as int].index > x.index);
                    if j - 1 > p {
                        assert(v0[p as int].index < v0[j - 1].index);
                    }
                }
            } else if i == p {
                assert(q[j] == v0[j - 1]);
                assert(v0[p as int].index > x.index);
                if j - 1 > p {
                    assert(v0[p as int].index < v0[j - 1].index);
                }
            } else {
                assert(q[i] == v0[i - 1]);
                assert(q[j] == v0[j - 1]);
            }
        }
        assert(var_set(q) =~= var_set(v0).insert(x.index as nat)) by {
            assert forall|y: nat| var_set(q).contains(y) implies var_set(v0).insert(x.index as nat).contains(y) by {
                let k = choose|k: int| 0 <= k < q.len() && (#[trigger] q[k]).index == y;
                if k < p {
                    assert(v0[k].index == y);
                } else if k > p {
                    assert(v0[k - 1].index == y);
                }
            }
            assert forall|y: nat| var_set(v0).insert(x.index as nat).contains(y) implies var_set(q).contains(y) by {
                if y == x.index {
                    assert(q[p as int].index == y);
                } else {
                    let k = choose|k: int| 0 <= k < v0.len() && (#[trigger] v0[k]).index == y;
                    if k < p {
                        assert(q[k].index == y);
                    } else {
                        assert(q[k + 1].index == y);
                    }
                }
            }
        }
    }
}

/// Adds every variable of `other` to `v`.
fn union_into(v: &mut Vec<VarId>, other: &Vec<VarId>)
    requires
        ascending(old(v)@),
    ensures
        ascending(final(v)@),
        var_set(final(v)@) == var_set(old(v)@).union(var_set(other@)),
{
    let ghost v0 = v@;
    let mut i: usize = 0;
    while i < other.len()
        invariant
            i <= other@.len(),
            ascending(v@),
            var_set(v@) == var_set(v0).union(var_set(other@.take(i as int))),
        decreases other@.len() - i,
    {
        insert_var(v, other[i]);
        proof {
            assert(var_set(other@.take(i + 1)) =~= var_set(other@.take(i as int)).insert(other@[i as int].index as nat)) by {
                assert forall|y: nat| var_set(other@.take(i + 1)).contains(y) implies var_set(other@.take(i as int)).insert(
                    other@[i as int].index as nat,
                ).contains(y) by {
                    let k = choose|k: int| 0 <= k < other@.take(i + 1).len() && (#[trigger] other@.take(i + 1)[k]).index == y;
                    if k < i {
                        assert(other@.take(i as int)[k].index == y);
                    }
                }
                assert forall|y: nat| var_set(other@.take(i as int)).insert(other@[i as int].index as nat).contains(y) implies var_set(
                    other@.take(i + 1),
                ).contains(y) by {
                    if y == other@[i as int].index {
                        assert(other@.take(i + 1)[i as int].index == y);
                    } else {
                        let k = choose|k: int| 0 <= k < other@.take(i as int).len() && (#[trigger] other@.take(i as int)[k]).index == y;
                        assert(other@.take(i + 1)[k].index == y);
                    }
                }
            }
            assert(var_set(v@) =~= var_set(v0).union(var_set(other@.take(i + 1))));
        }
        i = i + 1;
    }
    proof {
        assert(other@.take(i as int) =~= other@);
    }
}

/// `v` without the variable `x`.
fn remove_var(v: &Vec<VarId>, x: VarId) -> (r: Vec<VarId>)
    requires
        ascending(v@),
    ensures
        ascending(r@),
        var_set(r@) == var_set(v@).remove(x.index as nat),
{
    let mut r: Vec<VarId> = Vec::new();
    let mut i: usize = 0;
    while i < v.len()
        invariant
            i <= v@.len(),
            ascending(v@),
            forall|k: int| 0 <= k < r@.len() ==> exists|m: int| 0 <= m < i && (#[trigger] v@[m]) == #[trigger] r@[k],
            forall|k: int, m: int| 0 <= k < r@.len() && i <= m < v@.len() ==> (#[trigger] r@[k]).index < (#[trigger] v@[m]).index,
            ascending(r@),
            var_set(r@) == var_set(v@.take(i as int)).remove(x.index as nat),
        decreases v@.len() - i,
    {
        let ghost r0 = r@;
        if v[i].index != x.index {
            r.push(v[i]);
        }
        proof {
            assert(var_set(v@.take(i + 1)) =~= var_set(v@.take(i as int)).insert(v@[i as int].index as nat)) by {
                assert forall|y: nat| var_set(v@.take(i + 1)).contains(y) implies var_set(v@.take(i as int)).insert(v@[i as int].index as nat).contains(
                    y,
                ) by {
                    let k = choose|k: int| 0 <= k < v@.take(i + 1).len() && (#[trigger] v@.take(i + 1)[k]).index == y;
                    if k < i {
                        assert(v@.take(i as int)[k].index == y);
                    }
                }
                assert forall|y: nat| var_set(v@.take(i as int)).insert(v@[i as int].index as nat).contains(y) implies var_set(
                    v@.take(i + 1),
                ).contains(y) by {
                    if y == v@[i as int].index {
                        assert(v@.take(i + 1)[i as int].index == y);
                    } else {
                        let k = choose|k: int| 0 <= k < v@.take(i as int).len() && (#[trigger] v@.take(i as int)[k]).index == y;
                        assert(v@.take(i + 1)[k].index == y);
                    }
                }
            }
            assert(var_set(r@) =~= var_set(v@.take(i + 1)).remove(x.index as nat)) by {
                assert forall|y: nat| var_set(r@).contains(y) implies var_set(v@.take(i + 1)).remove(x.index as nat).contains(y) by {
                    let k = choose|k: int| 0 <= k < r@.len() && (#[trigger] r@[k]).index == y;
                    if k < r0.len() {
                        assert(r0[k].index == y);
                        assert(var_set(r0).contains(y));
                    }
                }
                assert forall|y: nat| var_set(v@.take(i + 1)).remove(x.index as nat).contains(y) implies var_set(r@).contains(y) by {
                    if y == v@[i as int].index {
                        assert(r@[r@.len() - 1].index == y);
                    } else {
                        assert(var_set(r0).contains(y));
                        let k = choose|k: int| 0 <= k < r0.len() && (#[trigger] r0[k]).index == y;
                        assert(r@[k].index == y);
                    }
                }
            }
            assert forall|k: int| 0 <= k < r@.len() implies exists|m: int| 0 <= m < i + 1 && (#[trigger] v@[m]) == #[trigger] r@[k] by {
                if k < r0.len() {
                    assert(r@[k] == r0[k]);
                    let m = choose|m: int| 0 <= m < i && (#[trigger] v@[m]) == r0[k];
                } else {
                    assert(v@[i as int] == r@[k]);
                }
            }
            assert forall|k: int, m: int| 0 <= k < r@.len() && i + 1 <= m < v@.len() implies (#[trigger] r@[k]).index < (#[trigger] v@[m]).index by {
                let mm = choose|mm: int| 0 <= mm < i + 1 && (#[trigger] v@[mm]) == r@[k];
            }
            assert forall|k: int, l: int| 0 <= k < l < r@.len() implies (#[trigger] r@[k]).index < (#[trigger] r@[l]).index by {
                if l == r0.len() {
                    assert(r@[k] == r0[k]);
                    assert(r@[l] == v@[i as int]);
                } else {
                    assert(r@[k] == r0[k]);
                    assert(r@[l] == r0[l]);
                }
            }
        }
        i = i + 1;
    }
    proof {
        assert(v@.take(i as int) =~= v@);
    }
    r
}

/// A child of a valid node of a ranked IR is valid, of smaller rank, and
/// contributes its own free variables.
proof fn lemma_child(ir: Ir, rank: spec_fn(NodeRef) -> nat, n: NodeRef, k: int)
    requires
        ranked(ir, rank),
        node_valid(ir, n),
        0 <= k < children(ir, n).len(),
    ensures
        node_valid(ir, children(ir, n)[k]),
        rank(children(ir, n)[k]) < rank(n),
        fv_child(ir, rank, n, children(ir, n)[k]) == fv(ir, rank, children(ir, n)[k]),
{
    assert(node_valid(ir, children(ir, n)[k]) && rank(children(ir, n)[k]) < rank(n));
}

/// The free variables of a list with one more child.
proof fn lemma_fv_list_push(ir: Ir, rank: spec_fn(NodeRef) -> nat, n: NodeRef, cs: Seq<NodeRef>, c: NodeRef)
    ensures
        fv_list(ir, rank, n, cs.push(c)) == fv_list(ir, rank, n, cs).union(fv_child(ir, rank, n, c)),
    decreases cs.len(),
{
    if cs.len() == 0 {
        assert(cs.push(c).drop_first() =~= Seq::<NodeRef>::empty());
        assert(fv_list(ir, rank, n, Seq::<NodeRef>::empty()) == Set::<nat>::empty());
        assert(fv_list(ir, rank, n, cs.push(c)) =~= fv_list(ir, rank, n, cs).union(fv_child(ir, rank, n, c)));
    } else {
        lemma_fv_list_push(ir, rank, n, cs.drop_first(), c);
        assert(cs.push(c).drop_first() =~= cs.drop_first().push(c));
        assert(cs.push(c)[0] == cs[0]);
        assert(fv_list(ir, rank, n, cs.push(c)) =~= fv_list(ir, rank, n, cs).union(fv_child(ir, rank, n, c)));
    }
}

/// The free variables of the first `k + 1` children of a list.
proof fn lemma_fv_list_prefix(ir: Ir, rank: spec_fn(NodeRef) -> nat, n: NodeRef, cs: Seq<NodeRef>, k: int)
    requires
        0 <= k < cs.len(),
    ensures
        fv_list(ir, rank, n, cs.take(k + 1)) == fv_list(ir, rank, n, cs.take(k)).union(fv_child(ir, rank, n, cs[k])),
{
    assert(cs.take(k + 1) =~= cs.take(k).push(cs[k]));
    lemma_fv_list_push(ir, rank, n, cs.take(k), cs[k]);
}

/// The free variables of a whole list: those of its children.
proof fn lemma_fv_list_whole(ir: Ir, rank: spec_fn(NodeRef) -> nat, n: NodeRef, cs: Seq<NodeRef>)
    ensures
        fv_list(ir, rank, n, cs.take(0)) == Set::<nat>::empty(),
        fv_list(ir, rank, n, cs.take(cs.len() as int)) == fv_list(ir, rank, n, cs),
{
    assert(cs.take(0) =~= Seq::<NodeRef>::empty());
    assert(cs.take(cs.len() as int) =~= cs);
}

/// The free-variable sets computed so far, one optional slot per node.
struct Memo {
    formulas: Vec<Option<Vec<VarId>>>,
    rel_exprs: Vec<Option<Vec<VarId>>>,
    int_exprs: Vec<Option<Vec<VarId>>>,
}

/// A filled slot holds the wanted set, ascending.
spec fn slot_ok(slot: Option<Vec<VarId>>, want: Set<nat>) -> bool {
    match slot {
        Some(v) => ascending(v@) && var_set(v@) == want,
        None => true,
    }
}

/// Every filled slot holds its node's free variables.
spec fn memo_ok(ir: Ir, rank: spec_fn(NodeRef) -> nat, m: Memo) -> bool {
    &&& m.formulas@.len() == ir.formulas@.len()
    &&& m.rel_exprs@.len() == ir.rel_exprs@.len()
    &&& m.int_exprs@.len() == ir.int_exprs@.len()
    &&& forall|i: int| 0 <= i < m.formulas@.len() ==> slot_ok(#[trigger] m.formulas@[i], fv(ir, rank, NodeRef::Formula(i as usize)))
    &&& forall|i: int| 0 <= i < m.rel_exprs@.len() ==> slot_ok(#[trigger] m.rel_exprs@[i], fv(ir, rank, NodeRef::Rel(i as usize)))
    &&& forall|i: int| 0 <= i < m.int_exprs@.len() ==> slot_ok(#[trigger] m.int_exprs@[i], fv(ir, rank, NodeRef::Int(i as usize)))
}

/// Adds to `set` the free variables of formula `f`, a child of `n`.
fn add_formula(ir: &Ir, memo: &mut Memo, set: &mut Vec<VarId>, f: FormulaId, Ghost(rank): Ghost<spec_fn(NodeRef) -> nat>, Ghost(n): Ghost<NodeRef>)
    requires
        ranked(*ir, rank),
        memo_ok(*ir, rank, *old(memo)),
        ascending(old(set)@),
        f.index < ir.formulas@.len(),
        rank(NodeRef::Formula(f.index)) < rank(n),
    ensures
        memo_ok(*ir, rank, *final(memo)),
        ascending(final(set)@),
        var_set(final(set)@) == var_set(old(set)@).union(fv_child(*ir, rank, n, NodeRef::Formula(f.index))),
    decreases rank(n), 0nat,
{
    let s = formula_vars(ir, memo, f.index, Ghost(rank));
    union_into(set, &s);
}

/// Adds to `set` the free variables of relation expression `r`, a child of
/// `n`.
fn add_rel(ir: &Ir, memo: &mut Memo, set: &mut Vec<VarId>, r: RelExprId, Ghost(rank): Ghost<spec_fn(NodeRef) -> nat>, Ghost(n): Ghost<NodeRef>)
    requires
        ranked(*ir, rank),
        memo_ok(*ir, rank, *old(memo)),
        ascending(old(set)@),
        r.index < ir.rel_exprs@.len(),
        rank(NodeRef::Rel(r.index)) < rank(n),
    ensures
        memo_ok(*ir, rank, *final(memo)),
        ascending(final(set)@),
        var_set(final(set)@) == var_set(old(set)@).union(fv_child(*ir, rank, n, NodeRef::Rel(r.index))),
    decreases rank(n), 0nat,
{
    let s = rel_vars(ir, memo, r.index, Ghost(rank));
    union_into(set, &s);
}

/// Adds to `set` the free variables of integer expression `e`, a child of
/// `n`.
fn add_int(ir: &Ir, memo: &mut Memo, set: &mut Vec<VarId>, e: IntExprId, Ghost(rank): Ghost<spec_fn(NodeRef) -> nat>, Ghost(n): Ghost<NodeRef>)
    requires
        ranked(*ir, rank),
        memo_ok(*ir, rank, *old(memo)),
        ascending(old(set)@),
        e.index < ir.int_exprs@.len(),
        rank(NodeRef::Int(e.index)) < rank(n),
    ensures
        memo_ok(*ir, rank, *final(memo)),
        ascending(final(set)@),
        var_set(final(set)@) == var_set(old(set)@).union(fv_child(*ir, rank, n, NodeRef::Int(e.index))),
    decreases rank(n), 0nat,
{
    let s = int_vars(ir, memo, e.index, Ghost(rank));
    union_into(set, &s);
}

/// The free variables of formula `id`, memoised.
fn formula_vars(ir: &Ir, memo: &mut Memo, id: usize, Ghost(rank): Ghost<spec_fn(NodeRef) -> nat>) -> (r: Vec<VarId>)
    requires
        ranked(*ir, rank),
        id < ir.formulas@.len(),
        memo_ok(*ir, rank, *old(memo)),
    ensures
        memo_ok(*ir, rank, *final(memo)),
        ascending(r@),
        var_set(r@) == fv(*ir, rank, NodeRef::Formula(id)),
    decreases rank(NodeRef::Formula(id)), 1nat,
{
    if let Some(s) = &memo.formulas[id] {
        assert(slot_ok(memo.formulas@[id as int], fv(*ir, rank, NodeRef::Formula(id))));
        return copy_vars(s);
    }
    let ghost n = NodeRef::Formula(id);
    let ghost cs = children(*ir, n);
    let mut set: Vec<VarId> = Vec::new();
    proof {
        assert(var_set(set@) =~= Set::<nat>::empty());
        lemma_fv_list_whole(*ir, rank, n, cs);
    }
    match &ir.formulas[id].kind {
        FormulaKind::Const(_) => {},
        FormulaKind::Not(f) => {
            proof { lemma_child(*ir, rank, n, 0); lemma_fv_list_prefix(*ir, rank, n, cs, 0); }
            add_formula(ir, memo, &mut set, *f, Ghost(rank), Ghost(n));
            proof { lemma_fv_list_whole(*ir, rank, n, cs); }
        },
        FormulaKind::And(parts) | FormulaKind::Or(parts) => {
            let mut k: usize = 0;
            while k < parts.len()
                invariant
                    k <= parts@.len(),
                    cs == formula_refs(parts@),
                    cs == children(*ir, n),
                    n == NodeRef::Formula(id),
                    node_valid(*ir, n),
                    ranked(*ir, rank),
                    memo_ok(*ir, rank, *memo),
                    ascending(set@),
                    var_set(set@) == fv_list(*ir, rank, n, cs.take(k as int)),
                decreases parts@.len() - k,
            {
                proof { lemma_child(*ir, rank, n, k as int); lemma_fv_list_prefix(*ir, rank, n, cs, k as int); }
                add_formula(ir, memo, &mut set, parts[k], Ghost(rank), Ghost(n));
                k = k + 1;
            }
            proof { lemma_fv_list_whole(*ir, rank, n, cs); }
        },
        FormulaKind::Implies { antecedent, consequent } => {
            proof { lemma_child(*ir, rank, n, 0); lemma_child(*ir, rank, n, 1); lemma_fv_list_prefix(*ir, rank, n, cs, 0); lemma_fv_list_prefix(*ir, rank, n, cs, 1); }
            add_formula(ir, memo, &mut set, *antecedent, Ghost(rank), Ghost(n));
            add_formula(ir, memo, &mut set, *consequent, Ghost(rank), Ghost(n));
            proof { lemma_fv_list_whole(*ir, rank, n, cs); }
        },
        FormulaKind::Iff(l, r) => {
            proof { lemma_child(*ir, rank, n, 0); lemma_child(*ir, rank, n, 1); lemma_fv_list_prefix(*ir, rank, n, cs, 0); lemma_fv_list_prefix(*ir, rank, n, cs, 1); }
            add_formula(ir, memo, &mut set, *l, Ghost(rank), Ghost(n));
            add_formula(ir, memo, &mut set, *r, Ghost(rank), Ghost(n));
            proof { lemma_fv_list_whole(*ir, rank, n, cs); }
        },
        FormulaKind::RelCompare { lhs, rhs, .. } => {
            proof { lemma_child(*ir, rank, n, 0); lemma_child(*ir, rank, n, 1); lemma_fv_list_prefix(*ir, rank, n, cs, 0); lemma_fv_list_prefix(*ir, rank, n, cs, 1); }
            add_rel(ir, memo, &mut set, *lhs, Ghost(rank), Ghost(n));
            add_rel(ir, memo, &mut set, *rhs, Ghost(rank), Ghost(n));
            proof { lemma_fv_list_whole(*ir, rank, n, cs); }
        },
        FormulaKind::IntCompare { lhs, rhs, .. } => {
            proof { lemma_child(*ir, rank, n, 0); lemma_child(*ir, rank, n, 1); lemma_fv_list_prefix(*ir, rank, n, cs, 0); lemma_fv_list_prefix(*ir, rank, n, cs, 1); }
            add_int(ir, memo, &mut set, *lhs, Ghost(rank), Ghost(n));
            add_int(ir, memo, &mut set, *rhs, Ghost(rank), Ghost(n));
            proof { lemma_fv_list_whole(*ir, rank, n, cs); }
        },
        FormulaKind::MultTest { expr, .. } => {
            proof { lemma_child(*ir, rank, n, 0); lemma_fv_list_prefix(*ir, rank, n, cs, 0); }
            add_rel(ir, memo, &mut set, *expr, Ghost(rank), Ghost(n));
            proof { lemma_fv_list_whole(*ir, rank, n, cs); }
        },
        FormulaKind::Quant { var, bound, body, .. } => {
            proof { lemma_child(*ir, rank, n, 0); lemma_child(*ir, rank, n, 1); }
            add_rel(ir, memo, &mut set, *bound, Ghost(rank), Ghost(n));
            let inner = formula_vars(ir, memo, body.index, Ghost(rank));
            let inner = remove_var(&inner, *var);
            union_into(&mut set, &inner);
            proof {
                assert(var_set(set@) =~= fv(*ir, rank, n));
            }
        },
        FormulaKind::TemporalUnary { body, .. } => {
            proof { lemma_child(*ir, rank, n, 0); lemma_fv_list_prefix(*ir, rank, n, cs, 0); }
            add_formula(ir, memo, &mut set, *body, Ghost(rank), Ghost(n));
            proof { lemma_fv_list_whole(*ir, rank, n, cs); }
        },
        FormulaKind::TemporalBinary { lhs, rhs, .. } => {
            proof { lemma_child(*ir, rank, n, 0); lemma_child(*ir, rank, n, 1); lemma_fv_list_prefix(*ir, rank, n, cs, 0); lemma_fv_list_prefix(*ir, rank, n, cs, 1); }
            add_formula(ir, memo, &mut set, *lhs, Ghost(rank), Ghost(n));
            add_formula(ir, memo, &mut set, *rhs, Ghost(rank), Ghost(n));
            proof { lemma_fv_list_whole(*ir, rank, n, cs); }
        },
    }
    proof {
        assert(var_set(set@) =~= fv(*ir, rank, n));
    }
    let copy = copy_vars(&set);
    memo.formulas.set(id, Some(copy));
    proof {
        assert forall|i: int| 0 <= i < memo.formulas@.len() implies slot_ok(#[trigger] memo.formulas@[i], fv(*ir, rank, NodeRef::Formula(i as usize))) by {
            if i == id {
            }
        }
    }
    set
}

/// The free variables of relation expression `id`, memoised.
fn rel_vars(ir: &Ir, memo: &mut Memo, id: usize, Ghost(rank): Ghost<spec_fn(NodeRef) -> nat>) -> (r: Vec<VarId>)
    requires
        ranked(*ir, rank),
        id < ir.rel_exprs@.len(),
        memo_ok(*ir, rank, *old(memo)),
    ensures
        memo_ok(*ir, rank, *final(memo)),
        ascending(r@),
        var_set(r@) == fv(*ir, rank, NodeRef::Rel(id)),
    decreases rank(NodeRef::Rel(id)), 1nat,
{
    if let Some(s) = &memo.rel_exprs[id] {
        assert(slot_ok(memo.rel_exprs@[id as int], fv(*ir, rank, NodeRef::Rel(id))));
        return copy_vars(s);
    }
    let ghost n = NodeRef::Rel(id);
    let ghost cs = children(*ir, n);
    let mut set: Vec<VarId> = Vec::new();
    proof {
        assert(var_set(set@) =~= Set::<nat>::empty());
        lemma_fv_list_whole(*ir, rank, n, cs);
    }
    match &ir.rel_exprs[id].kind {
        RelExprKind::Relation(_) | RelExprKind::Const(_) => {},
        RelExprKind::Var(v) => {
            insert_var(&mut set, *v);
            proof {
                assert(var_set(set@) =~= set![v.index as nat]);
            }
        },
        RelExprKind::Binary { lhs, rhs, .. } => {
            proof { lemma_child(*ir, rank, n, 0); lemma_child(*ir, rank, n, 1); lemma_fv_list_prefix(*ir, rank, n, cs, 0); lemma_fv_list_prefix(*ir, rank, n, cs, 1); }
            add_rel(ir, memo, &mut set, *lhs, Ghost(rank), Ghost(n));
            add_rel(ir, memo, &mut set, *rhs, Ghost(rank), Ghost(n));
            proof { lemma_fv_list_whole(*ir, rank, n, cs); }
        },
        RelExprKind::Unary { expr, .. } => {
            proof { lemma_child(*ir, rank, n, 0); lemma_fv_list_prefix(*ir, rank, n, cs, 0); }
            add_rel(ir, memo, &mut set, *expr, Ghost(rank), Ghost(n));
            proof { lemma_fv_list_whole(*ir, rank, n, cs); }
        },
        RelExprKind::Prime(expr) => {
            proof { lemma_child(*ir, rank, n, 0); lemma_fv_list_prefix(*ir, rank, n, cs, 0); }
            add_rel(ir, memo, &mut set, *expr, Ghost(rank), Ghost(n));
            proof { lemma_fv_list_whole(*ir, rank, n, cs); }
        },
        RelExprKind::IfThenElse { cond, then_branch, else_branch } => {
            proof {
                lemma_child(*ir, rank, n, 0);
                lemma_child(*ir, rank, n, 1);
                lemma_child(*ir, rank, n, 2);
                lemma_fv_list_prefix(*ir, rank, n, cs, 0);
                lemma_fv_list_prefix(*ir, rank, n, cs, 1);
                lemma_fv_list_prefix(*ir, rank, n, cs, 2);
            }
            add_formula(ir, memo, &mut set, *cond, Ghost(rank), Ghost(n));
            add_rel(ir, memo, &mut set, *then_branch, Ghost(rank), Ghost(n));
            add_rel(ir, memo, &mut set, *else_branch, Ghost(rank), Ghost(n));
            proof { lemma_fv_list_whole(*ir, rank, n, cs); }
        },
        RelExprKind::Comprehension { decls, body } => {
            let mut k: usize = 0;
            while k < decls.len()
                invariant
                    k <= decls@.len(),
                    cs == decl_bound_refs(decls@).push(NodeRef::Formula(body.index)),
                    cs == children(*ir, n),
                    n == NodeRef::Rel(id),
                    node_valid(*ir, n),
                    ranked(*ir, rank),
                    memo_ok(*ir, rank, *memo),
                    ascending(set@),
                    var_set(set@) == fv_list(*ir, rank, n, cs.take(k as int)),
                decreases decls@.len() - k,
            {
                proof { lemma_child(*ir, rank, n, k as int); lemma_fv_list_prefix(*ir, rank, n, cs, k as int); }
                add_rel(ir, memo, &mut set, decls[k].bound, Ghost(rank), Ghost(n));
                k = k + 1;
            }
            proof {
                lemma_child(*ir, rank, n, decls@.len() as int);
                lemma_fv_list_prefix(*ir, rank, n, cs, decls@.len() as int);
            }
            add_formula(ir, memo, &mut set, *body, Ghost(rank), Ghost(n));
            proof { lemma_fv_list_whole(*ir, rank, n, cs); }
            let ghost whole = var_set(set@);
            let mut k: usize = 0;
            while k < decls.len()
                invariant
                    k <= decls@.len(),
                    ascending(set@),
                    var_set(set@) == whole.difference(decl_vars(decls@.take(k as int))),
                decreases decls@.len() - k,
            {
                set = remove_var(&set, decls[k].var);
                proof {
                    assert(decl_vars(decls@.take(k + 1)) =~= decl_vars(decls@.take(k as int)).insert(decls@[k as int].var.index as nat)) by {
                        assert forall|v: nat| decl_vars(decls@.take(k + 1)).contains(v) implies decl_vars(decls@.take(k as int)).insert(
                            decls@[k as int].var.index as nat,
                        ).contains(v) by {
                            let m = choose|m: int| 0 <= m < decls@.take(k + 1).len() && (#[trigger] decls@.take(k + 1)[m]).var.index == v;
                            if m < k {
                                assert(decls@.take(k as int)[m].var.index == v);
                            }
                        }
                        assert forall|v: nat| decl_vars(decls@.take(k as int)).insert(decls@[k as int].var.index as nat).contains(v) implies decl_vars(
                            decls@.take(k + 1),
                        ).contains(v) by {
                            if v == decls@[k as int].var.index {
                                assert(decls@.take(k + 1)[k as int].var.index == v);
                            } else {
                                let m = choose|m: int| 0 <= m < decls@.take(k as int).len() && (#[trigger] decls@.take(k as int)[m]).var.index == v;
                                assert(decls@.take(k + 1)[m].var.index == v);
                            }
                        }
                    }
                    assert(var_set(set@) =~= whole.difference(decl_vars(decls@.take(k + 1))));
                }
                k = k + 1;
            }
            proof {
                assert(decls@.take(k as int) =~= decls@);
            }
        },
        RelExprKind::IntToAtom(ie) => {
            proof { lemma_child(*ir, rank, n, 0); lemma_fv_list_prefix(*ir, rank, n, cs, 0); }
            add_int(ir, memo, &mut set, *ie, Ghost(rank), Ghost(n));
            proof { lemma_fv_list_whole(*ir, rank, n, cs); }
        },
    }
    proof {
        assert(var_set(set@) =~= fv(*ir, rank, n));
    }
    let copy = copy_vars(&set);
    memo.rel_exprs.set(id, Some(copy));
    proof {
        assert forall|i: int| 0 <= i < memo.rel_exprs@.len() implies slot_ok(#[trigger] memo.rel_exprs@[i], fv(*ir, rank, NodeRef::Rel(i as usize))) by {
            if i == id {
            }
        }
    }
    set
}

/// The free variables of integer expression `id`, memoised.
fn int_vars(ir: &Ir, memo: &mut Memo, id: usize, Ghost(rank): Ghost<spec_fn(NodeRef) -> nat>) -> (r: Vec<VarId>)
    requires
        ranked(*ir, rank),
        id < ir.int_exprs@.len(),
        memo_ok(*ir, rank, *old(memo)),
    ensures
        memo_ok(*ir, rank, *final(memo)),
        ascending(r@),
        var_set(r@) == fv(*ir, rank, NodeRef::Int(id)),
    decreases rank(NodeRef::Int(id)), 1nat,
{
    if let Some(s) = &memo.int_exprs[id] {
        assert(slot_ok(memo.int_exprs@[id as int], fv(*ir, rank, NodeRef::Int(id))));
        return copy_vars(s);
    }
    let ghost n = NodeRef::Int(id);
    let ghost cs = children(*ir, n);
    let mut set: Vec<VarId> = Vec::new();
    proof {
        assert(var_set(set@) =~= Set::<nat>::empty());
        lemma_fv_list_whole(*ir, rank, n, cs);
    }
    match &ir.int_exprs[id].kind {
        IntExprKind::Const(_) => {},
        IntExprKind::Card(r) | IntExprKind::AtomToInt(r) => {
            proof { lemma_child(*ir, rank, n, 0); lemma_fv_list_prefix(*ir, rank, n, cs, 0); }
            add_rel(ir, memo, &mut set, *r, Ghost(rank), Ghost(n));
            proof { lemma_fv_list_whole(*ir, rank, n, cs); }
        },
        IntExprKind::Neg(e) => {
            proof { lemma_child(*ir, rank, n, 0); lemma_fv_list_prefix(*ir, rank, n, cs, 0); }
            add_int(ir, memo, &mut set, *e, Ghost(rank), Ghost(n));
            proof { lemma_fv_list_whole(*ir, rank, n, cs); }
        },
        IntExprKind::Binary { lhs, rhs, .. } => {
            proof { lemma_child(*ir, rank, n, 0); lemma_child(*ir, rank, n, 1); lemma_fv_list_prefix(*ir, rank, n, cs, 0); lemma_fv_list_prefix(*ir, rank, n, cs, 1); }
            add_int(ir, memo, &mut set, *lhs, Ghost(rank), Ghost(n));
            add_int(ir, memo, &mut set, *rhs, Ghost(rank), Ghost(n));
            proof { lemma_fv_list_whole(*ir, rank, n, cs); }
        },
        IntExprKind::Sum { var, bound, body } => {
            proof { lemma_child(*ir, rank, n, 0); lemma_child(*ir, rank, n, 1); }
            add_rel(ir, memo, &mut set, *bound, Ghost(rank), Ghost(n));
            let inner = int_vars(ir, memo, body.index, Ghost(rank));
            let inner = remove_var(&inner, *var);
            union_into(&mut set, &inner);
            proof {
                assert(var_set(set@) =~= fv(*ir, rank, n));
            }
        },
        IntExprKind::IfThenElse { cond, then_branch, else_branch } => {
            proof {
                lemma_child(*ir, rank, n, 0);
                lemma_child(*ir, rank, n, 1);
                lemma_child(*ir, rank, n, 2);
                lemma_fv_list_prefix(*ir, rank, n, cs, 0);
                lemma_fv_list_prefix(*ir, rank, n, cs, 1);
                lemma_fv_list_prefix(*ir, rank, n, cs, 2);
            }
            add_formula(ir, memo, &mut set, *cond, Ghost(rank), Ghost(n));
            add_int(ir, memo, &mut set, *then_branch, Ghost(rank), Ghost(n));
            add_int(ir, memo, &mut set, *else_branch, Ghost(rank), Ghost(n));
            proof { lemma_fv_list_whole(*ir, rank, n, cs); }
        },
    }
    proof {
        assert(var_set(set@) =~= fv(*ir, rank, n));
    }
    let copy = copy_vars(&set);
    memo.int_exprs.set(id, Some(copy));
    proof {
        assert forall|i: int| 0 <= i < memo.int_exprs@.len() implies slot_ok(#[trigger] memo.int_exprs@[i], fv(*ir, rank, NodeRef::Int(i as usize))) by {
            if i == id {
            }
        }
    }
    set
}

/// A rank that shows an acyclic IR acyclic.
pub open spec fn the_rank(ir: Ir) -> spec_fn(NodeRef) -> nat {
    choose|rank: spec_fn(NodeRef) -> nat| ranked(ir, rank)
}

/// The free variables of node `n` of an acyclic IR.
pub open spec fn free_vars(ir: Ir, n: NodeRef) -> Set<nat> {
    fv(ir, the_rank(ir), n)
}

/// The free variables of every node of an IR, each an ascending list.
pub struct FreeVars {
    formulas: Vec<Vec<VarId>>,
    rel_exprs: Vec<Vec<VarId>>,
    int_exprs: Vec<Vec<VarId>>,
}

impl FreeVars {
    /// The lists for the formula nodes.
    pub closed spec fn formula_lists(&self) -> Seq<Seq<VarId>> {
        self.formulas@.map_values(|v: Vec<VarId>| v@)
    }

    /// The lists for the relation-expression nodes.
    pub closed spec fn rel_lists(&self) -> Seq<Seq<VarId>> {
        self.rel_exprs@.map_values(|v: Vec<VarId>| v@)
    }

    /// The lists for the integer-expression nodes.
    pub closed spec fn int_lists(&self) -> Seq<Seq<VarId>> {
        self.int_exprs@.map_values(|v: Vec<VarId>| v@)
    }

    /// Whether these are the free-variable sets of `ir`, each ascending.
    pub open spec fn of(&self, ir: Ir) -> bool {
        &&& self.formula_lists().len() == ir.formulas@.len()
        &&& self.rel_lists().len() == ir.rel_exprs@.len()
        &&& self.int_lists().len() == ir.int_exprs@.len()
        &&& forall|i: int| 0 <= i < self.formula_lists().len() ==> ascending(#[trigger] self.formula_lists()[i]) && var_set(
            self.formula_lists()[i],
        ) == free_vars(ir, NodeRef::Formula(i as usize))
        &&& forall|i: int| 0 <= i < self.rel_lists().len() ==> ascending(#[trigger] self.rel_lists()[i]) && var_set(self.rel_lists()[i])
            == free_vars(ir, NodeRef::Rel(i as usize))
        &&& forall|i: int| 0 <= i < self.int_lists().len() ==> ascending(#[trigger] self.int_lists()[i]) && var_set(self.int_lists()[i])
            == free_vars(ir, NodeRef::Int(i as usize))
    }

    /// Computes the free-variable set of every node of an acyclic `ir`.
    pub fn build(ir: &Ir) -> (r: FreeVars)
        requires
            acyclic(*ir),
        ensures
            r.of(*ir),
    {
        let ghost rank = the_rank(*ir);
        let mut memo = Memo { formulas: Vec::new(), rel_exprs: Vec::new(), int_exprs: Vec::new() };
        let mut i: usize = 0;
        while i < ir.formulas.len()
            invariant
                i <= ir.formulas@.len(),
                memo.formulas@.len() == i,
                memo.rel_exprs@.len() == 0,
                memo.int_exprs@.len() == 0,
                forall|k: int| 0 <= k < i ==> (#[trigger] memo.formulas@[k]) is None,
            decreases ir.formulas@.len() - i,
        {
            memo.formulas.push(None);
            i = i + 1;
        }
        let mut i: usize = 0;
        while i < ir.rel_exprs.len()
            invariant
                i <= ir.rel_exprs@.len(),
                memo.formulas@.len() == ir.formulas@.len(),
                memo.rel_exprs@.len() == i,
                memo.int_exprs@.len() == 0,
                forall|k: int| 0 <= k < memo.formulas@.len() ==> (#[trigger] memo.formulas@[k]) is None,
                forall|k: int| 0 <= k < i ==> (#[trigger] memo.rel_exprs@[k]) is None,
            decreases ir.rel_exprs@.len() - i,
        {
            memo.rel_exprs.push(None);
            i = i + 1;
        }
        let mut i: usize = 0;
        while i < ir.int_exprs.len()
            invariant
                i <= ir.int_exprs@.len(),
                memo.formulas@.len() == ir.formulas@.len(),
                memo.rel_exprs@.len() == ir.rel_exprs@.len(),
                memo.int_exprs@.len() == i,
                forall|k: int| 0 <= k < memo.formulas@.len() ==> (#[trigger] memo.formulas@[k]) is None,
                forall|k: int| 0 <= k < memo.rel_exprs@.len() ==> (#[trigger] memo.rel_exprs@[k]) is None,
                forall|k: int| 0 <= k < i ==> (#[trigger] memo.int_exprs@[k]) is None,
            decreases ir.int_exprs@.len() - i,
        {
            memo.int_exprs.push(None);
            i = i + 1;
        }
        proof {
            assert(ranked(*ir, rank));
            assert(memo_ok(*ir, rank, memo));
        }
        let mut formulas: Vec<Vec<VarId>> = Vec::new();
        let mut i: usize = 0;
        while i < ir.formulas.len()
            invariant
                i <= ir.formulas@.len(),
                rank == the_rank(*ir),
                ranked(*ir, rank),
                memo_ok(*ir, rank, memo),
                formulas@.len() == i,
                forall|k: int| 0 <= k < i ==> ascending((#[trigger] formulas@[k])@) && var_set(formulas@[k]@) == fv(*ir, rank, NodeRef::Formula(k as usize)),
            decreases ir.formulas@.len() - i,
        {
            let s = formula_vars(ir, &mut memo, i, Ghost(rank));
            formulas.push(s);
            i = i + 1;
        }
        let mut rel_exprs: Vec<Vec<VarId>> = Vec::new();
        let mut i: usize = 0;
        while i < ir.rel_exprs.len()
            invariant
                i <= ir.rel_exprs@.len(),
                rank == the_rank(*ir),
                ranked(*ir, rank),
                memo_ok(*ir, rank, memo),
                rel_exprs@.len() == i,
                forall|k: int| 0 <= k < i ==> ascending((#[trigger] rel_exprs@[k])@) && var_set(rel_exprs@[k]@) == fv(*ir, rank, NodeRef::Rel(k as usize)),
            decreases ir.rel_exprs@.len() - i,
        {
            let s = rel_vars(ir, &mut memo, i, Ghost(rank));
            rel_exprs.push(s);
            i = i + 1;
        }
        let mut int_exprs: Vec<Vec<VarId>> = Vec::new();
        let mut i: usize = 0;
        while i < ir.int_exprs.len()
            invariant
                i <= ir.int_exprs@.len(),
                rank == the_rank(*ir),
                ranked(*ir, rank),
                memo_ok(*ir, rank, memo),
                int_exprs@.len() == i,
                forall|k: int| 0 <= k < i ==> ascending((#[trigger] int_exprs@[k])@) && var_set(int_exprs@[k]@) == fv(*ir, rank, NodeRef::Int(k as usize)),
            decreases ir.int_exprs@.len() - i,
        {
            let s = int_vars(ir, &mut memo, i, Ghost(rank));
            int_exprs.push(s);
            i = i + 1;
        }
        let r = FreeVars { formulas, rel_exprs, int_exprs };
        proof {
            assert forall|i: int| 0 <= i < r.formula_lists().len() implies ascending(#[trigger] r.formula_lists()[i]) && var_set(
                r.formula_lists()[i],
            ) == free_vars(*ir, NodeRef::Formula(i as usize)) by {
                assert(r.formula_lists()[i] == r.formulas@[i]@);
            }
            assert forall|i: int| 0 <= i < r.rel_lists().len() implies ascending(#[trigger] r.rel_lists()[i]) && var_set(r.rel_lists()[i])
                == free_vars(*ir, NodeRef::Rel(i as usize)) by {
                assert(r.rel_lists()[i] == r.rel_exprs@[i]@);
            }
            assert forall|i: int| 0 <= i < r.int_lists().len() implies ascending(#[trigger] r.int_lists()[i]) && var_set(r.int_lists()[i])
                == free_vars(*ir, NodeRef::Int(i as usize)) by {
                assert(r.int_lists()[i] == r.int_exprs@[i]@);
            }
        }
        r
    }

    /// The free variables of formula `id`, ascending.
    pub fn formula(&self, id: FormulaId) -> (r: &[VarId])
        requires
            id.index < self.formula_lists().len(),
        ensures
            r@ == self.formula_lists()[id.index as int],
    {
        self.formulas[id.index].as_slice()
    }

    /// The free variables of relation expression `id`, ascending.
    pub fn rel(&self, id: RelExprId) -> (r: &[VarId])
        requires
            id.index < self.rel_lists().len(),
        ensures
            r@ == self.rel_lists()[id.index as int],
    {
        self.rel_exprs[id.index].as_slice()
    }

    /// The free variables of integer expression `id`, ascending.
    pub fn int_expr(&self, id: IntExprId) -> (r: &[VarId])
        requires
            id.index < self.int_lists().len(),
        ensures
            r@ == self.int_lists()[id.index as int],
    {
        self.int_exprs[id.index].as_slice()
    }
}

/// Two ranks of an acyclic IR give every node the same free variables.
proof fn lemma_fv_rank_free(ir: Ir, r1: spec_fn(NodeRef) -> nat, r2: spec_fn(NodeRef) -> nat, n: NodeRef)
    requires
        ranked(ir, r1),
        ranked(ir, r2),
    ensures
        fv(ir, r1, n) == fv(ir, r2, n),
    decreases r1(n), 1nat, 0nat,
{
    if node_valid(ir, n) {
        let cs = children(ir, n);
        assert forall|k: int| 0 <= k < cs.len() implies node_valid(ir, #[trigger] cs[k]) && r1(cs[k]) < r1(n) && r2(cs[k]) < r2(n) by {
            assert(node_valid(ir, children(ir, n)[k]));
        }
        lemma_fv_list_rank_free(ir, r1, r2, n, cs);
        if cs.len() >= 2 {
            lemma_fv_rank_free(ir, r1, r2, cs[0]);
            lemma_fv_rank_free(ir, r1, r2, cs[1]);
        }
    }
}

/// Two ranks of an acyclic IR give a list of children of `n` the same free
/// variables.
proof fn lemma_fv_list_rank_free(ir: Ir, r1: spec_fn(NodeRef) -> nat, r2: spec_fn(NodeRef) -> nat, n: NodeRef, cs: Seq<NodeRef>)
    requires
        ranked(ir, r1),
        ranked(ir, r2),
        forall|k: int| 0 <= k < cs.len() ==> node_valid(ir, #[trigger] cs[k]) && r1(cs[k]) < r1(n) && r2(cs[k]) < r2(n),
    ensures
        fv_list(ir, r1, n, cs) == fv_list(ir, r2, n, cs),
    decreases r1(n), 0nat, cs.len(),
{
    if cs.len() > 0 {
        lemma_fv_rank_free(ir, r1, r2, cs[0]);
        assert forall|k: int| 0 <= k < cs.drop_first().len() implies node_valid(ir, #[trigger] cs.drop_first()[k]) && r1(cs.drop_first()[k]) < r1(n)
            && r2(cs.drop_first()[k]) < r2(n) by {
            assert(cs.drop_first()[k] == cs[k + 1]);
        }
        lemma_fv_list_rank_free(ir, r1, r2, n, cs.drop_first());
        assert(fv_child(ir, r1, n, cs[0]) == fv(ir, r1, cs[0]));
        assert(fv_child(ir, r2, n, cs[0]) == fv(ir, r2, cs[0]));
        assert(fv_list(ir, r1, n, cs) == fv_child(ir, r1, n, cs[0]).union(fv_list(ir, r1, n, cs.drop_first())));
        assert(fv_list(ir, r2, n, cs) == fv_child(ir, r2, n, cs[0]).union(fv_list(ir, r2, n, cs.drop_first())));
    }
}

/// The free variables are a function of the IR alone: any rank that shows
/// it acyclic gives the same sets.
pub proof fn lemma_free_vars_any_rank(ir: Ir, rank: spec_fn(NodeRef) -> nat, n: NodeRef)
    requires
        ranked(ir, rank),
    ensures
        free_vars(ir, n) == fv(ir, rank, n),
{
    lemma_fv_rank_free(ir, the_rank(ir), rank, n);
}

} // verus!
