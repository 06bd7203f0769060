//! Shared formula nodes.
//!
//! Lowering mostly builds a fresh node for every occurrence, so most problems
//! refer to each formula node from one place at most. The exception (a
//! formula `if`/`then`/`else`, whose condition is lowered once and used both
//! plainly and negated) is what makes a memo keyed on node identity matter.
//! This module answers, by a flat scan of the three arenas, whether any
//! formula node is referred to twice.

use vstd::prelude::*;

use crate::encode::freevars::{node_valid, NodeRef};
use crate::ir::{FormulaId, FormulaKind, IntExprKind, Ir, RelExprKind};

verus! {

/// The formula nodes that node `n` refers to directly, in operand order.
pub open spec fn formula_child_refs(ir: Ir, n: NodeRef) -> Seq<usize> {
    match n {
        NodeRef::Formula(i) => match ir.formulas@[i as int].kind {
            FormulaKind::Const(_) => seq![],
            FormulaKind::RelCompare { .. } => seq![],
            FormulaKind::IntCompare { .. } => seq![],
            FormulaKind::MultTest { .. } => seq![],
            FormulaKind::Not(x) => seq![x.index],
            FormulaKind::TemporalUnary { body, .. } => seq![body.index],
            FormulaKind::Quant { body, .. } => seq![body.index],
            FormulaKind::And(xs) => xs@.map_values(|f: FormulaId| f.index),
            FormulaKind::Or(xs) => xs@.map_values(|f: FormulaId| f.index),
            FormulaKind::Implies { antecedent, consequent } => seq![antecedent.index, consequent.index],
            FormulaKind::Iff(l, r) => seq![l.index, r.index],
            FormulaKind::TemporalBinary { lhs, rhs, .. } => seq![lhs.index, rhs.index],
        },
        NodeRef::Rel(i) => match ir.rel_exprs@[i as int].kind {
            RelExprKind::IfThenElse { cond, .. } => seq![cond.index],
            RelExprKind::Comprehension { body, .. } => seq![body.index],
            _ => seq![],
        },
        NodeRef::Int(i) => match ir.int_exprs@[i as int].kind {
            IntExprKind::IfThenElse { cond, .. } => seq![cond.index],
            _ => seq![],
        },
    }
}

/// Every node of the IR: the formula arena, then the relation-expression
/// arena, then the integer-expression arena, each in allocation order.
pub open spec fn all_nodes(ir: Ir) -> Seq<NodeRef> {
    Seq::new(ir.formulas@.len(), |i: int| NodeRef::Formula(i as usize))
        + Seq::new(ir.rel_exprs@.len(), |i: int| NodeRef::Rel(i as usize))
        + Seq::new(ir.int_exprs@.len(), |i: int| NodeRef::Int(i as usize))
}

/// The formula references of `nodes`, one after the other.
pub open spec fn refs_of_nodes(ir: Ir, nodes: Seq<NodeRef>) -> Seq<usize>
    decreases nodes.len(),
{
    if nodes.len() == 0 {
        seq![]
    } else {
        refs_of_nodes(ir, nodes.drop_last()) + formula_child_refs(ir, nodes.last())
    }
}

/// Every reference to a formula node anywhere in the IR, one entry per
/// reference.
pub open spec fn formula_references(ir: Ir) -> Seq<usize> {
    refs_of_nodes(ir, all_nodes(ir))
}

/// Every formula reference of every node indexes the formula arena.
pub open spec fn formula_refs_valid(ir: Ir) -> bool {
    forall|n: NodeRef, k: int|
        #![trigger formula_child_refs(ir, n)[k]]
        node_valid(ir, n) && 0 <= k < formula_child_refs(ir, n).len() ==> formula_child_refs(ir, n)[k] < ir.formulas@.len()
}

/// `seen` marks exactly the formulas that `refs` mentions.
spec fn marks(seen: Seq<bool>, refs: Seq<usize>) -> bool {
    &&& forall|k: int| 0 <= k < refs.len() ==> refs[k] < seen.len()
    &&& forall|j: usize| j < seen.len() ==> (#[trigger] seen[j as int] <==> refs.contains(j))
}

proof fn lemma_dup_extends(a: Seq<usize>, b: Seq<usize>)
    requires
        !a.no_duplicates(),
    ensures
        !(a + b).no_duplicates(),
{
    let (i, j) = choose|i: int, j: int| 0 <= i < a.len() && 0 <= j < a.len() && i != j && a[i] == a[j];
    assert((a + b)[i] == (a + b)[j]);
}

proof fn lemma_refs_prefix(ir: Ir, nodes: Seq<NodeRef>, m: int) -> (rest: Seq<usize>)
    requires
        0 <= m <= nodes.len(),
    ensures
        refs_of_nodes(ir, nodes) == refs_of_nodes(ir, nodes.take(m)) + rest,
    decreases nodes.len(),
{
    if m == nodes.len() {
        assert(nodes.take(m) =~= nodes);
        assert(refs_of_nodes(ir, nodes) =~= refs_of_nodes(ir, nodes.take(m)) + Seq::<usize>::empty());
        Seq::<usize>::empty()
    } else {
        let t = lemma_refs_prefix(ir, nodes.drop_last(), m);
        assert(nodes.drop_last().take(m) =~= nodes.take(m));
        let rest = t + formula_child_refs(ir, nodes.last());
        assert(refs_of_nodes(ir, nodes) =~= refs_of_nodes(ir, nodes.take(m)) + rest);
        rest
    }
}

proof fn lemma_refs_step(ir: Ir, nodes: Seq<NodeRef>, m: int)
    requires
        0 <= m < nodes.len(),
    ensures
        refs_of_nodes(ir, nodes.take(m + 1)) == refs_of_nodes(ir, nodes.take(m)) + formula_child_refs(ir, nodes[m]),
{
    assert(nodes.take(m + 1).drop_last() =~= nodes.take(m));
}

/// Marks each of `xs` in `seen`, stopping at the first that was already
/// marked; reports whether it stopped.
fn mark_all(seen: &mut Vec<bool>, xs: &Vec<usize>, Ghost(before): Ghost<Seq<usize>>) -> (hit: bool)
    requires
        marks(old(seen)@, before),
        before.no_duplicates(),
        forall|k: int| 0 <= k < xs@.len() ==> xs@[k] < old(seen)@.len(),
    ensures
        final(seen)@.len() == old(seen)@.len(),
        hit == !(before + xs@).no_duplicates(),
        !hit ==> marks(final(seen)@, before + xs@),
{
    let mut k: usize = 0;
    while k < xs.len()
        invariant
            k <= xs@.len(),
            seen@.len() == old(seen)@.len(),
            marks(seen@, before + xs@.take(k as int)),
            (before + xs@.take(k as int)).no_duplicates(),
            forall|k: int| 0 <= k < xs@.len() ==> xs@[k] < seen@.len(),
        decreases xs@.len() - k,
    {
        let x = xs[k];
        let ghost cur = before + xs@.take(k as int);
        assert(before + xs@.take(k + 1) =~= cur.push(x));
        if seen[x] {
            proof {
                let i = choose|i: int| 0 <= i < cur.len() && cur[i] == x;
                assert(cur.push(x)[i] == cur.push(x)[cur.len() as int]);
                assert(before + xs@ =~= cur.push(x) + xs@.skip(k + 1));
                lemma_dup_extends(cur.push(x), xs@.skip(k + 1));
            }
            return true;
        }
        assert(!cur.contains(x)) by {
            assert(seen@[x as int] == false);
        }
        let ghost prev = seen@;
        seen.set(x, true);
        proof {
            let nxt = cur.push(x);
            assert(nxt[cur.len() as int] == x);
            assert forall|j: usize| j < seen@.len() implies (#[trigger] seen@[j as int] <==> nxt.contains(j)) by {
                if j != x {
                    assert(seen@[j as int] == prev[j as int]);
                    assert(prev[j as int] <==> cur.contains(j));
                    if nxt.contains(j) {
                        let i = choose|i: int| 0 <= i < nxt.len() && nxt[i] == j;
                        assert(i != cur.len());
                        assert(cur[i] == j);
                    }
                    if cur.contains(j) {
                        let i = choose|i: int| 0 <= i < cur.len() && cur[i] == j;
                        assert(nxt[i] == j);
                    }
                }
            }
            assert forall|a: int, b: int| 0 <= a < nxt.len() && 0 <= b < nxt.len() && a != b implies nxt[a] != nxt[b] by {
                if a == cur.len() as int {
                    assert(nxt[b] == cur[b]);
                } else if b == cur.len() as int {
                    assert(nxt[a] == cur[a]);
                } else {
                    assert(nxt[a] == cur[a] && nxt[b] == cur[b]);
                }
            }
        }
        k = k + 1;
    }
    proof {
        assert(xs@.take(k as int) =~= xs@);
    }
    false
}

/// The formula references of one node, in operand order.
fn node_formula_refs(ir: &Ir, n: NodeRef) -> (r: Vec<usize>)
    requires
        node_valid(*ir, n),
    ensures
        r@ == formula_child_refs(*ir, n),
{
    match n {
        NodeRef::Formula(i) => match &ir.formulas[i].kind {
            FormulaKind::Const(_) | FormulaKind::RelCompare { .. } | FormulaKind::IntCompare { .. } | FormulaKind::MultTest { .. } => Vec::new(),
            FormulaKind::Not(x) => vec![x.index],
            FormulaKind::TemporalUnary { body, .. } => vec![body.index],
            FormulaKind::Quant { body, .. } => vec![body.index],
            FormulaKind::Implies { antecedent, consequent } => vec![antecedent.index, consequent.index],
            FormulaKind::Iff(l, r) => vec![l.index, r.index],
            FormulaKind::TemporalBinary { lhs, rhs, .. } => vec![lhs.index, rhs.index],
            FormulaKind::And(xs) | FormulaKind::Or(xs) => {
                let mut out: Vec<usize> = Vec::new();
                let mut k: usize = 0;
                while k < xs.len()
                    invariant
                        k <= xs@.len(),
                        out@ == xs@.take(k as int).map_values(|f: FormulaId| f.index),
                    decreases xs@.len() - k,
                {
                    out.push(xs[k].index);
                    k = k + 1;
                    proof {
                        assert(out@ =~= xs@.take(k as int).map_values(|f: FormulaId| f.index));
                    }
                }
                proof {
                    assert(xs@.take(k as int) =~= xs@);
                }
                out
            },
        },
        NodeRef::Rel(i) => match &ir.rel_exprs[i].kind {
            RelExprKind::IfThenElse { cond, .. } => vec![cond.index],
            RelExprKind::Comprehension { body, .. } => vec![body.index],
            _ => Vec::new(),
        },
        NodeRef::Int(i) => match &ir.int_exprs[i].kind {
            IntExprKind::IfThenElse { cond, .. } => vec![cond.index],
            _ => Vec::new(),
        },
    }
}

/// Whether any formula node is referred to from more than one place (two
/// operands of one node count as two places). Nodes that no goal reaches
/// count too: the scan is over the whole arenas.
pub fn has_shared_formula(ir: &Ir) -> (shared: bool)
    requires
        formula_refs_valid(*ir),
    ensures
        shared == !formula_references(*ir).no_duplicates(),
{
    let ghost nodes = all_nodes(*ir);
    let nf = ir.formulas.len();
    let nr = ir.rel_exprs.len();
    let ni = ir.int_exprs.len();
    let mut seen: Vec<bool> = vec![false; nf];
    let ghost mut pos: int = 0;
    let mut i: usize = 0;
    proof {
        assert(nodes.take(0) =~= Seq::<NodeRef>::empty());
        assert forall|j: usize| j < seen@.len() implies (#[trigger] seen@[j as int] <==> refs_of_nodes(*ir, nodes.take(0)).contains(j)) by {
            assert(seen@[j as int] == false);
        }
    }
    // Each loop scans one arena; `pos` counts the nodes scanned so far.
    while i < nf
        invariant
            formula_refs_valid(*ir),
            nodes == all_nodes(*ir),
            nf == ir.formulas@.len(),
            i <= nf,
            pos == i,
            seen@.len() == nf,
            marks(seen@, refs_of_nodes(*ir, nodes.take(pos))),
            refs_of_nodes(*ir, nodes.take(pos)).no_duplicates(),
        decreases nf - i,
    {
        let n = NodeRef::Formula(i);
        assert(nodes[pos] == n);
        let xs = node_formula_refs(ir, n);
        proof {
            lemma_refs_step(*ir, nodes, pos);
            assert forall|k: int| 0 <= k < xs@.len() implies xs@[k] < seen@.len() by {
                assert(formula_child_refs(*ir, n)[k] < ir.formulas@.len());
            }
        }
        if mark_all(&mut seen, &xs, Ghost(refs_of_nodes(*ir, nodes.take(pos)))) {
            proof {
                let t = lemma_refs_prefix(*ir, nodes, pos + 1);
                lemma_dup_extends(refs_of_nodes(*ir, nodes.take(pos + 1)), t);
            }
            return true;
        }
        i = i + 1;
        proof {
            pos = pos + 1;
        }
    }
    i = 0;
    while i < nr
        invariant
            formula_refs_valid(*ir),
            nodes == all_nodes(*ir),
            nf == ir.formulas@.len(),
            nr == ir.rel_exprs@.len(),
            i <= nr,
            pos == nf + i,
            seen@.len() == nf,
            marks(seen@, refs_of_nodes(*ir, nodes.take(pos))),
            refs_of_nodes(*ir, nodes.take(pos)).no_duplicates(),
        decreases nr - i,
    {
        let n = NodeRef::Rel(i);
        assert(nodes[pos] == n);
        let xs = node_formula_refs(ir, n);
        proof {
            lemma_refs_step(*ir, nodes, pos);
            assert forall|k: int| 0 <= k < xs@.len() implies xs@[k] < seen@.len() by {
                assert(formula_child_refs(*ir, n)[k] < ir.formulas@.len());
            }
        }
        if mark_all(&mut seen, &xs, Ghost(refs_of_nodes(*ir, nodes.take(pos)))) {
            proof {
                let t = lemma_refs_prefix(*ir, nodes, pos + 1);
                lemma_dup_extends(refs_of_nodes(*ir, nodes.take(pos + 1)), t);
            }
            return true;
        }
        i = i + 1;
        proof {
            pos = pos + 1;
        }
    }
    i = 0;
    while i < ni
        invariant
            formula_refs_valid(*ir),
            nodes == all_nodes(*ir),
            nf == ir.formulas@.len(),
            nr == ir.rel_exprs@.len(),
            ni == ir.int_exprs@.len(),
            i <= ni,
            pos == nf + nr + i,
            seen@.len() == nf,
            marks(seen@, refs_of_nodes(*ir, nodes.take(pos))),
            refs_of_nodes(*ir, nodes.take(pos)).no_duplicates(),
        decreases ni - i,
    {
        let n = NodeRef::Int(i);
        assert(nodes[pos] == n);
        let xs = node_formula_refs(ir, n);
        proof {
            lemma_refs_step(*ir, nodes, pos);
            assert forall|k: int| 0 <= k < xs@.len() implies xs@[k] < seen@.len() by {
                assert(formula_child_refs(*ir, n)[k] < ir.formulas@.len());
            }
        }
        if mark_all(&mut seen, &xs, Ghost(refs_of_nodes(*ir, nodes.take(pos)))) {
            proof {
                let t = lemma_refs_prefix(*ir, nodes, pos + 1);
                lemma_dup_extends(refs_of_nodes(*ir, nodes.take(pos + 1)), t);
            }
            return true;
        }
        i = i + 1;
        proof {
            pos = pos + 1;
        }
    }
    proof {
        assert(nodes.take(pos) =~= nodes);
    }
    false
}

} // verus!
