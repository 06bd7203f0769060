//! The direct evaluator: a formula, relation expression or integer
//! expression of the IR evaluated over one concrete instance, grounding each
//! quantifier over its bound's tuples. This is the semantics the encoder's
//! circuits are built to agree with, stated as spec functions over the IR
//! and proved of the walk.
//!
//! Integer terms wrap in two's complement at the bitwidth and carry a flag
//! saying some step left the signed range; the value is what the encoder
//! computes when overflow is allowed.

use vstd::prelude::*;

use vstd::arithmetic::power2::pow2;
use vstd::string::StringExecFns;

use crate::bounds::{AtomId, Tuple, TupleSet};
use crate::encode::freevars::{children, node_valid, ranked, acyclic, the_rank, NodeRef};
use crate::encode::integer::{div_value, in_range, magnitude, rem_value, trunc_div, trunc_rem, wrap};
use crate::encode::terms::{atom_int_value, atom_values, int_atom_value, int_cmp_spec, running_sum};
use crate::error::TranslateError;
use crate::eval::{atom_to_int_value, const_value, rel_binary, rel_unary, var_value};
use crate::ir::{
    CompDecl, FormulaId, FormulaKind, IntBinOp, IntCmpOp, IntExprId, IntExprKind, Ir, MultTest, QuantKind, RelCmpOp, RelExprId,
    RelExprKind,
};
use crate::lex::{lemma_lex_sorted_unique, lex_sorted};
use crate::relspec::{const_arity, const_spec, rel_binary_arity, rel_binary_defined, rel_binary_spec, rel_unary_spec};
use crate::span::Span;

verus! {

broadcast use TupleSet::lemma_wf;

/// One concrete instance: the universe size and, by relation position, the
/// tuples each relation holds (`None` for a relation the instance does not
/// carry).
pub struct Instance {
    /// Number of atoms.
    pub universe_len: usize,
    /// The value of each relation, by position.
    pub relations: Vec<Option<TupleSet>>,
}

/// What the evaluation reads of an instance: the number of atoms, and each
/// relation's arity and tuples (`None` for a relation it does not carry).
pub type InstView = (nat, spec_fn(nat) -> Option<(nat, Set<Seq<nat>>)>);

impl Instance {
    /// The number of atoms, and each carried relation's arity and tuples.
    pub open spec fn view(&self) -> InstView {
        (
            self.universe_len as nat,
            |r: nat|
                if r < self.relations@.len() && self.relations@[r as int] is Some {
                    Some((self.relations@[r as int]->0.ar(), self.relations@[r as int]->0@))
                } else {
                    None
                },
        )
    }

    /// Every relation value is a well-formed tuple set.
    pub open spec fn wf(&self) -> bool {
        forall|i: int| 0 <= i < self.relations@.len() && (#[trigger] self.relations@[i]) is Some ==> self.relations@[i]->0.wf()
    }
}

/// The integer parameters: the bitwidth and the run of `Int` atoms.
#[derive(Clone, Copy, PartialEq, Eq, Debug, Structural)]
pub struct IntParams {
    /// Bits of an integer.
    pub bitwidth: u32,
    /// Position of the first `Int` atom.
    pub int_start: usize,
    /// Position just past the last `Int` atom.
    pub int_end: usize,
}

/// What the evaluator needs of the integer parameters: a bitwidth its
/// arithmetic fits, and no more `Int` atoms than values.
pub open spec fn params_ok(p: IntParams) -> bool {
    1 <= p.bitwidth <= 31 && p.int_end <= p.int_start + pow2(p.bitwidth as nat)
}

/// The binding of each variable, by position: the tuple it is bound to.
pub open spec fn env_view(env: Seq<Option<Tuple>>) -> Seq<Option<Seq<nat>>> {
    env.map_values(|b: Option<Tuple>| match b {
        Some(t) => Some(t@),
        None => None,
    })
}

/// A relation's value: the instance's tuples, or, for a declared relation
/// the instance does not carry, nothing at the declared arity.
pub open spec fn rel_value(ir: Ir, inst: InstView, r: nat) -> Option<(nat, Set<Seq<nat>>)> {
    if (inst.1)(r) is Some {
        (inst.1)(r)
    } else if r < ir.relations@.len() && ir.relations@[r as int].arity >= 1 {
        Some((ir.relations@[r as int].arity as nat, Set::empty()))
    } else {
        None
    }
}

/// A variable's value: the tuple it is bound to, or nothing when unbound;
/// undefined for an unknown variable or a binding of the wrong arity.
pub open spec fn var_denote(ir: Ir, env: Seq<Option<Seq<nat>>>, v: nat) -> Option<(nat, Set<Seq<nat>>)> {
    if v < ir.vars@.len() && ir.vars@[v as int].arity >= 1 && v < env.len() {
        let a = ir.vars@[v as int].arity as nat;
        match env[v as int] {
            Some(t) => if t.len() == a {
                Some((a, set![t]))
            } else {
                None
            },
            None => Some((a, Set::empty())),
        }
    } else {
        None
    }
}

/// `Int[v]`: the `Int` atoms standing for `v`.
pub open spec fn int_atoms(v: int, p: IntParams) -> Set<Seq<nat>> {
    Set::new(
        |t: Seq<nat>|
            t.len() == 1 && int_atom_value(t[0], p.int_start as nat, p.int_end as nat, p.bitwidth as nat) == Some(v),
    )
}

/// The tuples of a finite set in lexicographic order.
pub open spec fn sorted_of(s: Set<Seq<nat>>) -> Seq<Seq<nat>> {
    choose|q: Seq<Seq<nat>>| lex_sorted(q) && q.to_set() == s
}

/// Every finite set of tuples has its lexicographic listing.
pub proof fn lemma_sorted_of_finite(s: Set<Seq<nat>>)
    requires
        s.finite(),
    ensures
        lex_sorted(sorted_of(s)),
        sorted_of(s).to_set() == s,
    decreases s.len(),
{
    if s.len() == 0 {
        let q = Seq::<Seq<nat>>::empty();
        assert(s =~= Set::<Seq<nat>>::empty()) by {
            vstd::set_lib::lemma_set_empty_equivalency_len(s);
        }
        assert(q.to_set() =~= s);
        assert(lex_sorted(q));
    } else {
        let a = s.choose();
        assert(s.contains(a)) by {
            vstd::set_lib::lemma_set_empty_equivalency_len(s);
        }
        let s0 = s.remove(a);
        lemma_sorted_of_finite(s0);
        let q0 = sorted_of(s0);
        assert(!q0.contains(a)) by {
            if q0.contains(a) {
                assert(q0.to_set().contains(a));
            }
        }
        crate::lex::lemma_insert_sorted(q0, a);
        let q = crate::lex::insert_sorted(q0, a);
        assert(q.to_set() =~= s);
        assert(lex_sorted(q) && q.to_set() == s);
    }
}

/// A multiplicity test on a set of `n` tuples.
pub open spec fn mult_count(test: MultTest, n: nat) -> bool {
    match test {
        MultTest::No => n == 0,
        MultTest::Nonempty => n != 0,
        MultTest::Lone => n <= 1,
        MultTest::One => n == 1,
    }
}

/// A binary integer operation at width `w`: its wrapped value and whether it
/// left the signed range; undefined for the operations this evaluator does
/// not compute.
pub open spec fn int_binop_spec(op: IntBinOp, a: int, b: int, w: nat) -> Option<(int, bool)> {
    match op {
        IntBinOp::Add => Some((wrap(a + b, w), !in_range(a + b, w))),
        IntBinOp::Sub => Some((wrap(a - b, w), !in_range(a - b, w))),
        IntBinOp::Mul => Some((wrap(a * b, w), !in_range(a * b, w))),
        IntBinOp::Div => Some((div_value(a, b, w), b == 0 || (a == -pow2((w - 1) as nat) && b == -1))),
        IntBinOp::Rem => Some((rem_value(a, b), b == 0)),
        _ => None,
    }
}

/// A relational comparison of two arity-tagged sets: inclusion of the
/// tuples, or equality of arity and tuples.
pub open spec fn compare_sets(op: RelCmpOp, a: (nat, Set<Seq<nat>>), b: (nat, Set<Seq<nat>>)) -> bool {
    match op {
        RelCmpOp::Subset => a.1.subset_of(b.1),
        RelCmpOp::Equal => a.0 == b.0 && a.1 == b.1,
    }
}

/// An integer comparison.
pub open spec fn compare_ints(op: IntCmpOp, a: int, b: int) -> bool {
    int_cmp_spec(op, a, b)
}

/// Formula `f` holds in the instance under `env`; `None` where it cannot be
/// evaluated (a temporal connective, an ill-sorted operand, an unknown
/// variable or relation, a shift).
pub open spec fn holds_r(
    ir: Ir,
    rank: spec_fn(NodeRef) -> nat,
    inst: InstView,
    p: IntParams,
    env: Seq<Option<Seq<nat>>>,
    f: usize,
) -> Option<bool>
    decreases rank(NodeRef::Formula(f)), 3nat, 0nat, 0nat, 0nat,
{
    let n = NodeRef::Formula(f);
    if f >= ir.formulas@.len() {
        None
    } else {
        match ir.formulas@[f as int].kind {
            FormulaKind::Const(b) => Some(b),
            FormulaKind::Not(g) => match h_sub(ir, rank, inst, p, env, n, g.index) {
                Some(b) => Some(!b),
                None => None,
            },
            FormulaKind::And(parts) => all_of(ir, rank, inst, p, env, n, parts@),
            FormulaKind::Or(parts) => any_of(ir, rank, inst, p, env, n, parts@),
            FormulaKind::Implies { antecedent, consequent } => match (
                h_sub(ir, rank, inst, p, env, n, antecedent.index),
                h_sub(ir, rank, inst, p, env, n, consequent.index),
            ) {
                (Some(a), Some(c)) => Some(!a || c),
                _ => None,
            },
            FormulaKind::Iff(l, r) => match (h_sub(ir, rank, inst, p, env, n, l.index), h_sub(ir, rank, inst, p, env, n, r.index)) {
                (Some(a), Some(b)) => Some(a == b),
                _ => None,
            },
            FormulaKind::RelCompare { op, lhs, rhs } => match (
                d_sub(ir, rank, inst, p, env, n, lhs.index),
                d_sub(ir, rank, inst, p, env, n, rhs.index),
            ) {
                (Some(a), Some(b)) => Some(compare_sets(op, a, b)),
                _ => None,
            },
            FormulaKind::IntCompare { op, lhs, rhs } => match (
                i_sub(ir, rank, inst, p, env, n, lhs.index),
                i_sub(ir, rank, inst, p, env, n, rhs.index),
            ) {
                (Some(a), Some(b)) => Some(compare_ints(op, a.0, b.0)),
                _ => None,
            },
            FormulaKind::MultTest { test, expr } => match d_sub(ir, rank, inst, p, env, n, expr.index) {
                Some(a) => Some(mult_count(test, a.1.len())),
                None => None,
            },
            FormulaKind::Quant { kind, var, bound, body } => quant_r(
                ir,
                rank,
                inst,
                p,
                env,
                n,
                kind,
                var.index,
                bound.index,
                body.index,
            ),
            FormulaKind::TemporalUnary { .. } => None,
            FormulaKind::TemporalBinary { .. } => None,
        }
    }
}

/// Formula `g` under `env`, reached from `n` (undefined where the rank does
/// not decrease, which a ranked IR rules out).
pub open spec fn h_sub(
    ir: Ir,
    rank: spec_fn(NodeRef) -> nat,
    inst: InstView,
    p: IntParams,
    env: Seq<Option<Seq<nat>>>,
    n: NodeRef,
    g: usize,
) -> Option<bool>
    decreases rank(n), 0nat, 0nat, 0nat, 0nat,
{
    if rank(NodeRef::Formula(g)) < rank(n) {
        holds_r(ir, rank, inst, p, env, g)
    } else {
        None
    }
}

/// Relation expression `r` under `env`, reached from `n`.
pub open spec fn d_sub(
    ir: Ir,
    rank: spec_fn(NodeRef) -> nat,
    inst: InstView,
    p: IntParams,
    env: Seq<Option<Seq<nat>>>,
    n: NodeRef,
    r: usize,
) -> Option<(nat, Set<Seq<nat>>)>
    decreases rank(n), 0nat, 0nat, 0nat, 0nat,
{
    if rank(NodeRef::Rel(r)) < rank(n) {
        denote_r(ir, rank, inst, p, env, r)
    } else {
        None
    }
}

/// Integer expression `i` under `env`, reached from `n`.
pub open spec fn i_sub(
    ir: Ir,
    rank: spec_fn(NodeRef) -> nat,
    inst: InstView,
    p: IntParams,
    env: Seq<Option<Seq<nat>>>,
    n: NodeRef,
    i: usize,
) -> Option<(int, bool)>
    decreases rank(n), 0nat, 0nat, 0nat, 0nat,
{
    if rank(NodeRef::Int(i)) < rank(n) {
        int_value_r(ir, rank, inst, p, env, i)
    } else {
        None
    }
}

/// Every formula of `parts` holds (defined when each is).
pub open spec fn all_of(
    ir: Ir,
    rank: spec_fn(NodeRef) -> nat,
    inst: InstView,
    p: IntParams,
    env: Seq<Option<Seq<nat>>>,
    n: NodeRef,
    parts: Seq<FormulaId>,
) -> Option<bool>
    decreases rank(n), 1nat, parts.len(), 0nat, 0nat,
{
    if parts.len() == 0 {
        Some(true)
    } else {
        match (all_of(ir, rank, inst, p, env, n, parts.drop_last()), h_sub(ir, rank, inst, p, env, n, parts.last().index)) {
            (Some(a), Some(b)) => Some(a && b),
            _ => None,
        }
    }
}

/// Some formula of `parts` holds (defined when each is).
pub open spec fn any_of(
    ir: Ir,
    rank: spec_fn(NodeRef) -> nat,
    inst: InstView,
    p: IntParams,
    env: Seq<Option<Seq<nat>>>,
    n: NodeRef,
    parts: Seq<FormulaId>,
) -> Option<bool>
    decreases rank(n), 1nat, parts.len(), 0nat, 0nat,
{
    if parts.len() == 0 {
        Some(false)
    } else {
        match (any_of(ir, rank, inst, p, env, n, parts.drop_last()), h_sub(ir, rank, inst, p, env, n, parts.last().index)) {
            (Some(a), Some(b)) => Some(a || b),
            _ => None,
        }
    }
}

/// A quantified formula: the body under each binding of `v` to a tuple of
/// the bound, in the bound's order, all of them holding (`all`) or some
/// (`some`).
pub open spec fn quant_r(
    ir: Ir,
    rank: spec_fn(NodeRef) -> nat,
    inst: InstView,
    p: IntParams,
    env: Seq<Option<Seq<nat>>>,
    n: NodeRef,
    kind: QuantKind,
    v: usize,
    bound: usize,
    body: usize,
) -> Option<bool>
    decreases rank(n), 2nat, 0nat, 0nat, 0nat,
{
    match d_sub(ir, rank, inst, p, env, n, bound) {
        None => None,
        Some(dom) => if v < env.len() {
            bindings(ir, rank, inst, p, env, n, v, body, sorted_of(dom.1), kind == QuantKind::All)
        } else {
            None
        },
    }
}

/// The body under the binding of `v` to each tuple of `ts`: all holding
/// (`is_all`) or some (defined when each binding is).
pub open spec fn bindings(
    ir: Ir,
    rank: spec_fn(NodeRef) -> nat,
    inst: InstView,
    p: IntParams,
    env: Seq<Option<Seq<nat>>>,
    n: NodeRef,
    v: usize,
    body: usize,
    ts: Seq<Seq<nat>>,
    is_all: bool,
) -> Option<bool>
    decreases rank(n), 1nat, ts.len(), 0nat, 0nat,
{
    if ts.len() == 0 {
        Some(is_all)
    } else {
        match (
            bindings(ir, rank, inst, p, env, n, v, body, ts.drop_last(), is_all),
            h_sub(ir, rank, inst, p, env.update(v as int, Some(ts.last())), n, body),
        ) {
            (Some(a), Some(b)) => Some(
                if is_all {
                    a && b
                } else {
                    a || b
                },
            ),
            _ => None,
        }
    }
}

/// `sum v: ts | body`: the body's values under the binding of `v` to each
/// tuple of `ts`, added in order in two's complement; the flag gathers each
/// body's flag and each addition leaving the signed range.
pub open spec fn sum_bindings(
    ir: Ir,
    rank: spec_fn(NodeRef) -> nat,
    inst: InstView,
    p: IntParams,
    env: Seq<Option<Seq<nat>>>,
    n: NodeRef,
    v: usize,
    body: usize,
    ts: Seq<Seq<nat>>,
) -> Option<(int, bool)>
    decreases rank(n), 1nat, ts.len(), 0nat, 0nat,
{
    if ts.len() == 0 {
        Some((0, false))
    } else {
        match (
            sum_bindings(ir, rank, inst, p, env, n, v, body, ts.drop_last()),
            i_sub(ir, rank, inst, p, env.update(v as int, Some(ts.last())), n, body),
        ) {
            (Some(a), Some(b)) => Some(
                (wrap(a.0 + b.0, p.bitwidth as nat), a.1 || b.1 || !in_range(a.0 + b.0, p.bitwidth as nat)),
            ),
            _ => None,
        }
    }
}

/// The arity of a comprehension's tuples: the sum of its variables'
/// arities; `None` for an unknown variable.
pub open spec fn comp_arity(ir: Ir, decls: Seq<CompDecl>) -> Option<nat>
    decreases decls.len(),
{
    if decls.len() == 0 {
        Some(0)
    } else {
        match comp_arity(ir, decls.drop_last()) {
            Some(a) => if decls.last().var.index < ir.vars@.len() {
                Some(a + ir.vars@[decls.last().var.index as int].arity as nat)
            } else {
                None
            },
            None => None,
        }
    }
}

/// The tuples of a comprehension from binding `i` on, each extending
/// `prefix`: every tuple of binding `i`'s bound (evaluated with the earlier
/// bindings in place) tried in order, and at the end `prefix` itself when
/// the body holds (and has the comprehension's arity `ar`).
pub open spec fn comp_from(
    ir: Ir,
    rank: spec_fn(NodeRef) -> nat,
    inst: InstView,
    p: IntParams,
    env: Seq<Option<Seq<nat>>>,
    n: NodeRef,
    decls: Seq<CompDecl>,
    body: usize,
    ar: nat,
    prefix: Seq<nat>,
    i: nat,
) -> Option<Set<Seq<nat>>>
    decreases rank(n), 2nat, decls.len() - i, 1nat, 0nat,
{
    if i >= decls.len() {
        match h_sub(ir, rank, inst, p, env, n, body) {
            Some(true) => if prefix.len() == ar {
                Some(set![prefix])
            } else {
                None
            },
            Some(false) => Some(Set::empty()),
            None => None,
        }
    } else {
        let d = decls[i as int];
        match d_sub(ir, rank, inst, p, env, n, d.bound.index) {
            None => None,
            Some(dom) => if d.var.index < env.len() {
                comp_list(ir, rank, inst, p, env, n, decls, body, ar, prefix, i, sorted_of(dom.1))
            } else {
                None
            },
        }
    }
}

/// The tuples of a comprehension from binding `i` on, binding `i` taking
/// each tuple of `ts` in turn.
pub open spec fn comp_list(
    ir: Ir,
    rank: spec_fn(NodeRef) -> nat,
    inst: InstView,
    p: IntParams,
    env: Seq<Option<Seq<nat>>>,
    n: NodeRef,
    decls: Seq<CompDecl>,
    body: usize,
    ar: nat,
    prefix: Seq<nat>,
    i: nat,
    ts: Seq<Seq<nat>>,
) -> Option<Set<Seq<nat>>>
    decreases rank(n), 2nat, decls.len() - i, 0nat, ts.len(),
{
    if i >= decls.len() {
        None
    } else if ts.len() == 0 {
        Some(Set::empty())
    } else {
        let t = ts.last();
        match (
            comp_list(ir, rank, inst, p, env, n, decls, body, ar, prefix, i, ts.drop_last()),
            comp_from(ir, rank, inst, p, env.update(decls[i as int].var.index as int, Some(t)), n, decls, body, ar, prefix + t, i + 1),
        ) {
            (Some(a), Some(b)) => Some(a + b),
            _ => None,
        }
    }
}

/// Relation expression `r` denotes a set of tuples of one arity in the
/// instance under `env`; `None` where it cannot be evaluated.
pub open spec fn denote_r(
    ir: Ir,
    rank: spec_fn(NodeRef) -> nat,
    inst: InstView,
    p: IntParams,
    env: Seq<Option<Seq<nat>>>,
    r: usize,
) -> Option<(nat, Set<Seq<nat>>)>
    decreases rank(NodeRef::Rel(r)), 3nat, 0nat, 0nat, 0nat,
{
    let n = NodeRef::Rel(r);
    if r >= ir.rel_exprs@.len() {
        None
    } else {
        match ir.rel_exprs@[r as int].kind {
            RelExprKind::Relation(rel) => rel_value(ir, inst, rel.index as nat),
            RelExprKind::Var(v) => var_denote(ir, env, v.index as nat),
            RelExprKind::Const(c) => Some((const_arity(c), const_spec(c, inst.0))),
            RelExprKind::Binary { op, lhs, rhs } => match (
                d_sub(ir, rank, inst, p, env, n, lhs.index),
                d_sub(ir, rank, inst, p, env, n, rhs.index),
            ) {
                (Some(a), Some(b)) => if rel_binary_defined(op, a.0, b.0) {
                    Some((rel_binary_arity(op, a.0, b.0), rel_binary_spec(op, a.1, b.1)))
                } else {
                    None
                },
                _ => None,
            },
            RelExprKind::Unary { op, expr } => match d_sub(ir, rank, inst, p, env, n, expr.index) {
                Some(a) => if a.0 == 2 {
                    Some((2, rel_unary_spec(op, a.1, inst.0)))
                } else {
                    None
                },
                None => None,
            },
            RelExprKind::Prime(_) => None,
            RelExprKind::IfThenElse { cond, then_branch, else_branch } => match h_sub(ir, rank, inst, p, env, n, cond.index) {
                Some(true) => d_sub(ir, rank, inst, p, env, n, then_branch.index),
                Some(false) => d_sub(ir, rank, inst, p, env, n, else_branch.index),
                None => None,
            },
            RelExprKind::Comprehension { decls, body } => match comp_arity(ir, decls@) {
                Some(a) => if a <= usize::MAX {
                    let ar: nat = if a == 0 {
                        1
                    } else {
                        a
                    };
                    match comp_from(ir, rank, inst, p, env, n, decls@, body.index, ar, Seq::empty(), 0) {
                        Some(set) => Some((ar, set)),
                        None => None,
                    }
                } else {
                    None
                },
                None => None,
            },
            RelExprKind::IntToAtom(ie) => match i_sub(ir, rank, inst, p, env, n, ie.index) {
                Some(v) => Some((1, int_atoms(v.0, p))),
                None => None,
            },
        }
    }
}

/// Integer expression `i` has a value (wrapped to the bitwidth) and an
/// overflow flag in the instance under `env`; `None` where it cannot be
/// evaluated.
pub open spec fn int_value_r(
    ir: Ir,
    rank: spec_fn(NodeRef) -> nat,
    inst: InstView,
    p: IntParams,
    env: Seq<Option<Seq<nat>>>,
    i: usize,
) -> Option<(int, bool)>
    decreases rank(NodeRef::Int(i)), 3nat, 0nat, 0nat, 0nat,
{
    let n = NodeRef::Int(i);
    let w = p.bitwidth as nat;
    if i >= ir.int_exprs@.len() {
        None
    } else {
        match ir.int_exprs@[i as int].kind {
            IntExprKind::Const(v) => Some((wrap(v as int, w), !in_range(v as int, w))),
            IntExprKind::Card(r) => match d_sub(ir, rank, inst, p, env, n, r.index) {
                Some(a) => Some((wrap(a.1.len() as int, w), a.1.len() >= pow2((w - 1) as nat))),
                None => None,
            },
            IntExprKind::AtomToInt(r) => match d_sub(ir, rank, inst, p, env, n, r.index) {
                Some(a) => Some(
                    running_sum(atom_values(sorted_of(a.1), p.int_start as nat, p.int_end as nat, w), w),
                ),
                None => None,
            },
            IntExprKind::Neg(e) => match i_sub(ir, rank, inst, p, env, n, e.index) {
                Some(a) => Some((wrap(-a.0, w), a.1 || !in_range(-a.0, w))),
                None => None,
            },
            IntExprKind::Binary { op, lhs, rhs } => match (
                i_sub(ir, rank, inst, p, env, n, lhs.index),
                i_sub(ir, rank, inst, p, env, n, rhs.index),
            ) {
                (Some(a), Some(b)) => match int_binop_spec(op, a.0, b.0, w) {
                    Some(v) => Some((v.0, a.1 || b.1 || v.1)),
                    None => None,
                },
                _ => None,
            },
            IntExprKind::Sum { var, bound, body } => match d_sub(ir, rank, inst, p, env, n, bound.index) {
                Some(dom) => if var.index < env.len() {
                    sum_bindings(ir, rank, inst, p, env, n, var.index, body.index, sorted_of(dom.1))
                } else {
                    None
                },
                None => None,
            },
            IntExprKind::IfThenElse { cond, then_branch, else_branch } => match h_sub(ir, rank, inst, p, env, n, cond.index) {
                Some(true) => i_sub(ir, rank, inst, p, env, n, then_branch.index),
                Some(false) => i_sub(ir, rank, inst, p, env, n, else_branch.index),
                None => None,
            },
        }
    }
}

/// Formula `f` holds (see [`holds_r`]), over a rank that shows the IR
/// acyclic.
pub open spec fn holds(ir: Ir, inst: InstView, p: IntParams, env: Seq<Option<Seq<nat>>>, f: usize) -> Option<bool> {
    holds_r(ir, the_rank(ir), inst, p, env, f)
}

/// What relation expression `r` denotes (see [`denote_r`]).
pub open spec fn denote(ir: Ir, inst: InstView, p: IntParams, env: Seq<Option<Seq<nat>>>, r: usize) -> Option<(nat, Set<Seq<nat>>)> {
    denote_r(ir, the_rank(ir), inst, p, env, r)
}

/// The value of integer expression `i` (see [`int_value_r`]).
pub open spec fn int_value(ir: Ir, inst: InstView, p: IntParams, env: Seq<Option<Seq<nat>>>, i: usize) -> Option<(int, bool)> {
    int_value_r(ir, the_rank(ir), inst, p, env, i)
}

/// `2^bw` and `2^(bw−1)` for a bitwidth the evaluator handles.
pub(crate) fn powers(bw: u32) -> (r: (i64, i64))
    requires
        1 <= bw <= 31,
    ensures
        r.0 == pow2(bw as nat),
        r.1 == pow2((bw - 1) as nat),
        r.0 == 2 * r.1,
        r.1 >= 1,
        r.0 <= 0x8000_0000,
{
    proof {
        vstd::arithmetic::power2::lemma2_to64();
        vstd::arithmetic::power2::lemma_pow2_strictly_increases(bw as nat, 32);
        vstd::arithmetic::power2::lemma_pow2_unfold(bw as nat);
        vstd::arithmetic::power2::lemma_pow2_pos((bw - 1) as nat);
        vstd::bits::lemma_u64_shl_is_mul(1, bw as u64);
    }
    let m: u64 = 1u64 << (bw as u64);
    let mi: i64 = m as i64;
    (mi, mi / 2)
}

/// `x` wrapped to `bw` bits.
fn wrap_i64(x: i64, bw: u32) -> (r: i64)
    requires
        1 <= bw <= 31,
        -0x1000_0000_0000_0000 <= x <= 0x1000_0000_0000_0000,
    ensures
        r as int == wrap(x as int, bw as nat),
        in_range(r as int, bw as nat),
{
    let (m, half) = powers(bw);
    let ghost w = bw as nat;
    proof {
        vstd::arithmetic::power2::lemma2_to64();
        vstd::arithmetic::power2::lemma2_to64_rest();
        vstd::arithmetic::power2::lemma_pow2_adds(w, (62 - w) as nat);
        vstd::arithmetic::power2::lemma_pow2_pos((62 - w) as nat);
        vstd::arithmetic::div_mod::lemma_mod_multiples_vanish(pow2((62 - w) as nat) as int, x + half, m as int);
        crate::encode::terms::lemma_wrap_range(x as int, w);
    }
    let big: i64 = 0x4000_0000_0000_0000;
    let t: i64 = x + half + big;
    assert(big == m * pow2((62 - w) as nat));
    assert(t as int == (m as int) * (pow2((62 - w) as nat) as int) + (x + half)) by (nonlinear_arith)
        requires
            t == x + half + big,
            big == m * pow2((62 - w) as nat),
    ;
    let r = t % m - half;
    r
}

/// A count wrapped to `bw` bits.
fn wrap_count(c: usize, bw: u32) -> (r: i64)
    requires
        1 <= bw <= 31,
    ensures
        r as int == wrap(c as int, bw as nat),
        in_range(r as int, bw as nat),
{
    let (m, half) = powers(bw);
    let cm: u64 = (c as u64) % (m as u64);
    proof {
        vstd::arithmetic::div_mod::lemma_add_mod_noop(c as int, half as int, m as int);
        vstd::arithmetic::div_mod::lemma_mod_bound(c as int, m as int);
        vstd::arithmetic::div_mod::lemma_small_mod(half as nat, m as nat);
        vstd::arithmetic::div_mod::lemma_mod_twice(c as int, m as int);
        vstd::arithmetic::div_mod::lemma_add_mod_noop(cm as int, half as int, m as int);
    }
    let x: i64 = cm as i64;
    wrap_i64(x, bw)
}

/// `a ÷ b` at `bw` bits, truncating, with its overflow flag.
fn divide(a: i64, b: i64, bw: u32) -> (r: (i64, bool))
    requires
        1 <= bw <= 31,
        in_range(a as int, bw as nat),
        in_range(b as int, bw as nat),
    ensures
        r.0 as int == div_value(a as int, b as int, bw as nat),
        r.1 == (b == 0 || (a == -pow2((bw - 1) as nat) && b == -1)),
        in_range(r.0 as int, bw as nat),
{
    let (_m, half) = powers(bw);
    let flag = b == 0 || (a == -half && b == -1);
    if b == 0 {
        let s: i64 = if a < 0 {
            1
        } else if a == 0 {
            0
        } else {
            -1
        };
        return (wrap_i64(s, bw), flag);
    }
    let ua: i64 = if a < 0 {
        -a
    } else {
        a
    };
    let ub: i64 = if b < 0 {
        -b
    } else {
        b
    };
    assert(ua as int == magnitude(a as int) && ub as int == magnitude(b as int));
    let q0: i64 = ua / ub;
    let q: i64 = if (a < 0) == (b < 0) {
        q0
    } else {
        -q0
    };
    assert(q as int == trunc_div(a as int, b as int));
    proof {
        vstd::arithmetic::div_mod::lemma_div_is_ordered_by_denominator(ua as int, 1, ub as int);
    }
    (wrap_i64(q, bw), flag)
}

/// `a mod b`, the remainder of truncating division (the dividend for a
/// zero divisor), with its overflow flag.
fn remainder(a: i64, b: i64, bw: u32) -> (r: (i64, bool))
    requires
        1 <= bw <= 31,
        in_range(a as int, bw as nat),
        in_range(b as int, bw as nat),
    ensures
        r.0 as int == rem_value(a as int, b as int),
        r.1 == (b == 0),
        in_range(r.0 as int, bw as nat),
{
    let (_m, _half) = powers(bw);
    if b == 0 {
        return (a, true);
    }
    let ua: i64 = if a < 0 {
        -a
    } else {
        a
    };
    let ub: i64 = if b < 0 {
        -b
    } else {
        b
    };
    assert(ua as int == magnitude(a as int) && ub as int == magnitude(b as int));
    let m0: i64 = ua % ub;
    proof {
        vstd::arithmetic::div_mod::lemma_mod_bound(ua as int, ub as int);
        vstd::arithmetic::div_mod::lemma_mod_is_mod_recursive(ua as int, ub as int);
    }
    let r: i64 = if a < 0 {
        -m0
    } else {
        m0
    };
    assert(r as int == trunc_rem(a as int, b as int));
    proof {
        vstd::arithmetic::div_mod::lemma_mod_decreases(ua as nat, ub as nat);
    }
    (r, false)
}

/// A binary integer operation on in-range operands at `bw` bits.
fn int_binop(op: IntBinOp, a: i64, b: i64, bw: u32) -> (r: Option<(i64, bool)>)
    requires
        1 <= bw <= 31,
        in_range(a as int, bw as nat),
        in_range(b as int, bw as nat),
    ensures
        r is Some <==> int_binop_spec(op, a as int, b as int, bw as nat) is Some,
        r matches Some(v) ==> int_binop_spec(op, a as int, b as int, bw as nat) == Some((v.0 as int, v.1)) && in_range(v.0 as int, bw as nat),
{
    let (_m, half) = powers(bw);
    let lo: i64 = -half;
    let hi: i64 = half - 1;
    proof {
        assert(-0x4000_0000 <= a <= 0x4000_0000 && -0x4000_0000 <= b <= 0x4000_0000);
        assert(-0x1000_0000_0000_0000 <= a * b <= 0x1000_0000_0000_0000) by (nonlinear_arith)
            requires
                -0x4000_0000 <= a <= 0x4000_0000,
                -0x4000_0000 <= b <= 0x4000_0000,
        ;
    }
    if let IntBinOp::Div = op {
        return Some(divide(a, b, bw));
    }
    if let IntBinOp::Rem = op {
        return Some(remainder(a, b, bw));
    }
    let x: i64 = match op {
        IntBinOp::Add => a + b,
        IntBinOp::Sub => a - b,
        IntBinOp::Mul => {
            assert(-0x1000_0000_0000_0000 <= a * b <= 0x1000_0000_0000_0000);
            a * b
        },
        _ => {
            return None;
        },
    };
    assert(-0x1000_0000_0000_0000 <= x <= 0x1000_0000_0000_0000);
    Some((wrap_i64(x, bw), x < lo || x > hi))
}

/// The `Int` atoms standing for `v`, as a unary set.
fn int_to_atom(v: i64, p: IntParams) -> (r: TupleSet)
    requires
        params_ok(p),
    ensures
        r.wf(),
        r.ar() == 1,
        r@ == int_atoms(v as int, p),
{
    let mut r = TupleSet::empty(1);
    let mut i: usize = p.int_start;
    let ghost lo = p.int_start as nat;
    while i < p.int_end
        invariant
            params_ok(p),
            lo == p.int_start as nat,
            p.int_start <= i || p.int_end <= p.int_start,
            r.wf(),
            r.ar() == 1,
            r@ == Set::new(
                |t: Seq<nat>|
                    t.len() == 1 && t[0] < i && int_atom_value(t[0], p.int_start as nat, p.int_end as nat, p.bitwidth as nat)
                        == Some(v as int),
            ),
        decreases p.int_end - i,
    {
        let a = AtomId::from_index(i);
        let ghost before = r@;
        match atom_int_value(a, p.int_start, p.int_end, p.bitwidth) {
            Some(x) => {
                if x == v {
                    let t = Tuple::new(vec![a]);
                    assert(t@ =~= seq![i as nat]);
                    r.insert(t);
                }
            },
            None => {},
        }
        i = i + 1;
        proof {
            let target = Set::new(
                |t: Seq<nat>|
                    t.len() == 1 && t[0] < i && int_atom_value(t[0], p.int_start as nat, p.int_end as nat, p.bitwidth as nat)
                        == Some(v as int),
            );
            assert forall|t: Seq<nat>| target.contains(t) implies r@.contains(t) by {
                if t[0] == i - 1 {
                    assert(t =~= seq![(i - 1) as nat]);
                } else {
                    assert(before.contains(t));
                }
            }
            assert(r@ =~= target);
        }
    }
    proof {
        let target = Set::new(
            |t: Seq<nat>|
                t.len() == 1 && t[0] < i && int_atom_value(t[0], p.int_start as nat, p.int_end as nat, p.bitwidth as nat)
                    == Some(v as int),
        );
        assert forall|t: Seq<nat>| int_atoms(v as int, p).contains(t) implies target.contains(t) by {}
        assert(r@ =~= int_atoms(v as int, p));
    }
    r
}

/// The tuples of a well-formed set, in its own order, are its sorted tuples.
proof fn lemma_sorted_of(m: TupleSet)
    requires
        m.wf(),
    ensures
        m.ordered() == sorted_of(m@),
{
    assert(lex_sorted(m.ordered()) && m.ordered().to_set() == m@);
    let q = sorted_of(m@);
    lemma_lex_sorted_unique(m.ordered(), q);
}

/// A running sum's value is in the signed range.
proof fn lemma_running_sum_range(vals: Seq<int>, w: nat)
    requires
        w >= 1,
    ensures
        in_range(running_sum(vals, w).0, w),
{
    vstd::arithmetic::power2::lemma_pow2_pos((w - 1) as nat);
    if vals.len() > 0 {
        crate::encode::terms::lemma_wrap_range(running_sum(vals.drop_last(), w).0 + vals.last(), w);
    }
}

/// A conjunction with an undefined part is undefined.
proof fn lemma_all_of_none(
    ir: Ir,
    rank: spec_fn(NodeRef) -> nat,
    inst: InstView,
    p: IntParams,
    env: Seq<Option<Seq<nat>>>,
    n: NodeRef,
    parts: Seq<FormulaId>,
    j: int,
)
    requires
        0 <= j < parts.len(),
        h_sub(ir, rank, inst, p, env, n, parts[j].index) is None,
    ensures
        all_of(ir, rank, inst, p, env, n, parts) is None,
        any_of(ir, rank, inst, p, env, n, parts) is None,
    decreases parts.len(),
{
    if j < parts.len() - 1 {
        assert(parts.drop_last()[j] == parts[j]);
        lemma_all_of_none(ir, rank, inst, p, env, n, parts.drop_last(), j);
    }
}

/// The view of an environment after rebinding one variable.
pub(crate) proof fn lemma_env_update(env: Seq<Option<Tuple>>, v: int, b: Option<Tuple>)
    requires
        0 <= v < env.len(),
    ensures
        env_view(env.update(v, b)) == env_view(env).update(
            v,
            match b {
                Some(t) => Some(t@),
                None => None,
            },
        ),
{
    assert(env_view(env.update(v, b)) =~= env_view(env).update(
        v,
        match b {
            Some(t) => Some(t@),
            None => None,
        },
    ));
}

/// A copy of one binding.
pub(crate) fn copy_binding(b: &Option<Tuple>) -> (r: Option<Tuple>)
    ensures
        match (r, *b) {
            (Some(x), Some(y)) => x@ == y@,
            (None, None) => true,
            _ => false,
        },
{
    match b {
        Some(t) => Some(t.duplicate()),
        None => None,
    }
}

/// The error for a construct this evaluator does not evaluate.
pub(crate) fn unsupported(span: Span) -> (e: TranslateError) {
    TranslateError::LoweringUnsupported { what: String::from_str("a construct outside the evaluated fragment"), span }
}

/// Whether a binary relational operator applies to operands of arities
/// `a` and `b`.
fn binary_defined(op: crate::ir::RelBinOp, a: usize, b: usize) -> (r: bool)
    ensures
        r == rel_binary_defined(op, a as nat, b as nat),
{
    match op {
        crate::ir::RelBinOp::Union | crate::ir::RelBinOp::Intersect | crate::ir::RelBinOp::Diff | crate::ir::RelBinOp::Override => a == b,
        crate::ir::RelBinOp::Join => a <= usize::MAX - b && a + b >= 3,
        crate::ir::RelBinOp::Product => a <= usize::MAX - b,
    }
}

/// What every step of the walk needs: a ranked IR, a well-formed instance,
/// integer parameters it handles.
pub open spec fn walk_ok(ir: Ir, inst: Instance, p: IntParams) -> bool {
    ranked(ir, the_rank(ir)) && inst.wf() && params_ok(p)
}

#[verifier::rlimit(40)]
fn eval_formula_r(ir: &Ir, inst: &Instance, p: IntParams, env: &mut Vec<Option<Tuple>>, f: FormulaId) -> (r: Result<
    bool,
    TranslateError,
>)
    requires
        walk_ok(*ir, *inst, p),
        f.index < ir.formulas@.len(),
    ensures
        env_view(final(env)@) == env_view(old(env)@),
        r is Ok <==> holds(*ir, inst.view(), p, env_view(old(env)@), f.index) is Some,
        r matches Ok(b) ==> holds(*ir, inst.view(), p, env_view(old(env)@), f.index) == Some(b),
    decreases the_rank(*ir)(NodeRef::Formula(f.index)), 1nat, 0nat,
{
    let ghost rank = the_rank(*ir);
    let ghost e0 = env_view(env@);
    let ghost n = NodeRef::Formula(f.index);
    let node = &ir.formulas[f.index];
    proof {
        assert(node_valid(*ir, n));
    }
    match &node.kind {
        FormulaKind::Const(b) => Ok(*b),
        FormulaKind::Not(g) => {
            proof {
                assert(children(*ir, n)[0] == NodeRef::Formula(g.index));
            }
            let v = eval_formula_r(ir, inst, p, env, *g)?;
            Ok(!v)
        },
        FormulaKind::And(parts) => eval_parts(ir, inst, p, env, f, parts, true),
        FormulaKind::Or(parts) => eval_parts(ir, inst, p, env, f, parts, false),
        FormulaKind::Implies { antecedent, consequent } => {
            proof {
                assert(children(*ir, n)[0] == NodeRef::Formula(antecedent.index));
                assert(children(*ir, n)[1] == NodeRef::Formula(consequent.index));
            }
            let a = eval_formula_r(ir, inst, p, env, *antecedent)?;
            let c = eval_formula_r(ir, inst, p, env, *consequent)?;
            Ok(!a || c)
        },
        FormulaKind::Iff(l, r) => {
            proof {
                assert(children(*ir, n)[0] == NodeRef::Formula(l.index));
                assert(children(*ir, n)[1] == NodeRef::Formula(r.index));
            }
            let a = eval_formula_r(ir, inst, p, env, *l)?;
            let b = eval_formula_r(ir, inst, p, env, *r)?;
            Ok(a == b)
        },
        FormulaKind::RelCompare { op, lhs, rhs } => {
            proof {
                assert(children(*ir, n)[0] == NodeRef::Rel(lhs.index));
                assert(children(*ir, n)[1] == NodeRef::Rel(rhs.index));
            }
            let a = eval_rel_r(ir, inst, p, env, *lhs)?;
            let b = eval_rel_r(ir, inst, p, env, *rhs)?;
            let v = compare_tuple_sets(*op, &a, &b);
            Ok(v)
        },
        FormulaKind::IntCompare { op, lhs, rhs } => {
            proof {
                assert(children(*ir, n)[0] == NodeRef::Int(lhs.index));
                assert(children(*ir, n)[1] == NodeRef::Int(rhs.index));
            }
            let a = eval_int_r(ir, inst, p, env, *lhs)?;
            let b = eval_int_r(ir, inst, p, env, *rhs)?;
            Ok(compare_values(*op, a.0, b.0))
        },
        FormulaKind::MultTest { test, expr } => {
            proof {
                assert(children(*ir, n)[0] == NodeRef::Rel(expr.index));
            }
            let m = eval_rel_r(ir, inst, p, env, *expr)?;
            let c = m.len();
            Ok(
                match test {
                    MultTest::No => c == 0,
                    MultTest::Nonempty => c != 0,
                    MultTest::Lone => c <= 1,
                    MultTest::One => c == 1,
                },
            )
        },
        FormulaKind::Quant { kind, var, bound, body } => {
            proof {
                assert(children(*ir, n)[0] == NodeRef::Rel(bound.index));
                assert(children(*ir, n)[1] == NodeRef::Formula(body.index));
            }
            eval_quant(ir, inst, p, env, f, *kind, *var, *bound, *body, node.span)
        },
        FormulaKind::TemporalUnary { .. } | FormulaKind::TemporalBinary { .. } => Err(
            TranslateError::TemporalUnsupported { op: "a temporal connective has no value in one instance", span: node.span },
        ),
    }
}

/// A conjunction (`is_and`) or disjunction of `parts`, the operands of `f`.
fn eval_parts(
    ir: &Ir,
    inst: &Instance,
    p: IntParams,
    env: &mut Vec<Option<Tuple>>,
    f: FormulaId,
    parts: &Vec<FormulaId>,
    is_and: bool,
) -> (r: Result<bool, TranslateError>)
    requires
        walk_ok(*ir, *inst, p),
        f.index < ir.formulas@.len(),
        is_and ==> ir.formulas@[f.index as int].kind == FormulaKind::And(*parts),
        !is_and ==> ir.formulas@[f.index as int].kind == FormulaKind::Or(*parts),
    ensures
        env_view(final(env)@) == env_view(old(env)@),
        r is Ok <==> holds(*ir, inst.view(), p, env_view(old(env)@), f.index) is Some,
        r matches Ok(b) ==> holds(*ir, inst.view(), p, env_view(old(env)@), f.index) == Some(b),
    decreases the_rank(*ir)(NodeRef::Formula(f.index)), 0nat, 0nat,
{
    let ghost rank = the_rank(*ir);
    let ghost e0 = env_view(env@);
    let ghost n = NodeRef::Formula(f.index);
    proof {
        assert(node_valid(*ir, n));
        assert forall|k: int| 0 <= k < parts@.len() implies rank(NodeRef::Formula((#[trigger] parts@[k]).index)) < rank(n)
            && parts@[k].index < ir.formulas@.len() by {
            assert(children(*ir, n)[k] == NodeRef::Formula(parts@[k].index));
        }
        assert(parts@.take(0) =~= Seq::<FormulaId>::empty());
        if is_and {
            assert(holds(*ir, inst.view(), p, e0, f.index) == all_of(*ir, rank, inst.view(), p, e0, n, parts@));
        } else {
            assert(holds(*ir, inst.view(), p, e0, f.index) == any_of(*ir, rank, inst.view(), p, e0, n, parts@));
        }
    }
    let mut acc = is_and;
    let mut i: usize = 0;
    while i < parts.len()
        invariant
            walk_ok(*ir, *inst, p),
            rank == the_rank(*ir),
            n == NodeRef::Formula(f.index),
            e0 == env_view(old(env)@),
            i <= parts@.len(),
            env_view(env@) == e0,
            forall|k: int| 0 <= k < parts@.len() ==> rank(NodeRef::Formula((#[trigger] parts@[k]).index)) < rank(n)
                && parts@[k].index < ir.formulas@.len(),
            is_and ==> all_of(*ir, rank, inst.view(), p, e0, n, parts@.take(i as int)) == Some(acc),
            is_and ==> holds(*ir, inst.view(), p, e0, f.index) == all_of(*ir, rank, inst.view(), p, e0, n, parts@),
            !is_and ==> holds(*ir, inst.view(), p, e0, f.index) == any_of(*ir, rank, inst.view(), p, e0, n, parts@),
            !is_and ==> any_of(*ir, rank, inst.view(), p, e0, n, parts@.take(i as int)) == Some(acc),
        decreases parts@.len() - i,
    {
        let r = eval_formula_r(ir, inst, p, env, parts[i]);
        proof {
            assert(parts@.take(i + 1).drop_last() =~= parts@.take(i as int));
            assert(parts@.take(i + 1).last() == parts@[i as int]);
            assert(h_sub(*ir, rank, inst.view(), p, e0, n, parts@[i as int].index) == holds(*ir, inst.view(), p, e0, parts@[i as int].index));
        }
        match r {
            Err(e) => {
                proof {
                    lemma_all_of_none(*ir, rank, inst.view(), p, e0, n, parts@, i as int);
                }
                return Err(e);
            },
            Ok(b) => {
                acc = if is_and {
                    acc && b
                } else {
                    acc || b
                };
            },
        }
        i = i + 1;
    }
    proof {
        assert(parts@.take(i as int) =~= parts@);
    }
    Ok(acc)
}

/// The bindings of a list with an undefined binding are undefined.
proof fn lemma_bindings_none(
    ir: Ir,
    rank: spec_fn(NodeRef) -> nat,
    inst: InstView,
    p: IntParams,
    env: Seq<Option<Seq<nat>>>,
    n: NodeRef,
    v: usize,
    body: usize,
    ts: Seq<Seq<nat>>,
    is_all: bool,
    j: int,
)
    requires
        0 <= j < ts.len(),
        h_sub(ir, rank, inst, p, env.update(v as int, Some(ts[j])), n, body) is None,
    ensures
        bindings(ir, rank, inst, p, env, n, v, body, ts, is_all) is None,
    decreases ts.len(),
{
    if j < ts.len() - 1 {
        assert(ts.drop_last()[j] == ts[j]);
        lemma_bindings_none(ir, rank, inst, p, env, n, v, body, ts.drop_last(), is_all, j);
    }
}

/// The sum over a list with an undefined binding is undefined.
proof fn lemma_sum_none(
    ir: Ir,
    rank: spec_fn(NodeRef) -> nat,
    inst: InstView,
    p: IntParams,
    env: Seq<Option<Seq<nat>>>,
    n: NodeRef,
    v: usize,
    body: usize,
    ts: Seq<Seq<nat>>,
    j: int,
)
    requires
        0 <= j < ts.len(),
        i_sub(ir, rank, inst, p, env.update(v as int, Some(ts[j])), n, body) is None,
    ensures
        sum_bindings(ir, rank, inst, p, env, n, v, body, ts) is None,
    decreases ts.len(),
{
    if j < ts.len() - 1 {
        assert(ts.drop_last()[j] == ts[j]);
        lemma_sum_none(ir, rank, inst, p, env, n, v, body, ts.drop_last(), j);
    }
}

/// A relational comparison of two concrete sets.
fn compare_tuple_sets(op: RelCmpOp, a: &TupleSet, b: &TupleSet) -> (r: bool)
    requires
        a.wf(),
        b.wf(),
    ensures
        r == compare_sets(op, (a.ar(), a@), (b.ar(), b@)),
{
    match op {
        RelCmpOp::Subset => a.is_subset_of(b),
        RelCmpOp::Equal => {
            if a.arity() != b.arity() {
                return false;
            }
            let ab = a.is_subset_of(b);
            let ba = b.is_subset_of(a);
            if ab && ba {
                assert(a@ =~= b@);
            }
            ab && ba
        },
    }
}

/// An integer comparison of two concrete values.
fn compare_values(op: IntCmpOp, a: i64, b: i64) -> (r: bool)
    ensures
        r == compare_ints(op, a as int, b as int),
{
    match op {
        IntCmpOp::Eq => a == b,
        IntCmpOp::Lt => a < b,
        IntCmpOp::Le => a <= b,
        IntCmpOp::Gt => a > b,
        IntCmpOp::Ge => a >= b,
    }
}

fn eval_quant(
    ir: &Ir,
    inst: &Instance,
    p: IntParams,
    env: &mut Vec<Option<Tuple>>,
    f: FormulaId,
    kind: QuantKind,
    var: crate::ir::VarId,
    bound: RelExprId,
    body: FormulaId,
    span: Span,
) -> (r: Result<bool, TranslateError>)
    requires
        walk_ok(*ir, *inst, p),
        f.index < ir.formulas@.len(),
        ir.formulas@[f.index as int].kind == (FormulaKind::Quant { kind, var, bound, body }),
        bound.index < ir.rel_exprs@.len(),
        body.index < ir.formulas@.len(),
        the_rank(*ir)(NodeRef::Rel(bound.index)) < the_rank(*ir)(NodeRef::Formula(f.index)),
        the_rank(*ir)(NodeRef::Formula(body.index)) < the_rank(*ir)(NodeRef::Formula(f.index)),
    ensures
        env_view(final(env)@) == env_view(old(env)@),
        r is Ok <==> holds(*ir, inst.view(), p, env_view(old(env)@), f.index) is Some,
        r matches Ok(b) ==> holds(*ir, inst.view(), p, env_view(old(env)@), f.index) == Some(b),
    decreases the_rank(*ir)(NodeRef::Formula(f.index)), 0nat, 0nat,
{
    let ghost rank = the_rank(*ir);
    let ghost e0 = env_view(env@);
    let ghost n = NodeRef::Formula(f.index);
    proof {
        assert(holds(*ir, inst.view(), p, e0, f.index) == quant_r(*ir, rank, inst.view(), p, e0, n, kind, var.index, bound.index, body.index));
        assert(d_sub(*ir, rank, inst.view(), p, e0, n, bound.index) == denote(*ir, inst.view(), p, e0, bound.index));
    }
    let bm = match eval_rel_r(ir, inst, p, env, bound) {
        Ok(bm) => bm,
        Err(e) => {
            return Err(e);
        },
    };
    let vi = var.index;
    if vi >= env.len() {
        return Err(unsupported(span));
    }
    let is_all = match kind {
        QuantKind::All => true,
        QuantKind::Exists => false,
    };
    let ts = bm.iter();
    let ghost ord = bm.ordered();
    proof {
        lemma_sorted_of(bm);
        assert(e0.len() == env@.len());
        assert(holds(*ir, inst.view(), p, e0, f.index) == bindings(*ir, rank, inst.view(), p, e0, n, vi, body.index, ord, is_all));
        assert(ord.take(0) =~= Seq::<Seq<nat>>::empty());
    }
    let mut acc = is_all;
    let mut i: usize = 0;
    while i < ts.len()
        invariant
            walk_ok(*ir, *inst, p),
            rank == the_rank(*ir),
            n == NodeRef::Formula(f.index),
            e0 == env_view(old(env)@),
            holds(*ir, inst.view(), p, e0, f.index) == bindings(*ir, rank, inst.view(), p, e0, n, vi, body.index, ord, is_all),
            body.index < ir.formulas@.len(),
            rank(NodeRef::Formula(body.index)) < rank(n),
            vi < env@.len(),
            env_view(env@) == e0,
            crate::bounds::tuple_views(ts@) == ord,
            i <= ts@.len(),
            bindings(*ir, rank, inst.view(), p, e0, n, vi, body.index, ord.take(i as int), is_all) == Some(acc),
        decreases ts@.len() - i,
    {
        let prev = copy_binding(&env[vi]);
        let ghost e_before = env@;
        let t = ts[i].duplicate();
        proof {
            assert(ord[i as int] == ts@[i as int]@);
        }
        env.set(vi, Some(t));
        proof {
            lemma_env_update(e_before, vi as int, Some(t));
            assert(env_view(env@) == e0.update(vi as int, Some(ord[i as int])));
        }
        let r = eval_formula_r(ir, inst, p, env, body);
        let ghost e_after = env@;
        env.set(vi, prev);
        proof {
            lemma_env_update(e_after, vi as int, prev);
            assert(env_view(e_before)[vi as int] == e0[vi as int]);
            assert(env_view(env@) =~= e0);
            assert(h_sub(*ir, rank, inst.view(), p, e0.update(vi as int, Some(ord[i as int])), n, body.index) == holds(
                *ir,
                inst.view(),
                p,
                e0.update(vi as int, Some(ord[i as int])),
                body.index,
            ));
            assert(ord.take(i + 1).drop_last() =~= ord.take(i as int));
            assert(ord.take(i + 1).last() == ord[i as int]);
        }
        match r {
            Err(e) => {
                proof {
                    lemma_bindings_none(*ir, rank, inst.view(), p, e0, n, vi, body.index, ord, is_all, i as int);
                }
                return Err(e);
            },
            Ok(b) => {
                acc = if is_all {
                    acc && b
                } else {
                    acc || b
                };
            },
        }
        i = i + 1;
    }
    proof {
        assert(ord.take(i as int) =~= ord);
    }
    Ok(acc)
}

fn eval_rel_r(ir: &Ir, inst: &Instance, p: IntParams, env: &mut Vec<Option<Tuple>>, r: RelExprId) -> (res: Result<
    TupleSet,
    TranslateError,
>)
    requires
        walk_ok(*ir, *inst, p),
        r.index < ir.rel_exprs@.len(),
    ensures
        env_view(final(env)@) == env_view(old(env)@),
        res is Ok <==> denote(*ir, inst.view(), p, env_view(old(env)@), r.index) is Some,
        res matches Ok(t) ==> t.wf() && denote(*ir, inst.view(), p, env_view(old(env)@), r.index) == Some((t.ar(), t@)),
    decreases the_rank(*ir)(NodeRef::Rel(r.index)), 1nat, 0nat,
{
    let ghost rank = the_rank(*ir);
    let ghost n = NodeRef::Rel(r.index);
    let node = &ir.rel_exprs[r.index];
    proof {
        assert(node_valid(*ir, n));
    }
    match &node.kind {
        RelExprKind::Relation(rel) => {
            let k = rel.index;
            if k < inst.relations.len() {
                if let Some(ts) = &inst.relations[k] {
                    return Ok(ts.duplicate());
                }
            }
            if k < ir.relations.len() && ir.relations[k].arity >= 1 {
                Ok(TupleSet::empty(ir.relations[k].arity))
            } else {
                Err(unsupported(node.span))
            }
        },
        RelExprKind::Var(v) => {
            let k = v.index;
            if k < ir.vars.len() && ir.vars[k].arity >= 1 && k < env.len() {
                let a = ir.vars[k].arity;
                match &env[k] {
                    Some(t) => {
                        if t.arity() == a {
                            Ok(var_value(a, Some(t)))
                        } else {
                            Err(unsupported(node.span))
                        }
                    },
                    None => Ok(var_value(a, None)),
                }
            } else {
                Err(unsupported(node.span))
            }
        },
        RelExprKind::Const(c) => Ok(const_value(*c, inst.universe_len)),
        RelExprKind::Binary { op, lhs, rhs } => {
            proof {
                assert(children(*ir, n)[0] == NodeRef::Rel(lhs.index));
                assert(children(*ir, n)[1] == NodeRef::Rel(rhs.index));
            }
            let a = eval_rel_r(ir, inst, p, env, *lhs)?;
            let b = eval_rel_r(ir, inst, p, env, *rhs)?;
            if binary_defined(*op, a.arity(), b.arity()) {
                Ok(rel_binary(*op, &a, &b))
            } else {
                Err(unsupported(node.span))
            }
        },
        RelExprKind::Unary { op, expr } => {
            proof {
                assert(children(*ir, n)[0] == NodeRef::Rel(expr.index));
            }
            let a = eval_rel_r(ir, inst, p, env, *expr)?;
            if a.arity() == 2 {
                Ok(rel_unary(*op, &a, inst.universe_len))
            } else {
                Err(unsupported(node.span))
            }
        },
        RelExprKind::Prime(_) => Err(
            TranslateError::TemporalUnsupported { op: "a primed expression has no value in one instance", span: node.span },
        ),
        RelExprKind::IfThenElse { cond, then_branch, else_branch } => {
            proof {
                assert(children(*ir, n)[0] == NodeRef::Formula(cond.index));
                assert(children(*ir, n)[1] == NodeRef::Rel(then_branch.index));
                assert(children(*ir, n)[2] == NodeRef::Rel(else_branch.index));
            }
            if eval_formula_r(ir, inst, p, env, *cond)? {
                eval_rel_r(ir, inst, p, env, *then_branch)
            } else {
                eval_rel_r(ir, inst, p, env, *else_branch)
            }
        },
        RelExprKind::Comprehension { decls, body } => {
            proof {
                assert forall|k: int| 0 <= k < decls@.len() implies rank(NodeRef::Rel((#[trigger] decls@[k]).bound.index)) < rank(n)
                    && decls@[k].bound.index < ir.rel_exprs@.len() by {
                    assert(children(*ir, n)[k] == NodeRef::Rel(decls@[k].bound.index));
                }
                assert(children(*ir, n)[decls@.len() as int] == NodeRef::Formula(body.index));
            }
            let a = match comp_arity_of(ir, decls) {
                Some(a) => a,
                None => {
                    return Err(unsupported(node.span));
                },
            };
            let ar: usize = if a == 0 {
                1
            } else {
                a
            };
            let prefix: Vec<AtomId> = Vec::new();
            assert(crate::bounds::atom_indices(prefix@) =~= Seq::<nat>::empty());
            eval_comp(ir, inst, p, env, r, decls, *body, ar, &prefix, 0, node.span)
        },
        RelExprKind::IntToAtom(ie) => {
            proof {
                assert(children(*ir, n)[0] == NodeRef::Int(ie.index));
            }
            let v = eval_int_r(ir, inst, p, env, *ie)?;
            Ok(int_to_atom(v.0, p))
        },
    }
}

fn eval_int_r(ir: &Ir, inst: &Instance, p: IntParams, env: &mut Vec<Option<Tuple>>, i: IntExprId) -> (res: Result<
    (i64, bool),
    TranslateError,
>)
    requires
        walk_ok(*ir, *inst, p),
        i.index < ir.int_exprs@.len(),
    ensures
        env_view(final(env)@) == env_view(old(env)@),
        res is Ok <==> int_value(*ir, inst.view(), p, env_view(old(env)@), i.index) is Some,
        res matches Ok(v) ==> int_value(*ir, inst.view(), p, env_view(old(env)@), i.index) == Some((v.0 as int, v.1)) && in_range(
            v.0 as int,
            p.bitwidth as nat,
        ),
    decreases the_rank(*ir)(NodeRef::Int(i.index)), 1nat, 0nat,
{
    let ghost rank = the_rank(*ir);
    let ghost n = NodeRef::Int(i.index);
    let bw = p.bitwidth;
    let node = &ir.int_exprs[i.index];
    proof {
        assert(node_valid(*ir, n));
    }
    let (_m, half) = powers(bw);
    match &node.kind {
        IntExprKind::Const(v) => {
            let x: i64 = *v as i64;
            Ok((wrap_i64(x, bw), x < -half || x >= half))
        },
        IntExprKind::Card(rel) => {
            proof {
                assert(children(*ir, n)[0] == NodeRef::Rel(rel.index));
            }
            let m = eval_rel_r(ir, inst, p, env, *rel)?;
            let c = m.len();
            Ok((wrap_count(c, bw), c >= half as usize))
        },
        IntExprKind::AtomToInt(rel) => {
            proof {
                assert(children(*ir, n)[0] == NodeRef::Rel(rel.index));
            }
            let m = eval_rel_r(ir, inst, p, env, *rel)?;
            proof {
                lemma_sorted_of(m);
                lemma_running_sum_range(atom_values(m.ordered(), p.int_start as nat, p.int_end as nat, bw as nat), bw as nat);
            }
            Ok(atom_to_int_value(&m, p.int_start, p.int_end, bw))
        },
        IntExprKind::Neg(e) => {
            proof {
                assert(children(*ir, n)[0] == NodeRef::Int(e.index));
            }
            let a = eval_int_r(ir, inst, p, env, *e)?;
            let x: i64 = -a.0;
            Ok((wrap_i64(x, bw), a.1 || x >= half))
        },
        IntExprKind::Binary { op, lhs, rhs } => {
            proof {
                assert(children(*ir, n)[0] == NodeRef::Int(lhs.index));
                assert(children(*ir, n)[1] == NodeRef::Int(rhs.index));
            }
            let a = eval_int_r(ir, inst, p, env, *lhs)?;
            let b = eval_int_r(ir, inst, p, env, *rhs)?;
            match int_binop(*op, a.0, b.0, bw) {
                Some(v) => Ok((v.0, a.1 || b.1 || v.1)),
                None => Err(unsupported(node.span)),
            }
        },
        IntExprKind::Sum { var, bound, body } => {
            proof {
                assert(children(*ir, n)[0] == NodeRef::Rel(bound.index));
                assert(children(*ir, n)[1] == NodeRef::Int(body.index));
            }
            eval_sum(ir, inst, p, env, i, *var, *bound, *body, node.span)
        },
        IntExprKind::IfThenElse { cond, then_branch, else_branch } => {
            proof {
                assert(children(*ir, n)[0] == NodeRef::Formula(cond.index));
                assert(children(*ir, n)[1] == NodeRef::Int(then_branch.index));
                assert(children(*ir, n)[2] == NodeRef::Int(else_branch.index));
            }
            if eval_formula_r(ir, inst, p, env, *cond)? {
                eval_int_r(ir, inst, p, env, *then_branch)
            } else {
                eval_int_r(ir, inst, p, env, *else_branch)
            }
        },
    }
}

fn eval_sum(
    ir: &Ir,
    inst: &Instance,
    p: IntParams,
    env: &mut Vec<Option<Tuple>>,
    i: IntExprId,
    var: crate::ir::VarId,
    bound: RelExprId,
    body: IntExprId,
    span: Span,
) -> (res: Result<(i64, bool), TranslateError>)
    requires
        walk_ok(*ir, *inst, p),
        i.index < ir.int_exprs@.len(),
        ir.int_exprs@[i.index as int].kind == (IntExprKind::Sum { var, bound, body }),
        bound.index < ir.rel_exprs@.len(),
        body.index < ir.int_exprs@.len(),
        the_rank(*ir)(NodeRef::Rel(bound.index)) < the_rank(*ir)(NodeRef::Int(i.index)),
        the_rank(*ir)(NodeRef::Int(body.index)) < the_rank(*ir)(NodeRef::Int(i.index)),
    ensures
        env_view(final(env)@) == env_view(old(env)@),
        res is Ok <==> int_value(*ir, inst.view(), p, env_view(old(env)@), i.index) is Some,
        res matches Ok(v) ==> int_value(*ir, inst.view(), p, env_view(old(env)@), i.index) == Some((v.0 as int, v.1)) && in_range(
            v.0 as int,
            p.bitwidth as nat,
        ),
    decreases the_rank(*ir)(NodeRef::Int(i.index)), 0nat, 0nat,
{
    let ghost rank = the_rank(*ir);
    let ghost e0 = env_view(env@);
    let ghost n = NodeRef::Int(i.index);
    proof {
        assert(d_sub(*ir, rank, inst.view(), p, e0, n, bound.index) == denote(*ir, inst.view(), p, e0, bound.index));
    }
    let bm = match eval_rel_r(ir, inst, p, env, bound) {
        Ok(bm) => bm,
        Err(e) => {
            return Err(e);
        },
    };
    let vi = var.index;
    if vi >= env.len() {
        return Err(unsupported(span));
    }
    let ts = bm.iter();
    let ghost ord = bm.ordered();
    proof {
        lemma_sorted_of(bm);
        assert(e0.len() == env@.len());
        assert(int_value(*ir, inst.view(), p, e0, i.index) == sum_bindings(*ir, rank, inst.view(), p, e0, n, vi, body.index, ord));
        assert(ord.take(0) =~= Seq::<Seq<nat>>::empty());
        vstd::arithmetic::power2::lemma_pow2_pos((p.bitwidth - 1) as nat);
    }
    let mut acc: i64 = 0;
    let mut of = false;
    let mut k: usize = 0;
    while k < ts.len()
        invariant
            walk_ok(*ir, *inst, p),
            rank == the_rank(*ir),
            n == NodeRef::Int(i.index),
            e0 == env_view(old(env)@),
            int_value(*ir, inst.view(), p, e0, i.index) == sum_bindings(*ir, rank, inst.view(), p, e0, n, vi, body.index, ord),
            body.index < ir.int_exprs@.len(),
            rank(NodeRef::Int(body.index)) < rank(n),
            vi < env@.len(),
            env_view(env@) == e0,
            crate::bounds::tuple_views(ts@) == ord,
            k <= ts@.len(),
            sum_bindings(*ir, rank, inst.view(), p, e0, n, vi, body.index, ord.take(k as int)) == Some((acc as int, of)),
            in_range(acc as int, p.bitwidth as nat),
        decreases ts@.len() - k,
    {
        let prev = copy_binding(&env[vi]);
        let ghost e_before = env@;
        let t = ts[k].duplicate();
        proof {
            assert(ord[k as int] == ts@[k as int]@);
        }
        env.set(vi, Some(t));
        proof {
            lemma_env_update(e_before, vi as int, Some(t));
            assert(env_view(env@) == e0.update(vi as int, Some(ord[k as int])));
        }
        let r = eval_int_r(ir, inst, p, env, body);
        let ghost e_after = env@;
        env.set(vi, prev);
        proof {
            lemma_env_update(e_after, vi as int, prev);
            assert(env_view(e_before)[vi as int] == e0[vi as int]);
            assert(env_view(env@) =~= e0);
            assert(i_sub(*ir, rank, inst.view(), p, e0.update(vi as int, Some(ord[k as int])), n, body.index) == int_value(
                *ir,
                inst.view(),
                p,
                e0.update(vi as int, Some(ord[k as int])),
                body.index,
            ));
            assert(ord.take(k + 1).drop_last() =~= ord.take(k as int));
            assert(ord.take(k + 1).last() == ord[k as int]);
        }
        match r {
            Err(e) => {
                proof {
                    lemma_sum_none(*ir, rank, inst.view(), p, e0, n, vi, body.index, ord, k as int);
                }
                return Err(e);
            },
            Ok(b) => {
                let step = int_binop(IntBinOp::Add, acc, b.0, p.bitwidth);
                match step {
                    Some(st) => {
                        acc = st.0;
                        of = of || b.1 || st.1;
                    },
                    None => {
                        return Err(unsupported(span));
                    },
                }
            },
        }
        k = k + 1;
    }
    proof {
        assert(ord.take(k as int) =~= ord);
    }
    Ok((acc, of))
}

/// The atoms of `prefix` followed by those of `t`.
fn extend_atoms(prefix: &Vec<AtomId>, t: &[AtomId]) -> (r: Vec<AtomId>)
    ensures
        crate::bounds::atom_indices(r@) == crate::bounds::atom_indices(prefix@) + crate::bounds::atom_indices(t@),
{
    let mut r: Vec<AtomId> = Vec::new();
    let mut k: usize = 0;
    while k < prefix.len()
        invariant
            k <= prefix@.len(),
            r@ == prefix@.take(k as int),
        decreases prefix@.len() - k,
    {
        r.push(prefix[k]);
        k = k + 1;
        assert(r@ =~= prefix@.take(k as int));
    }
    let mut j: usize = 0;
    while j < t.len()
        invariant
            j <= t@.len(),
            r@ == prefix@ + t@.take(j as int),
        decreases t@.len() - j,
    {
        r.push(t[j]);
        j = j + 1;
        assert(r@ =~= prefix@ + t@.take(j as int));
    }
    assert(t@.take(j as int) =~= t@);
    assert(crate::bounds::atom_indices(r@) =~= crate::bounds::atom_indices(prefix@) + crate::bounds::atom_indices(t@));
    r
}

/// The arity of a comprehension's tuples, when every variable is known
/// and the sum fits.
pub(crate) fn comp_arity_of(ir: &Ir, decls: &Vec<CompDecl>) -> (r: Option<usize>)
    ensures
        r matches Some(a) ==> comp_arity(*ir, decls@) == Some(a as nat),
        r is None ==> comp_arity(*ir, decls@) is None || comp_arity(*ir, decls@)->0 > usize::MAX,
{
    let mut acc: usize = 0;
    let mut k: usize = 0;
    assert(decls@.take(0) =~= Seq::<CompDecl>::empty());
    while k < decls.len()
        invariant
            k <= decls@.len(),
            comp_arity(*ir, decls@.take(k as int)) == Some(acc as nat),
        decreases decls@.len() - k,
    {
        let v = decls[k].var.index;
        proof {
            assert(decls@.take(k + 1).drop_last() =~= decls@.take(k as int));
            assert(decls@.take(k + 1).last() == decls@[k as int]);
        }
        if v >= ir.vars.len() {
            proof {
                lemma_comp_arity_prefix(*ir, decls@, k + 1);
            }
            return None;
        }
        let a = ir.vars[v].arity;
        if acc > usize::MAX - a {
            proof {
                lemma_comp_arity_prefix(*ir, decls@, k + 1);
            }
            return None;
        }
        acc = acc + a;
        k = k + 1;
    }
    assert(decls@.take(k as int) =~= decls@);
    Some(acc)
}

/// A comprehension's arity is at least that of each prefix of its
/// bindings, and unknown where a prefix's is.
proof fn lemma_comp_arity_prefix(ir: Ir, decls: Seq<CompDecl>, k: int)
    requires
        0 <= k <= decls.len(),
    ensures
        comp_arity(ir, decls.take(k)) is None ==> comp_arity(ir, decls) is None,
        comp_arity(ir, decls.take(k)) is Some && comp_arity(ir, decls) is Some ==> comp_arity(ir, decls.take(k))->0 <= comp_arity(
            ir,
            decls,
        )->0,
    decreases decls.len(),
{
    if k < decls.len() {
        assert(decls.drop_last().take(k) =~= decls.take(k));
        lemma_comp_arity_prefix(ir, decls.drop_last(), k);
    } else {
        assert(decls.take(k) =~= decls);
    }
}

/// A comprehension over a list with an undefined branch is undefined.
proof fn lemma_comp_list_none(
    ir: Ir,
    rank: spec_fn(NodeRef) -> nat,
    inst: InstView,
    p: IntParams,
    env: Seq<Option<Seq<nat>>>,
    n: NodeRef,
    decls: Seq<CompDecl>,
    body: usize,
    ar: nat,
    prefix: Seq<nat>,
    i: nat,
    ts: Seq<Seq<nat>>,
    j: int,
)
    requires
        i < decls.len(),
        0 <= j < ts.len(),
        comp_from(ir, rank, inst, p, env.update(decls[i as int].var.index as int, Some(ts[j])), n, decls, body, ar, prefix + ts[j], i + 1) is None,
    ensures
        comp_list(ir, rank, inst, p, env, n, decls, body, ar, prefix, i, ts) is None,
    decreases ts.len(),
{
    if j < ts.len() - 1 {
        assert(ts.drop_last()[j] == ts[j]);
        lemma_comp_list_none(ir, rank, inst, p, env, n, decls, body, ar, prefix, i, ts.drop_last(), j);
    }
}

fn eval_comp(
    ir: &Ir,
    inst: &Instance,
    p: IntParams,
    env: &mut Vec<Option<Tuple>>,
    r: RelExprId,
    decls: &Vec<CompDecl>,
    body: FormulaId,
    ar: usize,
    prefix: &Vec<AtomId>,
    i: usize,
    span: Span,
) -> (res: Result<TupleSet, TranslateError>)
    requires
        walk_ok(*ir, *inst, p),
        r.index < ir.rel_exprs@.len(),
        1 <= ar,
        i <= decls@.len(),
        forall|k: int|
            0 <= k < decls@.len() ==> the_rank(*ir)(NodeRef::Rel((#[trigger] decls@[k]).bound.index)) < the_rank(*ir)(
                NodeRef::Rel(r.index),
            ) && decls@[k].bound.index < ir.rel_exprs@.len(),
        the_rank(*ir)(NodeRef::Formula(body.index)) < the_rank(*ir)(NodeRef::Rel(r.index)),
        body.index < ir.formulas@.len(),
    ensures
        env_view(final(env)@) == env_view(old(env)@),
        res is Ok <==> comp_from(
            *ir,
            the_rank(*ir),
            inst.view(),
            p,
            env_view(old(env)@),
            NodeRef::Rel(r.index),
            decls@,
            body.index,
            ar as nat,
            crate::bounds::atom_indices(prefix@),
            i as nat,
        ) is Some,
        res matches Ok(t) ==> t.wf() && t.ar() == ar && Some(t@) == comp_from(
            *ir,
            the_rank(*ir),
            inst.view(),
            p,
            env_view(old(env)@),
            NodeRef::Rel(r.index),
            decls@,
            body.index,
            ar as nat,
            crate::bounds::atom_indices(prefix@),
            i as nat,
        ),
    decreases the_rank(*ir)(NodeRef::Rel(r.index)), 0nat, decls@.len() - i,
{
    let ghost rank = the_rank(*ir);
    let ghost e0 = env_view(env@);
    let ghost n = NodeRef::Rel(r.index);
    let ghost pv = crate::bounds::atom_indices(prefix@);
    if i == decls.len() {
        proof {
            assert(h_sub(*ir, rank, inst.view(), p, e0, n, body.index) == holds(*ir, inst.view(), p, e0, body.index));
        }
        let hb = match eval_formula_r(ir, inst, p, env, body) {
            Ok(b) => b,
            Err(e) => {
                return Err(e);
            },
        };
        if hb {
            if prefix.len() == ar {
                let atoms = extend_atoms(prefix, &[]);
                assert(crate::bounds::atom_indices(Seq::<AtomId>::empty()) =~= Seq::<nat>::empty());
                assert(crate::bounds::atom_indices(atoms@) =~= pv);
                let t = Tuple::new(atoms);
                let mut out = TupleSet::empty(ar);
                out.insert(t);
                assert(out@ =~= set![pv]);
                Ok(out)
            } else {
                Err(unsupported(span))
            }
        } else {
            let out = TupleSet::empty(ar);
            assert(out@ =~= Set::<Seq<nat>>::empty());
            Ok(out)
        }
    } else {
        let d = decls[i];
        proof {
            assert(decls@[i as int] == d);
            assert(d_sub(*ir, rank, inst.view(), p, e0, n, d.bound.index) == denote(*ir, inst.view(), p, e0, d.bound.index));
        }
        let bm = match eval_rel_r(ir, inst, p, env, d.bound) {
            Ok(bm) => bm,
            Err(e) => {
                return Err(e);
            },
        };
        let vi = d.var.index;
        if vi >= env.len() {
            return Err(unsupported(span));
        }
        let ts = bm.iter();
        let ghost ord = bm.ordered();
        proof {
            lemma_sorted_of(bm);
            assert(e0.len() == env@.len());
            assert(comp_from(*ir, rank, inst.view(), p, e0, n, decls@, body.index, ar as nat, pv, i as nat) == comp_list(
                *ir,
                rank,
                inst.view(),
                p,
                e0,
                n,
                decls@,
                body.index,
                ar as nat,
                pv,
                i as nat,
                ord,
            ));
            assert(ord.take(0) =~= Seq::<Seq<nat>>::empty());
        }
        let mut out = TupleSet::empty(ar);
        assert(out@ =~= Set::<Seq<nat>>::empty());
        let mut k: usize = 0;
        while k < ts.len()
            invariant
                walk_ok(*ir, *inst, p),
                rank == the_rank(*ir),
                n == NodeRef::Rel(r.index),
                e0 == env_view(old(env)@),
                pv == crate::bounds::atom_indices(prefix@),
                r.index < ir.rel_exprs@.len(),
                i < decls@.len(),
                decls@.len() <= usize::MAX,
                d == decls@[i as int],
                vi == d.var.index,
                1 <= ar,
                comp_from(*ir, rank, inst.view(), p, e0, n, decls@, body.index, ar as nat, pv, i as nat) == comp_list(
                    *ir,
                    rank,
                    inst.view(),
                    p,
                    e0,
                    n,
                    decls@,
                    body.index,
                    ar as nat,
                    pv,
                    i as nat,
                    ord,
                ),
                forall|q: int|
                    0 <= q < decls@.len() ==> rank(NodeRef::Rel((#[trigger] decls@[q]).bound.index)) < rank(n)
                        && decls@[q].bound.index < ir.rel_exprs@.len(),
                rank(NodeRef::Formula(body.index)) < rank(n),
                body.index < ir.formulas@.len(),
                vi < env@.len(),
                env_view(env@) == e0,
                crate::bounds::tuple_views(ts@) == ord,
                k <= ts@.len(),
                out.wf(),
                out.ar() == ar,
                comp_list(*ir, rank, inst.view(), p, e0, n, decls@, body.index, ar as nat, pv, i as nat, ord.take(k as int)) == Some(out@),
            decreases ts@.len() - k,
        {
            let prev = copy_binding(&env[vi]);
            let ghost e_before = env@;
            let t = ts[k].duplicate();
            proof {
                assert(ord[k as int] == ts@[k as int]@);
            }
            let np = extend_atoms(prefix, ts[k].atoms());
            env.set(vi, Some(t));
            proof {
                lemma_env_update(e_before, vi as int, Some(t));
                assert(env_view(env@) == e0.update(vi as int, Some(ord[k as int])));
                assert(crate::bounds::atom_indices(np@) == pv + ord[k as int]);
            }
            let sub = eval_comp(ir, inst, p, env, r, decls, body, ar, &np, i + 1, span);
            let ghost e_after = env@;
            env.set(vi, prev);
            proof {
                lemma_env_update(e_after, vi as int, prev);
                assert(env_view(e_before)[vi as int] == e0[vi as int]);
                assert(env_view(env@) =~= e0);
                assert(ord.take(k + 1).drop_last() =~= ord.take(k as int));
                assert(ord.take(k + 1).last() == ord[k as int]);
            }
            match sub {
                Err(e) => {
                    proof {
                        lemma_comp_list_none(*ir, rank, inst.view(), p, e0, n, decls@, body.index, ar as nat, pv, i as nat, ord, k as int);
                    }
                    return Err(e);
                },
                Ok(sset) => {
                    out = crate::eval::union(&out, &sset);
                },
            }
            k = k + 1;
        }
        proof {
            assert(ord.take(k as int) =~= ord);
        }
        Ok(out)
    }
}

proof fn lemma_walk_ok(ir: Ir, inst: Instance, p: IntParams)
    requires
        acyclic(ir),
        inst.wf(),
        params_ok(p),
    ensures
        walk_ok(ir, inst, p),
{
    let rank = choose|rank: spec_fn(NodeRef) -> nat| ranked(ir, rank);
    assert(ranked(ir, rank));
}

/// Evaluates formula `f` in the instance under the bindings `env` (by
/// variable position), leaving `env` as it was. It succeeds exactly where
/// [`holds`] is defined, with its value; it fails on a temporal connective,
/// an ill-sorted operand, an unknown variable or relation, or a shift.
pub fn eval_formula(ir: &Ir, inst: &Instance, p: IntParams, env: &mut Vec<Option<Tuple>>, f: FormulaId) -> (r: Result<
    bool,
    TranslateError,
>)
    requires
        acyclic(*ir),
        inst.wf(),
        params_ok(p),
        f.index < ir.formulas@.len(),
    ensures
        env_view(final(env)@) == env_view(old(env)@),
        r is Ok <==> holds(*ir, inst.view(), p, env_view(old(env)@), f.index) is Some,
        r matches Ok(b) ==> holds(*ir, inst.view(), p, env_view(old(env)@), f.index) == Some(b),
{
    proof {
        lemma_walk_ok(*ir, *inst, p);
    }
    eval_formula_r(ir, inst, p, env, f)
}

/// Evaluates relation expression `r` to a tuple set, leaving `env` as it
/// was; it succeeds exactly where [`denote`] is defined, with its arity and
/// tuples.
pub fn eval_rel(ir: &Ir, inst: &Instance, p: IntParams, env: &mut Vec<Option<Tuple>>, r: RelExprId) -> (res: Result<
    TupleSet,
    TranslateError,
>)
    requires
        acyclic(*ir),
        inst.wf(),
        params_ok(p),
        r.index < ir.rel_exprs@.len(),
    ensures
        env_view(final(env)@) == env_view(old(env)@),
        res is Ok <==> denote(*ir, inst.view(), p, env_view(old(env)@), r.index) is Some,
        res matches Ok(t) ==> t.wf() && denote(*ir, inst.view(), p, env_view(old(env)@), r.index) == Some((t.ar(), t@)),
{
    proof {
        lemma_walk_ok(*ir, *inst, p);
    }
    eval_rel_r(ir, inst, p, env, r)
}

/// Evaluates integer expression `i` to its wrapped value and overflow flag,
/// leaving `env` as it was; it succeeds exactly where [`int_value`] is
/// defined, with its value.
pub fn eval_int(ir: &Ir, inst: &Instance, p: IntParams, env: &mut Vec<Option<Tuple>>, i: IntExprId) -> (res: Result<
    (i64, bool),
    TranslateError,
>)
    requires
        acyclic(*ir),
        inst.wf(),
        params_ok(p),
        i.index < ir.int_exprs@.len(),
    ensures
        env_view(final(env)@) == env_view(old(env)@),
        res is Ok <==> int_value(*ir, inst.view(), p, env_view(old(env)@), i.index) is Some,
        res matches Ok(v) ==> int_value(*ir, inst.view(), p, env_view(old(env)@), i.index) == Some((v.0 as int, v.1)) && in_range(
            v.0 as int,
            p.bitwidth as nat,
        ),
{
    proof {
        lemma_walk_ok(*ir, *inst, p);
    }
    eval_int_r(ir, inst, p, env, i)
}

/// No variable bound, one slot per variable of the IR.
pub open spec fn unbound(n: nat) -> Seq<Option<Seq<nat>>> {
    Seq::new(n, |i: int| None)
}

/// Whether goal `f` holds in the instance, every variable unbound at the
/// start (with overflow allowed, the goal's truth value is the accept
/// verdict).
pub fn accepts(ir: &Ir, inst: &Instance, p: IntParams, f: FormulaId) -> (r: Result<bool, TranslateError>)
    requires
        acyclic(*ir),
        inst.wf(),
        params_ok(p),
        f.index < ir.formulas@.len(),
    ensures
        r is Ok <==> holds(*ir, inst.view(), p, unbound(ir.vars@.len()), f.index) is Some,
        r matches Ok(b) ==> holds(*ir, inst.view(), p, unbound(ir.vars@.len()), f.index) == Some(b),
{
    let mut env: Vec<Option<Tuple>> = Vec::new();
    let mut k: usize = 0;
    while k < ir.vars.len()
        invariant
            k <= ir.vars@.len(),
            env@.len() == k,
            env_view(env@) == unbound(k as nat),
        decreases ir.vars@.len() - k,
    {
        let ghost before = env@;
        env.push(None);
        k = k + 1;
        assert forall|j: int| 0 <= j < k implies env_view(env@)[j] == unbound(k as nat)[j] by {
            if j < k - 1 {
                assert(env@[j] == before[j]);
                assert(env_view(before)[j] == unbound((k - 1) as nat)[j]);
            }
        }
        assert(env_view(env@) =~= unbound(k as nat));
    }
    eval_formula(ir, inst, p, &mut env, f)
}

} // verus!
