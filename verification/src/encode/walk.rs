//! The walk that encodes a relation expression, formula or integer
//! expression of the IR into the circuit: each relation expression becomes
//! a boolean matrix over its candidate tuples, each formula a gate, each
//! integer expression two's-complement bits with an overflow flag, and
//! quantifiers are grounded over their bound's candidate tuples. Under every
//! assignment that satisfies the circuit, the encoding agrees with the
//! evaluator on the instance that the assignment denotes.
//!
//! Refused with a typed error: temporal operators and primes, which the
//! static encoding never sees; shifts, which the evaluator does not compute
//! either; negation at bit width 1, where the negation's overflow flag and
//! the evaluator's part; and what does not fit the circuit's variables.

use vstd::prelude::*;

use crate::bounds::{atom_indices, AtomId, Bounds, RelBound, Tuple};
use crate::circuit::{all_valid, sat, val, valid, Assignment, Bool, Circuit, Cnf};
use crate::encode::closure::{closure_budget, rel_unary};
use crate::encode::formula::{lone, mult_spec, mult_test, rel_compare, rel_compare_spec};
use crate::encode::freevars::{acyclic, children, node_valid, ranked, the_rank, NodeRef};
use crate::encode::join::join;
use crate::encode::leaves::{const_matrix, relation_matrix, var_matrix};
use crate::encode::overriding::override_;
use crate::encode::{diff, grown, intersect, lemma_grown_refl, lemma_grown_trans, lemma_sat_back, product, support, support_size, union};
use crate::error::TranslateError;
use crate::encode::integer::{in_range, sval, wrap, IntBuilder, IntVal};
use crate::encode::terms::{count_true, int_card, int_cmp_spec, int_compare};
use crate::evaluator::{
    bindings, compare_sets, compare_ints, d_sub, denote, env_view, h_sub, holds, i_sub, int_binop_spec, int_value,
    mult_count, quant_r, unsupported, InstView, IntParams,
};
use crate::ir::{
    FormulaId, FormulaKind, IntBinOp, IntExprId, IntExprKind, Ir, MultTest, QuantKind, RelBinOp, RelExprId, RelExprKind,
    RelUnOp,
};
use crate::lex::{lex_lt, lex_sorted};
use crate::matrix::Matrix;
use crate::relspec::{rel_binary_arity, rel_binary_defined, rel_binary_spec, rel_unary_spec};
use crate::span::Span;
use crate::tuple_map::TupleMap;

verus! {

broadcast use {crate::matrix::Matrix::lemma_wf, crate::encode::lemma_grown_chain};

/// What the encoding reads: the relation bounds, the primary variable of
/// each undetermined tuple of each bound relation (by relation position),
/// the number of atoms, and the integer parameters.
pub struct EncodeState {
    /// The bounds of the free relations.
    pub bounds: Bounds,
    /// For each relation position, the variable of each tuple in its upper
    /// bound and not in its lower bound.
    pub prims: Vec<TupleMap<crate::circuit::Var>>,
    /// Number of atoms.
    pub universe_len: usize,
    /// The integer parameters.
    pub params: IntParams,
}

/// The tuples a bound relation holds under `s`: those of its lower bound,
/// and those of its upper bound whose primary variable `s` sets.
pub open spec fn bound_value(b: RelBound, prim: TupleMap<crate::circuit::Var>, s: Assignment) -> Set<Seq<nat>> {
    b.hi()@.filter(|t: Seq<nat>| b.lo()@.contains(t) || s(prim@[t].index as nat))
}

impl EncodeState {
    /// The instance an assignment denotes: each bound relation holds
    /// [`bound_value`]; every other relation is not carried.
    pub open spec fn instance_of(&self, s: Assignment) -> InstView {
        (
            self.universe_len as nat,
            |r: nat|
                if self.bounds@.contains_key(r) && r < self.prims@.len() {
                    Some((self.bounds@[r].hi().ar(), bound_value(self.bounds@[r], self.prims@[r as int], s)))
                } else {
                    None
                },
        )
    }

    /// Well-formedness against a circuit of `nv` variables: well-formed
    /// bounds, and for each bound relation a well-formed table of primary
    /// variables, all minted, covering every undetermined tuple.
    pub open spec fn wf(&self, nv: nat) -> bool {
        &&& self.bounds.wf()
        &&& forall|r: nat|
            #![trigger self.bounds@[r]]
            self.bounds@.contains_key(r) && r < self.prims@.len() ==> {
                &&& self.prims@[r as int].wf()
                &&& forall|t: Seq<nat>|
                    #[trigger] self.bounds@[r].hi()@.contains(t) && !self.bounds@[r].lo()@.contains(t)
                        ==> self.prims@[r as int]@.contains_key(t)
                &&& forall|t: Seq<nat>| #[trigger] self.prims@[r as int]@.contains_key(t) ==> self.prims@[r as int]@[t].index < nv
            }
    }
}

/// The arities of the bindings of `env` (`None` for an unbound variable).
pub open spec fn env_shape(env: Seq<Option<Seq<nat>>>) -> Seq<Option<nat>> {
    Seq::new(
        env.len(),
        |i: int|
            match env[i] {
                Some(t) => Some(t.len()),
                None => None,
            },
    )
}

/// Integer nodes have a bit width the two's-complement encoding handles.
pub open spec fn width_ok(p: IntParams) -> bool {
    1 <= p.bitwidth <= 31
}

/// The `Int` atoms stand for distinct values of the bit width.
pub open spec fn int_atoms_ok(p: IntParams) -> bool {
    p.int_start <= p.int_end && p.int_end - p.int_start <= vstd::arithmetic::power2::pow2(p.bitwidth as nat)
}

/// The arity of relation expression `r` when it is well sorted under
/// binding arities `sh`: every operator applied to operands of arities it
/// takes, every variable known and bound (if at all) to a tuple of its
/// arity, every relation known; `None` otherwise, and for a temporal prime.
pub open spec fn rel_sort(ir: Ir, rank: spec_fn(NodeRef) -> nat, st: EncodeState, sh: Seq<Option<nat>>, r: usize) -> Option<nat>
    decreases rank(NodeRef::Rel(r)), 3nat, 0nat,
{
    let n = NodeRef::Rel(r);
    if r >= ir.rel_exprs@.len() {
        None
    } else {
        match ir.rel_exprs@[r as int].kind {
            RelExprKind::Relation(rel) => {
                let k = rel.index as nat;
                if st.bounds@.contains_key(k) && k < st.prims@.len() {
                    Some(st.bounds@[k].hi().ar())
                } else if k < ir.relations@.len() && ir.relations@[k as int].arity >= 1 {
                    Some(ir.relations@[k as int].arity as nat)
                } else {
                    None
                }
            },
            RelExprKind::Var(v) => {
                let k = v.index as int;
                if 0 <= k < ir.vars@.len() && ir.vars@[k].arity >= 1 && k < sh.len() && (sh[k] is None || sh[k] == Some(
                    ir.vars@[k].arity as nat,
                )) {
                    Some(ir.vars@[k].arity as nat)
                } else {
                    None
                }
            },
            RelExprKind::Const(c) => Some(crate::relspec::const_arity(c)),
            RelExprKind::Binary { op, lhs, rhs } => match (rel_sort_sub(ir, rank, st, sh, n, lhs.index), rel_sort_sub(ir, rank, st, sh, n, rhs.index)) {
                (Some(a), Some(b)) => if rel_binary_defined(op, a, b) {
                    Some(rel_binary_arity(op, a, b))
                } else {
                    None
                },
                _ => None,
            },
            RelExprKind::Unary { expr, .. } => if rel_sort_sub(ir, rank, st, sh, n, expr.index) == Some(2nat) {
                Some(2nat)
            } else {
                None
            },
            RelExprKind::IfThenElse { cond, then_branch, else_branch } => if formula_sort_sub(ir, rank, st, sh, n, cond.index) && rel_sort_sub(
                ir,
                rank,
                st,
                sh,
                n,
                then_branch.index,
            ) is Some && rel_sort_sub(ir, rank, st, sh, n, then_branch.index) == rel_sort_sub(ir, rank, st, sh, n, else_branch.index) {
                rel_sort_sub(ir, rank, st, sh, n, then_branch.index)
            } else {
                None
            },
            RelExprKind::Comprehension { decls, body } => match crate::evaluator::comp_arity(ir, decls@) {
                Some(a) => if a <= usize::MAX {
                    let ar: nat = if a == 0 {
                        1
                    } else {
                        a
                    };
                    if comp_sorted(ir, rank, st, sh, n, decls@, body.index, ar, 0, 0) {
                        Some(ar)
                    } else {
                        None
                    }
                } else {
                    None
                },
                None => None,
            },
            RelExprKind::IntToAtom(ie) => if int_sort_sub(ir, rank, st, sh, n, ie.index) && int_atoms_ok(st.params) {
                Some(1nat)
            } else {
                None
            },
            RelExprKind::Prime(_) => None,
        }
    }
}

/// Formula `f` is well sorted under `sh`: its operands are, a comparison's
/// two sides have one arity, and it has no temporal operator.
pub open spec fn formula_sorted(ir: Ir, rank: spec_fn(NodeRef) -> nat, st: EncodeState, sh: Seq<Option<nat>>, f: usize) -> bool
    decreases rank(NodeRef::Formula(f)), 3nat, 0nat,
{
    let n = NodeRef::Formula(f);
    if f >= ir.formulas@.len() {
        false
    } else {
        match ir.formulas@[f as int].kind {
            FormulaKind::Const(_) => true,
            FormulaKind::Not(g) => formula_sort_sub(ir, rank, st, sh, n, g.index),
            FormulaKind::And(parts) => parts_sorted(ir, rank, st, sh, n, parts@),
            FormulaKind::Or(parts) => parts_sorted(ir, rank, st, sh, n, parts@),
            FormulaKind::Implies { antecedent, consequent } => formula_sort_sub(ir, rank, st, sh, n, antecedent.index)
                && formula_sort_sub(ir, rank, st, sh, n, consequent.index),
            FormulaKind::Iff(l, r) => formula_sort_sub(ir, rank, st, sh, n, l.index) && formula_sort_sub(ir, rank, st, sh, n, r.index),
            FormulaKind::RelCompare { lhs, rhs, .. } => rel_sort_sub(ir, rank, st, sh, n, lhs.index) is Some && rel_sort_sub(
                ir,
                rank,
                st,
                sh,
                n,
                lhs.index,
            ) == rel_sort_sub(ir, rank, st, sh, n, rhs.index),
            FormulaKind::IntCompare { lhs, rhs, .. } => int_sort_sub(ir, rank, st, sh, n, lhs.index) && int_sort_sub(
                ir,
                rank,
                st,
                sh,
                n,
                rhs.index,
            ),
            FormulaKind::MultTest { expr, .. } => rel_sort_sub(ir, rank, st, sh, n, expr.index) is Some,
            FormulaKind::Quant { var, bound, body, .. } => match rel_sort_sub(ir, rank, st, sh, n, bound.index) {
                Some(a) => (var.index as int) < sh.len() && formula_sort_sub(ir, rank, st, sh.update(var.index as int, Some(a)), n, body.index),
                None => false,
            },
            FormulaKind::TemporalUnary { .. } => false,
            FormulaKind::TemporalBinary { .. } => false,
        }
    }
}

/// Integer expression `i` is well sorted under `sh`, at a bit width the
/// encoding handles, with no shift and no negation at bit width 1.
pub open spec fn int_sorted(ir: Ir, rank: spec_fn(NodeRef) -> nat, st: EncodeState, sh: Seq<Option<nat>>, i: usize) -> bool
    decreases rank(NodeRef::Int(i)), 3nat, 0nat,
{
    let n = NodeRef::Int(i);
    if i >= ir.int_exprs@.len() || !width_ok(st.params) {
        false
    } else {
        match ir.int_exprs@[i as int].kind {
            IntExprKind::Const(_) => true,
            IntExprKind::Card(r) => rel_sort_sub(ir, rank, st, sh, n, r.index) is Some,
            IntExprKind::AtomToInt(r) => rel_sort_sub(ir, rank, st, sh, n, r.index) is Some && int_atoms_ok(st.params),
            IntExprKind::Neg(e) => st.params.bitwidth >= 2 && int_sort_sub(ir, rank, st, sh, n, e.index),
            IntExprKind::Binary { op, lhs, rhs } => op != IntBinOp::Shl && op != IntBinOp::Sha && op != IntBinOp::Shr && int_sort_sub(
                ir,
                rank,
                st,
                sh,
                n,
                lhs.index,
            ) && int_sort_sub(ir, rank, st, sh, n, rhs.index),
            IntExprKind::Sum { var, bound, body } => match rel_sort_sub(ir, rank, st, sh, n, bound.index) {
                Some(a) => (var.index as int) < sh.len() && int_sort_sub(ir, rank, st, sh.update(var.index as int, Some(a)), n, body.index),
                None => false,
            },
            IntExprKind::IfThenElse { cond, then_branch, else_branch } => formula_sort_sub(ir, rank, st, sh, n, cond.index)
                && int_sort_sub(ir, rank, st, sh, n, then_branch.index) && int_sort_sub(ir, rank, st, sh, n, else_branch.index),
        }
    }
}

/// [`rel_sort`] of `r`, reached from `n`.
pub open spec fn rel_sort_sub(ir: Ir, rank: spec_fn(NodeRef) -> nat, st: EncodeState, sh: Seq<Option<nat>>, n: NodeRef, r: usize) -> Option<nat>
    decreases rank(n), 0nat, 0nat,
{
    if rank(NodeRef::Rel(r)) < rank(n) {
        rel_sort(ir, rank, st, sh, r)
    } else {
        None
    }
}

/// [`formula_sorted`] of `f`, reached from `n`.
pub open spec fn formula_sort_sub(ir: Ir, rank: spec_fn(NodeRef) -> nat, st: EncodeState, sh: Seq<Option<nat>>, n: NodeRef, f: usize) -> bool
    decreases rank(n), 0nat, 0nat,
{
    if rank(NodeRef::Formula(f)) < rank(n) {
        formula_sorted(ir, rank, st, sh, f)
    } else {
        false
    }
}

/// [`int_sorted`] of `i`, reached from `n`.
pub open spec fn int_sort_sub(ir: Ir, rank: spec_fn(NodeRef) -> nat, st: EncodeState, sh: Seq<Option<nat>>, n: NodeRef, i: usize) -> bool
    decreases rank(n), 0nat, 0nat,
{
    if rank(NodeRef::Int(i)) < rank(n) {
        int_sorted(ir, rank, st, sh, i)
    } else {
        false
    }
}

/// Every formula of `parts` is well sorted.
pub open spec fn parts_sorted(ir: Ir, rank: spec_fn(NodeRef) -> nat, st: EncodeState, sh: Seq<Option<nat>>, n: NodeRef, parts: Seq<FormulaId>) -> bool
    decreases rank(n), 1nat, parts.len(),
{
    if parts.len() == 0 {
        true
    } else {
        parts_sorted(ir, rank, st, sh, n, parts.drop_last()) && formula_sort_sub(ir, rank, st, sh, n, parts.last().index)
    }
}

/// A comprehension's bindings from `i` on are well sorted, the tuples so
/// far `acc` atoms long: each binding's variable known and its bound well
/// sorted with the earlier bindings in place, the body well sorted with all
/// of them, and the tuples as long as the comprehension's arity `ar`.
pub open spec fn comp_sorted(
    ir: Ir,
    rank: spec_fn(NodeRef) -> nat,
    st: EncodeState,
    sh: Seq<Option<nat>>,
    n: NodeRef,
    decls: Seq<crate::ir::CompDecl>,
    body: usize,
    ar: nat,
    i: nat,
    acc: nat,
) -> bool
    decreases rank(n), 1nat, decls.len() - i,
{
    if i >= decls.len() {
        formula_sort_sub(ir, rank, st, sh, n, body) && acc == ar
    } else {
        match rel_sort_sub(ir, rank, st, sh, n, decls[i as int].bound.index) {
            Some(a) => (decls[i as int].var.index as int) < sh.len() && comp_sorted(
                ir,
                rank,
                st,
                sh.update(decls[i as int].var.index as int, Some(a)),
                n,
                decls,
                body,
                ar,
                i + 1,
                acc + a,
            ),
            None => false,
        }
    }
}

/// The walk's errors: a circuit out of variables (with the need that did
/// not fit), or a node outside the well-sorted fragment.
pub open spec fn out_of_room(e: TranslateError, nv: nat) -> bool {
    e matches TranslateError::CapacityExceeded { cap, .. } && nv + cap > u32::MAX
}

/// The arity of relation expression `r` under the bindings `env` where it
/// is well sorted ([`rel_sort`]).
pub open spec fn rel_sort_in(ir: Ir, st: EncodeState, env: Seq<Option<Seq<nat>>>, r: usize) -> Option<nat> {
    rel_sort(ir, the_rank(ir), st, env_shape(env), r)
}

/// Formula `f` is well sorted under the bindings `env` ([`formula_sorted`]).
pub open spec fn formula_sorted_in(ir: Ir, st: EncodeState, env: Seq<Option<Seq<nat>>>, f: usize) -> bool {
    formula_sorted(ir, the_rank(ir), st, env_shape(env), f)
}

/// Integer expression `i` is well sorted under the bindings `env`
/// ([`int_sorted`]).
pub open spec fn int_sorted_in(ir: Ir, st: EncodeState, env: Seq<Option<Seq<nat>>>, i: usize) -> bool {
    int_sorted(ir, the_rank(ir), st, env_shape(env), i)
}

/// Binding a variable to a tuple gives it the tuple's arity.
proof fn lemma_shape_update(env: Seq<Option<Seq<nat>>>, v: int, t: Seq<nat>)
    requires
        0 <= v < env.len(),
    ensures
        env_shape(env.update(v, Some(t))) == env_shape(env).update(v, Some(t.len())),
{
    assert(env_shape(env.update(v, Some(t))) =~= env_shape(env).update(v, Some(t.len())));
}

/// Each formula of a well-sorted list of parts is well sorted.
proof fn lemma_parts_sorted(ir: Ir, rank: spec_fn(NodeRef) -> nat, st: EncodeState, sh: Seq<Option<nat>>, n: NodeRef, parts: Seq<FormulaId>)
    requires
        parts_sorted(ir, rank, st, sh, n, parts),
    ensures
        forall|j: int| 0 <= j < parts.len() ==> formula_sort_sub(ir, rank, st, sh, n, (#[trigger] parts[j]).index),
    decreases parts.len(),
{
    if parts.len() > 0 {
        lemma_parts_sorted(ir, rank, st, sh, n, parts.drop_last());
        assert forall|j: int| 0 <= j < parts.len() implies formula_sort_sub(ir, rank, st, sh, n, (#[trigger] parts[j]).index) by {
            if j < parts.len() - 1 {
                assert(parts.drop_last()[j] == parts[j]);
            }
        }
    }
}

/// How many variables a binary relational operator may mint on operands
/// with `la` and `lb` candidate tuples.
pub open spec fn binary_need(op: RelBinOp, la: nat, lb: nat) -> nat {
    match op {
        RelBinOp::Union | RelBinOp::Intersect | RelBinOp::Diff => la,
        RelBinOp::Override => la + 2 * lb,
        RelBinOp::Join => 2 * (la * lb),
        RelBinOp::Product => la * lb,
    }
}

/// How many variables a unary relational operator may mint on an operand
/// whose candidate tuples span `m` atoms.
pub open spec fn unary_need(op: RelUnOp, m: nat) -> nat {
    match op {
        RelUnOp::Transpose => 0,
        _ => closure_budget(m) + m * m,
    }
}

/// Whether `need` more variables (`None`: more than a `u64` counts) fit.
fn room(c: &Circuit, need: Option<u64>) -> (b: bool)
    ensures
        b <==> need is Some && c.nv() + need->0 <= u32::MAX,
{
    match need {
        Some(n) => {
            let have = c.cnf().num_vars() as u64;
            n <= 0xffff_ffffu64 - have
        },
        None => false,
    }
}

/// Whether `need` more variables fit; when they do not, the error that
/// says so.
fn room_or(c: &Circuit, need: Option<u64>, span: Span) -> (r: Result<(), TranslateError>)
    ensures
        r is Ok <==> need is Some && c.nv() + need->0 <= u32::MAX,
        r matches Err(e) ==> out_of_room(e, c.nv()),
{
    if room(c, need) {
        Ok(())
    } else {
        let cap = match need {
            Some(n) => n,
            None => 0xffff_ffff_ffff_ffffu64,
        };
        Err(TranslateError::CapacityExceeded { cap, span })
    }
}

/// A relation's matrix: its bound's matrix over its primary variables, or,
/// for a declared relation without a bound, the empty matrix of its arity.
fn relation_leaf(c: &Circuit, st: &EncodeState, ir: &Ir, rel: crate::ir::RelId, span: Span) -> (r: Result<Matrix, TranslateError>)
    requires
        st.wf(c.nv()),
    ensures
        r matches Ok(m) ==> m.wf() && m.valid_below(c.nv()) && forall|s: Assignment|
            crate::evaluator::rel_value(*ir, #[trigger] st.instance_of(s), rel.index as nat) == Some((m.ar(), m.denote(s))),
        r is Err ==> forall|s: Assignment| crate::evaluator::rel_value(*ir, #[trigger] st.instance_of(s), rel.index as nat) is None,
        ({
            let k = rel.index as nat;
            if st.bounds@.contains_key(k) && k < st.prims@.len() {
                r matches Ok(m) && m.ar() == st.bounds@[k].hi().ar()
            } else if k < ir.relations@.len() && ir.relations@[k as int].arity >= 1 {
                r matches Ok(m) && m.ar() == ir.relations@[k as int].arity
            } else {
                r is Err
            }
        }),
{
    let k = rel.index;
    if k < st.prims.len() {
        if let Some(b) = st.bounds.get(rel) {
            let prim = &st.prims[k];
            proof {
                assert(st.bounds@[k as nat] == *b);
                assert(b.wf()) by {
                    crate::bounds::Bounds::lemma_wf(&st.bounds);
                }
            }
            let m = relation_matrix(b, prim);
            proof {
                assert(m.valid_below(c.nv())) by {
                    assert forall|t: Seq<nat>| #[trigger] m.dom().contains(t) implies valid(m.cells()[t], c.nv()) by {
                        if !b.lo()@.contains(t) {
                            assert(prim@.contains_key(t));
                        }
                    }
                }
                assert forall|s: Assignment|
                    crate::evaluator::rel_value(*ir, #[trigger] st.instance_of(s), rel.index as nat) == Some((m.ar(), m.denote(s))) by {
                    assert(m.denote(s) =~= bound_value(*b, *prim, s));
                }
            }
            return Ok(m);
        }
    }
    if k < ir.relations.len() && ir.relations[k].arity >= 1 {
        let m = Matrix::empty(ir.relations[k].arity);
        proof {
            assert(m.valid_below(c.nv()));
            assert forall|s: Assignment|
                crate::evaluator::rel_value(*ir, #[trigger] st.instance_of(s), rel.index as nat) == Some((m.ar(), m.denote(s))) by {
                assert(m.denote(s) =~= Set::<Seq<nat>>::empty());
            }
        }
        Ok(m)
    } else {
        Err(unsupported(span))
    }
}

/// A binary relational operator on two matrices, where the arities suit it
/// and its variables fit.
fn encode_binary(c: &mut Circuit, op: RelBinOp, a: &Matrix, b: &Matrix, span: Span) -> (r: Result<Matrix, TranslateError>)
    requires
        old(c).wf(),
        a.wf(),
        b.wf(),
        a.valid_below(old(c).nv()),
        b.valid_below(old(c).nv()),
    ensures
        grown(old(c), final(c)),
        r is Ok <==> rel_binary_defined(op, a.ar(), b.ar()) && old(c).nv() + binary_need(op, a.dom().len(), b.dom().len())
            <= u32::MAX,
        r matches Ok(m) ==> m.wf() && m.valid_below(final(c).nv()) && m.ar() == rel_binary_arity(op, a.ar(), b.ar()) && forall|
            s: Assignment,
        | #[trigger] sat(final(c).cls(), s) ==> m.denote(s) == rel_binary_spec(op, a.denote(s), b.denote(s)),
        r matches Err(e) ==> out_of_room(e, final(c).nv()) || !rel_binary_defined(op, a.ar(), b.ar()),
{
    let ghost c0 = *c;
    proof {
        lemma_grown_refl(&c0);
    }
    let la = a.len() as u64;
    let lb = b.len() as u64;
    let defined = match op {
        RelBinOp::Union | RelBinOp::Intersect | RelBinOp::Diff | RelBinOp::Override => a.arity() == b.arity(),
        RelBinOp::Join => a.arity() <= usize::MAX - b.arity() && a.arity() + b.arity() >= 3,
        RelBinOp::Product => a.arity() <= usize::MAX - b.arity(),
    };
    if !defined {
        return Err(unsupported(span));
    }
    let need: Option<u64> = match op {
        RelBinOp::Union | RelBinOp::Intersect | RelBinOp::Diff => Some(la),
        RelBinOp::Override => match lb.checked_mul(2) {
            Some(x) => la.checked_add(x),
            None => None,
        },
        RelBinOp::Join => match la.checked_mul(lb) {
            Some(x) => x.checked_mul(2),
            None => None,
        },
        RelBinOp::Product => la.checked_mul(lb),
    };
    proof {
        if need is None {
            assert(binary_need(op, a.dom().len(), b.dom().len()) > u32::MAX) by (nonlinear_arith)
                requires
                    need is None,
                    la == a.dom().len(),
                    lb == b.dom().len(),
                    op == RelBinOp::Override ==> (lb * 2 > u64::MAX || la + lb * 2 > u64::MAX),
                    op == RelBinOp::Join ==> (la * lb > u64::MAX || la * lb * 2 > u64::MAX),
                    op == RelBinOp::Product ==> la * lb > u64::MAX,
                    op != RelBinOp::Union && op != RelBinOp::Intersect && op != RelBinOp::Diff,
                    binary_need(op, a.dom().len(), b.dom().len()) == match op {
                        RelBinOp::Union | RelBinOp::Intersect | RelBinOp::Diff => la as nat,
                        RelBinOp::Override => (la + 2 * lb) as nat,
                        RelBinOp::Join => (2 * (la * lb)) as nat,
                        RelBinOp::Product => (la * lb) as nat,
                    },
            ;
        }
    }
    room_or(c, need, span)?;
    let m = match op {
        RelBinOp::Union => union(c, a, b),
        RelBinOp::Intersect => intersect(c, a, b),
        RelBinOp::Diff => diff(c, a, b),
        RelBinOp::Join => join(c, a, b),
        RelBinOp::Product => product(c, a, b),
        RelBinOp::Override => override_(c, a, b),
    };
    Ok(m)
}

/// A unary relational operator on a binary matrix, where its variables fit.
fn encode_unary(c: &mut Circuit, op: RelUnOp, a: &Matrix, universe_len: usize, span: Span) -> (r: Result<Matrix, TranslateError>)
    requires
        old(c).wf(),
        a.wf(),
        a.valid_below(old(c).nv()),
    ensures
        grown(old(c), final(c)),
        r is Ok <==> a.ar() == 2 && old(c).nv() + unary_need(op, support(a.dom()).len()) <= u32::MAX,
        r matches Ok(m) ==> m.wf() && m.valid_below(final(c).nv()) && m.ar() == 2 && forall|s: Assignment|
            #[trigger] sat(final(c).cls(), s) ==> m.denote(s) == rel_unary_spec(op, a.denote(s), universe_len as nat),
        r matches Err(e) ==> out_of_room(e, final(c).nv()) || a.ar() != 2,
{
    let ghost c0 = *c;
    proof {
        lemma_grown_refl(&c0);
    }
    if a.arity() != 2 {
        return Err(unsupported(span));
    }
    let need: Option<u64> = match op {
        RelUnOp::Transpose => Some(0),
        _ => {
            let m = support_size(a) as u64;
            match m.checked_mul(m) {
                Some(q) => match q.checked_mul(q) {
                    Some(qq) => match qq.checked_mul(2) {
                        Some(qq2) => match qq2.checked_add(q) {
                            Some(round) => match m.checked_mul(round) {
                                Some(cb) => cb.checked_add(q),
                                None => None,
                            },
                            None => None,
                        },
                        None => None,
                    },
                    None => None,
                },
                None => None,
            }
        },
    };
    proof {
        if need is None {
            let m = support(a.dom()).len();
            let q = m * m;
            assert(unary_need(op, m) == m * (2 * (q * q) + q) + q);
            assert(m * (2 * (q * q) + q) + q > u64::MAX) by (nonlinear_arith)
                requires
                    q == m * m,
                    q > u64::MAX || q * q > u64::MAX || q * q * 2 > u64::MAX || q * q * 2 + q > u64::MAX || m * (q * q * 2 + q)
                        > u64::MAX || m * (q * q * 2 + q) + q > u64::MAX,
            ;
        }
    }
    room_or(c, need, span)?;
    Ok(rel_unary(c, op, a, universe_len))
}

/// Two multiplicity views of a finite set agree: by its size, and by its
/// elements.
pub(crate) proof fn lemma_mult(test: MultTest, d: Set<Seq<nat>>)
    requires
        d.finite(),
    ensures
        mult_count(test, d.len()) == mult_spec(test, d),
{
    vstd::set_lib::lemma_set_empty_equivalency_len(d);
    if d.len() <= 1 {
        assert forall|x: Seq<nat>, y: Seq<nat>| d.contains(x) && d.contains(y) implies x == y by {
            if x != y {
                vstd::set_lib::lemma_len_subset(set![x, y], d);
            }
        }
    } else {
        let x = d.choose();
        let y = d.remove(x).choose();
        assert(d.remove(x).len() > 0);
        assert(d.remove(x).contains(y));
        assert(!lone(d));
    }
}

/// A multiplicity test on a matrix, where its variables fit.
fn encode_mult(c: &mut Circuit, test: MultTest, m: &Matrix, span: Span) -> (r: Result<Bool, TranslateError>)
    requires
        old(c).wf(),
        m.wf(),
        m.valid_below(old(c).nv()),
    ensures
        grown(old(c), final(c)),
        r matches Ok(b) ==> valid(b, final(c).nv()) && forall|s: Assignment|
            #[trigger] sat(final(c).cls(), s) ==> val(b, s) == mult_count(test, m.denote(s).len()),
        r matches Err(e) ==> out_of_room(e, final(c).nv()),
{
    let ghost c0 = *c;
    proof {
        lemma_grown_refl(&c0);
    }
    let l = m.len() as u64;
    let need = match l.checked_mul(l) {
        Some(x) => x.checked_add(3),
        None => None,
    };
    room_or(c, need, span)?;
    let b = mult_test(c, test, m);
    proof {
        assert forall|s: Assignment| #[trigger] sat(c.cls(), s) implies val(b, s) == mult_count(test, m.denote(s).len()) by {
            lemma_mult(test, m.denote(s));
        }
    }
    Ok(b)
}

/// A relational comparison of two matrices of one arity, where its
/// variables fit.
fn encode_compare(c: &mut Circuit, op: crate::ir::RelCmpOp, a: &Matrix, b: &Matrix, span: Span) -> (r: Result<Bool, TranslateError>)
    requires
        old(c).wf(),
        a.wf(),
        b.wf(),
        a.valid_below(old(c).nv()),
        b.valid_below(old(c).nv()),
    ensures
        grown(old(c), final(c)),
        r matches Ok(x) ==> valid(x, final(c).nv()) && forall|s: Assignment|
            #[trigger] sat(final(c).cls(), s) ==> val(x, s) == compare_sets(op, (a.ar(), a.denote(s)), (b.ar(), b.denote(s))),
        r matches Err(e) ==> out_of_room(e, final(c).nv()) || a.ar() != b.ar(),
{
    let ghost c0 = *c;
    proof {
        lemma_grown_refl(&c0);
    }
    if a.arity() != b.arity() {
        return Err(unsupported(span));
    }
    let la = a.len() as u64;
    let lb = b.len() as u64;
    let need = match la.checked_add(lb) {
        Some(x) => match x.checked_mul(3) {
            Some(y) => y.checked_add(1),
            None => None,
        },
        None => None,
    };
    room_or(c, need, span)?;
    Ok(rel_compare(c, op, a, b))
}

proof fn lemma_valid_up(m: &Matrix, n: nat, n2: nat)
    requires
        m.valid_below(n),
        n <= n2,
    ensures
        m.valid_below(n2),
{
    assert forall|t: Seq<nat>| #[trigger] m.dom().contains(t) implies valid(m.cells()[t], n2) by {
        assert(valid(m.cells()[t], n));
    }
}

proof fn lemma_state_up(st: &EncodeState, n: nat, n2: nat)
    requires
        st.wf(n),
        n <= n2,
    ensures
        st.wf(n2),
{
    assert forall|r: nat| #![trigger st.prims@[r as int]] st.bounds@.contains_key(r) && r < st.prims@.len() implies {
        &&& st.prims@[r as int].wf()
        &&& forall|t: Seq<nat>|
            #[trigger] st.bounds@[r].hi()@.contains(t) && !st.bounds@[r].lo()@.contains(t) ==> st.prims@[r as int]@.contains_key(t)
        &&& forall|t: Seq<nat>| #[trigger] st.prims@[r as int]@.contains_key(t) ==> st.prims@[r as int]@[t].index < n2
    } by {
        let b = st.bounds@[r];
        assert forall|t: Seq<nat>| #[trigger] st.prims@[r as int]@.contains_key(t) implies st.prims@[r as int]@[t].index < n2 by {}
    }
}

/// What every step of the encoding walk needs: a ranked IR, a well-formed
/// circuit, and a state whose variables the circuit has minted.
pub open spec fn enc_ok(ir: Ir, c: Circuit, st: EncodeState) -> bool {
    ranked(ir, the_rank(ir)) && c.wf() && st.wf(c.nv())
}

/// The elements of `q` that lie in `d`, in order.
pub open spec fn keep(q: Seq<Seq<nat>>, d: Set<Seq<nat>>) -> Seq<Seq<nat>>
    decreases q.len(),
{
    if q.len() == 0 {
        q
    } else if d.contains(q.last()) {
        keep(q.drop_last(), d).push(q.last())
    } else {
        keep(q.drop_last(), d)
    }
}

proof fn lemma_keep(q: Seq<Seq<nat>>, d: Set<Seq<nat>>)
    requires
        lex_sorted(q),
    ensures
        lex_sorted(keep(q, d)),
        keep(q, d).to_set() == q.to_set().intersect(d),
        forall|i: int| 0 <= i < keep(q, d).len() ==> q.contains(#[trigger] keep(q, d)[i]),
    decreases q.len(),
{
    if q.len() > 0 {
        let init = q.drop_last();
        assert(lex_sorted(init)) by {
            assert forall|i: int, j: int| 0 <= i < j < init.len() implies lex_lt(#[trigger] init[i], #[trigger] init[j]) by {
                assert(init[i] == q[i] && init[j] == q[j]);
            }
        }
        lemma_keep(init, d);
        let k0 = keep(init, d);
        if d.contains(q.last()) {
            let k = k0.push(q.last());
            assert forall|i: int, j: int| 0 <= i < j < k.len() implies lex_lt(#[trigger] k[i], #[trigger] k[j]) by {
                if j == k.len() - 1 {
                    assert(init.contains(k0[i]));
                    let a = choose|a: int| 0 <= a < init.len() && init[a] == k0[i];
                    assert(q[a] == init[a]);
                    assert(lex_lt(q[a], q[q.len() - 1]));
                } else {
                    assert(k[i] == k0[i] && k[j] == k0[j]);
                }
            }
            assert forall|i: int| 0 <= i < k.len() implies q.contains(#[trigger] k[i]) by {
                if i < k0.len() {
                    assert(init.contains(k0[i]));
                    let a = choose|a: int| 0 <= a < init.len() && init[a] == k0[i];
                    assert(q[a] == init[a]);
                } else {
                    assert(q[q.len() - 1] == k[i]);
                }
            }
            assert(k.to_set() =~= q.to_set().intersect(d)) by {
                k0.lemma_push_to_set_commute(q.last());
                assert(q == init.push(q.last()));
                init.lemma_push_to_set_commute(q.last());
            }
        } else {
            assert forall|i: int| 0 <= i < k0.len() implies q.contains(#[trigger] k0[i]) by {
                assert(init.contains(k0[i]));
                let a = choose|a: int| 0 <= a < init.len() && init[a] == k0[i];
                assert(q[a] == init[a]);
            }
            assert(k0.to_set() =~= q.to_set().intersect(d)) by {
                assert(q == init.push(q.last()));
                init.lemma_push_to_set_commute(q.last());
            }
        }
    }
}

/// A quantifier's bindings over any listing `ts`: defined when each binding
/// is, and then all (or some) of the listed tuples' bindings hold.
pub(crate) proof fn lemma_bindings_set(
    ir: Ir,
    rank: spec_fn(NodeRef) -> nat,
    inst: InstView,
    p: IntParams,
    env: Seq<Option<Seq<nat>>>,
    n: NodeRef,
    v: usize,
    body: usize,
    ts: Seq<Seq<nat>>,
    is_all: bool,
)
    ensures
        bindings(ir, rank, inst, p, env, n, v, body, ts, is_all) is Some <==> (forall|t: Seq<nat>|
            ts.contains(t) ==> #[trigger] h_sub(ir, rank, inst, p, env.update(v as int, Some(t)), n, body) is Some),
        bindings(ir, rank, inst, p, env, n, v, body, ts, is_all) is Some ==> bindings(ir, rank, inst, p, env, n, v, body, ts, is_all)->0
            == if is_all {
            forall|t: Seq<nat>| ts.contains(t) ==> #[trigger] h_sub(ir, rank, inst, p, env.update(v as int, Some(t)), n, body)->0
        } else {
            exists|t: Seq<nat>| ts.contains(t) && #[trigger] h_sub(ir, rank, inst, p, env.update(v as int, Some(t)), n, body)->0
        },
    decreases ts.len(),
{
    if ts.len() > 0 {
        let init = ts.drop_last();
        let last = ts.last();
        lemma_bindings_set(ir, rank, inst, p, env, n, v, body, init, is_all);
        assert forall|t: Seq<nat>| ts.contains(t) <==> init.contains(t) || t == last by {
            if ts.contains(t) {
                let i = choose|i: int| 0 <= i < ts.len() && ts[i] == t;
                if i < ts.len() - 1 {
                    assert(init[i] == t);
                }
            }
            if init.contains(t) {
                let i = choose|i: int| 0 <= i < init.len() && init[i] == t;
                assert(ts[i] == t);
            }
            if t == last {
                assert(ts[ts.len() - 1] == t);
            }
        }
        let hl = h_sub(ir, rank, inst, p, env.update(v as int, Some(last)), n, body);
        assert(ts.contains(last));
        if forall|t: Seq<nat>| ts.contains(t) ==> #[trigger] h_sub(ir, rank, inst, p, env.update(v as int, Some(t)), n, body) is Some {
            assert forall|t: Seq<nat>| init.contains(t) implies #[trigger] h_sub(ir, rank, inst, p, env.update(v as int, Some(t)), n, body) is Some by {
                assert(ts.contains(t));
            }
            assert(hl is Some);
        }
        if bindings(ir, rank, inst, p, env, n, v, body, ts, is_all) is Some {
            let a = bindings(ir, rank, inst, p, env, n, v, body, init, is_all);
            assert(a is Some && hl is Some);
            assert forall|t: Seq<nat>| ts.contains(t) implies #[trigger] h_sub(ir, rank, inst, p, env.update(v as int, Some(t)), n, body) is Some by {
                if !init.contains(t) {
                    assert(t == last);
                }
            }
            if is_all {
                if a->0 && hl->0 {
                    assert forall|t: Seq<nat>| ts.contains(t) implies #[trigger] h_sub(ir, rank, inst, p, env.update(v as int, Some(t)), n, body)->0 by {
                        if !init.contains(t) {
                            assert(t == last);
                        }
                    }
                } else if !a->0 {
                    let t = choose|t: Seq<nat>| init.contains(t) && !(#[trigger] h_sub(ir, rank, inst, p, env.update(v as int, Some(t)), n, body))->0;
                    assert(ts.contains(t));
                }
            } else {
                if a->0 {
                    let t = choose|t: Seq<nat>| init.contains(t) && (#[trigger] h_sub(ir, rank, inst, p, env.update(v as int, Some(t)), n, body))->0;
                    assert(ts.contains(t));
                } else if hl->0 {
                } else {
                    assert forall|t: Seq<nat>| ts.contains(t) implies !(#[trigger] h_sub(ir, rank, inst, p, env.update(v as int, Some(t)), n, body))->0 by {
                        if !init.contains(t) {
                            assert(t == last);
                        }
                    }
                }
            }
        }
    }
}

/// One relation expression under the bindings `env`, leaving them as they
/// were.
#[verifier::rlimit(80)]
fn encode_rel_r(c: &mut Circuit, st: &EncodeState, ir: &Ir, env: &mut Vec<Option<Tuple>>, r: RelExprId) -> (res: Result<
    Matrix,
    TranslateError,
>)
    requires
        enc_ok(*ir, *old(c), *st),
        r.index < ir.rel_exprs@.len(),
    ensures
        grown(old(c), final(c)),
        env_view(final(env)@) == env_view(old(env)@),
        res matches Ok(m) ==> m.wf() && m.valid_below(final(c).nv()) && forall|s: Assignment|
            #[trigger] sat(final(c).cls(), s) ==> denote(*ir, st.instance_of(s), st.params, env_view(old(env)@), r.index) == Some(
                (m.ar(), m.denote(s)),
            ),
        ir.rel_exprs@[r.index as int].kind is Prime ==> res is Err,
        res matches Err(e) ==> out_of_room(e, final(c).nv()) || rel_sort_in(*ir, *st, env_view(old(env)@), r.index) is None,
        res matches Ok(m) ==> (rel_sort_in(*ir, *st, env_view(old(env)@), r.index) is Some ==> m.ar() == rel_sort_in(
            *ir,
            *st,
            env_view(old(env)@),
            r.index,
        )->0),
    decreases the_rank(*ir)(NodeRef::Rel(r.index)), 1nat, 0nat,
{
    let ghost rank = the_rank(*ir);
    let ghost n = NodeRef::Rel(r.index);
    let ghost c0 = *c;
    let ghost e0 = env_view(env@);
    let ghost sh = env_shape(e0);
    proof {
        lemma_grown_refl(&c0);
        assert(node_valid(*ir, n));
    }
    let node = &ir.rel_exprs[r.index];
    match &node.kind {
        RelExprKind::Relation(rel) => relation_leaf(c, st, ir, *rel, node.span),
        RelExprKind::Var(v) => {
            let k = v.index;
            if k < ir.vars.len() && ir.vars[k].arity >= 1 && k < env.len() {
                let a = ir.vars[k].arity;
                proof {
                    assert(e0[k as int] == match env@[k as int] {
                        Some(t) => Some(t@),
                        None => None,
                    });
                }
                match &env[k] {
                    Some(t) => {
                        if t.arity() == a {
                            let m = var_matrix(a, Some(t));
                            proof {
                                assert forall|s: Assignment| #[trigger] sat(c.cls(), s) implies denote(
                                    *ir,
                                    st.instance_of(s),
                                    st.params,
                                    e0,
                                    r.index,
                                ) == Some((m.ar(), m.denote(s))) by {}
                            }
                            Ok(m)
                        } else {
                            Err(unsupported(node.span))
                        }
                    },
                    None => {
                        let m = var_matrix(a, None);
                        Ok(m)
                    },
                }
            } else {
                Err(unsupported(node.span))
            }
        },
        RelExprKind::Const(k) => Ok(const_matrix(*k, st.universe_len)),
        RelExprKind::Binary { op, lhs, rhs } => {
            proof {
                assert(children(*ir, n)[0] == NodeRef::Rel(lhs.index));
                assert(children(*ir, n)[1] == NodeRef::Rel(rhs.index));
                assert(rel_sort_sub(*ir, rank, *st, sh, n, lhs.index) == rel_sort(*ir, rank, *st, sh, lhs.index));
                assert(rel_sort_sub(*ir, rank, *st, sh, n, rhs.index) == rel_sort(*ir, rank, *st, sh, rhs.index));
            }
            let a = encode_rel_r(c, st, ir, env, *lhs)?;
            let ghost c1 = *c;
            proof {
                lemma_state_up(st, c0.nv(), c1.nv());
            }
            let b = encode_rel_r(c, st, ir, env, *rhs)?;
            let ghost c2 = *c;
            proof {
                lemma_valid_up(&a, c1.nv(), c2.nv());
                lemma_grown_trans(&c0, &c1, &c2);
            }
            let m = encode_binary(c, *op, &a, &b, node.span)?;
            proof {
                lemma_grown_trans(&c0, &c2, c);
                assert forall|s: Assignment| #[trigger] sat(c.cls(), s) implies denote(
                    *ir,
                    st.instance_of(s),
                    st.params,
                    e0,
                    r.index,
                ) == Some((m.ar(), m.denote(s))) by {
                    lemma_sat_back(&c2, c, s);
                    lemma_sat_back(&c1, &c2, s);
                    assert(d_sub(*ir, rank, st.instance_of(s), st.params, e0, n, lhs.index) == denote(*ir, st.instance_of(s), st.params, e0, lhs.index));
                    assert(d_sub(*ir, rank, st.instance_of(s), st.params, e0, n, rhs.index) == denote(*ir, st.instance_of(s), st.params, e0, rhs.index));
                }
            }
            Ok(m)
        },
        RelExprKind::Unary { op, expr } => {
            proof {
                assert(children(*ir, n)[0] == NodeRef::Rel(expr.index));
                assert(rel_sort_sub(*ir, rank, *st, sh, n, expr.index) == rel_sort(*ir, rank, *st, sh, expr.index));
            }
            let a = encode_rel_r(c, st, ir, env, *expr)?;
            let ghost c1 = *c;
            let m = encode_unary(c, *op, &a, st.universe_len, node.span)?;
            proof {
                lemma_grown_trans(&c0, &c1, c);
                assert forall|s: Assignment| #[trigger] sat(c.cls(), s) implies denote(
                    *ir,
                    st.instance_of(s),
                    st.params,
                    e0,
                    r.index,
                ) == Some((m.ar(), m.denote(s))) by {
                    lemma_sat_back(&c1, c, s);
                    assert(d_sub(*ir, rank, st.instance_of(s), st.params, e0, n, expr.index) == denote(*ir, st.instance_of(s), st.params, e0, expr.index));
                }
            }
            Ok(m)
        },
        RelExprKind::IfThenElse { cond, then_branch, else_branch } => {
            proof {
                assert(children(*ir, n)[0] == NodeRef::Formula(cond.index));
                assert(children(*ir, n)[1] == NodeRef::Rel(then_branch.index));
                assert(children(*ir, n)[2] == NodeRef::Rel(else_branch.index));
                assert(formula_sort_sub(*ir, rank, *st, sh, n, cond.index) == formula_sorted(*ir, rank, *st, sh, cond.index));
                assert(rel_sort_sub(*ir, rank, *st, sh, n, then_branch.index) == rel_sort(*ir, rank, *st, sh, then_branch.index));
                assert(rel_sort_sub(*ir, rank, *st, sh, n, else_branch.index) == rel_sort(*ir, rank, *st, sh, else_branch.index));
            }
            let g = encode_formula_r(c, st, ir, env, *cond)?;
            let ghost c1 = *c;
            proof {
                lemma_state_up(st, c0.nv(), c1.nv());
            }
            let t = encode_rel_r(c, st, ir, env, *then_branch)?;
            let ghost c2 = *c;
            proof {
                lemma_state_up(st, c0.nv(), c2.nv());
                lemma_grown_trans(&c0, &c1, &c2);
            }
            let e = encode_rel_r(c, st, ir, env, *else_branch)?;
            let ghost c3 = *c;
            proof {
                lemma_grown_trans(&c0, &c2, &c3);
                lemma_valid_up(&t, c2.nv(), c3.nv());
            }
            if t.arity() != e.arity() {
                return Err(unsupported(node.span));
            }
            let lt = t.len() as u64;
            let le = e.len() as u64;
            let need = match lt.checked_add(le) {
                Some(x) => x.checked_mul(3),
                None => None,
            };
            room_or(c, need, node.span)?;
            let m = crate::encode::rel_ite(c, g, &t, &e);
            proof {
                lemma_grown_trans(&c0, &c3, c);
                assert forall|s: Assignment| #[trigger] sat(c.cls(), s) implies denote(
                    *ir,
                    st.instance_of(s),
                    st.params,
                    e0,
                    r.index,
                ) == Some((m.ar(), m.denote(s))) by {
                    lemma_sat_back(&c3, c, s);
                    lemma_sat_back(&c2, &c3, s);
                    lemma_sat_back(&c1, &c2, s);
                    assert(h_sub(*ir, rank, st.instance_of(s), st.params, e0, n, cond.index) == holds(*ir, st.instance_of(s), st.params, e0, cond.index));
                    assert(d_sub(*ir, rank, st.instance_of(s), st.params, e0, n, then_branch.index) == denote(*ir, st.instance_of(s), st.params, e0, then_branch.index));
                    assert(d_sub(*ir, rank, st.instance_of(s), st.params, e0, n, else_branch.index) == denote(*ir, st.instance_of(s), st.params, e0, else_branch.index));
                }
            }
            Ok(m)
        },
        RelExprKind::Prime(_) => Err(
            TranslateError::LoweringUnsupported {
                what: String::from_str("a temporal prime reached the static encoding"),
                span: node.span,
            },
        ),
        RelExprKind::Comprehension { decls, body } => {
            let a = match crate::evaluator::comp_arity_of(ir, decls) {
                Some(a) => a,
                None => {
                    return Err(unsupported(node.span));
                },
            };
            let ar = if a == 0 {
                1
            } else {
                a
            };
            let mut out = Matrix::empty(ar);
            let prefix: Vec<AtomId> = Vec::new();
            proof {
                assert(out.valid_below(c.nv()));
            }
            proof {
                assert(prefix@.len() == 0);
            }
            match comp_rec(c, st, ir, env, r, decls, *body, ar, 0, &prefix, Bool::Const(true), &mut out) {
                Ok(()) => {},
                Err(e) => {
                    return Err(e);
                },
            }
            proof {
                assert(atom_indices(prefix@) =~= Seq::<nat>::empty());
                assert forall|s: Assignment| #[trigger] sat(c.cls(), s) implies denote(
                    *ir,
                    st.instance_of(s),
                    st.params,
                    e0,
                    r.index,
                ) == Some((out.ar(), out.denote(s))) by {
                    let cf = crate::evaluator::comp_from(
                        *ir,
                        rank,
                        st.instance_of(s),
                        st.params,
                        e0,
                        n,
                        decls@,
                        body.index,
                        ar as nat,
                        Seq::empty(),
                        0,
                    );
                    assert(out.denote(s) =~= cf->0);
                }
            }
            Ok(out)
        },
        RelExprKind::IntToAtom(ie) => {
            proof {
                assert(children(*ir, n)[0] == NodeRef::Int(ie.index));
                assert(int_sort_sub(*ir, rank, *st, sh, n, ie.index) == int_sorted(*ir, rank, *st, sh, ie.index));
            }
            let (v, _of) = encode_int_r(c, st, ir, env, *ie)?;
            let ghost c1 = *c;
            match int_atom_op(c, st.params, &v, node.span) {
                Ok(m) => {
                    proof {
                        lemma_grown_trans(&c0, &c1, c);
                        assert forall|s: Assignment| #[trigger] sat(c.cls(), s) implies denote(
                            *ir,
                            st.instance_of(s),
                            st.params,
                            e0,
                            r.index,
                        ) == Some((m.ar(), m.denote(s))) by {
                            lemma_sat_back(&c1, c, s);
                            assert(crate::evaluator::i_sub(*ir, rank, st.instance_of(s), st.params, e0, n, ie.index) == int_value(*ir, st.instance_of(s), st.params, e0, ie.index));
                        }
                    }
                    Ok(m)
                },
                Err(e) => Err(e),
            }
        },
    }
}

proof fn lemma_bits_up(v: Seq<Bool>, n: nat, n2: nat)
    requires
        all_valid(v, n),
        n <= n2,
    ensures
        all_valid(v, n2),
{
    assert forall|k: int| 0 <= k < v.len() implies valid(#[trigger] v[k], n2) by {
        assert(valid(v[k], n));
    }
}

/// Moves the circuit into an integer builder of width `w`.
fn builder(c: &mut Circuit, w: usize) -> (ib: IntBuilder)
    ensures
        ib.c() == *old(c),
        ib.wid() == w,
{
    let mut tmp = Circuit::new(Cnf::new());
    std::mem::swap(c, &mut tmp);
    IntBuilder::new(tmp, w)
}

/// Moves an integer builder's circuit back.
fn restore(c: &mut Circuit, ib: IntBuilder)
    ensures
        *final(c) == ib.c(),
{
    let mut back = ib.into_circuit();
    std::mem::swap(c, &mut back);
}

/// The cells that hold under `s`, among the first `k` of the matrix's order,
/// count the tuples they stand for.
proof fn lemma_count_prefix(m: &Matrix, s: Assignment, k: int)
    requires
        m.wf(),
        0 <= k <= m.order().len(),
    ensures
        count_true(m.values().take(k), s) == m.order().take(k).to_set().filter(|t: Seq<nat>| val(m.cells()[t], s)).len(),
        m.order().take(k).to_set().filter(|t: Seq<nat>| val(m.cells()[t], s)).finite(),
    decreases k,
{
    let ord = m.order();
    let vals = m.values();
    let f = |t: Seq<nat>| val(m.cells()[t], s);
    if k == 0 {
        assert(vals.take(0) =~= Seq::<Bool>::empty());
        assert(ord.take(0).to_set().filter(f) =~= Set::<Seq<nat>>::empty());
    } else {
        lemma_count_prefix(m, s, k - 1);
        let prev = ord.take(k - 1).to_set().filter(f);
        let cur = ord.take(k).to_set().filter(f);
        assert(vals.take(k).drop_last() =~= vals.take(k - 1));
        assert(vals.take(k).last() == vals[k - 1]);
        assert(m.cells()[ord[k - 1]] == vals[k - 1]);
        assert(ord.take(k) =~= ord.take(k - 1).push(ord[k - 1]));
        ord.take(k - 1).lemma_push_to_set_commute(ord[k - 1]);
        assert(!ord.take(k - 1).to_set().contains(ord[k - 1])) by {
            let pre = ord.take(k - 1);
            if pre.to_set().contains(ord[k - 1]) {
                assert(pre.contains(ord[k - 1]));
                let j = choose|j: int| 0 <= j < pre.len() && #[trigger] pre[j] == ord[k - 1];
                assert(ord[j] == ord[k - 1]);
            }
        }
        if val(vals[k - 1], s) {
            assert(cur =~= prev.insert(ord[k - 1]));
        } else {
            assert(cur =~= prev);
        }
    }
}

/// The cells that hold under `s` count the tuples the matrix denotes.
proof fn lemma_count_denote(m: &Matrix, s: Assignment)
    requires
        m.wf(),
    ensures
        count_true(m.values(), s) == m.denote(s).len(),
{
    lemma_count_prefix(m, s, m.order().len() as int);
    assert(m.values().take(m.order().len() as int) =~= m.values());
    assert(m.order().take(m.order().len() as int) =~= m.order());
    assert(m.order().to_set().filter(|t: Seq<nat>| val(m.cells()[t], s)) =~= m.denote(s));
}

/// A binary integer operation on two encoded operands at width `w`, with
/// the operands' flags and its own gathered into one; `None` for a shift,
/// which the encoding does not compute.
#[verifier::spinoff_prover]
#[verifier::rlimit(50)]
fn int_binary_op(c: &mut Circuit, w: usize, op: IntBinOp, a: &IntVal, oa: Bool, b: &IntVal, ob: Bool) -> (r: Option<(IntVal, Bool)>)
    requires
        old(c).wf(),
        1 <= w <= 31,
        a@.len() == w,
        b@.len() == w,
        all_valid(a@, old(c).nv()),
        all_valid(b@, old(c).nv()),
        valid(oa, old(c).nv()),
        valid(ob, old(c).nv()),
        old(c).nv() + 128 * w * w + 8 <= u32::MAX,
    ensures
        grown(old(c), final(c)),
        r is Some <==> int_binop_spec(op, 0, 0, w as nat) is Some,
        r matches Some((v, of)) ==> {
            &&& v@.len() == w
            &&& all_valid(v@, final(c).nv())
            &&& valid(of, final(c).nv())
            &&& forall|s: Assignment|
                #[trigger] sat(final(c).cls(), s) ==> int_binop_spec(op, sval(a@, s), sval(b@, s), w as nat) == Some(
                    (sval(v@, s), (int_binop_spec(op, sval(a@, s), sval(b@, s), w as nat)->0).1),
                ) && val(of, s) == (val(oa, s) || val(ob, s) || (int_binop_spec(op, sval(a@, s), sval(b@, s), w as nat)->0).1)
        },
{
    let ghost c0 = *c;
    proof {
        lemma_grown_refl(&c0);
    }
    match op {
        IntBinOp::Shl | IntBinOp::Sha | IntBinOp::Shr => {
            return None;
        },
        _ => {},
    }
    assert(44 * w * w + 9 * w + 3 <= 128 * w * w) by (nonlinear_arith)
        requires
            1 <= w,
    ;
    let mut ib = builder(c, w);
    let (v, vof) = match op {
        IntBinOp::Add => ib.add_signed(a, b),
        IntBinOp::Sub => ib.sub_signed(a, b),
        IntBinOp::Mul => ib.multiply(a, b),
        IntBinOp::Div => {
            let dr = ib.div_rem(a, b);
            (dr.quotient, dr.div_overflow)
        },
        _ => {
            let dr = ib.div_rem(a, b);
            (dr.remainder, dr.rem_overflow)
        },
    };
    restore(c, ib);
    let ghost c1 = *c;
    let inherited = c.or(oa, ob);
    let ghost c2 = *c;
    let of = c.or(inherited, vof);
    proof {
        lemma_grown_trans(&c0, &c1, &c2);
        lemma_grown_trans(&c0, &c2, c);
        lemma_bits_up(v@, c1.nv(), c.nv());
        assert forall|s: Assignment| #[trigger] sat(c.cls(), s) implies int_binop_spec(op, sval(a@, s), sval(b@, s), w as nat) == Some(
            (sval(v@, s), (int_binop_spec(op, sval(a@, s), sval(b@, s), w as nat)->0).1),
        ) && val(of, s) == (val(oa, s) || val(ob, s) || (int_binop_spec(op, sval(a@, s), sval(b@, s), w as nat)->0).1) by {
            lemma_sat_back(&c2, c, s);
            lemma_sat_back(&c1, &c2, s);
        }
    }
    Some((v, of))
}

/// The cardinality of an encoded matrix at width `w`, with its flag.
fn int_card_op(c: &mut Circuit, w: usize, m: &Matrix, span: Span) -> (r: Result<(IntVal, Bool), TranslateError>)
    requires
        old(c).wf(),
        1 <= w <= 31,
        m.wf(),
        m.valid_below(old(c).nv()),
    ensures
        grown(old(c), final(c)),
        r matches Ok((v, of)) ==> {
            &&& v@.len() == w
            &&& all_valid(v@, final(c).nv())
            &&& valid(of, final(c).nv())
            &&& forall|s: Assignment|
                #[trigger] sat(final(c).cls(), s) ==> sval(v@, s) == wrap(m.denote(s).len() as int, w as nat) && val(of, s) == (
                m.denote(s).len() >= vstd::arithmetic::power2::pow2((w - 1) as nat))
        },
        r matches Err(e) ==> out_of_room(e, final(c).nv()),
{
    let ghost c0 = *c;
    proof {
        lemma_grown_refl(&c0);
        crate::matrix::Matrix::lemma_wf(m);
    }
    let l = m.len() as u64;
    let need = match l.checked_mul(l) {
        Some(q) => match q.checked_mul(9) {
            Some(q9) => q9.checked_add(1),
            None => None,
        },
        None => None,
    };
    let need = match need {
        Some(x) => x,
        None => {
            return Err(TranslateError::CapacityExceeded { cap: 0xffff_ffff_ffff_ffffu64, span });
        },
    };
    room_or(c, Some(need), span)?;
    proof {
        assert(9 * m.values().len() * m.values().len() + 1 == need) by (nonlinear_arith)
            requires
                need == l * l * 9 + 1,
                l == m.values().len(),
        ;
    }
    let mut ib = builder(c, w);
    let (v, of) = int_card(&mut ib, m);
    restore(c, ib);
    proof {
        assert forall|s: Assignment| #[trigger] sat(c.cls(), s) implies sval(v@, s) == wrap(m.denote(s).len() as int, w as nat) && val(of, s)
            == (m.denote(s).len() >= vstd::arithmetic::power2::pow2((w - 1) as nat)) by {
            lemma_count_denote(m, s);
        }
    }
    Ok((v, of))
}

/// `−a` at width `w ≥ 2`, with the operand's flag and its own.
fn int_neg_op(c: &mut Circuit, w: usize, a: &IntVal, oa: Bool, span: Span) -> (r: Result<(IntVal, Bool), TranslateError>)
    requires
        old(c).wf(),
        1 <= w <= 31,
        a@.len() == w,
        all_valid(a@, old(c).nv()),
        valid(oa, old(c).nv()),
    ensures
        grown(old(c), final(c)),
        r matches Ok((v, of)) ==> {
            &&& v@.len() == w
            &&& all_valid(v@, final(c).nv())
            &&& valid(of, final(c).nv())
            &&& forall|s: Assignment|
                #[trigger] sat(final(c).cls(), s) ==> sval(v@, s) == wrap(-sval(a@, s), w as nat) && val(of, s) == (val(oa, s)
                    || !in_range(-sval(a@, s), w as nat))
        },
        r matches Err(e) ==> out_of_room(e, final(c).nv()) || w < 2,
{
    let ghost c0 = *c;
    proof {
        lemma_grown_refl(&c0);
    }
    if w < 2 {
        return Err(unsupported(span));
    }
    room_or(c, Some(9 * (w as u64) + 6), span)?;
    let mut ib = builder(c, w);
    let (v, nof) = ib.negate(a);
    restore(c, ib);
    let ghost c1 = *c;
    let of = c.or(oa, nof);
    proof {
        lemma_grown_trans(&c0, &c1, c);
        lemma_bits_up(v@, c1.nv(), c.nv());
        assert forall|s: Assignment| #[trigger] sat(c.cls(), s) implies sval(v@, s) == wrap(-sval(a@, s), w as nat) && val(of, s) == (val(oa, s)
            || !in_range(-sval(a@, s), w as nat)) by {
            lemma_sat_back(&c1, c, s);
        }
    }
    Ok((v, of))
}

/// `if g then t else e` on encoded values at width `w`, flags chosen alike.
fn int_ite_op(c: &mut Circuit, w: usize, g: Bool, t: &IntVal, ot: Bool, e: &IntVal, oe: Bool, span: Span) -> (r: Result<(IntVal, Bool), TranslateError>)
    requires
        old(c).wf(),
        1 <= w <= 31,
        t@.len() == w,
        e@.len() == w,
        valid(g, old(c).nv()),
        all_valid(t@, old(c).nv()),
        all_valid(e@, old(c).nv()),
        valid(ot, old(c).nv()),
        valid(oe, old(c).nv()),
    ensures
        grown(old(c), final(c)),
        r matches Ok((v, of)) ==> {
            &&& v@.len() == w
            &&& all_valid(v@, final(c).nv())
            &&& valid(of, final(c).nv())
            &&& forall|s: Assignment|
                #[trigger] sat(final(c).cls(), s) ==> sval(v@, s) == (if val(g, s) {
                    sval(t@, s)
                } else {
                    sval(e@, s)
                }) && val(of, s) == (if val(g, s) {
                    val(ot, s)
                } else {
                    val(oe, s)
                })
        },
        r matches Err(e) ==> out_of_room(e, final(c).nv()),
{
    let ghost c0 = *c;
    proof {
        lemma_grown_refl(&c0);
    }
    room_or(c, Some(3 * (w as u64) + 3), span)?;
    let mut ib = builder(c, w);
    let v = ib.mux(g, t, e);
    restore(c, ib);
    let ghost c1 = *c;
    let of = c.ite(g, ot, oe);
    proof {
        lemma_grown_trans(&c0, &c1, c);
        lemma_bits_up(v@, c1.nv(), c.nv());
        assert forall|s: Assignment| #[trigger] sat(c.cls(), s) implies sval(v@, s) == (if val(g, s) {
            sval(t@, s)
        } else {
            sval(e@, s)
        }) && val(of, s) == (if val(g, s) {
            val(ot, s)
        } else {
            val(oe, s)
        }) by {
            lemma_sat_back(&c1, c, s);
        }
    }
    Ok((v, of))
}

/// `Int[v]` on an encoded value at the bit width: the `Int` atoms whose
/// value `v` takes, where the atoms stand for values of that width.
fn int_atom_op(c: &mut Circuit, p: IntParams, v: &IntVal, span: Span) -> (r: Result<Matrix, TranslateError>)
    requires
        old(c).wf(),
        1 <= p.bitwidth <= 31,
        v@.len() == p.bitwidth,
        all_valid(v@, old(c).nv()),
    ensures
        grown(old(c), final(c)),
        r matches Ok(m) ==> {
            &&& m.wf()
            &&& m.ar() == 1
            &&& m.valid_below(final(c).nv())
            &&& forall|s: Assignment|
                #[trigger] sat(final(c).cls(), s) ==> m.denote(s) == crate::evaluator::int_atoms(sval(v@, s), p)
        },
        r matches Err(e) ==> out_of_room(e, final(c).nv()) || !int_atoms_ok(p),
{
    let ghost c0 = *c;
    proof {
        lemma_grown_refl(&c0);
    }
    let (m2, _half) = crate::evaluator::powers(p.bitwidth);
    if p.int_start > p.int_end || p.int_end - p.int_start > m2 as usize {
        return Err(unsupported(span));
    }
    let count = (p.int_end - p.int_start) as u64;
    let per = 3 * (p.bitwidth as u64) + 1;
    let need = match count.checked_mul(per) {
        Some(x) => x,
        None => {
            return Err(TranslateError::CapacityExceeded { cap: 0xffff_ffff_ffff_ffffu64, span });
        },
    };
    room_or(c, Some(need), span)?;
    let w = p.bitwidth as usize;
    let mut ib = builder(c, w);
    let m = crate::encode::terms::int_to_atom(&mut ib, v, p.int_start, p.int_end, p.bitwidth);
    restore(c, ib);
    proof {
        let wn = p.bitwidth as nat;
        assert forall|s: Assignment| #[trigger] sat(c.cls(), s) implies m.denote(s) == crate::evaluator::int_atoms(sval(v@, s), p) by {
            assert forall|t: Seq<nat>| m.denote(s).contains(t) <==> crate::evaluator::int_atoms(sval(v@, s), p).contains(t) by {
                if t.len() == 1 && p.int_start <= t[0] < p.int_end {
                    let i = t[0];
                    assert(t =~= seq![i]);
                    let x = crate::encode::terms::atom_value_or_zero(i, p.int_start as nat, p.int_end as nat, wn);
                    assert(x == -vstd::arithmetic::power2::pow2((wn - 1) as nat) + (i - p.int_start));
                    vstd::arithmetic::power2::lemma_pow2_unfold(wn);
                    assert(in_range(x, wn));
                    crate::encode::integer::lemma_wrap_in_range(x, 0, wn);
                    assert(wrap(x, wn) == x);
                    crate::matrix::Matrix::lemma_denote_cell(&m, seq![i], s);
                    assert(val(m.cell(seq![i]), s) == (sval(v@, s) == wrap(x, wn)));
                } else {
                    if m.denote(s).contains(t) {
                        assert(m.dom().contains(t));
                    }
                }
            }
            assert(m.denote(s) =~= crate::evaluator::int_atoms(sval(v@, s), p));
        }
    }
    Ok(m)
}

/// A grounded `sum`: over the candidates in order, each value counted where
/// its cell holds (zero elsewhere), added in two's complement at width `w`;
/// the flag gathers each counted value's flag and each addition leaving the
/// signed range.
pub open spec fn grounded_sum(cells: Seq<bool>, vals: Seq<(int, bool)>, w: nat) -> (int, bool)
    decreases cells.len(),
{
    if cells.len() == 0 || vals.len() == 0 {
        (0, false)
    } else {
        let a = grounded_sum(cells.drop_last(), vals.drop_last(), w);
        let x = if cells.last() {
            vals.last().0
        } else {
            0
        };
        (wrap(a.0 + x, w), a.1 || (cells.last() && vals.last().1) || !in_range(a.0 + x, w))
    }
}

/// The grounded sum over the first `k` candidates is the evaluator's sum
/// over those of them the bound holds, in order.
proof fn lemma_sum_prefix(
    ir: Ir,
    inst: InstView,
    p: IntParams,
    e0: Seq<Option<Seq<nat>>>,
    i: usize,
    vi: usize,
    body: usize,
    d: Set<Seq<nat>>,
    ord: Seq<Seq<nat>>,
    cells: Seq<bool>,
    vals: Seq<(int, bool)>,
    k: int,
)
    requires
        the_rank(ir)(NodeRef::Int(body)) < the_rank(ir)(NodeRef::Int(i)),
        1 <= p.bitwidth,
        0 <= k <= ord.len(),
        cells.len() == ord.len(),
        vals.len() == ord.len(),
        forall|j: int| 0 <= j < ord.len() ==> d.contains(ord[j]) == #[trigger] cells[j],
        forall|j: int|
            0 <= j < ord.len() ==> #[trigger] int_value(ir, inst, p, e0.update(vi as int, Some(ord[j])), body) == Some(vals[j]),
    ensures
        crate::evaluator::sum_bindings(ir, the_rank(ir), inst, p, e0, NodeRef::Int(i), vi, body, keep(ord.take(k), d)) == Some(
            grounded_sum(cells.take(k), vals.take(k), p.bitwidth as nat),
        ),
        in_range(grounded_sum(cells.take(k), vals.take(k), p.bitwidth as nat).0, p.bitwidth as nat),
    decreases k,
{
    let w = p.bitwidth as nat;
    let rank = the_rank(ir);
    let n = NodeRef::Int(i);
    if k == 0 {
        assert(ord.take(0) =~= Seq::<Seq<nat>>::empty());
        assert(cells.take(0) =~= Seq::<bool>::empty());
        vstd::arithmetic::power2::lemma_pow2_pos((w - 1) as nat);
    } else {
        lemma_sum_prefix(ir, inst, p, e0, i, vi, body, d, ord, cells, vals, k - 1);
        let q = ord.take(k);
        assert(q.drop_last() =~= ord.take(k - 1));
        assert(q.last() == ord[k - 1]);
        assert(cells.take(k).drop_last() =~= cells.take(k - 1));
        assert(vals.take(k).drop_last() =~= vals.take(k - 1));
        assert(cells.take(k).last() == cells[k - 1]);
        assert(vals.take(k).last() == vals[k - 1]);
        let a = grounded_sum(cells.take(k - 1), vals.take(k - 1), w);
        let hb = crate::evaluator::i_sub(ir, rank, inst, p, e0.update(vi as int, Some(ord[k - 1])), n, body);
        assert(hb == int_value(ir, inst, p, e0.update(vi as int, Some(ord[k - 1])), body));
        if cells[k - 1] {
            let ks = keep(q, d);
            assert(ks == keep(ord.take(k - 1), d).push(ord[k - 1]));
            assert(ks.drop_last() =~= keep(ord.take(k - 1), d));
            crate::encode::terms::lemma_wrap_range(a.0 + vals[k - 1].0, w);
        } else {
            assert(keep(q, d) == keep(ord.take(k - 1), d));
            crate::encode::integer::lemma_wrap_in_range(a.0, 0, w);
        }
    }
}

/// A `sum` node's value from its grounding over the bound's candidates.
proof fn lemma_sum_value(
    ir: Ir,
    inst: InstView,
    p: IntParams,
    e0: Seq<Option<Seq<nat>>>,
    i: usize,
    var: crate::ir::VarId,
    bound: RelExprId,
    body: IntExprId,
    ord: Seq<Seq<nat>>,
    cells: Seq<bool>,
    vals: Seq<(int, bool)>,
)
    requires
        ranked(ir, the_rank(ir)),
        i < ir.int_exprs@.len(),
        ir.int_exprs@[i as int].kind == (IntExprKind::Sum { var, bound, body }),
        the_rank(ir)(NodeRef::Rel(bound.index)) < the_rank(ir)(NodeRef::Int(i)),
        the_rank(ir)(NodeRef::Int(body.index)) < the_rank(ir)(NodeRef::Int(i)),
        var.index < e0.len(),
        1 <= p.bitwidth,
        lex_sorted(ord),
        cells.len() == ord.len(),
        vals.len() == ord.len(),
        denote(ir, inst, p, e0, bound.index) is Some,
        forall|j: int|
            0 <= j < ord.len() ==> (denote(ir, inst, p, e0, bound.index)->0).1.contains(ord[j]) == #[trigger] cells[j],
        forall|t: Seq<nat>| #[trigger] (denote(ir, inst, p, e0, bound.index)->0).1.contains(t) ==> ord.contains(t),
        forall|j: int|
            0 <= j < ord.len() ==> #[trigger] int_value(ir, inst, p, e0.update(var.index as int, Some(ord[j])), body.index) == Some(
                vals[j],
            ),
    ensures
        int_value(ir, inst, p, e0, i) == Some(grounded_sum(cells, vals, p.bitwidth as nat)),
{
    let rank = the_rank(ir);
    let n = NodeRef::Int(i);
    let d = (denote(ir, inst, p, e0, bound.index)->0).1;
    assert(d_sub(ir, rank, inst, p, e0, n, bound.index) == denote(ir, inst, p, e0, bound.index));
    lemma_sum_prefix(ir, inst, p, e0, i, var.index, body.index, d, ord, cells, vals, ord.len() as int);
    assert(ord.take(ord.len() as int) =~= ord);
    assert(cells.take(ord.len() as int) =~= cells);
    assert(vals.take(ord.len() as int) =~= vals);
    lemma_keep(ord, d);
    assert forall|t: Seq<nat>| d.contains(t) implies ord.to_set().contains(t) by {}
    assert(keep(ord, d).to_set() =~= d);
    let ts = crate::evaluator::sorted_of(d);
    assert(lex_sorted(ts) && ts.to_set() == d);
    crate::lex::lemma_lex_sorted_unique(keep(ord, d), ts);
}

/// One addition of a grounded sum: the body's value `bv` counted where
/// `cell` holds, added to `acc` at width `w`; the flag gathers `flag`, the
/// counted body's flag `bof`, and the addition's own.
fn sum_add_op(c: &mut Circuit, w: usize, cell: Bool, bv: &IntVal, bof: Bool, acc: &IntVal, flag: Bool) -> (r: (IntVal, Bool))
    requires
        old(c).wf(),
        1 <= w <= 31,
        bv@.len() == w,
        acc@.len() == w,
        valid(cell, old(c).nv()),
        valid(bof, old(c).nv()),
        valid(flag, old(c).nv()),
        all_valid(bv@, old(c).nv()),
        all_valid(acc@, old(c).nv()),
        old(c).nv() + 16 * w + 8 <= u32::MAX,
    ensures
        grown(old(c), final(c)),
        r.0@.len() == w,
        all_valid(r.0@, final(c).nv()),
        valid(r.1, final(c).nv()),
        forall|s: Assignment|
            #[trigger] sat(final(c).cls(), s) ==> {
                let x = if val(cell, s) {
                    sval(bv@, s)
                } else {
                    0
                };
                &&& sval(r.0@, s) == wrap(sval(acc@, s) + x, w as nat)
                &&& val(r.1, s) == (val(flag, s) || (val(cell, s) && val(bof, s)) || !in_range(sval(acc@, s) + x, w as nat))
            },
{
    let ghost c0 = *c;
    let ghost wn = w as nat;
    let zero = IntVal::constant(0, w);
    let mut ib = builder(c, w);
    let gated = ib.mux(cell, bv, &zero);
    let ghost cm = ib.c();
    let (next, add_of) = ib.add_signed(acc, &gated);
    restore(c, ib);
    let ghost c1 = *c;
    proof {
        lemma_grown_trans(&c0, &cm, &c1);
        assert forall|s: Assignment| #[trigger] sat(c1.cls(), s) implies sval(next@, s) == wrap(
            sval(acc@, s) + (if val(cell, s) {
                sval(bv@, s)
            } else {
                0
            }),
            wn,
        ) && val(add_of, s) == !in_range(
            sval(acc@, s) + (if val(cell, s) {
                sval(bv@, s)
            } else {
                0
            }),
            wn,
        ) by {
            lemma_sat_back(&cm, &c1, s);
            vstd::arithmetic::power2::lemma_pow2_pos((wn - 1) as nat);
            crate::encode::integer::lemma_wrap_in_range(0, 0, wn);
            assert(sval(zero@, s) == 0);
            assert(sval(gated@, s) == if val(cell, s) {
                sval(bv@, s)
            } else {
                sval(zero@, s)
            });
        }
    }
    let present = c.and(cell, bof);
    let ghost c2 = *c;
    let f1 = c.or(flag, present);
    let ghost c3 = *c;
    let f2 = c.or(f1, add_of);
    proof {
        lemma_grown_trans(&c0, &c1, &c2);
        lemma_grown_trans(&c0, &c2, &c3);
        lemma_grown_trans(&c0, &c3, c);
        lemma_bits_up(next@, c1.nv(), c.nv());
        assert forall|s: Assignment| #[trigger] sat(c.cls(), s) implies {
            let x = if val(cell, s) {
                sval(bv@, s)
            } else {
                0
            };
            &&& sval(next@, s) == wrap(sval(acc@, s) + x, wn)
            &&& val(f2, s) == (val(flag, s) || (val(cell, s) && val(bof, s)) || !in_range(sval(acc@, s) + x, wn))
        } by {
            lemma_sat_back(&c3, c, s);
            lemma_sat_back(&c2, &c3, s);
            lemma_sat_back(&c1, &c2, s);
        }
    }
    (next, f2)
}

/// One step of a grounded sum.
proof fn lemma_sum_step(cells: Seq<bool>, vs0: Seq<(int, bool)>, k: int, x: (int, bool), acc: int, flag: bool, gated: int, w: nat)
    requires
        0 <= k < cells.len(),
        vs0.len() == k,
        w >= 1,
        (acc, flag) == grounded_sum(cells.take(k), vs0, w),
        gated == if cells[k] {
            x.0
        } else {
            0
        },
    ensures
        (wrap(acc + gated, w), flag || (cells[k] && x.1) || !in_range(acc + gated, w)) == grounded_sum(
            cells.take(k + 1),
            vs0.push(x),
            w,
        ),
{
    assert(cells.take(k + 1).drop_last() =~= cells.take(k));
    assert(vs0.push(x).drop_last() =~= vs0);
    assert(cells.take(k + 1).last() == cells[k]);
}

/// The values a grounding saw under `s`: each candidate's cell, and each
/// body's value and flag.
pub open spec fn sum_cells(vals: Seq<Bool>, s: Assignment) -> Seq<bool> {
    Seq::new(vals.len(), |j: int| val(vals[j], s))
}

/// The bodies' values and flags under `s`.
pub open spec fn sum_vals(bodies: Seq<(Seq<Bool>, Bool)>, s: Assignment) -> Seq<(int, bool)> {
    Seq::new(bodies.len(), |j: int| (sval(bodies[j].0, s), val(bodies[j].1, s)))
}

/// The grounding of `sum` node `i` over the candidate tuples of its bound's
/// matrix `bm`: for each, the body with variable `vi` bound to it, counted
/// where the tuple's cell holds, added in order.
fn ground_sum(
    c: &mut Circuit,
    st: &EncodeState,
    ir: &Ir,
    env: &mut Vec<Option<Tuple>>,
    i: IntExprId,
    bm: &Matrix,
    vi: usize,
    body: IntExprId,
    span: Span,
) -> (res: Result<(IntVal, Bool, Ghost<Seq<(Seq<Bool>, Bool)>>), TranslateError>)
    requires
        enc_ok(*ir, *old(c), *st),
        1 <= st.params.bitwidth <= 31,
        bm.wf(),
        bm.valid_below(old(c).nv()),
        vi < old(env)@.len(),
        body.index < ir.int_exprs@.len(),
        the_rank(*ir)(NodeRef::Int(body.index)) < the_rank(*ir)(NodeRef::Int(i.index)),
    ensures
        grown(old(c), final(c)),
        env_view(final(env)@) == env_view(old(env)@),
        res matches Ok((v, of, bodies)) ==> {
            &&& v@.len() == st.params.bitwidth
            &&& all_valid(v@, final(c).nv())
            &&& valid(of, final(c).nv())
            &&& bodies@.len() == bm.order().len()
            &&& forall|s: Assignment|
                #[trigger] sat(final(c).cls(), s) ==> {
                    &&& forall|j: int|
                        0 <= j < bm.order().len() ==> #[trigger] int_value(
                            *ir,
                            st.instance_of(s),
                            st.params,
                            env_view(old(env)@).update(vi as int, Some(bm.order()[j])),
                            body.index,
                        ) == Some(sum_vals(bodies@, s)[j])
                    &&& (sval(v@, s), val(of, s)) == grounded_sum(
                        sum_cells(bm.values(), s),
                        sum_vals(bodies@, s),
                        st.params.bitwidth as nat,
                    )
                }
        },
        res matches Err(e) ==> out_of_room(e, final(c).nv()) || !int_sorted(
            *ir,
            the_rank(*ir),
            *st,
            env_shape(env_view(old(env)@)).update(vi as int, Some(bm.ar())),
            body.index,
        ),
    decreases the_rank(*ir)(NodeRef::Int(i.index)), 0nat, 0nat,
{
    let ghost c1 = *c;
    let ghost e0 = env_view(env@);
    let w = st.params.bitwidth as usize;
    let ghost wn = w as nat;
    let cands = bm.iter();
    let ghost ord = bm.order();
    let ghost vals = bm.values();
    let mut acc = IntVal::constant(0, w);
    let mut flag = Bool::Const(false);
    let ghost mut bodies: Seq<(Seq<Bool>, Bool)> = Seq::empty();
    let mut k: usize = 0;
    proof {
        assert(e0.len() == env@.len());
        lemma_grown_refl(&c1);
        assert forall|s: Assignment| #[trigger] sat(c.cls(), s) implies (sval(acc@, s), val(flag, s)) == grounded_sum(
            sum_cells(vals, s).take(0),
            sum_vals(bodies, s),
            wn,
        ) by {
            vstd::arithmetic::power2::lemma_pow2_pos((wn - 1) as nat);
            crate::encode::integer::lemma_wrap_in_range(0, 0, wn);
        }
    }
    while k < cands.len()
        invariant
            c1 == *old(c),
            ranked(*ir, the_rank(*ir)),
            e0 == env_view(old(env)@),
            env_view(env@) == e0,
            vi < env@.len(),
            w == st.params.bitwidth,
            wn == w as nat,
            1 <= w <= 31,
            body.index < ir.int_exprs@.len(),
            the_rank(*ir)(NodeRef::Int(body.index)) < the_rank(*ir)(NodeRef::Int(i.index)),
            crate::tuple_map::entry_keys(cands@) == ord,
            crate::tuple_map::entry_vals(cands@) == vals,
            ord == bm.order(),
            vals == bm.values(),
            bm.wf(),
            bm.valid_below(c1.nv()),
            k <= cands@.len(),
            bodies.len() == k,
            grown(&c1, c),
            st.wf(c.nv()),
            acc@.len() == w,
            all_valid(acc@, c.nv()),
            valid(flag, c.nv()),
            forall|s: Assignment|
                #[trigger] sat(c.cls(), s) ==> {
                    &&& forall|j: int|
                        0 <= j < k ==> #[trigger] int_value(*ir, st.instance_of(s), st.params, e0.update(vi as int, Some(ord[j])), body.index)
                            == Some(sum_vals(bodies, s)[j])
                    &&& (sval(acc@, s), val(flag, s)) == grounded_sum(sum_cells(vals, s).take(k as int), sum_vals(bodies, s), wn)
                },
        decreases cands@.len() - k,
    {
        let ghost c2 = *c;
        let t = cands[k].0.duplicate();
        let cell = cands[k].1;
        proof {
            assert(ord[k as int] == cands@[k as int].0@);
            assert(vals[k as int] == cands@[k as int].1);
            crate::encode::lemma_cell_at(bm, k as int, c1.nv());
        }
        let prev = crate::evaluator::copy_binding(&env[vi]);
        let ghost e_before = env@;
        env.set(vi, Some(t));
        proof {
            crate::evaluator::lemma_env_update(e_before, vi as int, Some(t));
            assert(env_view(env@) == e0.update(vi as int, Some(ord[k as int])));
        }
        let r = encode_int_r(c, st, ir, env, body);
        let ghost e_after = env@;
        env.set(vi, prev);
        proof {
            crate::evaluator::lemma_env_update(e_after, vi as int, prev);
            assert(env_view(e_before)[vi as int] == e0[vi as int]);
            assert(env_view(env@) =~= e0);
        }
        let (bv, bof) = match r {
            Ok(x) => x,
            Err(e) => {
                proof {
                    lemma_grown_trans(&c1, &c2, c);
                    lemma_shape_update(e0, vi as int, ord[k as int]);
                }
                return Err(e);
            },
        };
        let ghost c3 = *c;
        proof {
            lemma_grown_trans(&c1, &c2, &c3);
            lemma_state_up(st, c2.nv(), c3.nv());
            lemma_bits_up(acc@, c2.nv(), c3.nv());
        }
        room_or(c, Some(16 * (w as u64) + 8), span)?;
        let (next, f2) = sum_add_op(c, w, cell, &bv, bof, &acc, flag);
        proof {
            lemma_grown_trans(&c1, &c3, c);
            lemma_state_up(st, c3.nv(), c.nv());
            let ghost old_bodies = bodies;
            bodies = bodies.push((bv@, bof));
            assert forall|s: Assignment| #[trigger] sat(c.cls(), s) implies {
                &&& forall|j: int|
                    0 <= j < k + 1 ==> #[trigger] int_value(*ir, st.instance_of(s), st.params, e0.update(vi as int, Some(ord[j])), body.index)
                        == Some(sum_vals(bodies, s)[j])
                &&& (sval(next@, s), val(f2, s)) == grounded_sum(sum_cells(vals, s).take(k + 1), sum_vals(bodies, s), wn)
            } by {
                lemma_sat_back(&c3, c, s);
                lemma_sat_back(&c2, &c3, s);
                let cs = sum_cells(vals, s);
                let vs = sum_vals(bodies, s);
                let vs0 = sum_vals(old_bodies, s);
                assert(vs =~= vs0.push((sval(bv@, s), val(bof, s))));
                assert forall|j: int| 0 <= j < k implies vs[j] == vs0[j] by {}
                let gated = if val(cell, s) { sval(bv@, s) } else { 0 };
                lemma_sum_step(cs, vs0, k as int, (sval(bv@, s), val(bof, s)), sval(acc@, s), val(flag, s), gated, wn);
            }
        }
        acc = next;
        flag = f2;
        k = k + 1;
    }
    proof {
        assert forall|s: Assignment| #[trigger] sat(c.cls(), s) implies sum_cells(vals, s).take(k as int) == sum_cells(vals, s) by {
            assert(sum_cells(vals, s).take(k as int) =~= sum_cells(vals, s));
        }
    }
    Ok((acc, flag, Ghost(bodies)))
}

/// `int[m]` at the bit width: the sum of the `Int` atoms' values that the
/// encoded matrix holds, in order, with the flag of any addition leaving
/// the signed range.
fn int_of_atoms_op(c: &mut Circuit, p: IntParams, m: &Matrix, span: Span) -> (r: Result<(IntVal, Bool), TranslateError>)
    requires
        old(c).wf(),
        1 <= p.bitwidth <= 31,
        m.wf(),
        m.valid_below(old(c).nv()),
    ensures
        grown(old(c), final(c)),
        r matches Ok((v, of)) ==> {
            &&& v@.len() == p.bitwidth
            &&& all_valid(v@, final(c).nv())
            &&& valid(of, final(c).nv())
            &&& forall|s: Assignment|
                #[trigger] sat(final(c).cls(), s) ==> (sval(v@, s), val(of, s)) == crate::encode::terms::running_sum(
                    crate::encode::terms::atom_values(
                        crate::evaluator::sorted_of(m.denote(s)),
                        p.int_start as nat,
                        p.int_end as nat,
                        p.bitwidth as nat,
                    ),
                    p.bitwidth as nat,
                )
        },
        r matches Err(e) ==> out_of_room(e, final(c).nv()) || !int_atoms_ok(p),
{
    let ghost c0 = *c;
    proof {
        lemma_grown_refl(&c0);
        crate::matrix::Matrix::lemma_wf(m);
    }
    let (m2, _half) = crate::evaluator::powers(p.bitwidth);
    if p.int_start > p.int_end || p.int_end - p.int_start > m2 as usize {
        return Err(unsupported(span));
    }
    let l = m.len() as u64;
    let per = 9 * (p.bitwidth as u64) + 4;
    let need = match l.checked_mul(per) {
        Some(x) => x,
        None => {
            return Err(TranslateError::CapacityExceeded { cap: 0xffff_ffff_ffff_ffffu64, span });
        },
    };
    room_or(c, Some(need), span)?;
    let w = p.bitwidth as usize;
    let mut ib = builder(c, w);
    let (v, of) = crate::encode::terms::int_atom_to_int(&mut ib, m, p.int_start, p.int_end, p.bitwidth);
    restore(c, ib);
    proof {
        let wn = p.bitwidth as nat;
        assert forall|s: Assignment| #[trigger] sat(c.cls(), s) implies (sval(v@, s), val(of, s)) == crate::encode::terms::running_sum(
            crate::encode::terms::atom_values(
                crate::evaluator::sorted_of(m.denote(s)),
                p.int_start as nat,
                p.int_end as nat,
                wn,
            ),
            wn,
        ) by {
            crate::encode::terms::lemma_int_cast_agrees_set(*m, s, p.int_start as nat, p.int_end as nat, wn, wn);
        }
    }
    Ok((v, of))
}

/// One integer expression under the bindings `env`, leaving them as they
/// were: its two's-complement bits at the bit width, and its overflow flag.
#[verifier::rlimit(60)]
#[verifier::rlimit(80)]
fn encode_int_r(c: &mut Circuit, st: &EncodeState, ir: &Ir, env: &mut Vec<Option<Tuple>>, i: IntExprId) -> (res: Result<
    (IntVal, Bool),
    TranslateError,
>)
    requires
        enc_ok(*ir, *old(c), *st),
        i.index < ir.int_exprs@.len(),
    ensures
        grown(old(c), final(c)),
        env_view(final(env)@) == env_view(old(env)@),
        res matches Ok((v, of)) ==> {
            &&& 1 <= st.params.bitwidth <= 31
            &&& v@.len() == st.params.bitwidth
            &&& all_valid(v@, final(c).nv())
            &&& valid(of, final(c).nv())
            &&& forall|s: Assignment|
                #[trigger] sat(final(c).cls(), s) ==> int_value(*ir, st.instance_of(s), st.params, env_view(old(env)@), i.index)
                    == Some((sval(v@, s), val(of, s)))
        },
        res matches Err(e) ==> out_of_room(e, final(c).nv()) || !int_sorted_in(*ir, *st, env_view(old(env)@), i.index),
    decreases the_rank(*ir)(NodeRef::Int(i.index)), 1nat, 0nat,
{
    let ghost rank = the_rank(*ir);
    let ghost n = NodeRef::Int(i.index);
    let ghost c0 = *c;
    let ghost e0 = env_view(env@);
    let ghost sh = env_shape(e0);
    let ghost wn = st.params.bitwidth as nat;
    proof {
        lemma_grown_refl(&c0);
        assert(node_valid(*ir, n));
    }
    let node = &ir.int_exprs[i.index];
    let span = node.span;
    if st.params.bitwidth < 1 || st.params.bitwidth > 31 {
        return Err(unsupported(span));
    }
    let w = st.params.bitwidth as usize;
    match &node.kind {
        IntExprKind::Const(v) => {
            let (_m, half) = crate::evaluator::powers(st.params.bitwidth);
            let x = *v as i64;
            let out = x < -half || x >= half;
            let bits = IntVal::constant(x, w);
            proof {
                assert(all_valid(bits@, c.nv()));
            }
            Ok((bits, Bool::Const(out)))
        },
        IntExprKind::Card(r) => {
            proof {
                assert(children(*ir, n)[0] == NodeRef::Rel(r.index));
                assert(rel_sort_sub(*ir, rank, *st, sh, n, r.index) == rel_sort(*ir, rank, *st, sh, r.index));
            }
            let m = encode_rel_r(c, st, ir, env, *r)?;
            let ghost c1 = *c;
            match int_card_op(c, w, &m, span) {
                Ok((v, of)) => {
                    proof {
                        lemma_grown_trans(&c0, &c1, c);
                        assert forall|s: Assignment| #[trigger] sat(c.cls(), s) implies int_value(*ir, st.instance_of(s), st.params, e0, i.index)
                            == Some((sval(v@, s), val(of, s))) by {
                            lemma_sat_back(&c1, c, s);
                            assert(d_sub(*ir, rank, st.instance_of(s), st.params, e0, n, r.index) == denote(*ir, st.instance_of(s), st.params, e0, r.index));
                        }
                    }
                    Ok((v, of))
                },
                Err(e) => Err(e),
            }
        },
        IntExprKind::Neg(e) => {
            proof {
                assert(children(*ir, n)[0] == NodeRef::Int(e.index));
                assert(int_sort_sub(*ir, rank, *st, sh, n, e.index) == int_sorted(*ir, rank, *st, sh, e.index));
            }
            let (a, oa) = encode_int_r(c, st, ir, env, *e)?;
            let ghost c1 = *c;
            match int_neg_op(c, w, &a, oa, span) {
                Ok((v, of)) => {
                    proof {
                        lemma_grown_trans(&c0, &c1, c);
                        assert forall|s: Assignment| #[trigger] sat(c.cls(), s) implies int_value(*ir, st.instance_of(s), st.params, e0, i.index)
                            == Some((sval(v@, s), val(of, s))) by {
                            lemma_sat_back(&c1, c, s);
                            assert(i_sub(*ir, rank, st.instance_of(s), st.params, e0, n, e.index) == int_value(*ir, st.instance_of(s), st.params, e0, e.index));
                        }
                    }
                    Ok((v, of))
                },
                Err(e) => Err(e),
            }
        },
        IntExprKind::Binary { op, lhs, rhs } => {
            proof {
                assert(children(*ir, n)[0] == NodeRef::Int(lhs.index));
                assert(children(*ir, n)[1] == NodeRef::Int(rhs.index));
                assert(int_sort_sub(*ir, rank, *st, sh, n, lhs.index) == int_sorted(*ir, rank, *st, sh, lhs.index));
                assert(int_sort_sub(*ir, rank, *st, sh, n, rhs.index) == int_sorted(*ir, rank, *st, sh, rhs.index));
            }
            let (a, oa) = encode_int_r(c, st, ir, env, *lhs)?;
            let ghost c1 = *c;
            proof {
                lemma_state_up(st, c0.nv(), c1.nv());
            }
            let (b, ob) = encode_int_r(c, st, ir, env, *rhs)?;
            let ghost c2 = *c;
            proof {
                lemma_grown_trans(&c0, &c1, &c2);
                lemma_bits_up(a@, c1.nv(), c2.nv());
            }
            let wq = w as u64;
            assert(128 * wq * wq + 8 <= 200000) by (nonlinear_arith)
                requires
                    wq <= 31,
            ;
            room_or(c, Some(128 * wq * wq + 8), span)?;
            match int_binary_op(c, w, *op, &a, oa, &b, ob) {
                Some((v, of)) => {
                    proof {
                        lemma_grown_trans(&c0, &c2, c);
                        assert forall|s: Assignment| #[trigger] sat(c.cls(), s) implies int_value(*ir, st.instance_of(s), st.params, e0, i.index)
                            == Some((sval(v@, s), val(of, s))) by {
                            lemma_sat_back(&c2, c, s);
                            lemma_sat_back(&c1, &c2, s);
                            assert(i_sub(*ir, rank, st.instance_of(s), st.params, e0, n, lhs.index) == int_value(*ir, st.instance_of(s), st.params, e0, lhs.index));
                            assert(i_sub(*ir, rank, st.instance_of(s), st.params, e0, n, rhs.index) == int_value(*ir, st.instance_of(s), st.params, e0, rhs.index));
                        }
                    }
                    Ok((v, of))
                },
                None => Err(unsupported(span)),
            }
        },
        IntExprKind::IfThenElse { cond, then_branch, else_branch } => {
            proof {
                assert(children(*ir, n)[0] == NodeRef::Formula(cond.index));
                assert(children(*ir, n)[1] == NodeRef::Int(then_branch.index));
                assert(children(*ir, n)[2] == NodeRef::Int(else_branch.index));
                assert(formula_sort_sub(*ir, rank, *st, sh, n, cond.index) == formula_sorted(*ir, rank, *st, sh, cond.index));
                assert(int_sort_sub(*ir, rank, *st, sh, n, then_branch.index) == int_sorted(*ir, rank, *st, sh, then_branch.index));
                assert(int_sort_sub(*ir, rank, *st, sh, n, else_branch.index) == int_sorted(*ir, rank, *st, sh, else_branch.index));
            }
            let g = encode_formula_r(c, st, ir, env, *cond)?;
            let ghost c1 = *c;
            proof {
                lemma_state_up(st, c0.nv(), c1.nv());
            }
            let (t, ot) = encode_int_r(c, st, ir, env, *then_branch)?;
            let ghost c2 = *c;
            proof {
                lemma_grown_trans(&c0, &c1, &c2);
                lemma_state_up(st, c0.nv(), c2.nv());
            }
            let (e, oe) = encode_int_r(c, st, ir, env, *else_branch)?;
            let ghost c3 = *c;
            proof {
                lemma_grown_trans(&c0, &c2, &c3);
                lemma_bits_up(t@, c2.nv(), c3.nv());
            }
            match int_ite_op(c, w, g, &t, ot, &e, oe, span) {
                Ok((v, of)) => {
                    proof {
                        lemma_grown_trans(&c0, &c3, c);
                        assert forall|s: Assignment| #[trigger] sat(c.cls(), s) implies int_value(*ir, st.instance_of(s), st.params, e0, i.index)
                            == Some((sval(v@, s), val(of, s))) by {
                            lemma_sat_back(&c3, c, s);
                            lemma_sat_back(&c2, &c3, s);
                            lemma_sat_back(&c1, &c2, s);
                            assert(h_sub(*ir, rank, st.instance_of(s), st.params, e0, n, cond.index) == holds(*ir, st.instance_of(s), st.params, e0, cond.index));
                            assert(i_sub(*ir, rank, st.instance_of(s), st.params, e0, n, then_branch.index) == int_value(*ir, st.instance_of(s), st.params, e0, then_branch.index));
                            assert(i_sub(*ir, rank, st.instance_of(s), st.params, e0, n, else_branch.index) == int_value(*ir, st.instance_of(s), st.params, e0, else_branch.index));
                        }
                    }
                    Ok((v, of))
                },
                Err(e) => Err(e),
            }
        },
        IntExprKind::Sum { var, bound, body } => {
            proof {
                assert(children(*ir, n)[0] == NodeRef::Rel(bound.index));
                assert(children(*ir, n)[1] == NodeRef::Int(body.index));
                assert(rel_sort_sub(*ir, rank, *st, sh, n, bound.index) == rel_sort(*ir, rank, *st, sh, bound.index));
            }
            let bm = encode_rel_r(c, st, ir, env, *bound)?;
            let ghost c1 = *c;
            proof {
                lemma_state_up(st, c0.nv(), c1.nv());
            }
            let vi = var.index;
            if vi >= env.len() {
                return Err(unsupported(span));
            }
            proof {
                assert(int_sort_sub(*ir, rank, *st, sh.update(vi as int, Some(bm.ar())), n, body.index) == int_sorted(
                    *ir,
                    rank,
                    *st,
                    sh.update(vi as int, Some(bm.ar())),
                    body.index,
                ));
            }
            let (v, of, Ghost(bodies)) = ground_sum(c, st, ir, env, i, &bm, vi, *body, span)?;
            proof {
                lemma_grown_trans(&c0, &c1, c);
                assert forall|s: Assignment| #[trigger] sat(c.cls(), s) implies int_value(*ir, st.instance_of(s), st.params, e0, i.index)
                    == Some((sval(v@, s), val(of, s))) by {
                    lemma_sat_back(&c1, c, s);
                    let inst = st.instance_of(s);
                    let ord = bm.order();
                    let cs = sum_cells(bm.values(), s);
                    assert forall|j: int| 0 <= j < ord.len() implies (denote(*ir, inst, st.params, e0, bound.index)->0).1.contains(ord[j])
                        == #[trigger] cs[j] by {
                        assert(bm.cells()[ord[j]] == bm.values()[j]);
                    }
                    assert forall|t: Seq<nat>| #[trigger] (denote(*ir, inst, st.params, e0, bound.index)->0).1.contains(t) implies ord.contains(t) by {
                        assert(ord.to_set().contains(t));
                    }
                    lemma_sum_value(*ir, inst, st.params, e0, i.index, *var, *bound, *body, ord, cs, sum_vals(bodies, s));
                }
            }
            Ok((v, of))
        },
        IntExprKind::AtomToInt(r) => {
            proof {
                assert(children(*ir, n)[0] == NodeRef::Rel(r.index));
                assert(rel_sort_sub(*ir, rank, *st, sh, n, r.index) == rel_sort(*ir, rank, *st, sh, r.index));
            }
            let m = encode_rel_r(c, st, ir, env, *r)?;
            let ghost c1 = *c;
            match int_of_atoms_op(c, st.params, &m, span) {
                Ok((v, of)) => {
                    proof {
                        lemma_grown_trans(&c0, &c1, c);
                        assert forall|s: Assignment| #[trigger] sat(c.cls(), s) implies int_value(*ir, st.instance_of(s), st.params, e0, i.index)
                            == Some((sval(v@, s), val(of, s))) by {
                            lemma_sat_back(&c1, c, s);
                            assert(d_sub(*ir, rank, st.instance_of(s), st.params, e0, n, r.index) == denote(*ir, st.instance_of(s), st.params, e0, r.index));
                        }
                    }
                    Ok((v, of))
                },
                Err(e) => Err(e),
            }
        },
    }
}

/// What binding `i` of a comprehension to tuple `t` contributes: the
/// comprehension's tuples from binding `i + 1` on, extending `prefix + t`.
pub open spec fn comp_at(
    ir: Ir,
    inst: InstView,
    p: IntParams,
    env: Seq<Option<Seq<nat>>>,
    n: NodeRef,
    decls: Seq<crate::ir::CompDecl>,
    body: usize,
    ar: nat,
    prefix: Seq<nat>,
    i: nat,
    t: Seq<nat>,
) -> Option<Set<Seq<nat>>> {
    crate::evaluator::comp_from(
        ir,
        the_rank(ir),
        inst,
        p,
        env.update(decls[i as int].var.index as int, Some(t)),
        n,
        decls,
        body,
        ar,
        prefix + t,
        i + 1,
    )
}

/// A comprehension's tuples over a listing `ts` of binding `i`'s tuples:
/// defined when each binding's are, and then their union.
proof fn lemma_comp_list_set(
    ir: Ir,
    inst: InstView,
    p: IntParams,
    env: Seq<Option<Seq<nat>>>,
    n: NodeRef,
    decls: Seq<crate::ir::CompDecl>,
    body: usize,
    ar: nat,
    prefix: Seq<nat>,
    i: nat,
    ts: Seq<Seq<nat>>,
)
    requires
        i < decls.len(),
    ensures
        crate::evaluator::comp_list(ir, the_rank(ir), inst, p, env, n, decls, body, ar, prefix, i, ts) is Some <==> (forall|t: Seq<nat>|
            ts.contains(t) ==> #[trigger] comp_at(ir, inst, p, env, n, decls, body, ar, prefix, i, t) is Some),
        crate::evaluator::comp_list(ir, the_rank(ir), inst, p, env, n, decls, body, ar, prefix, i, ts) is Some ==> forall|x: Seq<nat>|
            (crate::evaluator::comp_list(ir, the_rank(ir), inst, p, env, n, decls, body, ar, prefix, i, ts)->0).contains(x) <==> exists|
                t: Seq<nat>,
            | ts.contains(t) && (#[trigger] comp_at(ir, inst, p, env, n, decls, body, ar, prefix, i, t)->0).contains(x),
    decreases ts.len(),
{
    if ts.len() > 0 {
        let init = ts.drop_last();
        let last = ts.last();
        lemma_comp_list_set(ir, inst, p, env, n, decls, body, ar, prefix, i, init);
        assert forall|t: Seq<nat>| ts.contains(t) <==> init.contains(t) || t == last by {
            if ts.contains(t) {
                let j = choose|j: int| 0 <= j < ts.len() && ts[j] == t;
                if j < ts.len() - 1 {
                    assert(init[j] == t);
                }
            }
            if init.contains(t) {
                let j = choose|j: int| 0 <= j < init.len() && init[j] == t;
                assert(ts[j] == t);
            }
            if t == last {
                assert(ts[ts.len() - 1] == t);
            }
        }
        assert(ts.contains(last));
        if forall|t: Seq<nat>| ts.contains(t) ==> #[trigger] comp_at(ir, inst, p, env, n, decls, body, ar, prefix, i, t) is Some {
            assert forall|t: Seq<nat>| init.contains(t) implies #[trigger] comp_at(ir, inst, p, env, n, decls, body, ar, prefix, i, t) is Some by {
                assert(ts.contains(t));
            }
            assert(comp_at(ir, inst, p, env, n, decls, body, ar, prefix, i, last) is Some);
        }
        let whole = crate::evaluator::comp_list(ir, the_rank(ir), inst, p, env, n, decls, body, ar, prefix, i, ts);
        if whole is Some {
            assert forall|t: Seq<nat>| ts.contains(t) implies #[trigger] comp_at(ir, inst, p, env, n, decls, body, ar, prefix, i, t) is Some by {
                if !init.contains(t) {
                    assert(t == last);
                }
            }
            assert forall|x: Seq<nat>| (whole->0).contains(x) <==> exists|t: Seq<nat>|
                ts.contains(t) && (#[trigger] comp_at(ir, inst, p, env, n, decls, body, ar, prefix, i, t)->0).contains(x) by {
                if (whole->0).contains(x) {
                    if (comp_at(ir, inst, p, env, n, decls, body, ar, prefix, i, last)->0).contains(x) {
                    } else {
                        let t = choose|t: Seq<nat>| init.contains(t) && (#[trigger] comp_at(ir, inst, p, env, n, decls, body, ar, prefix, i, t)->0).contains(x);
                        assert(ts.contains(t));
                    }
                }
                if exists|t: Seq<nat>| ts.contains(t) && (#[trigger] comp_at(ir, inst, p, env, n, decls, body, ar, prefix, i, t)->0).contains(x) {
                    let t = choose|t: Seq<nat>| ts.contains(t) && (#[trigger] comp_at(ir, inst, p, env, n, decls, body, ar, prefix, i, t)->0).contains(x);
                    if !init.contains(t) {
                        assert(t == last);
                    }
                }
            }
        }
    }
}

/// A copy of a list of atoms.
fn copy_atoms(v: &Vec<AtomId>) -> (r: Vec<AtomId>)
    ensures
        r@ == v@,
{
    let mut r: Vec<AtomId> = Vec::new();
    let mut j: usize = 0;
    while j < v.len()
        invariant
            j <= v@.len(),
            r@ == v@.take(j as int),
        decreases v@.len() - j,
    {
        r.push(v[j]);
        j = j + 1;
        assert(r@ =~= v@.take(j as int));
    }
    assert(v@.take(j as int) =~= v@);
    r
}

/// A comprehension's tuples from binding `i` on, from the grounding of
/// binding `i` over its bound's matrix `bm` under `s`: the union, over the
/// candidates whose cell holds, of what binding `i` to them contributes.
proof fn lemma_comp_grounded(
    ir: Ir,
    inst: InstView,
    p: IntParams,
    e0: Seq<Option<Seq<nat>>>,
    n: NodeRef,
    decls: Seq<crate::ir::CompDecl>,
    body: usize,
    ar: nat,
    pre: Seq<nat>,
    i: nat,
    bm: Matrix,
    s: Assignment,
)
    requires
        ranked(ir, the_rank(ir)),
        i < decls.len(),
        the_rank(ir)(NodeRef::Rel(decls[i as int].bound.index)) < the_rank(ir)(n),
        decls[i as int].var.index < e0.len(),
        bm.wf(),
        denote(ir, inst, p, e0, decls[i as int].bound.index) == Some((bm.ar(), bm.denote(s))),
        forall|j: int|
            0 <= j < bm.order().len() ==> #[trigger] comp_at(ir, inst, p, e0, n, decls, body, ar, pre, i, bm.order()[j]) is Some,
    ensures
        crate::evaluator::comp_from(ir, the_rank(ir), inst, p, e0, n, decls, body, ar, pre, i) is Some,
        forall|x: Seq<nat>|
            (crate::evaluator::comp_from(ir, the_rank(ir), inst, p, e0, n, decls, body, ar, pre, i)->0).contains(x) <==> exists|j: int|
                0 <= j < bm.order().len() && val(#[trigger] bm.values()[j], s) && (comp_at(ir, inst, p, e0, n, decls, body, ar, pre, i, bm.order()[j])->0).contains(x),
{
    let rank = the_rank(ir);
    let ord = bm.order();
    let vals = bm.values();
    let d = bm.denote(s);
    assert(d_sub(ir, rank, inst, p, e0, n, decls[i as int].bound.index) == denote(ir, inst, p, e0, decls[i as int].bound.index));
    lemma_keep(ord, d);
    assert forall|t: Seq<nat>| d.contains(t) implies ord.to_set().contains(t) by {}
    assert(keep(ord, d).to_set() =~= d);
    let ts = crate::evaluator::sorted_of(d);
    assert(lex_sorted(ts) && ts.to_set() == d);
    lemma_comp_list_set(ir, inst, p, e0, n, decls, body, ar, pre, i, ts);
    assert forall|t: Seq<nat>| ts.contains(t) implies #[trigger] comp_at(ir, inst, p, e0, n, decls, body, ar, pre, i, t) is Some by {
        assert(ts.to_set().contains(t));
        assert(ord.to_set().contains(t));
        let j = choose|j: int| 0 <= j < ord.len() && ord[j] == t;
        assert(comp_at(ir, inst, p, e0, n, decls, body, ar, pre, i, ord[j]) is Some);
    }
    let cf = crate::evaluator::comp_from(ir, rank, inst, p, e0, n, decls, body, ar, pre, i);
    assert forall|x: Seq<nat>| (cf->0).contains(x) <==> exists|j: int|
        0 <= j < ord.len() && val(#[trigger] vals[j], s) && (comp_at(ir, inst, p, e0, n, decls, body, ar, pre, i, ord[j])->0).contains(x) by {
        if (cf->0).contains(x) {
            let t = choose|t: Seq<nat>| ts.contains(t) && (#[trigger] comp_at(ir, inst, p, e0, n, decls, body, ar, pre, i, t)->0).contains(x);
            assert(ts.to_set().contains(t));
            assert(ord.to_set().contains(t));
            let j = choose|j: int| 0 <= j < ord.len() && ord[j] == t;
            assert(bm.cells()[ord[j]] == vals[j]);
            assert(val(vals[j], s));
        }
        if exists|j: int| 0 <= j < ord.len() && val(#[trigger] vals[j], s) && (comp_at(ir, inst, p, e0, n, decls, body, ar, pre, i, ord[j])->0).contains(x) {
            let j = choose|j: int| 0 <= j < ord.len() && val(#[trigger] vals[j], s) && (comp_at(ir, inst, p, e0, n, decls, body, ar, pre, i, ord[j])->0).contains(x);
            assert(bm.cells()[ord[j]] == vals[j]);
            assert(d.contains(ord[j]));
            assert(ts.to_set().contains(ord[j]));
            assert(ts.contains(ord[j]));
        }
    }
}

/// `prefix` followed by the atoms of `t`.
fn extend_prefix(prefix: &Vec<AtomId>, t: &Tuple) -> (r: Vec<AtomId>)
    ensures
        atom_indices(r@) == atom_indices(prefix@) + t@,
{
    let mut r: Vec<AtomId> = Vec::new();
    let mut j: usize = 0;
    while j < prefix.len()
        invariant
            j <= prefix@.len(),
            r@ == prefix@.take(j as int),
        decreases prefix@.len() - j,
    {
        r.push(prefix[j]);
        j = j + 1;
        assert(r@ =~= prefix@.take(j as int));
    }
    assert(prefix@.take(j as int) =~= prefix@);
    let atoms = t.atoms();
    let mut k: usize = 0;
    while k < atoms.len()
        invariant
            k <= atoms@.len(),
            atom_indices(atoms@) == t@,
            atom_indices(r@) == atom_indices(prefix@) + t@.take(k as int),
        decreases atoms@.len() - k,
    {
        let ghost r0 = r@;
        r.push(atoms[k]);
        proof {
            assert(atom_indices(r@) =~= atom_indices(r0).push(atoms@[k as int].index as nat));
            assert(t@[k as int] == atoms@[k as int].index as nat);
            assert(t@.take(k + 1) =~= t@.take(k as int).push(t@[k as int]));
        }
        k = k + 1;
    }
    assert(t@.take(k as int) =~= t@);
    r
}

/// The comprehension `r` from binding `i` on, each tuple extending
/// `prefix` and guarded by `guard`, merged into `out`: a tuple's cell is the
/// guard, the cells of the tuples bound so far, and the body.
#[verifier::rlimit(40)]
fn comp_rec(
    c: &mut Circuit,
    st: &EncodeState,
    ir: &Ir,
    env: &mut Vec<Option<Tuple>>,
    r: RelExprId,
    decls: &Vec<crate::ir::CompDecl>,
    body: FormulaId,
    ar: usize,
    i: usize,
    prefix: &Vec<AtomId>,
    guard: Bool,
    out: &mut Matrix,
) -> (res: Result<(), TranslateError>)
    requires
        enc_ok(*ir, *old(c), *st),
        r.index < ir.rel_exprs@.len(),
        ir.rel_exprs@[r.index as int].kind == (RelExprKind::Comprehension { decls: *decls, body }),
        i <= decls@.len(),
        ar >= 1,
        valid(guard, old(c).nv()),
        old(out).wf(),
        old(out).ar() == ar,
        old(out).valid_below(old(c).nv()),
    ensures
        grown(old(c), final(c)),
        env_view(final(env)@) == env_view(old(env)@),
        res is Ok ==> {
            &&& final(out).wf()
            &&& final(out).ar() == ar
            &&& final(out).valid_below(final(c).nv())
            &&& forall|s: Assignment|
                #[trigger] sat(final(c).cls(), s) ==> {
                    let cf = crate::evaluator::comp_from(
                        *ir,
                        the_rank(*ir),
                        st.instance_of(s),
                        st.params,
                        env_view(old(env)@),
                        NodeRef::Rel(r.index),
                        decls@,
                        body.index,
                        ar as nat,
                        atom_indices(prefix@),
                        i as nat,
                    );
                    &&& cf is Some
                    &&& forall|x: Seq<nat>|
                        #[trigger] final(out).denote(s).contains(x) <==> old(out).denote(s).contains(x) || (val(guard, s) && (cf->0).contains(x))
                }
        },
        res matches Err(e) ==> out_of_room(e, final(c).nv()) || !comp_sorted(
            *ir,
            the_rank(*ir),
            *st,
            env_shape(env_view(old(env)@)),
            NodeRef::Rel(r.index),
            decls@,
            body.index,
            ar as nat,
            i as nat,
            prefix@.len(),
        ),
    decreases the_rank(*ir)(NodeRef::Rel(r.index)), 0nat, decls@.len() - i,
{
    let ghost rank = the_rank(*ir);
    let ghost n = NodeRef::Rel(r.index);
    let ghost c0 = *c;
    let ghost e0 = env_view(env@);
    let ghost sh = env_shape(e0);
    let ghost out0 = *out;
    let ghost pre = atom_indices(prefix@);
    proof {
        lemma_grown_refl(&c0);
        assert(node_valid(*ir, n));
    }
    if i == decls.len() {
        proof {
            assert(children(*ir, n)[decls@.len() as int] == NodeRef::Formula(body.index));
            assert(formula_sort_sub(*ir, rank, *st, sh, n, body.index) == formula_sorted(*ir, rank, *st, sh, body.index));
        }
        let b = encode_formula_r(c, st, ir, env, body)?;
        let ghost c1 = *c;
        if prefix.len() != ar {
            return Err(unsupported(ir.rel_exprs[r.index].span));
        }
        room_or(c, Some(3), ir.rel_exprs[r.index].span)?;
        let t = Tuple::new(copy_atoms(prefix));
        let cell = c.and(guard, b);
        let ghost c2 = *c;
        proof {
            assert(valid(out.cell(t@), c0.nv()));
        }
        let prev = out.get(&t);
        let merged = c.or(prev, cell);
        let ghost o1 = *out;
        out.set(t, merged);
        proof {
            lemma_grown_trans(&c0, &c1, &c2);
            lemma_grown_trans(&c0, &c2, c);
            assert(out.valid_below(c.nv())) by {
                assert forall|u: Seq<nat>| #[trigger] out.dom().contains(u) implies valid(out.cells()[u], c.nv()) by {
                    if u != t@ {
                        assert(o1.dom().contains(u));
                        assert(valid(o1.cells()[u], c0.nv()));
                    }
                }
            }
            assert forall|s: Assignment| #[trigger] sat(c.cls(), s) implies {
                let cf = crate::evaluator::comp_from(*ir, rank, st.instance_of(s), st.params, e0, n, decls@, body.index, ar as nat, pre, i as nat);
                &&& cf is Some
                &&& forall|x: Seq<nat>| #[trigger] out.denote(s).contains(x) <==> o1.denote(s).contains(x) || (val(guard, s) && (cf->0).contains(x))
            } by {
                lemma_sat_back(&c2, c, s);
                lemma_sat_back(&c1, &c2, s);
                assert(h_sub(*ir, rank, st.instance_of(s), st.params, e0, n, body.index) == holds(*ir, st.instance_of(s), st.params, e0, body.index));
                crate::matrix::Matrix::lemma_denote_cell(&o1, t@, s);
                if merged == Bool::Const(false) {
                    crate::matrix::Matrix::lemma_denote_same(&o1, out, s);
                } else {
                    crate::matrix::Matrix::lemma_denote_insert(&o1, out, t@, merged, s);
                }
            }
        }
        Ok(())
    } else {
        proof {
            assert(children(*ir, n)[i as int] == NodeRef::Rel(decls@[i as int].bound.index));
            assert(rel_sort_sub(*ir, rank, *st, sh, n, decls@[i as int].bound.index) == rel_sort(
                *ir,
                rank,
                *st,
                sh,
                decls@[i as int].bound.index,
            ));
        }
        let span = ir.rel_exprs[r.index].span;
        let bm = encode_rel_r(c, st, ir, env, decls[i].bound)?;
        let ghost c1 = *c;
        proof {
            lemma_state_up(st, c0.nv(), c1.nv());
        }
        let vi = decls[i].var.index;
        if vi >= env.len() {
            return Err(unsupported(span));
        }
        let cands = bm.iter();
        let ghost ord = bm.order();
        let ghost vals = bm.values();
        let mut k: usize = 0;
        proof {
            lemma_grown_refl(&c1);
            assert(e0.len() == env@.len());
        }
        while k < cands.len()
            invariant
                c0 == *old(c),
                grown(&c0, &c1),
                out0 == *old(out),
                ranked(*ir, the_rank(*ir)),
                rank == the_rank(*ir),
                n == NodeRef::Rel(r.index),
                r.index < ir.rel_exprs@.len(),
                ir.rel_exprs@[r.index as int].kind == (RelExprKind::Comprehension { decls: *decls, body }),
                i < decls@.len(),
                i < decls.len(),
                vi == decls@[i as int].var.index,
                pre == atom_indices(prefix@),
                sh == env_shape(e0),
                rel_sort_sub(*ir, rank, *st, sh, n, decls@[i as int].bound.index) is Some ==> bm.ar() == rel_sort_sub(
                    *ir,
                    rank,
                    *st,
                    sh,
                    n,
                    decls@[i as int].bound.index,
                )->0,
                e0 == env_view(old(env)@),
                env_view(env@) == e0,
                vi < env@.len(),
                valid(guard, c1.nv()),
                crate::tuple_map::entry_keys(cands@) == ord,
                crate::tuple_map::entry_vals(cands@) == vals,
                ord == bm.order(),
                vals == bm.values(),
                bm.wf(),
                bm.valid_below(c1.nv()),
                k <= cands@.len(),
                grown(&c1, c),
                st.wf(c.nv()),
                out.wf(),
                out.ar() == ar,
                out.valid_below(c.nv()),
                forall|s: Assignment|
                    #[trigger] sat(c.cls(), s) ==> {
                        &&& forall|j: int|
                            0 <= j < k ==> #[trigger] comp_at(*ir, st.instance_of(s), st.params, e0, n, decls@, body.index, ar as nat, pre, i as nat, ord[j]) is Some
                        &&& forall|x: Seq<nat>|
                            #[trigger] out.denote(s).contains(x) <==> out0.denote(s).contains(x) || (val(guard, s) && exists|j: int|
                                0 <= j < k && val(#[trigger] vals[j], s) && (comp_at(*ir, st.instance_of(s), st.params, e0, n, decls@, body.index, ar as nat, pre, i as nat, ord[j])->0).contains(x))
                    },
            decreases cands@.len() - k,
        {
            let ghost c2 = *c;
            let ghost o2 = *out;
            let t = cands[k].0.duplicate();
            let cell = cands[k].1;
            proof {
                assert(ord[k as int] == cands@[k as int].0@);
                assert(vals[k as int] == cands@[k as int].1);
                crate::encode::lemma_cell_at(&bm, k as int, c1.nv());
            }
            room_or(c, Some(1), span)?;
            let g2 = c.and(guard, cell);
            let ghost c3 = *c;
            let p2 = extend_prefix(prefix, &t);
            let prev = crate::evaluator::copy_binding(&env[vi]);
            let ghost e_before = env@;
            env.set(vi, Some(t));
            proof {
                crate::evaluator::lemma_env_update(e_before, vi as int, Some(t));
                assert(env_view(env@) == e0.update(vi as int, Some(ord[k as int])));
                lemma_grown_trans(&c1, &c2, &c3);
                lemma_state_up(st, c2.nv(), c3.nv());
                assert(out.valid_below(c3.nv())) by {
                    lemma_valid_up(out, c2.nv(), c3.nv());
                }
            }
            let res = comp_rec(c, st, ir, env, r, decls, body, ar, i + 1, &p2, g2, out);
            let ghost e_after = env@;
            env.set(vi, prev);
            proof {
                crate::evaluator::lemma_env_update(e_after, vi as int, prev);
                assert(env_view(e_before)[vi as int] == e0[vi as int]);
                assert(env_view(env@) =~= e0);
            }
            match res {
                Ok(()) => {},
                Err(e) => {
                    proof {
                        lemma_grown_trans(&c1, &c3, c);
                        lemma_shape_update(e0, vi as int, ord[k as int]);
                        assert(p2@.len() == prefix@.len() + bm.ar()) by {
                            assert(atom_indices(p2@).len() == p2@.len());
                            assert(atom_indices(prefix@).len() == prefix@.len());
                        }
                    }
                    return Err(e);
                },
            }
            proof {
                lemma_grown_trans(&c1, &c3, c);
                lemma_state_up(st, c3.nv(), c.nv());
                assert forall|s: Assignment| #[trigger] sat(c.cls(), s) implies {
                    &&& forall|j: int|
                        0 <= j < k + 1 ==> #[trigger] comp_at(*ir, st.instance_of(s), st.params, e0, n, decls@, body.index, ar as nat, pre, i as nat, ord[j]) is Some
                    &&& forall|x: Seq<nat>|
                        #[trigger] out.denote(s).contains(x) <==> out0.denote(s).contains(x) || (val(guard, s) && exists|j: int|
                            0 <= j < k + 1 && val(#[trigger] vals[j], s) && (comp_at(*ir, st.instance_of(s), st.params, e0, n, decls@, body.index, ar as nat, pre, i as nat, ord[j])->0).contains(x))
                } by {
                    lemma_sat_back(&c3, c, s);
                    lemma_sat_back(&c2, &c3, s);
                    let inst = st.instance_of(s);
                    assert(atom_indices(p2@) == pre + ord[k as int]);
                    let ck = comp_at(*ir, inst, st.params, e0, n, decls@, body.index, ar as nat, pre, i as nat, ord[k as int]);
                    assert forall|x: Seq<nat>| #[trigger] out.denote(s).contains(x) <==> out0.denote(s).contains(x) || (val(guard, s) && exists|j: int|
                        0 <= j < k + 1 && val(#[trigger] vals[j], s) && (comp_at(*ir, inst, st.params, e0, n, decls@, body.index, ar as nat, pre, i as nat, ord[j])->0).contains(x)) by {
                        if out.denote(s).contains(x) && !out0.denote(s).contains(x) {
                            if o2.denote(s).contains(x) {
                            } else {
                                assert(val(vals[k as int], s) && (ck->0).contains(x));
                            }
                        }
                        if val(guard, s) && exists|j: int|
                            0 <= j < k + 1 && val(#[trigger] vals[j], s) && (comp_at(*ir, inst, st.params, e0, n, decls@, body.index, ar as nat, pre, i as nat, ord[j])->0).contains(x) {
                            let j = choose|j: int|
                                0 <= j < k + 1 && val(#[trigger] vals[j], s) && (comp_at(*ir, inst, st.params, e0, n, decls@, body.index, ar as nat, pre, i as nat, ord[j])->0).contains(x);
                            if j < k {
                                assert(o2.denote(s).contains(x));
                            }
                        }
                    }
                }
            }
            k = k + 1;
        }
        proof {
            lemma_grown_trans(&c0, &c1, c);
            assert forall|s: Assignment| #[trigger] sat(c.cls(), s) implies {
                let cf = crate::evaluator::comp_from(*ir, rank, st.instance_of(s), st.params, e0, n, decls@, body.index, ar as nat, pre, i as nat);
                &&& cf is Some
                &&& forall|x: Seq<nat>| #[trigger] out.denote(s).contains(x) <==> out0.denote(s).contains(x) || (val(guard, s) && (cf->0).contains(x))
            } by {
                lemma_sat_back(&c1, c, s);
                lemma_comp_grounded(*ir, st.instance_of(s), st.params, e0, n, decls@, body.index, ar as nat, pre, i as nat, bm, s);
            }
        }
        Ok(())
    }
}

/// The formulas of `parts`: defined when each is, and then all (or some)
/// of them hold.
pub(crate) proof fn lemma_parts_set(
    ir: Ir,
    rank: spec_fn(NodeRef) -> nat,
    inst: InstView,
    p: IntParams,
    env: Seq<Option<Seq<nat>>>,
    n: NodeRef,
    parts: Seq<FormulaId>,
)
    ensures
        crate::evaluator::all_of(ir, rank, inst, p, env, n, parts) is Some <==> (forall|j: int|
            0 <= j < parts.len() ==> #[trigger] h_sub(ir, rank, inst, p, env, n, parts[j].index) is Some),
        crate::evaluator::any_of(ir, rank, inst, p, env, n, parts) is Some <==> (forall|j: int|
            0 <= j < parts.len() ==> #[trigger] h_sub(ir, rank, inst, p, env, n, parts[j].index) is Some),
        crate::evaluator::all_of(ir, rank, inst, p, env, n, parts) is Some ==> crate::evaluator::all_of(ir, rank, inst, p, env, n, parts)->0
            == (forall|j: int| 0 <= j < parts.len() ==> #[trigger] h_sub(ir, rank, inst, p, env, n, parts[j].index)->0),
        crate::evaluator::any_of(ir, rank, inst, p, env, n, parts) is Some ==> crate::evaluator::any_of(ir, rank, inst, p, env, n, parts)->0
            == (exists|j: int| 0 <= j < parts.len() && #[trigger] h_sub(ir, rank, inst, p, env, n, parts[j].index)->0),
    decreases parts.len(),
{
    if parts.len() > 0 {
        let init = parts.drop_last();
        lemma_parts_set(ir, rank, inst, p, env, n, init);
        assert forall|j: int| 0 <= j < init.len() implies init[j] == parts[j] by {}
        let last = parts.len() - 1;
        assert(parts.last() == parts[last]);
        if crate::evaluator::all_of(ir, rank, inst, p, env, n, parts) is Some {
            if (forall|j: int| 0 <= j < parts.len() ==> #[trigger] h_sub(ir, rank, inst, p, env, n, parts[j].index)->0) {
            } else {
                let j = choose|j: int| 0 <= j < parts.len() && !(#[trigger] h_sub(ir, rank, inst, p, env, n, parts[j].index))->0;
                if j < last {
                    assert(h_sub(ir, rank, inst, p, env, n, init[j].index) == h_sub(ir, rank, inst, p, env, n, parts[j].index));
                }
            }
        }
        if crate::evaluator::any_of(ir, rank, inst, p, env, n, parts) is Some {
            if (exists|j: int| 0 <= j < parts.len() && #[trigger] h_sub(ir, rank, inst, p, env, n, parts[j].index)->0) {
                let j = choose|j: int| 0 <= j < parts.len() && (#[trigger] h_sub(ir, rank, inst, p, env, n, parts[j].index))->0;
                if j < last {
                    assert(h_sub(ir, rank, inst, p, env, n, init[j].index) == h_sub(ir, rank, inst, p, env, n, parts[j].index));
                }
            }
        }
        if !(forall|j: int| 0 <= j < parts.len() ==> #[trigger] h_sub(ir, rank, inst, p, env, n, parts[j].index) is Some) {
            let j = choose|j: int| 0 <= j < parts.len() && !(#[trigger] h_sub(ir, rank, inst, p, env, n, parts[j].index) is Some);
            if j < last {
                assert(h_sub(ir, rank, inst, p, env, n, init[j].index) == h_sub(ir, rank, inst, p, env, n, parts[j].index));
            }
        }
    }
}

/// A conjunction (`is_and`) or disjunction of `parts`, the operands of `f`.
fn encode_parts(
    c: &mut Circuit,
    st: &EncodeState,
    ir: &Ir,
    env: &mut Vec<Option<Tuple>>,
    f: FormulaId,
    parts: &Vec<FormulaId>,
    is_and: bool,
    span: Span,
) -> (res: Result<Bool, TranslateError>)
    requires
        enc_ok(*ir, *old(c), *st),
        f.index < ir.formulas@.len(),
        is_and ==> ir.formulas@[f.index as int].kind == FormulaKind::And(*parts),
        !is_and ==> ir.formulas@[f.index as int].kind == FormulaKind::Or(*parts),
    ensures
        grown(old(c), final(c)),
        env_view(final(env)@) == env_view(old(env)@),
        res matches Ok(x) ==> valid(x, final(c).nv()) && forall|s: Assignment|
            #[trigger] sat(final(c).cls(), s) ==> holds(*ir, st.instance_of(s), st.params, env_view(old(env)@), f.index) == Some(
                val(x, s),
            ),
        res matches Err(e) ==> out_of_room(e, final(c).nv()) || !formula_sorted_in(*ir, *st, env_view(old(env)@), f.index),
    decreases the_rank(*ir)(NodeRef::Formula(f.index)), 0nat, 0nat,
{
    let ghost rank = the_rank(*ir);
    let ghost n = NodeRef::Formula(f.index);
    let ghost c0 = *c;
    let ghost e0 = env_view(env@);
    let ghost sh = env_shape(e0);
    proof {
        lemma_grown_refl(&c0);
        assert(node_valid(*ir, n));
        assert forall|k: int| 0 <= k < parts@.len() implies rank(NodeRef::Formula((#[trigger] parts@[k]).index)) < rank(n)
            && parts@[k].index < ir.formulas@.len() by {
            assert(children(*ir, n)[k] == NodeRef::Formula(parts@[k].index));
        }
    }
    let mut gates: Vec<Bool> = Vec::new();
    let mut i: usize = 0;
    while i < parts.len()
        invariant
            c0 == *old(c),
            ranked(*ir, the_rank(*ir)),
            rank == the_rank(*ir),
            n == NodeRef::Formula(f.index),
            e0 == env_view(old(env)@),
            env_view(env@) == e0,
            sh == env_shape(e0),
            f.index < ir.formulas@.len(),
            is_and ==> ir.formulas@[f.index as int].kind == FormulaKind::And(*parts),
            !is_and ==> ir.formulas@[f.index as int].kind == FormulaKind::Or(*parts),
            i <= parts@.len(),
            gates@.len() == i,
            grown(&c0, c),
            st.wf(c.nv()),
            crate::circuit::all_valid(gates@, c.nv()),
            forall|k: int| 0 <= k < parts@.len() ==> rank(NodeRef::Formula((#[trigger] parts@[k]).index)) < rank(n)
                && parts@[k].index < ir.formulas@.len(),
            forall|s: Assignment|
                #[trigger] sat(c.cls(), s) ==> forall|j: int|
                    0 <= j < i ==> #[trigger] h_sub(*ir, rank, st.instance_of(s), st.params, e0, n, parts@[j].index) == Some(
                        val(gates@[j], s),
                    ),
        decreases parts@.len() - i,
    {
        let ghost c1 = *c;
        proof {
            assert(formula_sort_sub(*ir, rank, *st, sh, n, parts@[i as int].index) == formula_sorted(
                *ir,
                rank,
                *st,
                sh,
                parts@[i as int].index,
            ));
            if parts_sorted(*ir, rank, *st, sh, n, parts@) {
                lemma_parts_sorted(*ir, rank, *st, sh, n, parts@);
            }
        }
        let g = encode_formula_r(c, st, ir, env, parts[i])?;
        proof {
            lemma_grown_trans(&c0, &c1, c);
            lemma_state_up(st, c1.nv(), c.nv());
            assert forall|j: int| 0 <= j < gates@.len() implies valid(#[trigger] gates@[j], c.nv()) by {
                assert(valid(gates@[j], c1.nv()));
            }
        }
        gates.push(g);
        proof {
            assert forall|s: Assignment| #[trigger] sat(c.cls(), s) implies forall|j: int|
                0 <= j < i + 1 ==> #[trigger] h_sub(*ir, rank, st.instance_of(s), st.params, e0, n, parts@[j].index) == Some(
                    val(gates@[j], s),
                ) by {
                lemma_sat_back(&c1, c, s);
                assert(h_sub(*ir, rank, st.instance_of(s), st.params, e0, n, parts@[i as int].index) == holds(
                    *ir,
                    st.instance_of(s),
                    st.params,
                    e0,
                    parts@[i as int].index,
                ));
            }
        }
        i = i + 1;
    }
    room_or(c, Some(1), span)?;
    let ghost c2 = *c;
    let ghost gs = gates@;
    let x = if is_and {
        c.and_many(gates)
    } else {
        c.or_many(gates)
    };
    proof {
        lemma_grown_trans(&c0, &c2, c);
        assert forall|s: Assignment| #[trigger] sat(c.cls(), s) implies holds(*ir, st.instance_of(s), st.params, e0, f.index) == Some(
            val(x, s),
        ) by {
            lemma_sat_back(&c2, c, s);
            lemma_parts_set(*ir, rank, st.instance_of(s), st.params, e0, n, parts@);
            if is_and {
                assert(holds(*ir, st.instance_of(s), st.params, e0, f.index) == crate::evaluator::all_of(
                    *ir,
                    rank,
                    st.instance_of(s),
                    st.params,
                    e0,
                    n,
                    parts@,
                ));
                if val(x, s) {
                    assert forall|j: int| 0 <= j < parts@.len() implies #[trigger] h_sub(*ir, rank, st.instance_of(s), st.params, e0, n, parts@[j].index)->0 by {
                        assert(val(gs[j], s));
                    }
                } else {
                    let j = choose|j: int| 0 <= j < gs.len() && !val(#[trigger] gs[j], s);
                    assert(h_sub(*ir, rank, st.instance_of(s), st.params, e0, n, parts@[j].index) == Some(val(gs[j], s)));
                }
            } else {
                assert(holds(*ir, st.instance_of(s), st.params, e0, f.index) == crate::evaluator::any_of(
                    *ir,
                    rank,
                    st.instance_of(s),
                    st.params,
                    e0,
                    n,
                    parts@,
                ));
                if val(x, s) {
                    let j = choose|j: int| 0 <= j < gs.len() && val(#[trigger] gs[j], s);
                    assert(h_sub(*ir, rank, st.instance_of(s), st.params, e0, n, parts@[j].index) == Some(val(gs[j], s)));
                } else {
                    assert forall|j: int| 0 <= j < parts@.len() implies !(#[trigger] h_sub(*ir, rank, st.instance_of(s), st.params, e0, n, parts@[j].index))->0 by {
                        assert(!val(gs[j], s));
                    }
                }
            }
        }
    }
    Ok(x)
}

/// One formula under the bindings `env`, leaving them as they were.
#[verifier::rlimit(80)]
fn encode_formula_r(c: &mut Circuit, st: &EncodeState, ir: &Ir, env: &mut Vec<Option<Tuple>>, f: FormulaId) -> (res: Result<
    Bool,
    TranslateError,
>)
    requires
        enc_ok(*ir, *old(c), *st),
        f.index < ir.formulas@.len(),
    ensures
        grown(old(c), final(c)),
        env_view(final(env)@) == env_view(old(env)@),
        res matches Ok(x) ==> valid(x, final(c).nv()) && forall|s: Assignment|
            #[trigger] sat(final(c).cls(), s) ==> holds(*ir, st.instance_of(s), st.params, env_view(old(env)@), f.index) == Some(
                val(x, s),
            ),
        ir.formulas@[f.index as int].kind is TemporalUnary || ir.formulas@[f.index as int].kind is TemporalBinary ==> res is Err,
        res matches Err(e) ==> out_of_room(e, final(c).nv()) || !formula_sorted_in(*ir, *st, env_view(old(env)@), f.index),
    decreases the_rank(*ir)(NodeRef::Formula(f.index)), 1nat, 0nat,
{
    let ghost rank = the_rank(*ir);
    let ghost n = NodeRef::Formula(f.index);
    let ghost c0 = *c;
    let ghost e0 = env_view(env@);
    let ghost sh = env_shape(e0);
    proof {
        lemma_grown_refl(&c0);
        assert(node_valid(*ir, n));
    }
    let node = &ir.formulas[f.index];
    match &node.kind {
        FormulaKind::Const(b) => Ok(Bool::Const(*b)),
        FormulaKind::Not(g) => {
            proof {
                assert(children(*ir, n)[0] == NodeRef::Formula(g.index));
                assert(formula_sort_sub(*ir, rank, *st, sh, n, g.index) == formula_sorted(*ir, rank, *st, sh, g.index));
            }
            let a = encode_formula_r(c, st, ir, env, *g)?;
            let x = c.not(a);
            proof {
                assert forall|s: Assignment| #[trigger] sat(c.cls(), s) implies holds(*ir, st.instance_of(s), st.params, e0, f.index) == Some(
                    val(x, s),
                ) by {
                    assert(h_sub(*ir, rank, st.instance_of(s), st.params, e0, n, g.index) == holds(*ir, st.instance_of(s), st.params, e0, g.index));
                }
            }
            Ok(x)
        },
        FormulaKind::And(parts) => encode_parts(c, st, ir, env, f, parts, true, node.span),
        FormulaKind::Or(parts) => encode_parts(c, st, ir, env, f, parts, false, node.span),
        FormulaKind::Implies { antecedent: l, consequent: r } | FormulaKind::Iff(l, r) => {
            let is_imp = match &node.kind {
                FormulaKind::Implies { .. } => true,
                _ => false,
            };
            proof {
                assert(children(*ir, n)[0] == NodeRef::Formula(l.index));
                assert(children(*ir, n)[1] == NodeRef::Formula(r.index));
                assert(formula_sort_sub(*ir, rank, *st, sh, n, l.index) == formula_sorted(*ir, rank, *st, sh, l.index));
                assert(formula_sort_sub(*ir, rank, *st, sh, n, r.index) == formula_sorted(*ir, rank, *st, sh, r.index));
            }
            let a = encode_formula_r(c, st, ir, env, *l)?;
            let ghost c1 = *c;
            proof {
                lemma_state_up(st, c0.nv(), c1.nv());
            }
            let b = encode_formula_r(c, st, ir, env, *r)?;
            let ghost c2 = *c;
            proof {
                lemma_grown_trans(&c0, &c1, &c2);
            }
            room_or(c, Some(3), node.span)?;
            let x = if is_imp {
                c.implies(a, b)
            } else {
                c.iff(a, b)
            };
            proof {
                lemma_grown_trans(&c0, &c2, c);
                assert forall|s: Assignment| #[trigger] sat(c.cls(), s) implies holds(*ir, st.instance_of(s), st.params, e0, f.index) == Some(
                    val(x, s),
                ) by {
                    lemma_sat_back(&c2, c, s);
                    lemma_sat_back(&c1, &c2, s);
                    assert(h_sub(*ir, rank, st.instance_of(s), st.params, e0, n, l.index) == holds(*ir, st.instance_of(s), st.params, e0, l.index));
                    assert(h_sub(*ir, rank, st.instance_of(s), st.params, e0, n, r.index) == holds(*ir, st.instance_of(s), st.params, e0, r.index));
                }
            }
            Ok(x)
        },
        FormulaKind::RelCompare { op, lhs, rhs } => {
            proof {
                assert(children(*ir, n)[0] == NodeRef::Rel(lhs.index));
                assert(children(*ir, n)[1] == NodeRef::Rel(rhs.index));
                assert(rel_sort_sub(*ir, rank, *st, sh, n, lhs.index) == rel_sort(*ir, rank, *st, sh, lhs.index));
                assert(rel_sort_sub(*ir, rank, *st, sh, n, rhs.index) == rel_sort(*ir, rank, *st, sh, rhs.index));
            }
            let a = encode_rel_r(c, st, ir, env, *lhs)?;
            let ghost c1 = *c;
            proof {
                lemma_state_up(st, c0.nv(), c1.nv());
            }
            let b = encode_rel_r(c, st, ir, env, *rhs)?;
            let ghost c2 = *c;
            proof {
                lemma_grown_trans(&c0, &c1, &c2);
                lemma_valid_up(&a, c1.nv(), c2.nv());
            }
            let x = encode_compare(c, *op, &a, &b, node.span)?;
            proof {
                lemma_grown_trans(&c0, &c2, c);
                assert forall|s: Assignment| #[trigger] sat(c.cls(), s) implies holds(*ir, st.instance_of(s), st.params, e0, f.index) == Some(
                    val(x, s),
                ) by {
                    lemma_sat_back(&c2, c, s);
                    lemma_sat_back(&c1, &c2, s);
                    assert(d_sub(*ir, rank, st.instance_of(s), st.params, e0, n, lhs.index) == denote(*ir, st.instance_of(s), st.params, e0, lhs.index));
                    assert(d_sub(*ir, rank, st.instance_of(s), st.params, e0, n, rhs.index) == denote(*ir, st.instance_of(s), st.params, e0, rhs.index));
                }
            }
            Ok(x)
        },
        FormulaKind::MultTest { test, expr } => {
            proof {
                assert(children(*ir, n)[0] == NodeRef::Rel(expr.index));
                assert(rel_sort_sub(*ir, rank, *st, sh, n, expr.index) == rel_sort(*ir, rank, *st, sh, expr.index));
            }
            let m = encode_rel_r(c, st, ir, env, *expr)?;
            let ghost c1 = *c;
            let x = encode_mult(c, *test, &m, node.span)?;
            proof {
                lemma_grown_trans(&c0, &c1, c);
                assert forall|s: Assignment| #[trigger] sat(c.cls(), s) implies holds(*ir, st.instance_of(s), st.params, e0, f.index) == Some(
                    val(x, s),
                ) by {
                    lemma_sat_back(&c1, c, s);
                    assert(d_sub(*ir, rank, st.instance_of(s), st.params, e0, n, expr.index) == denote(*ir, st.instance_of(s), st.params, e0, expr.index));
                }
            }
            Ok(x)
        },
        FormulaKind::Quant { kind, var, bound, body } => {
            proof {
                assert(children(*ir, n)[0] == NodeRef::Rel(bound.index));
                assert(children(*ir, n)[1] == NodeRef::Formula(body.index));
            }
            encode_quant(c, st, ir, env, f, *kind, *var, *bound, *body, node.span)
        },
        FormulaKind::IntCompare { op, lhs, rhs } => {
            proof {
                assert(children(*ir, n)[0] == NodeRef::Int(lhs.index));
                assert(children(*ir, n)[1] == NodeRef::Int(rhs.index));
                assert(int_sort_sub(*ir, rank, *st, sh, n, lhs.index) == int_sorted(*ir, rank, *st, sh, lhs.index));
                assert(int_sort_sub(*ir, rank, *st, sh, n, rhs.index) == int_sorted(*ir, rank, *st, sh, rhs.index));
            }
            let (a, oa) = encode_int_r(c, st, ir, env, *lhs)?;
            let ghost c1 = *c;
            proof {
                lemma_state_up(st, c0.nv(), c1.nv());
            }
            let (b, ob) = encode_int_r(c, st, ir, env, *rhs)?;
            let ghost c2 = *c;
            proof {
                lemma_grown_trans(&c0, &c1, &c2);
                lemma_bits_up(a@, c1.nv(), c2.nv());
                assert(valid(oa, c2.nv()));
            }
            let w = st.params.bitwidth as u64;
            room_or(c, Some(4 * w + 3), node.span)?;
            let mut ib = builder(c, st.params.bitwidth as usize);
            let x = int_compare(&mut ib, *op, &a, &b, oa, ob, true, true, false, false);
            restore(c, ib);
            proof {
                lemma_grown_trans(&c0, &c2, c);
                assert forall|s: Assignment| #[trigger] sat(c.cls(), s) implies holds(*ir, st.instance_of(s), st.params, e0, f.index) == Some(
                    val(x, s),
                ) by {
                    lemma_sat_back(&c2, c, s);
                    lemma_sat_back(&c1, &c2, s);
                    assert(crate::evaluator::i_sub(*ir, rank, st.instance_of(s), st.params, e0, n, lhs.index) == int_value(*ir, st.instance_of(s), st.params, e0, lhs.index));
                    assert(crate::evaluator::i_sub(*ir, rank, st.instance_of(s), st.params, e0, n, rhs.index) == int_value(*ir, st.instance_of(s), st.params, e0, rhs.index));
                }
            }
            Ok(x)
        },
        FormulaKind::TemporalUnary { .. } | FormulaKind::TemporalBinary { .. } => Err(
            TranslateError::LoweringUnsupported {
                what: String::from_str("a temporal operator reached the static encoding"),
                span: node.span,
            },
        ),
    }
}

/// The part one binding contributes to a quantifier: `cell → body` for
/// `all`, `cell ∧ body` for `some`.
pub open spec fn part_value(is_all: bool, cell: bool, body: bool) -> bool {
    if is_all {
        cell ==> body
    } else {
        cell && body
    }
}

/// A quantified formula's value from its grounding: `ord` lists the
/// bound's candidate tuples in order, `cells[j]` says whether the bound
/// holds `ord[j]`, `bodies[j]` is the body's value with the variable bound
/// to `ord[j]`, and `xv` combines them as the encoding does.
proof fn lemma_quant_value(
    ir: Ir,
    inst: InstView,
    p: IntParams,
    e0: Seq<Option<Seq<nat>>>,
    f: usize,
    kind: QuantKind,
    var: crate::ir::VarId,
    bound: RelExprId,
    body: FormulaId,
    ord: Seq<Seq<nat>>,
    cells: Seq<bool>,
    bodies: Seq<bool>,
    xv: bool,
)
    requires
        ranked(ir, the_rank(ir)),
        f < ir.formulas@.len(),
        ir.formulas@[f as int].kind == (FormulaKind::Quant { kind, var, bound, body }),
        the_rank(ir)(NodeRef::Rel(bound.index)) < the_rank(ir)(NodeRef::Formula(f)),
        the_rank(ir)(NodeRef::Formula(body.index)) < the_rank(ir)(NodeRef::Formula(f)),
        var.index < e0.len(),
        lex_sorted(ord),
        cells.len() == ord.len(),
        bodies.len() == ord.len(),
        denote(ir, inst, p, e0, bound.index) is Some,
        forall|j: int| 0 <= j < ord.len() && #[trigger] cells[j] ==> (denote(ir, inst, p, e0, bound.index)->0).1.contains(ord[j]),
        forall|t: Seq<nat>|
            #[trigger] (denote(ir, inst, p, e0, bound.index)->0).1.contains(t) ==> exists|j: int|
                0 <= j < ord.len() && ord[j] == t && #[trigger] cells[j],
        forall|j: int|
            0 <= j < ord.len() ==> #[trigger] holds(ir, inst, p, e0.update(var.index as int, Some(ord[j])), body.index) == Some(
                bodies[j],
            ),
        xv == if kind == QuantKind::All {
            forall|j: int| 0 <= j < ord.len() ==> (#[trigger] cells[j] ==> bodies[j])
        } else {
            exists|j: int| 0 <= j < ord.len() && #[trigger] cells[j] && bodies[j]
        },
    ensures
        holds(ir, inst, p, e0, f) == Some(xv),
{
    let rank = the_rank(ir);
    let n = NodeRef::Formula(f);
    let vi = var.index;
    let is_all = kind == QuantKind::All;
    let d = (denote(ir, inst, p, e0, bound.index)->0).1;
    assert(d_sub(ir, rank, inst, p, e0, n, bound.index) == denote(ir, inst, p, e0, bound.index));
    assert(holds(ir, inst, p, e0, f) == quant_r(ir, rank, inst, p, e0, n, kind, vi, bound.index, body.index));
    assert forall|t: Seq<nat>| d.contains(t) implies ord.to_set().contains(t) by {
        let j = choose|j: int| 0 <= j < ord.len() && ord[j] == t && #[trigger] cells[j];
        assert(ord.contains(ord[j]));
    }
    lemma_keep(ord, d);
    assert(keep(ord, d).to_set() =~= d);
    let ts = crate::evaluator::sorted_of(d);
    assert(lex_sorted(ts) && ts.to_set() == d);
    assert(quant_r(ir, rank, inst, p, e0, n, kind, vi, bound.index, body.index) == bindings(ir, rank, inst, p, e0, n, vi, body.index, ts, is_all));
    lemma_bindings_set(ir, rank, inst, p, e0, n, vi, body.index, ts, is_all);
    assert forall|t: Seq<nat>| ts.contains(t) implies exists|j: int| 0 <= j < ord.len() && ord[j] == t && #[trigger] cells[j] by {
        assert(ts.to_set().contains(t));
    }
    assert forall|j: int| 0 <= j < ord.len() && #[trigger] cells[j] implies ts.contains(ord[j]) by {
        assert(ts.to_set().contains(ord[j]));
    }
    assert forall|t: Seq<nat>| ts.contains(t) implies #[trigger] h_sub(ir, rank, inst, p, e0.update(vi as int, Some(t)), n, body.index) is Some by {
        let j = choose|j: int| 0 <= j < ord.len() && ord[j] == t && #[trigger] cells[j];
        assert(holds(ir, inst, p, e0.update(vi as int, Some(ord[j])), body.index) == Some(bodies[j]));
    }
    if is_all {
        if xv {
            assert forall|t: Seq<nat>| ts.contains(t) implies #[trigger] h_sub(ir, rank, inst, p, e0.update(vi as int, Some(t)), n, body.index)->0 by {
                let j = choose|j: int| 0 <= j < ord.len() && ord[j] == t && #[trigger] cells[j];
                assert(holds(ir, inst, p, e0.update(vi as int, Some(ord[j])), body.index) == Some(bodies[j]));
            }
        } else {
            let j = choose|j: int| 0 <= j < ord.len() && !(#[trigger] cells[j] ==> bodies[j]);
            assert(holds(ir, inst, p, e0.update(vi as int, Some(ord[j])), body.index) == Some(bodies[j]));
            assert(ts.contains(ord[j]));
            assert(!h_sub(ir, rank, inst, p, e0.update(vi as int, Some(ord[j])), n, body.index)->0);
        }
    } else {
        if xv {
            let j = choose|j: int| 0 <= j < ord.len() && #[trigger] cells[j] && bodies[j];
            assert(holds(ir, inst, p, e0.update(vi as int, Some(ord[j])), body.index) == Some(bodies[j]));
            assert(ts.contains(ord[j]));
            assert(h_sub(ir, rank, inst, p, e0.update(vi as int, Some(ord[j])), n, body.index)->0);
        } else {
            assert forall|t: Seq<nat>| ts.contains(t) implies !(#[trigger] h_sub(ir, rank, inst, p, e0.update(vi as int, Some(t)), n, body.index))->0 by {
                let j = choose|j: int| 0 <= j < ord.len() && ord[j] == t && #[trigger] cells[j];
                assert(holds(ir, inst, p, e0.update(vi as int, Some(ord[j])), body.index) == Some(bodies[j]));
            }
        }
    }
}

/// A grounded quantifier under an assignment `s`: the bound's matrix `bm`,
/// the body's gate for each of its candidate tuples, the part each tuple
/// contributes, and their conjunction (`all`) or disjunction (`some`).
proof fn lemma_quant_grounded(
    ir: Ir,
    inst: InstView,
    p: IntParams,
    e0: Seq<Option<Seq<nat>>>,
    f: usize,
    kind: QuantKind,
    var: crate::ir::VarId,
    bound: RelExprId,
    body: FormulaId,
    bm: Matrix,
    bodies: Seq<Bool>,
    ps: Seq<Bool>,
    x: Bool,
    s: Assignment,
)
    requires
        ranked(ir, the_rank(ir)),
        f < ir.formulas@.len(),
        ir.formulas@[f as int].kind == (FormulaKind::Quant { kind, var, bound, body }),
        the_rank(ir)(NodeRef::Rel(bound.index)) < the_rank(ir)(NodeRef::Formula(f)),
        the_rank(ir)(NodeRef::Formula(body.index)) < the_rank(ir)(NodeRef::Formula(f)),
        var.index < e0.len(),
        bm.wf(),
        denote(ir, inst, p, e0, bound.index) == Some((bm.ar(), bm.denote(s))),
        bodies.len() == bm.order().len(),
        ps.len() == bm.order().len(),
        forall|j: int|
            0 <= j < bm.order().len() ==> #[trigger] holds(ir, inst, p, e0.update(var.index as int, Some(bm.order()[j])), body.index)
                == Some(val(bodies[j], s)) && val(ps[j], s) == part_value(
                kind == QuantKind::All,
                val(bm.values()[j], s),
                val(bodies[j], s),
            ),
        val(x, s) == if kind == QuantKind::All {
            crate::circuit::all_true(ps, s)
        } else {
            crate::circuit::any_true(ps, s)
        },
    ensures
        holds(ir, inst, p, e0, f) == Some(val(x, s)),
{
    let ord = bm.order();
    let vals = bm.values();
    let vi = var.index;
    let is_all = kind == QuantKind::All;
    let cs = Seq::new(ord.len(), |j: int| val(vals[j], s));
    let bs = Seq::new(ord.len(), |j: int| val(bodies[j], s));
    assert forall|j: int| 0 <= j < ord.len() && #[trigger] cs[j] implies bm.denote(s).contains(ord[j]) by {
        assert(bm.cells()[ord[j]] == vals[j]);
    }
    assert forall|t: Seq<nat>| #[trigger] bm.denote(s).contains(t) implies exists|j: int|
        0 <= j < ord.len() && ord[j] == t && #[trigger] cs[j] by {
        assert(ord.to_set().contains(t));
        let j = choose|j: int| 0 <= j < ord.len() && ord[j] == t;
        assert(bm.cells()[ord[j]] == vals[j]);
        assert(cs[j]);
    }
    assert forall|j: int| 0 <= j < ord.len() implies #[trigger] holds(ir, inst, p, e0.update(vi as int, Some(ord[j])), body.index)
        == Some(bs[j]) by {}
    if is_all {
        if val(x, s) {
            assert forall|j: int| 0 <= j < ord.len() implies (#[trigger] cs[j] ==> bs[j]) by {
                assert(holds(ir, inst, p, e0.update(vi as int, Some(ord[j])), body.index) == Some(val(bodies[j], s)));
                assert(val(ps[j], s));
            }
        } else {
            let j = choose|j: int| 0 <= j < ps.len() && !val(#[trigger] ps[j], s);
            assert(holds(ir, inst, p, e0.update(vi as int, Some(ord[j])), body.index) == Some(val(bodies[j], s)));
            assert(!(cs[j] ==> bs[j]));
        }
    } else {
        if val(x, s) {
            let j = choose|j: int| 0 <= j < ps.len() && val(#[trigger] ps[j], s);
            assert(holds(ir, inst, p, e0.update(vi as int, Some(ord[j])), body.index) == Some(val(bodies[j], s)));
            assert(cs[j] && bs[j]);
        } else {
            assert forall|j: int| 0 <= j < ord.len() implies !(#[trigger] cs[j] && bs[j]) by {
                assert(holds(ir, inst, p, e0.update(vi as int, Some(ord[j])), body.index) == Some(val(bodies[j], s)));
                assert(!val(ps[j], s));
            }
        }
    }
    lemma_quant_value(ir, inst, p, e0, f, kind, var, bound, body, ord, cs, bs, val(x, s));
}

/// The grounding of a quantifier of `f` over the candidate tuples of its
/// bound's matrix `bm`: for each, the body's gate with variable `vi` bound
/// to it, and the part it contributes (`cell → body` for `all`,
/// `cell ∧ body` for `some`), in the matrix's order.
fn ground(
    c: &mut Circuit,
    st: &EncodeState,
    ir: &Ir,
    env: &mut Vec<Option<Tuple>>,
    f: FormulaId,
    bm: &Matrix,
    vi: usize,
    body: FormulaId,
    is_all: bool,
    span: Span,
) -> (res: Result<(Vec<Bool>, Ghost<Seq<Bool>>), TranslateError>)
    requires
        enc_ok(*ir, *old(c), *st),
        bm.wf(),
        bm.valid_below(old(c).nv()),
        vi < old(env)@.len(),
        body.index < ir.formulas@.len(),
        the_rank(*ir)(NodeRef::Formula(body.index)) < the_rank(*ir)(NodeRef::Formula(f.index)),
    ensures
        grown(old(c), final(c)),
        env_view(final(env)@) == env_view(old(env)@),
        res matches Ok((parts, bodies)) ==> {
            &&& parts@.len() == bm.order().len()
            &&& bodies@.len() == bm.order().len()
            &&& crate::circuit::all_valid(parts@, final(c).nv())
            &&& forall|s: Assignment|
                #[trigger] sat(final(c).cls(), s) ==> forall|j: int|
                    0 <= j < bm.order().len() ==> #[trigger] holds(
                        *ir,
                        st.instance_of(s),
                        st.params,
                        env_view(old(env)@).update(vi as int, Some(bm.order()[j])),
                        body.index,
                    ) == Some(val(bodies@[j], s)) && val(parts@[j], s) == part_value(
                        is_all,
                        val(bm.values()[j], s),
                        val(bodies@[j], s),
                    )
        },
        res matches Err(e) ==> out_of_room(e, final(c).nv()) || !formula_sorted(
            *ir,
            the_rank(*ir),
            *st,
            env_shape(env_view(old(env)@)).update(vi as int, Some(bm.ar())),
            body.index,
        ),
    decreases the_rank(*ir)(NodeRef::Formula(f.index)), 0nat, 0nat,
{
    let ghost c1 = *c;
    let ghost e0 = env_view(env@);
    let cands = bm.iter();
    let ghost ord = bm.order();
    let ghost vals = bm.values();
    let mut parts: Vec<Bool> = Vec::new();
    let ghost mut bodies: Seq<Bool> = Seq::empty();
    let mut k: usize = 0;
    proof {
        assert(e0.len() == env@.len());
        lemma_grown_refl(&c1);
    }
    while k < cands.len()
        invariant
            c1 == *old(c),
            ranked(*ir, the_rank(*ir)),
            e0 == env_view(old(env)@),
            env_view(env@) == e0,
            vi < env@.len(),
            body.index < ir.formulas@.len(),
            the_rank(*ir)(NodeRef::Formula(body.index)) < the_rank(*ir)(NodeRef::Formula(f.index)),
            crate::tuple_map::entry_keys(cands@) == ord,
            crate::tuple_map::entry_vals(cands@) == vals,
            ord == bm.order(),
            vals == bm.values(),
            bm.wf(),
            bm.valid_below(c1.nv()),
            k <= cands@.len(),
            parts@.len() == k,
            bodies.len() == k,
            grown(&c1, c),
            st.wf(c.nv()),
            crate::circuit::all_valid(parts@, c.nv()),
            forall|s: Assignment|
                #[trigger] sat(c.cls(), s) ==> forall|j: int|
                    0 <= j < k ==> #[trigger] holds(*ir, st.instance_of(s), st.params, e0.update(vi as int, Some(ord[j])), body.index)
                        == Some(val(bodies[j], s)) && val(parts@[j], s) == part_value(is_all, val(vals[j], s), val(bodies[j], s)),
        decreases cands@.len() - k,
    {
        let ghost c2 = *c;
        let t = cands[k].0.duplicate();
        let cell = cands[k].1;
        proof {
            assert(ord[k as int] == cands@[k as int].0@);
            assert(vals[k as int] == cands@[k as int].1);
            crate::encode::lemma_cell_at(bm, k as int, c1.nv());
        }
        let prev = crate::evaluator::copy_binding(&env[vi]);
        let ghost e_before = env@;
        env.set(vi, Some(t));
        proof {
            crate::evaluator::lemma_env_update(e_before, vi as int, Some(t));
            assert(env_view(env@) == e0.update(vi as int, Some(ord[k as int])));
        }
        let r = encode_formula_r(c, st, ir, env, body);
        let ghost e_after = env@;
        env.set(vi, prev);
        proof {
            crate::evaluator::lemma_env_update(e_after, vi as int, prev);
            assert(env_view(e_before)[vi as int] == e0[vi as int]);
            assert(env_view(env@) =~= e0);
        }
        let b = match r {
            Ok(b) => b,
            Err(e) => {
                proof {
                    lemma_shape_update(e0, vi as int, ord[k as int]);
                }
                return Err(e);
            },
        };
        let ghost c3 = *c;
        proof {
            lemma_state_up(st, c2.nv(), c3.nv());
        }
        room_or(c, Some(1), span)?;
        let part = if is_all {
            c.implies(cell, b)
        } else {
            c.and(cell, b)
        };
        proof {
            lemma_grown_trans(&c1, &c2, &c3);
            lemma_grown_trans(&c1, &c3, c);
            lemma_state_up(st, c3.nv(), c.nv());
            assert forall|j: int| 0 <= j < parts@.len() implies valid(#[trigger] parts@[j], c.nv()) by {
                assert(valid(parts@[j], c2.nv()));
            }
        }
        parts.push(part);
        proof {
            let ghost old_bodies = bodies;
            bodies = bodies.push(b);
            assert forall|s: Assignment| #[trigger] sat(c.cls(), s) implies forall|j: int|
                0 <= j < k + 1 ==> #[trigger] holds(*ir, st.instance_of(s), st.params, e0.update(vi as int, Some(ord[j])), body.index)
                    == Some(val(bodies[j], s)) && val(parts@[j], s) == part_value(is_all, val(vals[j], s), val(bodies[j], s)) by {
                lemma_sat_back(&c3, c, s);
                lemma_sat_back(&c2, &c3, s);
                assert forall|j: int| 0 <= j < k implies bodies[j] == old_bodies[j] by {}
            }
        }
        k = k + 1;
    }
    Ok((parts, Ghost(bodies)))
}

/// A quantified formula `f`: for each candidate tuple of the bound, the body
/// under the binding of the variable to it, guarded by the tuple's cell.
#[verifier::rlimit(40)]
fn encode_quant(
    c: &mut Circuit,
    st: &EncodeState,
    ir: &Ir,
    env: &mut Vec<Option<Tuple>>,
    f: FormulaId,
    kind: QuantKind,
    var: crate::ir::VarId,
    bound: RelExprId,
    body: FormulaId,
    span: Span,
) -> (res: Result<Bool, TranslateError>)
    requires
        enc_ok(*ir, *old(c), *st),
        f.index < ir.formulas@.len(),
        ir.formulas@[f.index as int].kind == (FormulaKind::Quant { kind, var, bound, body }),
        bound.index < ir.rel_exprs@.len(),
        body.index < ir.formulas@.len(),
        the_rank(*ir)(NodeRef::Rel(bound.index)) < the_rank(*ir)(NodeRef::Formula(f.index)),
        the_rank(*ir)(NodeRef::Formula(body.index)) < the_rank(*ir)(NodeRef::Formula(f.index)),
    ensures
        grown(old(c), final(c)),
        env_view(final(env)@) == env_view(old(env)@),
        res matches Ok(x) ==> valid(x, final(c).nv()) && forall|s: Assignment|
            #[trigger] sat(final(c).cls(), s) ==> holds(*ir, st.instance_of(s), st.params, env_view(old(env)@), f.index) == Some(
                val(x, s),
            ),
        res matches Err(e) ==> out_of_room(e, final(c).nv()) || !formula_sorted_in(*ir, *st, env_view(old(env)@), f.index),
    decreases the_rank(*ir)(NodeRef::Formula(f.index)), 0nat, 1nat,
{
    let ghost c0 = *c;
    let ghost e0 = env_view(env@);
    let ghost rank = the_rank(*ir);
    let ghost n = NodeRef::Formula(f.index);
    let ghost sh = env_shape(e0);
    proof {
        assert(rel_sort_sub(*ir, rank, *st, sh, n, bound.index) == rel_sort(*ir, rank, *st, sh, bound.index));
    }
    let bm = encode_rel_r(c, st, ir, env, bound)?;
    let ghost c1 = *c;
    proof {
        lemma_state_up(st, c0.nv(), c1.nv());
    }
    let vi = var.index;
    if vi >= env.len() {
        return Err(unsupported(span));
    }
    let is_all = match kind {
        QuantKind::All => true,
        QuantKind::Exists => false,
    };
    proof {
        assert(formula_sort_sub(*ir, rank, *st, sh.update(vi as int, Some(bm.ar())), n, body.index) == formula_sorted(
            *ir,
            rank,
            *st,
            sh.update(vi as int, Some(bm.ar())),
            body.index,
        ));
    }
    let (parts, Ghost(bodies)) = ground(c, st, ir, env, f, &bm, vi, body, is_all, span)?;
    room_or(c, Some(1), span)?;
    let ghost c4 = *c;
    let ghost ps = parts@;
    let x = if is_all {
        c.and_many(parts)
    } else {
        c.or_many(parts)
    };
    proof {
        lemma_grown_trans(&c0, &c1, &c4);
        lemma_grown_trans(&c0, &c4, c);
        assert forall|s: Assignment| #[trigger] sat(c.cls(), s) implies holds(*ir, st.instance_of(s), st.params, e0, f.index) == Some(
            val(x, s),
        ) by {
            lemma_sat_back(&c4, c, s);
            lemma_sat_back(&c1, &c4, s);
            lemma_quant_grounded(*ir, st.instance_of(s), st.params, e0, f.index, kind, var, bound, body, bm, bodies, ps, x, s);
        }
    }
    Ok(x)
}

/// The ranked walk's precondition, from an acyclic IR.
proof fn lemma_enc_ok(ir: Ir, c: Circuit, st: EncodeState)
    requires
        acyclic(ir),
        c.wf(),
        st.wf(c.nv()),
    ensures
        enc_ok(ir, c, st),
{
    let rank = choose|rank: spec_fn(NodeRef) -> nat| ranked(ir, rank);
    assert(ranked(ir, rank));
}

/// The well-sorted fragment is closed under the connectives: an
/// implication, an equivalence or a negation of well-sorted formulas, and a
/// conjunction or disjunction of them, is well sorted. So encoding such a
/// formula fails only for want of variables.
pub proof fn law_connectives_sorted(ir: Ir, st: EncodeState, env: Seq<Option<Seq<nat>>>, f: usize)
    requires
        acyclic(ir),
        f < ir.formulas@.len(),
    ensures
        ir.formulas@[f as int].kind matches FormulaKind::Implies { antecedent, consequent } ==> (formula_sorted_in(
            ir,
            st,
            env,
            antecedent.index,
        ) && formula_sorted_in(ir, st, env, consequent.index) ==> formula_sorted_in(ir, st, env, f)),
        ir.formulas@[f as int].kind matches FormulaKind::Iff(a, b) ==> (formula_sorted_in(ir, st, env, a.index) && formula_sorted_in(
            ir,
            st,
            env,
            b.index,
        ) ==> formula_sorted_in(ir, st, env, f)),
        ir.formulas@[f as int].kind matches FormulaKind::Not(g) ==> (formula_sorted_in(ir, st, env, g.index) ==> formula_sorted_in(
            ir,
            st,
            env,
            f,
        )),
        ir.formulas@[f as int].kind matches FormulaKind::And(parts) ==> ((forall|j: int|
            0 <= j < parts@.len() ==> formula_sorted_in(ir, st, env, (#[trigger] parts@[j]).index)) ==> formula_sorted_in(ir, st, env, f)),
        ir.formulas@[f as int].kind matches FormulaKind::Or(parts) ==> ((forall|j: int|
            0 <= j < parts@.len() ==> formula_sorted_in(ir, st, env, (#[trigger] parts@[j]).index)) ==> formula_sorted_in(ir, st, env, f)),
{
    let rank = the_rank(ir);
    let n = NodeRef::Formula(f);
    let sh = env_shape(env);
    lemma_ranked_of(ir);
    assert(node_valid(ir, n));
    match ir.formulas@[f as int].kind {
        FormulaKind::Implies { antecedent, consequent } => {
            assert(children(ir, n)[0] == NodeRef::Formula(antecedent.index));
            assert(children(ir, n)[1] == NodeRef::Formula(consequent.index));
            assert(formula_sort_sub(ir, rank, st, sh, n, antecedent.index) == formula_sorted(ir, rank, st, sh, antecedent.index));
            assert(formula_sort_sub(ir, rank, st, sh, n, consequent.index) == formula_sorted(ir, rank, st, sh, consequent.index));
        },
        FormulaKind::Iff(a, b) => {
            assert(children(ir, n)[0] == NodeRef::Formula(a.index));
            assert(children(ir, n)[1] == NodeRef::Formula(b.index));
            assert(formula_sort_sub(ir, rank, st, sh, n, a.index) == formula_sorted(ir, rank, st, sh, a.index));
            assert(formula_sort_sub(ir, rank, st, sh, n, b.index) == formula_sorted(ir, rank, st, sh, b.index));
        },
        FormulaKind::Not(g) => {
            assert(children(ir, n)[0] == NodeRef::Formula(g.index));
            assert(formula_sort_sub(ir, rank, st, sh, n, g.index) == formula_sorted(ir, rank, st, sh, g.index));
        },
        FormulaKind::And(parts) => {
            if forall|j: int| 0 <= j < parts@.len() ==> formula_sorted_in(ir, st, env, (#[trigger] parts@[j]).index) {
                assert forall|k: int| 0 <= k < parts@.len() implies rank(NodeRef::Formula((#[trigger] parts@[k]).index)) < rank(n) by {
                    assert(children(ir, n)[k] == NodeRef::Formula(parts@[k].index));
                }
                lemma_parts_all_sorted(ir, st, sh, n, parts@);
            }
        },
        FormulaKind::Or(parts) => {
            if forall|j: int| 0 <= j < parts@.len() ==> formula_sorted_in(ir, st, env, (#[trigger] parts@[j]).index) {
                assert forall|k: int| 0 <= k < parts@.len() implies rank(NodeRef::Formula((#[trigger] parts@[k]).index)) < rank(n) by {
                    assert(children(ir, n)[k] == NodeRef::Formula(parts@[k].index));
                }
                lemma_parts_all_sorted(ir, st, sh, n, parts@);
            }
        },
        _ => {},
    }
}

/// A list of formulas each well sorted, and each below `n` in the ranking,
/// is well-sorted parts of `n`.
proof fn lemma_parts_all_sorted(ir: Ir, st: EncodeState, sh: Seq<Option<nat>>, n: NodeRef, parts: Seq<FormulaId>)
    requires
        ranked(ir, the_rank(ir)),
        forall|j: int| 0 <= j < parts.len() ==> the_rank(ir)(NodeRef::Formula((#[trigger] parts[j]).index)) < the_rank(ir)(n),
        forall|j: int| 0 <= j < parts.len() ==> formula_sorted(ir, the_rank(ir), st, sh, (#[trigger] parts[j]).index),
    ensures
        parts_sorted(ir, the_rank(ir), st, sh, n, parts),
    decreases parts.len(),
{
    if parts.len() > 0 {
        let init = parts.drop_last();
        assert forall|j: int| 0 <= j < init.len() implies the_rank(ir)(NodeRef::Formula((#[trigger] init[j]).index)) < the_rank(ir)(n)
            && formula_sorted(ir, the_rank(ir), st, sh, init[j].index) by {
            assert(init[j] == parts[j]);
        }
        lemma_parts_all_sorted(ir, st, sh, n, init);
        assert(parts[parts.len() - 1] == parts.last());
        assert(formula_sort_sub(ir, the_rank(ir), st, sh, n, parts.last().index) == formula_sorted(
            ir,
            the_rank(ir),
            st,
            sh,
            parts.last().index,
        ));
    }
}

/// A transitive closure, reflexive closure or transpose of a well-sorted
/// binary expression is a well-sorted binary expression: encoding it fails
/// only for want of variables.
pub proof fn law_unary_sorted(ir: Ir, st: EncodeState, env: Seq<Option<Seq<nat>>>, r: usize)
    requires
        acyclic(ir),
        r < ir.rel_exprs@.len(),
    ensures
        ir.rel_exprs@[r as int].kind matches RelExprKind::Unary { expr, .. } ==> (rel_sort_in(ir, st, env, expr.index) == Some(2nat)
            ==> rel_sort_in(ir, st, env, r) == Some(2nat)),
{
    let rank = the_rank(ir);
    let n = NodeRef::Rel(r);
    let sh = env_shape(env);
    lemma_ranked_of(ir);
    assert(node_valid(ir, n));
    if let RelExprKind::Unary { expr, .. } = ir.rel_exprs@[r as int].kind {
        assert(children(ir, n)[0] == NodeRef::Rel(expr.index));
        assert(rel_sort_sub(ir, rank, st, sh, n, expr.index) == rel_sort(ir, rank, st, sh, expr.index));
    }
}

/// An addition, subtraction, multiplication, division or remainder of
/// well-sorted integer expressions is well sorted: encoding it fails only
/// for want of variables.
pub proof fn law_int_binary_sorted(ir: Ir, st: EncodeState, env: Seq<Option<Seq<nat>>>, i: usize)
    requires
        acyclic(ir),
        i < ir.int_exprs@.len(),
    ensures
        ir.int_exprs@[i as int].kind matches IntExprKind::Binary { op, lhs, rhs } ==> (op != IntBinOp::Shl && op != IntBinOp::Sha && op
            != IntBinOp::Shr && int_sorted_in(ir, st, env, lhs.index) && int_sorted_in(ir, st, env, rhs.index) ==> int_sorted_in(
            ir,
            st,
            env,
            i,
        )),
{
    let rank = the_rank(ir);
    let n = NodeRef::Int(i);
    let sh = env_shape(env);
    lemma_ranked_of(ir);
    assert(node_valid(ir, n));
    if let IntExprKind::Binary { op, lhs, rhs } = ir.int_exprs@[i as int].kind {
        assert(children(ir, n)[0] == NodeRef::Int(lhs.index));
        assert(children(ir, n)[1] == NodeRef::Int(rhs.index));
        assert(int_sort_sub(ir, rank, st, sh, n, lhs.index) == int_sorted(ir, rank, st, sh, lhs.index));
        assert(int_sort_sub(ir, rank, st, sh, n, rhs.index) == int_sorted(ir, rank, st, sh, rhs.index));
    }
}

/// An acyclic IR is ranked by its chosen ranking.
proof fn lemma_ranked_of(ir: Ir)
    requires
        acyclic(ir),
    ensures
        ranked(ir, the_rank(ir)),
{
    let rank = choose|rank: spec_fn(NodeRef) -> nat| ranked(ir, rank);
    assert(ranked(ir, rank));
}

/// Encodes relation expression `r` of an acyclic IR under the bindings
/// `env` (by variable position) into a matrix over the circuit, leaving
/// `env` as it was. The circuit only grows. Under every assignment that
/// satisfies the grown circuit, the matrix denotes exactly what the
/// evaluator gives `r` in the instance the assignment denotes. A temporal
/// prime is refused. An error comes only from a circuit out of variables or
/// from an expression outside the well-sorted fragment ([`rel_sort`]); the
/// matrix of a well-sorted expression has the arity its sort gives.
pub fn encode_rel(c: &mut Circuit, st: &EncodeState, ir: &Ir, env: &mut Vec<Option<Tuple>>, r: RelExprId) -> (res: Result<
    Matrix,
    TranslateError,
>)
    requires
        acyclic(*ir),
        old(c).wf(),
        st.wf(old(c).nv()),
        r.index < ir.rel_exprs@.len(),
    ensures
        grown(old(c), final(c)),
        env_view(final(env)@) == env_view(old(env)@),
        res matches Ok(m) ==> m.wf() && m.valid_below(final(c).nv()) && forall|s: Assignment|
            #[trigger] sat(final(c).cls(), s) ==> denote(*ir, st.instance_of(s), st.params, env_view(old(env)@), r.index) == Some(
                (m.ar(), m.denote(s)),
            ),
        ir.rel_exprs@[r.index as int].kind is Prime ==> res is Err,
        res matches Err(e) ==> out_of_room(e, final(c).nv()) || rel_sort_in(*ir, *st, env_view(old(env)@), r.index) is None,
        res matches Ok(m) ==> (rel_sort_in(*ir, *st, env_view(old(env)@), r.index) is Some ==> m.ar() == rel_sort_in(
            *ir,
            *st,
            env_view(old(env)@),
            r.index,
        )->0),
{
    proof {
        lemma_enc_ok(*ir, *c, *st);
    }
    encode_rel_r(c, st, ir, env, r)
}

/// Encodes formula `f` of an acyclic IR under the bindings `env` into one
/// boolean, leaving `env` as it was. The circuit only grows. Under every
/// assignment that satisfies the grown circuit, its value is exactly
/// whether the evaluator says `f` holds in the instance the assignment
/// denotes. A temporal operator is refused. An error comes only from a
/// circuit out of variables or from a formula outside the well-sorted
/// fragment ([`formula_sorted`]).
pub fn encode_formula(c: &mut Circuit, st: &EncodeState, ir: &Ir, env: &mut Vec<Option<Tuple>>, f: FormulaId) -> (res: Result<
    Bool,
    TranslateError,
>)
    requires
        acyclic(*ir),
        old(c).wf(),
        st.wf(old(c).nv()),
        f.index < ir.formulas@.len(),
    ensures
        grown(old(c), final(c)),
        env_view(final(env)@) == env_view(old(env)@),
        res matches Ok(x) ==> valid(x, final(c).nv()) && forall|s: Assignment|
            #[trigger] sat(final(c).cls(), s) ==> holds(*ir, st.instance_of(s), st.params, env_view(old(env)@), f.index) == Some(
                val(x, s),
            ),
        ir.formulas@[f.index as int].kind is TemporalUnary || ir.formulas@[f.index as int].kind is TemporalBinary ==> res is Err,
        res matches Err(e) ==> out_of_room(e, final(c).nv()) || !formula_sorted_in(*ir, *st, env_view(old(env)@), f.index),
{
    proof {
        lemma_enc_ok(*ir, *c, *st);
    }
    encode_formula_r(c, st, ir, env, f)
}

/// Encodes integer expression `i` of an acyclic IR under the bindings `env`
/// into its two's-complement bits at the bit width and its overflow flag,
/// leaving `env` as it was. The circuit only grows. Under every assignment
/// that satisfies the grown circuit, the bits and the flag are exactly the
/// evaluator's value and flag for `i` in the instance the assignment
/// denotes. An error comes only from a circuit out of variables or from an
/// expression outside the well-sorted fragment ([`int_sorted`]).
pub fn encode_int(c: &mut Circuit, st: &EncodeState, ir: &Ir, env: &mut Vec<Option<Tuple>>, i: IntExprId) -> (res: Result<
    (IntVal, Bool),
    TranslateError,
>)
    requires
        acyclic(*ir),
        old(c).wf(),
        st.wf(old(c).nv()),
        i.index < ir.int_exprs@.len(),
    ensures
        grown(old(c), final(c)),
        env_view(final(env)@) == env_view(old(env)@),
        res matches Ok((v, of)) ==> {
            &&& v@.len() == st.params.bitwidth
            &&& all_valid(v@, final(c).nv())
            &&& valid(of, final(c).nv())
            &&& forall|s: Assignment|
                #[trigger] sat(final(c).cls(), s) ==> int_value(*ir, st.instance_of(s), st.params, env_view(old(env)@), i.index)
                    == Some((sval(v@, s), val(of, s)))
        },
        res matches Err(e) ==> out_of_room(e, final(c).nv()) || !int_sorted_in(*ir, *st, env_view(old(env)@), i.index),
{
    proof {
        lemma_enc_ok(*ir, *c, *st);
    }
    encode_int_r(c, st, ir, env, i)
}

} // verus!
