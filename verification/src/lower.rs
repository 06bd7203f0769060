//! Helpers of the lowering pass: the skolemization polarity, the integer range
//! of a bitwidth, tuple-set algebra for abstracting the upper bound of a
//! declaration (each returns `None` where the operation is undefined), the
//! kinds of a lowered fragment, and builders that append fixed shapes of IR
//! nodes (conjunctions, unions, empty relations, pairwise disjointness, the
//! total-order constraint). Each builder states exactly the nodes it appends.

use vstd::prelude::*;

use vstd::arithmetic::power2::pow2;

use crate::bounds::{tuple_views, TupleSet, Universe};
use crate::eval;
use crate::error::TranslateError;
use crate::ir::{
    Formula, FormulaId, FormulaKind, IntExpr, IntExprId, IntExprKind, Ir, MultTest, QuantKind, RelBinOp, RelCmpOp, RelConst, RelExpr,
    RelExprId, RelExprKind, RelUnOp, Var, VarId,
};
use crate::span::Span;
use crate::relspec::{
    const_spec, closure_spec, join_spec, lemma_closure_contains, lemma_closure_in_square, lemma_join_binary,
    lemma_pair_bound, lemma_reaches_right, lemma_square, lemma_take_to_set_ends,
    lemma_take_to_set_step, pair, pair_bound, product_spec, reaches, square, transpose_spec,
};

verus! {

broadcast use TupleSet::lemma_wf;

/// The skolemization polarity of the formula node being lowered: whether it
/// appears positively (an even number of negations above it), and whether
/// skolemization is blocked here regardless of polarity.
#[derive(Copy, Clone, PartialEq, Eq, Debug, Structural)]
pub struct Pol {
    /// The node appears positively in the goal.
    pub positive: bool,
    /// Skolemization is blocked below this point.
    pub blocked: bool,
}

impl Pol {
    /// The polarity of a top-level conjunct asserted directly: positive,
    /// nothing blocked.
    pub fn asserted() -> (p: Pol)
        ensures
            p.positive,
            !p.blocked,
    {
        Pol { positive: true, blocked: false }
    }
}

/// The least signed value at bitwidth `bw` (`0` at bitwidth 0).
pub open spec fn int_min_spec(bw: nat) -> int {
    if bw == 0 {
        0
    } else {
        -pow2((bw - 1) as nat)
    }
}

/// The greatest signed value at bitwidth `bw` (`0` at bitwidth 0).
pub open spec fn int_max_spec(bw: nat) -> int {
    if bw == 0 {
        0
    } else {
        pow2((bw - 1) as nat) - 1
    }
}

/// `2^k` as an `i32`, for `k < 31`.
fn pow2_i32(k: u32) -> (p: i32)
    requires
        k < 31,
    ensures
        p == pow2(k as nat),
{
    proof {
        vstd::bits::lemma_u32_pow2_no_overflow(k as nat);
        vstd::arithmetic::power2::lemma_pow2_strictly_increases(k as nat, 31);
        vstd::arithmetic::power2::lemma2_to64();
        vstd::bits::lemma_u32_shl_is_mul(1u32, k);
        assert(1i32 << k == (1u32 << k) as i32) by (bit_vector)
            requires
                k < 31,
        ;
    }
    1i32 << k
}

/// The most-negative signed value at bitwidth `bw` (`−2^(bw−1)`; `0` at
/// bitwidth 0).
pub fn int_min(bw: u32) -> (m: i32)
    requires
        bw <= 31,
    ensures
        m == int_min_spec(bw as nat),
{
    if bw == 0 {
        return 0;
    }
    -pow2_i32(bw - 1)
}

/// The most-positive signed value at bitwidth `bw` (`2^(bw−1) − 1`; `0` at
/// bitwidth 0).
pub fn int_max(bw: u32) -> (m: i32)
    requires
        bw <= 31,
    ensures
        m == int_max_spec(bw as nat),
{
    if bw == 0 {
        return 0;
    }
    pow2_i32(bw - 1) - 1
}

/// The Cartesian product of two tuple sets.
pub fn tupleset_product(a: &TupleSet, b: &TupleSet) -> (r: TupleSet)
    requires
        a.wf(),
        b.wf(),
        a.ar() + b.ar() <= usize::MAX,
    ensures
        r.wf(),
        r.ar() == a.ar() + b.ar(),
        r@ == product_spec(a@, b@),
{
    eval::product(a, b)
}

/// The union of two tuple sets; `None` when the arities differ.
pub fn tupleset_union(a: &TupleSet, b: &TupleSet) -> (r: Option<TupleSet>)
    requires
        a.wf(),
        b.wf(),
    ensures
        r.is_some() == (a.ar() == b.ar()),
        r matches Some(u) ==> u.wf() && u.ar() == a.ar() && u@ == a@ + b@,
{
    if a.arity() != b.arity() {
        return None;
    }
    let mut out = a.duplicate();
    let tb = b.iter();
    let mut j: usize = 0;
    proof {
        lemma_take_to_set_ends(b.ordered());
    }
    while j < tb.len()
        invariant
            b.wf(),
            a.ar() == b.ar(),
            out.wf(),
            out.ar() == a.ar(),
            tuple_views(tb@) == b.ordered(),
            j <= tb@.len(),
            out@ == a@ + b.ordered().take(j as int).to_set(),
        decreases tb.len() - j,
    {
        proof {
            assert(b@.contains(b.ordered()[j as int]));
            lemma_take_to_set_step(b.ordered(), j as int);
        }
        out.insert(tb[j].duplicate());
        j = j + 1;
        assert(out@ =~= a@ + b.ordered().take(j as int).to_set());
    }
    proof {
        lemma_take_to_set_ends(b.ordered());
    }
    Some(out)
}

/// The intersection of two tuple sets; `None` when the arities differ.
pub fn tupleset_intersect(a: &TupleSet, b: &TupleSet) -> (r: Option<TupleSet>)
    requires
        a.wf(),
        b.wf(),
    ensures
        r.is_some() == (a.ar() == b.ar()),
        r matches Some(u) ==> u.wf() && u.ar() == a.ar() && u@ == a@.intersect(b@),
{
    if a.arity() != b.arity() {
        return None;
    }
    Some(eval::intersect(a, b))
}

/// The join of two tuple sets over the shared middle column; `None` when both
/// are unary (the result would have arity 0).
pub fn tupleset_join(a: &TupleSet, b: &TupleSet) -> (r: Option<TupleSet>)
    requires
        a.wf(),
        b.wf(),
        a.ar() + b.ar() <= usize::MAX,
    ensures
        r.is_some() == (a.ar() >= 2 || b.ar() >= 2),
        r matches Some(j) ==> j.wf() && j.ar() == a.ar() + b.ar() - 2 && j@ == join_spec(a@, b@),
{
    if a.arity() < 2 && b.arity() < 2 {
        return None;
    }
    let out_arity = a.arity() + b.arity() - 2;
    if out_arity < 1 {
        return None;
    }
    Some(eval::join(a, b))
}

/// The transpose of a binary tuple set; `None` when it is not binary.
pub fn tupleset_transpose(a: &TupleSet) -> (r: Option<TupleSet>)
    requires
        a.wf(),
    ensures
        r.is_some() == (a.ar() == 2),
        r matches Some(t) ==> t.wf() && t.ar() == 2 && t@ == transpose_spec(a@),
{
    if a.arity() != 2 {
        return None;
    }
    Some(eval::transpose(a))
}

/// The transitive closure of a binary tuple set by fixpoint (extend by one
/// step of `a` until nothing new appears); `None` when it is not binary.
pub fn tupleset_closure(a: &TupleSet) -> (r: Option<TupleSet>)
    requires
        a.wf(),
    ensures
        r.is_some() == (a.ar() == 2),
        r matches Some(c) ==> c.wf() && c.ar() == 2 && c@ == closure_spec(a@),
{
    if a.arity() != 2 {
        return None;
    }
    let ghost n = pair_bound(a.ordered());
    proof {
        lemma_pair_bound(a.ordered());
        assert forall|t: Seq<nat>| #[trigger] a@.contains(t) implies t.len() == 2 && t[0] < n && t[1]
            < n by {
            let i = choose|i: int| 0 <= i < a.ordered().len() && a.ordered()[i] == t;
        }
        lemma_closure_in_square(a@, n);
        lemma_square(n);
        lemma_closure_contains(a@);
    }
    let mut out = a.duplicate();
    proof {
        vstd::set_lib::lemma_len_subset(out@, square(n));
    }
    loop
        invariant
            a.wf(),
            a.ar() == 2,
            out.wf(),
            out.ar() == 2,
            a@.subset_of(out@),
            out@.subset_of(closure_spec(a@)),
            closure_spec(a@).subset_of(square(n)),
            square(n).finite(),
            out@.len() <= square(n).len(),
        decreases square(n).len() - out@.len(),
    {
        let step = match tupleset_join(&out, a) {
            Some(s) => s,
            None => {
                return None;
            },
        };
        proof {
            lemma_join_binary(out@, a@);
        }
        let ghost start = out@;
        let ts = step.iter();
        let mut grew = false;
        let mut i: usize = 0;
        proof {
            lemma_take_to_set_ends(step.ordered());
        }
        while i < ts.len()
            invariant
                step.wf(),
                step.ar() == 2,
                out.wf(),
                out.ar() == 2,
                tuple_views(ts@) == step.ordered(),
                i <= ts@.len(),
                out@ == start + step.ordered().take(i as int).to_set(),
                grew ==> exists|t: Seq<nat>| out@.contains(t) && !start.contains(t),
                !grew ==> out@ == start,
                start.subset_of(out@),
            decreases ts.len() - i,
        {
            proof {
                assert(step@.contains(step.ordered()[i as int]));
                lemma_take_to_set_step(step.ordered(), i as int);
            }
            let ghost before = out@;
            if out.insert(ts[i].duplicate()) {
                grew = true;
                assert(out@.contains(step.ordered()[i as int]));
                assert(!start.contains(step.ordered()[i as int]));
            } else {
                assert(out@ =~= before);
            }
            i = i + 1;
            assert(out@ =~= start + step.ordered().take(i as int).to_set());
        }
        proof {
            lemma_take_to_set_ends(step.ordered());
            assert(out@ == start + step@);
            lemma_step_in_closure(a@, start, step@);
        }
        if !grew {
            proof {
                lemma_fixpoint_is_closure(a@, out@, step@);
            }
            return Some(out);
        }
        proof {
            vstd::set_lib::lemma_len_subset(start, out@);
            vstd::set_lib::lemma_len_subset(out@, square(n));
            if out@.len() == start.len() {
                vstd::set_lib::lemma_subset_equality(start, out@);
                let t = choose|t: Seq<nat>| out@.contains(t) && !start.contains(t);
            }
        }
    }
}

/// A set that contains `r` and is closed under extending its pairs by one
/// `r`-step on the right contains every `r`-path.
proof fn lemma_right_closed_reaches(r: Set<Seq<nat>>, s: Set<Seq<nat>>, x: nat, y: nat, k: nat)
    requires
        r.subset_of(s),
        forall|p: nat, m: nat, q: nat|
            #![trigger s.contains(pair(p, m)), r.contains(pair(m, q))]
            s.contains(pair(p, m)) && r.contains(pair(m, q)) ==> s.contains(pair(p, q)),
        reaches(r, x, y, k),
    ensures
        s.contains(pair(x, y)),
    decreases k,
{
    if k > 0 {
        let w = crate::relspec::lemma_reaches_peel_right(r, x, y, k);
        lemma_right_closed_reaches(r, s, x, w, (k - 1) as nat);
        assert(s.contains(pair(x, w)) && r.contains(pair(w, y)));
    }
}

/// One right step of `a` from a subset of `a`'s closure stays in the closure.
proof fn lemma_step_in_closure(a: Set<Seq<nat>>, start: Set<Seq<nat>>, step: Set<Seq<nat>>)
    requires
        start.subset_of(closure_spec(a)),
        forall|t: Seq<nat>| #[trigger]
            step.contains(t) <==> (t.len() == 2 && exists|m: nat|
                start.contains(pair(t[0], m)) && a.contains(pair(m, t[1]))),
    ensures
        (start + step).subset_of(closure_spec(a)),
{
    assert forall|t: Seq<nat>| (start + step).contains(t) implies closure_spec(a).contains(t) by {
        if step.contains(t) && !start.contains(t) {
            let m = choose|m: nat| start.contains(pair(t[0], m)) && a.contains(pair(m, t[1]));
            assert(closure_spec(a).contains(pair(t[0], m)));
            let k = choose|k: nat| reaches(a, pair(t[0], m)[0], pair(t[0], m)[1], k);
            assert(pair(t[0], m)[0] == t[0] && pair(t[0], m)[1] == m);
            lemma_reaches_right(a, t[0], m, t[1], k);
            assert(t =~= pair(t[0], t[1]));
        }
    }
}

/// When one more right step of `a` adds nothing, the set holds `a`'s closure.
proof fn lemma_fixpoint_is_closure(a: Set<Seq<nat>>, out: Set<Seq<nat>>, step: Set<Seq<nat>>)
    requires
        a.subset_of(out),
        step.subset_of(out),
        forall|t: Seq<nat>| #[trigger]
            step.contains(t) <==> (t.len() == 2 && exists|m: nat|
                out.contains(pair(t[0], m)) && a.contains(pair(m, t[1]))),
    ensures
        closure_spec(a).subset_of(out),
{
    assert forall|p: nat, m: nat, q: nat|
        #![trigger out.contains(pair(p, m)), a.contains(pair(m, q))]
        out.contains(pair(p, m)) && a.contains(pair(m, q)) implies out.contains(pair(p, q)) by {
        assert(pair(p, q)[0] == p && pair(p, q)[1] == q);
        assert(step.contains(pair(p, q)));
    }
    assert forall|t: Seq<nat>| closure_spec(a).contains(t) implies out.contains(t) by {
        let k = choose|k: nat| reaches(a, t[0], t[1], k);
        lemma_right_closed_reaches(a, out, t[0], t[1], k);
        assert(t =~= pair(t[0], t[1]));
    }
}

/// A lowered standalone fragment: which of the three sorts it turned out to
/// be, and its root node. The sort decides how a value is shown: `true` or
/// `false`, a bare numeral, or a tuple set.
#[derive(Copy, Clone, PartialEq, Eq, Debug, Structural)]
pub enum LoweredFragment {
    /// A formula: shown as `true` or `false`.
    Formula(FormulaId),
    /// An integer-sorted expression (`#e`, `sum x: B | e`, a shift): shown as
    /// a bare numeral.
    Int(IntExprId),
    /// A relational expression: shown as a tuple set.
    Rel(RelExprId),
}

/// Which top-level treatment a fragment's root gets.
#[derive(Copy, Clone, PartialEq, Eq, Debug, Structural)]
pub enum FragmentRoot {
    /// An expression typed at an evaluation prompt: a root that is a
    /// relation-valued integer is wrapped back into an atom, and only a
    /// genuinely integer-sorted root is shown as a numeral.
    Evaluator,
    /// A function body evaluated for an instance listing: the root takes the
    /// ordinary in-expression sort.
    Value,
}

/// `parts` as one formula: `true` for none, the part itself for one, their
/// conjunction otherwise.
pub fn conjoin(ir: &mut Ir, parts: Vec<FormulaId>, span: Span) -> (f: FormulaId)
    requires
        old(ir).formulas@.len() < usize::MAX,
    ensures
        final(ir).rel_exprs == old(ir).rel_exprs,
        final(ir).int_exprs == old(ir).int_exprs,
        final(ir).relations == old(ir).relations,
        final(ir).vars == old(ir).vars,
        parts@.len() == 1 ==> f == parts@[0] && final(ir).formulas == old(ir).formulas,
        parts@.len() != 1 ==> f.index == old(ir).formulas@.len() && final(ir).formulas@ == old(ir).formulas@.push(
            Formula {
                kind: if parts@.len() == 0 {
                    FormulaKind::Const(true)
                } else {
                    FormulaKind::And(parts)
                },
                span,
            },
        ),
{
    if parts.len() == 0 {
        ir.alloc_formula(Formula { kind: FormulaKind::Const(true), span })
    } else if parts.len() == 1 {
        parts[0]
    } else {
        ir.alloc_formula(Formula { kind: FormulaKind::And(parts), span })
    }
}

/// The union nodes folding `parts` to the left, the first placed at arena
/// position `base`: node `k` joins the previous fold (the first part, for
/// the first node) with part `k + 1`.
pub open spec fn union_nodes(parts: Seq<RelExprId>, base: nat, span: Span) -> Seq<RelExpr> {
    Seq::new(
        (parts.len() - 1) as nat,
        |k: int|
            RelExpr {
                kind: RelExprKind::Binary {
                    op: RelBinOp::Union,
                    lhs: if k == 0 {
                        parts[0]
                    } else {
                        RelExprId { index: (base + k - 1) as usize }
                    },
                    rhs: parts[k + 1],
                },
                span,
            },
    )
}

/// `parts` folded into a left-nested union; the empty relation for none.
pub fn union_rel(ir: &mut Ir, parts: &[RelExprId], span: Span) -> (r: RelExprId)
    requires
        old(ir).rel_exprs@.len() + parts@.len() < usize::MAX,
    ensures
        final(ir).formulas == old(ir).formulas,
        final(ir).int_exprs == old(ir).int_exprs,
        final(ir).relations == old(ir).relations,
        final(ir).vars == old(ir).vars,
        parts@.len() == 0 ==> r.index == old(ir).rel_exprs@.len() && final(ir).rel_exprs@ == old(ir).rel_exprs@.push(
            RelExpr { kind: RelExprKind::Const(RelConst::Empty), span },
        ),
        parts@.len() == 1 ==> r == parts@[0] && final(ir).rel_exprs@ == old(ir).rel_exprs@,
        parts@.len() >= 2 ==> r.index == old(ir).rel_exprs@.len() + parts@.len() - 2 && final(ir).rel_exprs@ == old(ir).rel_exprs@
            + union_nodes(parts@, old(ir).rel_exprs@.len(), span),
{
    if parts.len() == 0 {
        return ir.alloc_rel_expr(RelExpr { kind: RelExprKind::Const(RelConst::Empty), span });
    }
    let ghost base = ir.rel_exprs@.len();
    let ghost r0 = ir.rel_exprs@;
    let mut acc = parts[0];
    let mut k: usize = 1;
    while k < parts.len()
        invariant
            1 <= k <= parts@.len(),
            base == old(ir).rel_exprs@.len(),
            r0 == old(ir).rel_exprs@,
            base + parts@.len() < usize::MAX,
            ir.formulas == old(ir).formulas,
            ir.int_exprs == old(ir).int_exprs,
            ir.relations == old(ir).relations,
            ir.vars == old(ir).vars,
            ir.rel_exprs@ == r0 + union_nodes(parts@.take(k as int), base, span),
            acc == if k == 1 {
                parts@[0]
            } else {
                RelExprId { index: (base + k - 2) as usize }
            },
        decreases parts@.len() - k,
    {
        acc = ir.alloc_rel_expr(
            RelExpr { kind: RelExprKind::Binary { op: RelBinOp::Union, lhs: acc, rhs: parts[k] }, span },
        );
        k = k + 1;
        proof {
            assert(ir.rel_exprs@ =~= r0 + union_nodes(parts@.take(k as int), base, span));
        }
    }
    proof {
        assert(parts@.take(k as int) =~= parts@);
        if parts@.len() == 1 {
            assert(ir.rel_exprs@ =~= r0);
        }
    }
    acc
}

/// The nodes of an empty relation of arity `m + 1` placed at arena position
/// `base`: an empty unary relation, then `m` times another one and the
/// product of the fold so far with it.
pub open spec fn none_nodes(m: nat, base: nat, span: Span) -> Seq<RelExpr> {
    Seq::new(
        2 * m + 1,
        |i: int|
            if i == 0 || i % 2 == 1 {
                RelExpr { kind: RelExprKind::Const(RelConst::Empty), span }
            } else {
                RelExpr {
                    kind: RelExprKind::Binary {
                        op: RelBinOp::Product,
                        lhs: RelExprId { index: (base + i - 2) as usize },
                        rhs: RelExprId { index: (base + i - 1) as usize },
                    },
                    span,
                }
            },
    )
}

/// The empty relation of arity `k` (at least one): the `k`-fold product of
/// the empty unary relation.
pub fn none_of_arity(ir: &mut Ir, k: usize, span: Span) -> (r: RelExprId)
    requires
        old(ir).rel_exprs@.len() + 2 * k + 1 < usize::MAX,
    ensures
        final(ir).formulas == old(ir).formulas,
        final(ir).int_exprs == old(ir).int_exprs,
        final(ir).relations == old(ir).relations,
        final(ir).vars == old(ir).vars,
        ({
            let m = if k == 0 {
                0
            } else {
                k - 1
            };
            &&& final(ir).rel_exprs@ == old(ir).rel_exprs@ + none_nodes(m as nat, old(ir).rel_exprs@.len(), span)
            &&& r.index == old(ir).rel_exprs@.len() + 2 * m
        }),
{
    let ghost base = ir.rel_exprs@.len();
    let ghost r0 = ir.rel_exprs@;
    let mut acc = ir.alloc_rel_expr(RelExpr { kind: RelExprKind::Const(RelConst::Empty), span });
    let top: usize = if k == 0 {
        1
    } else {
        k
    };
    proof {
        assert(ir.rel_exprs@ =~= r0 + none_nodes(0, base, span));
    }
    let mut j: usize = 1;
    while j < top
        invariant
            1 <= j <= top,
            top == if k == 0 {
                1
            } else {
                k
            },
            base == old(ir).rel_exprs@.len(),
            r0 == old(ir).rel_exprs@,
            base + 2 * k + 1 < usize::MAX,
            ir.formulas == old(ir).formulas,
            ir.int_exprs == old(ir).int_exprs,
            ir.relations == old(ir).relations,
            ir.vars == old(ir).vars,
            ir.rel_exprs@ == r0 + none_nodes((j - 1) as nat, base, span),
            acc.index == base + 2 * (j - 1),
        decreases top - j,
    {
        let n = ir.alloc_rel_expr(RelExpr { kind: RelExprKind::Const(RelConst::Empty), span });
        acc = ir.alloc_rel_expr(RelExpr { kind: RelExprKind::Binary { op: RelBinOp::Product, lhs: acc, rhs: n }, span });
        proof {
            assert forall|i: int| 0 <= i < 2 * j + 1 implies (#[trigger] none_nodes(j as nat, base, span)[i]) == (r0 + none_nodes(
                (j - 1) as nat,
                base,
                span,
            )).push(RelExpr { kind: RelExprKind::Const(RelConst::Empty), span }).push(
                RelExpr { kind: RelExprKind::Binary { op: RelBinOp::Product, lhs: RelExprId { index: (base + 2 * (j - 1)) as usize }, rhs: n }, span },
            )[r0.len() + i] by {
                if i < 2 * j - 1 {
                    assert(none_nodes(j as nat, base, span)[i] == none_nodes((j - 1) as nat, base, span)[i]);
                }
            }
            assert(ir.rel_exprs@ =~= r0 + none_nodes(j as nat, base, span));
        }
        j = j + 1;
    }
    acc
}

/// The integer an integer-position expression already is: `#Int[x]` and
/// `int[Int[x]]` are `x` itself; anything else is unchanged.
pub open spec fn to_int_spec(ir: Ir, ie: IntExprId) -> IntExprId {
    match ir.int_exprs@[ie.index as int].kind {
        IntExprKind::Card(r) => match ir.rel_exprs@[r.index as int].kind {
            RelExprKind::IntToAtom(inner) => inner,
            _ => ie,
        },
        IntExprKind::AtomToInt(r) => match ir.rel_exprs@[r.index as int].kind {
            RelExprKind::IntToAtom(inner) => inner,
            _ => ie,
        },
        _ => ie,
    }
}

/// Strips a cast round trip off an integer expression (see [`to_int_spec`]).
pub fn to_int(ir: &Ir, ie: IntExprId) -> (r: IntExprId)
    requires
        ie.index < ir.int_exprs@.len(),
        match ir.int_exprs@[ie.index as int].kind {
            IntExprKind::Card(r) => r.index < ir.rel_exprs@.len(),
            IntExprKind::AtomToInt(r) => r.index < ir.rel_exprs@.len(),
            _ => true,
        },
    ensures
        r == to_int_spec(*ir, ie),
{
    let rel = match &ir.int_exprs[ie.index].kind {
        IntExprKind::Card(r) => *r,
        IntExprKind::AtomToInt(r) => *r,
        _ => return ie,
    };
    match &ir.rel_exprs[rel.index].kind {
        RelExprKind::IntToAtom(inner) => *inner,
        _ => ie,
    }
}

/// The relation expressions [`total_order_formula`] adds, the first at
/// arena position `rb`, with its two variables at `vb` and `vb + 1`.
pub open spec fn total_order_rels(first: RelExprId, next: RelExprId, rb: nat, vb: nat, span: Span) -> Seq<RelExpr> {
    let join = |l: RelExprId, r: RelExprId| RelExpr { kind: RelExprKind::Binary { op: RelBinOp::Join, lhs: l, rhs: r }, span };
    seq![
        join(next, first),
        RelExpr { kind: RelExprKind::Var(VarId { index: vb as usize }), span },
        join(RelExprId { index: (rb + 1) as usize }, next),
        RelExpr { kind: RelExprKind::Var(VarId { index: (vb + 1) as usize }), span },
        join(next, RelExprId { index: (rb + 3) as usize }),
        RelExpr { kind: RelExprKind::Unary { op: RelUnOp::ReflexiveClosure, expr: next }, span },
        join(first, RelExprId { index: (rb + 5) as usize }),
    ]
}

/// The formulas [`total_order_formula`] adds before the final conjunction,
/// the first at arena position `fb`: `one first`, `no next.first`, `all e:
/// elem | lone e.next`, `all e: elem | lone next.e` (each quantifier after
/// its body) and `elem in first.*next`.
pub open spec fn total_order_parts(elem: RelExprId, first: RelExprId, rb: nat, fb: nat, vb: nat, span: Span) -> Seq<Formula> {
    seq![
        Formula { kind: FormulaKind::MultTest { test: MultTest::One, expr: first }, span },
        Formula { kind: FormulaKind::MultTest { test: MultTest::No, expr: RelExprId { index: rb as usize } }, span },
        Formula { kind: FormulaKind::MultTest { test: MultTest::Lone, expr: RelExprId { index: (rb + 2) as usize } }, span },
        Formula {
            kind: FormulaKind::Quant {
                kind: QuantKind::All,
                var: VarId { index: vb as usize },
                bound: elem,
                body: FormulaId { index: (fb + 2) as usize },
            },
            span,
        },
        Formula { kind: FormulaKind::MultTest { test: MultTest::Lone, expr: RelExprId { index: (rb + 4) as usize } }, span },
        Formula {
            kind: FormulaKind::Quant {
                kind: QuantKind::All,
                var: VarId { index: (vb + 1) as usize },
                bound: elem,
                body: FormulaId { index: (fb + 4) as usize },
            },
            span,
        },
        Formula { kind: FormulaKind::RelCompare { op: RelCmpOp::Subset, lhs: elem, rhs: RelExprId { index: (rb + 6) as usize } }, span },
    ]
}

/// What [`total_order_formula`] builds: the nodes it appends to `ir0`,
/// giving `ir1`, and the conjunction `f` it returns.
pub open spec fn total_order_shape(ir0: Ir, ir1: Ir, elem: RelExprId, first: RelExprId, next: RelExprId, span: Span, f: FormulaId) -> bool {
    let fb = ir0.formulas@.len() as int;
    let rb = ir0.rel_exprs@.len() as int;
    let vb = ir0.vars@.len() as int;
    &&& ir1.int_exprs == ir0.int_exprs
    &&& ir1.relations == ir0.relations
    &&& ir1.vars@.len() == vb + 2
    &&& ir1.vars@.take(vb) == ir0.vars@
    &&& ir1.vars@[vb].name@ == "totalOrder_e"@
    &&& ir1.vars@[vb + 1].name@ == "totalOrder_p"@
    &&& ir1.vars@[vb].arity == 1 && ir1.vars@[vb + 1].arity == 1
    &&& ir1.vars@[vb].span == span && ir1.vars@[vb + 1].span == span
    &&& ir1.rel_exprs@ == ir0.rel_exprs@ + total_order_rels(first, next, rb as nat, vb as nat, span)
    &&& ir1.formulas@.len() == fb + 8
    &&& ir1.formulas@.take(fb + 7) == ir0.formulas@ + total_order_parts(elem, first, rb as nat, fb as nat, vb as nat, span)
    &&& f.index == fb + 7
    &&& ir1.formulas@[fb + 7].span == span
    &&& ir1.formulas@[fb + 7].kind matches FormulaKind::And(ps) && ps@ == seq![
        FormulaId { index: fb as usize },
        FormulaId { index: (fb + 1) as usize },
        FormulaId { index: (fb + 3) as usize },
        FormulaId { index: (fb + 5) as usize },
        FormulaId { index: (fb + 6) as usize },
    ]
}

/// The formula that `next` orders `elem` as one chain starting at `first`:
/// `first` is a single element with no predecessor, every element has at
/// most one successor and at most one predecessor, and every element is
/// reached from `first`. Returns the conjunction of those five parts.
pub fn total_order_formula(ir: &mut Ir, elem: RelExprId, first: RelExprId, next: RelExprId, span: Span) -> (f: FormulaId)
    requires
        old(ir).formulas@.len() + 8 < usize::MAX,
        old(ir).rel_exprs@.len() + 7 < usize::MAX,
        old(ir).vars@.len() + 2 < usize::MAX,
    ensures
        total_order_shape(*old(ir), *final(ir), elem, first, next, span, f),
{
    let ghost f0 = ir.formulas@;
    let ghost r0 = ir.rel_exprs@;
    let ghost v0 = ir.vars@;
    let one_first = ir.alloc_formula(Formula { kind: FormulaKind::MultTest { test: MultTest::One, expr: first }, span });
    let pred_of_first = ir.alloc_rel_expr(
        RelExpr { kind: RelExprKind::Binary { op: RelBinOp::Join, lhs: next, rhs: first }, span },
    );
    let no_pred = ir.alloc_formula(Formula { kind: FormulaKind::MultTest { test: MultTest::No, expr: pred_of_first }, span });
    let ev = ir.alloc_var(Var { name: "totalOrder_e".to_owned(), arity: 1, span });
    let ev_expr = ir.alloc_rel_expr(RelExpr { kind: RelExprKind::Var(ev), span });
    let e_next = ir.alloc_rel_expr(RelExpr { kind: RelExprKind::Binary { op: RelBinOp::Join, lhs: ev_expr, rhs: next }, span });
    let lone_succ = ir.alloc_formula(Formula { kind: FormulaKind::MultTest { test: MultTest::Lone, expr: e_next }, span });
    let all_succ = ir.alloc_formula(
        Formula { kind: FormulaKind::Quant { kind: QuantKind::All, var: ev, bound: elem, body: lone_succ }, span },
    );
    let pv = ir.alloc_var(Var { name: "totalOrder_p".to_owned(), arity: 1, span });
    let pv_expr = ir.alloc_rel_expr(RelExpr { kind: RelExprKind::Var(pv), span });
    let next_e = ir.alloc_rel_expr(RelExpr { kind: RelExprKind::Binary { op: RelBinOp::Join, lhs: next, rhs: pv_expr }, span });
    let lone_pred = ir.alloc_formula(Formula { kind: FormulaKind::MultTest { test: MultTest::Lone, expr: next_e }, span });
    let all_pred = ir.alloc_formula(
        Formula { kind: FormulaKind::Quant { kind: QuantKind::All, var: pv, bound: elem, body: lone_pred }, span },
    );
    let star_next = ir.alloc_rel_expr(RelExpr { kind: RelExprKind::Unary { op: RelUnOp::ReflexiveClosure, expr: next }, span });
    let reach = ir.alloc_rel_expr(RelExpr { kind: RelExprKind::Binary { op: RelBinOp::Join, lhs: first, rhs: star_next }, span });
    let covered = ir.alloc_formula(
        Formula { kind: FormulaKind::RelCompare { op: RelCmpOp::Subset, lhs: elem, rhs: reach }, span },
    );
    let parts = vec![one_first, no_pred, all_succ, all_pred, covered];
    let f = ir.alloc_formula(Formula { kind: FormulaKind::And(parts), span });
    proof {
        let fb = f0.len() as int;
        let rb = r0.len();
        let vb = v0.len();
        assert(ir.rel_exprs@ =~= r0 + total_order_rels(first, next, rb, vb, span));
        assert(ir.formulas@.take(fb + 7) =~= f0 + total_order_parts(elem, first, rb, fb as nat, vb, span));
        assert(ir.vars@.take(vb as int) =~= v0);
    }
    f
}

/// `univ`'s upper bound: every atom of the universe.
pub fn univ_upper(universe: &Universe) -> (r: TupleSet)
    ensures
        r.wf(),
        r.ar() == 1,
        r@ == const_spec(RelConst::Univ, universe@.len()),
{
    eval::const_value(RelConst::Univ, universe.len())
}

/// `iden`'s upper bound: every atom of the universe paired with itself.
pub fn iden_upper(universe: &Universe) -> (r: TupleSet)
    ensures
        r.wf(),
        r.ar() == 2,
        r@ == const_spec(RelConst::Iden, universe@.len()),
{
    eval::const_value(RelConst::Iden, universe.len())
}

/// The index pairs `(i, j)` with `i < j < n`, ordered by `i` then `j`, of
/// the first `i` rows.
pub open spec fn pairs_before(i: nat, n: nat) -> Seq<(int, int)>
    decreases i,
{
    if i == 0 {
        Seq::empty()
    } else {
        pairs_before((i - 1) as nat, n) + pair_row((i - 1) as nat, n)
    }
}

/// Row `i` of the pairs below `n`: `(i, j)` for every `j` with `i < j < n`.
pub open spec fn pair_row(i: nat, n: nat) -> Seq<(int, int)> {
    Seq::new(if i + 1 <= n { (n - i - 1) as nat } else { 0 }, |d: int| (i as int, i + 1 + d))
}

/// The intersection nodes of a pairwise-disjointness group, the first at
/// arena position `rb`: one per pair, in pair order.
pub open spec fn disjoint_rels(group: Seq<RelExprId>, pairs: Seq<(int, int)>, span: Span) -> Seq<RelExpr> {
    Seq::new(
        pairs.len(),
        |k: int| RelExpr { kind: RelExprKind::Binary { op: RelBinOp::Intersect, lhs: group[pairs[k].0], rhs: group[pairs[k].1] }, span },
    )
}

/// The `no` tests over those nodes, the first formula at position `fb`.
pub open spec fn disjoint_tests(count: nat, rb: nat, span: Span) -> Seq<Formula> {
    Seq::new(count, |k: int| Formula { kind: FormulaKind::MultTest { test: MultTest::No, expr: RelExprId { index: (rb + k) as usize } }, span })
}

/// The ids of `count` consecutive formulas from position `fb`.
pub open spec fn formula_ids(count: nat, fb: nat) -> Seq<FormulaId> {
    Seq::new(count, |k: int| FormulaId { index: (fb + k) as usize })
}

/// Appends to `out` the formula `no (a & b)` for every pair of distinct
/// members of `group`, in pair order.
pub fn push_pairwise_disjoint(ir: &mut Ir, group: &[RelExprId], span: Span, out: &mut Vec<FormulaId>)
    requires
        old(ir).rel_exprs@.len() + group@.len() * group@.len() < usize::MAX,
        old(ir).formulas@.len() + group@.len() * group@.len() < usize::MAX,
    ensures
        ({
            let pairs = pairs_before(group@.len(), group@.len());
            let rb = old(ir).rel_exprs@.len();
            let fb = old(ir).formulas@.len();
            &&& final(ir).int_exprs == old(ir).int_exprs
            &&& final(ir).relations == old(ir).relations
            &&& final(ir).vars == old(ir).vars
            &&& final(ir).rel_exprs@ == old(ir).rel_exprs@ + disjoint_rels(group@, pairs, span)
            &&& final(ir).formulas@ == old(ir).formulas@ + disjoint_tests(pairs.len(), rb, span)
            &&& final(out)@ == old(out)@ + formula_ids(pairs.len(), fb)
        }),
{
    let n = group.len();
    let ghost rb = ir.rel_exprs@.len();
    let ghost fb = ir.formulas@.len();
    let ghost r0 = ir.rel_exprs@;
    let ghost f0 = ir.formulas@;
    let ghost o0 = out@;
    let mut i: usize = 0;
    proof {
        assert(ir.rel_exprs@ =~= r0 + disjoint_rels(group@, pairs_before(0, n as nat), span));
        assert(ir.formulas@ =~= f0 + disjoint_tests(0, rb, span));
        assert(out@ =~= o0 + formula_ids(0, fb));
    }
    while i < n
        invariant
            i <= n,
            n == group@.len(),
            rb == old(ir).rel_exprs@.len(),
            fb == old(ir).formulas@.len(),
            r0 == old(ir).rel_exprs@,
            f0 == old(ir).formulas@,
            o0 == old(out)@,
            rb + n * n < usize::MAX,
            fb + n * n < usize::MAX,
            pairs_before(i as nat, n as nat).len() <= i * n,
            ir.int_exprs == old(ir).int_exprs,
            ir.relations == old(ir).relations,
            ir.vars == old(ir).vars,
            ir.rel_exprs@ == r0 + disjoint_rels(group@, pairs_before(i as nat, n as nat), span),
            ir.formulas@ == f0 + disjoint_tests(pairs_before(i as nat, n as nat).len(), rb, span),
            out@ == o0 + formula_ids(pairs_before(i as nat, n as nat).len(), fb),
        decreases n - i,
    {
        let ghost before = pairs_before(i as nat, n as nat);
        let mut j: usize = i + 1;
        while j < n
            invariant
                i < n,
                i + 1 <= j <= n,
                n == group@.len(),
                rb == old(ir).rel_exprs@.len(),
                fb == old(ir).formulas@.len(),
                r0 == old(ir).rel_exprs@,
                f0 == old(ir).formulas@,
                o0 == old(out)@,
                rb + n * n < usize::MAX,
                fb + n * n < usize::MAX,
                before == pairs_before(i as nat, n as nat),
                before.len() <= i * n,
                ir.int_exprs == old(ir).int_exprs,
                ir.relations == old(ir).relations,
                ir.vars == old(ir).vars,
                ir.rel_exprs@ == r0 + disjoint_rels(group@, before + pair_row(i as nat, n as nat).take(j - i - 1), span),
                ir.formulas@ == f0 + disjoint_tests((before.len() + (j - i - 1)) as nat, rb, span),
                out@ == o0 + formula_ids((before.len() + (j - i - 1)) as nat, fb),
            decreases n - j,
        {
            proof {
                assert(before.len() + (j - i - 1) < n * n) by (nonlinear_arith)
                    requires
                        before.len() <= i * n,
                        i < n,
                        j < n,
                        i + 1 <= j,
                ;
            }
            let inter = ir.alloc_rel_expr(
                RelExpr { kind: RelExprKind::Binary { op: RelBinOp::Intersect, lhs: group[i], rhs: group[j] }, span },
            );
            let f = ir.alloc_formula(Formula { kind: FormulaKind::MultTest { test: MultTest::No, expr: inter }, span });
            out.push(f);
            proof {
                let row = pair_row(i as nat, n as nat);
                assert(row.take(j - i) =~= row.take(j - i - 1).push((i as int, j as int)));
                assert(before + row.take(j - i) =~= (before + row.take(j - i - 1)).push((i as int, j as int)));
                assert(ir.rel_exprs@ =~= r0 + disjoint_rels(group@, before + row.take(j - i), span));
                assert(ir.formulas@ =~= f0 + disjoint_tests((before.len() + (j + 1 - i - 1)) as nat, rb, span));
                assert(out@ =~= o0 + formula_ids((before.len() + (j + 1 - i - 1)) as nat, fb));
            }
            j = j + 1;
        }
        proof {
            let row = pair_row(i as nat, n as nat);
            assert(row.take(j - i - 1) =~= row);
            assert(pairs_before((i + 1) as nat, n as nat) == before + row);
            assert(row.len() == n - i - 1);
            assert(before.len() + row.len() <= (i + 1) * n) by (nonlinear_arith)
                requires
                    before.len() <= i * n,
                    row.len() == n - i - 1,
                    i < n,
            ;
        }
        i = i + 1;
    }
}

/// An integer-library value spelled by name.
#[derive(Copy, Clone, PartialEq, Eq, Debug, Structural)]
pub enum BuiltinValue {
    /// The least integer of the bitwidth.
    IntMin,
    /// The greatest integer of the bitwidth.
    IntMax,
    /// The successor relation over the integer atoms.
    IntNext,
    /// The predecessor relation over the integer atoms.
    IntPrev,
}

/// Lowers a named integer-library value: the least or greatest integer of
/// `bitwidth` cast to its `Int` atom, the successor relation `int_next`, or
/// its transpose. Without integer atoms (`int_next` absent) the successor
/// and predecessor cannot be lowered.
pub fn lower_builtin_value(
    ir: &mut Ir,
    bv: BuiltinValue,
    bitwidth: u32,
    int_next: Option<RelExprId>,
    span: Span,
) -> (r: Result<RelExprId, TranslateError>)
    requires
        bitwidth <= 31,
        old(ir).int_exprs@.len() < usize::MAX,
        old(ir).rel_exprs@.len() < usize::MAX,
    ensures
        final(ir).formulas == old(ir).formulas,
        final(ir).relations == old(ir).relations,
        final(ir).vars == old(ir).vars,
        match bv {
            BuiltinValue::IntMin | BuiltinValue::IntMax => {
                let value = if bv == BuiltinValue::IntMin {
                    int_min_spec(bitwidth as nat)
                } else {
                    int_max_spec(bitwidth as nat)
                };
                &&& final(ir).int_exprs@.len() == old(ir).int_exprs@.len() + 1
                &&& final(ir).int_exprs@.take(old(ir).int_exprs@.len() as int) == old(ir).int_exprs@
                &&& final(ir).int_exprs@.last().kind matches IntExprKind::Const(v) && v == value
                &&& final(ir).int_exprs@.last().span == span
                &&& final(ir).rel_exprs@ == old(ir).rel_exprs@.push(
                    RelExpr { kind: RelExprKind::IntToAtom(IntExprId { index: old(ir).int_exprs@.len() as usize }), span },
                )
                &&& r == Ok::<RelExprId, TranslateError>(RelExprId { index: old(ir).rel_exprs@.len() as usize })
            },
            BuiltinValue::IntNext => {
                &&& final(ir).int_exprs == old(ir).int_exprs
                &&& final(ir).rel_exprs == old(ir).rel_exprs
                &&& match int_next {
                    Some(n) => r == Ok::<RelExprId, TranslateError>(n),
                    None => r matches Err(TranslateError::LoweringUnsupported { what, span: sp }) && what@
                        == "`fun/next` with no integer atoms (bitwidth 0)"@ && sp == span,
                }
            },
            BuiltinValue::IntPrev => {
                &&& final(ir).int_exprs == old(ir).int_exprs
                &&& match int_next {
                    Some(n) => {
                        &&& final(ir).rel_exprs@ == old(ir).rel_exprs@.push(
                            RelExpr { kind: RelExprKind::Unary { op: RelUnOp::Transpose, expr: n }, span },
                        )
                        &&& r == Ok::<RelExprId, TranslateError>(RelExprId { index: old(ir).rel_exprs@.len() as usize })
                    },
                    None => {
                        &&& final(ir).rel_exprs == old(ir).rel_exprs
                        &&& r matches Err(TranslateError::LoweringUnsupported { what, span: sp }) && what@
                            == "`fun/prev` with no integer atoms (bitwidth 0)"@ && sp == span
                    },
                }
            },
        },
{
    match bv {
        BuiltinValue::IntMin | BuiltinValue::IntMax => {
            let value = match bv {
                BuiltinValue::IntMin => int_min(bitwidth),
                _ => int_max(bitwidth),
            };
            let konst = ir.alloc_int_expr(IntExpr { kind: IntExprKind::Const(value), span });
            Ok(ir.alloc_rel_expr(RelExpr { kind: RelExprKind::IntToAtom(konst), span }))
        },
        BuiltinValue::IntNext => match int_next {
            Some(n) => Ok(n),
            None => Err(TranslateError::LoweringUnsupported { what: "`fun/next` with no integer atoms (bitwidth 0)".to_owned(), span }),
        },
        BuiltinValue::IntPrev => match int_next {
            Some(n) => Ok(ir.alloc_rel_expr(RelExpr { kind: RelExprKind::Unary { op: RelUnOp::Transpose, expr: n }, span })),
            None => Err(TranslateError::LoweringUnsupported { what: "`fun/prev` with no integer atoms (bitwidth 0)".to_owned(), span }),
        },
    }
}


/// The unary tuples of the atoms `xs`.
pub open spec fn chain_elems(xs: Seq<nat>) -> Set<Seq<nat>> {
    Set::new(|t: Seq<nat>| exists|i: int| 0 <= i < xs.len() && t == seq![#[trigger] xs[i]])
}

/// Each atom of `xs` paired with the one after it: the successor relation
/// of the linear order `xs` lists.
pub open spec fn chain_next(xs: Seq<nat>) -> Set<Seq<nat>> {
    Set::new(|t: Seq<nat>| exists|i: int| 0 <= i < xs.len() - 1 && t == seq![#[trigger] xs[i], xs[i + 1]])
}

proof fn lemma_chain_elems_finite(xs: Seq<nat>)
    ensures
        chain_elems(xs).finite(),
{
    let q = xs.map_values(|x: nat| seq![x]);
    assert(chain_elems(xs) =~= q.to_set()) by {
        assert forall|t: Seq<nat>| chain_elems(xs).contains(t) implies q.to_set().contains(t) by {
            let i = choose|i: int| 0 <= i < xs.len() && t == seq![#[trigger] xs[i]];
            assert(q[i] == t);
        }
        assert forall|t: Seq<nat>| q.to_set().contains(t) implies chain_elems(xs).contains(t) by {
            let i = choose|i: int| 0 <= i < q.len() && q[i] == t;
            assert(t == seq![xs[i]]);
        }
    }
    vstd::seq_lib::seq_to_set_is_finite(q);
}

/// Along the chain, each atom reaches every later one.
proof fn lemma_chain_reaches(xs: Seq<nat>, j: int, k: int)
    requires
        0 <= j < k < xs.len(),
    ensures
        crate::relspec::reaches(chain_next(xs), xs[j], xs[k], (k - j - 1) as nat),
    decreases k - j,
{
    assert(chain_next(xs).contains(crate::relspec::pair(xs[j], xs[j + 1]))) by {
        assert(crate::relspec::pair(xs[j], xs[j + 1]) == seq![xs[j], xs[j + 1]]);
    }
    if j + 1 < k {
        lemma_chain_reaches(xs, j + 1, k);
        assert(crate::relspec::reaches(chain_next(xs), xs[j + 1], xs[k], (k - j - 2) as nat));
    }
}

/// The first atom has no predecessor along the chain.
proof fn lemma_chain_no_pred(xs: Seq<nat>)
    requires
        xs.len() >= 1,
        xs.no_duplicates(),
    ensures
        crate::relspec::join_spec(chain_next(xs), set![seq![xs[0]]]) == Set::<Seq<nat>>::empty(),
{
    assert forall|u: Seq<nat>| !crate::relspec::join_spec(chain_next(xs), set![seq![xs[0]]]).contains(u) by {
        if crate::relspec::join_spec(chain_next(xs), set![seq![xs[0]]]).contains(u) {
            let (x, y) = choose|x: Seq<nat>, y: Seq<nat>|
                #![trigger chain_next(xs).contains(x), set![seq![xs[0]]].contains(y)]
                chain_next(xs).contains(x) && set![seq![xs[0]]].contains(y) && x.len() >= 1 && y.len() >= 1 && x.last() == y[0]
                    && u == x.drop_last() + y.drop_first();
            let i = choose|i: int| 0 <= i < xs.len() - 1 && x == seq![#[trigger] xs[i], xs[i + 1]];
            assert(y == seq![xs[0]]);
            assert(xs[i + 1] == xs[0]);
        }
    }
    assert(crate::relspec::join_spec(chain_next(xs), set![seq![xs[0]]]) =~= Set::<Seq<nat>>::empty());
}

/// An atom of the chain has at most one successor.
proof fn lemma_chain_lone_succ(xs: Seq<nat>, k: int)
    requires
        0 <= k < xs.len(),
        xs.no_duplicates(),
    ensures
        crate::relspec::join_spec(set![seq![xs[k]]], chain_next(xs)).len() <= 1,
        crate::relspec::join_spec(set![seq![xs[k]]], chain_next(xs)).finite(),
{
    let j = crate::relspec::join_spec(set![seq![xs[k]]], chain_next(xs));
    let w = set![seq![xs[k + 1]]];
    assert forall|u: Seq<nat>| j.contains(u) implies w.contains(u) by {
        let (x, y) = choose|x: Seq<nat>, y: Seq<nat>|
            #![trigger set![seq![xs[k]]].contains(x), chain_next(xs).contains(y)]
            set![seq![xs[k]]].contains(x) && chain_next(xs).contains(y) && x.len() >= 1 && y.len() >= 1 && x.last() == y[0]
                && u == x.drop_last() + y.drop_first();
        let i = choose|i: int| 0 <= i < xs.len() - 1 && y == seq![#[trigger] xs[i], xs[i + 1]];
        assert(x == seq![xs[k]]);
        assert(xs[i] == xs[k]);
        assert(i == k);
        assert(u =~= seq![xs[k + 1]]);
    }
    vstd::set_lib::lemma_len_subset(j, w);
}

/// An atom of the chain has at most one predecessor.
proof fn lemma_chain_lone_pred(xs: Seq<nat>, k: int)
    requires
        0 <= k < xs.len(),
        xs.no_duplicates(),
    ensures
        crate::relspec::join_spec(chain_next(xs), set![seq![xs[k]]]).len() <= 1,
        crate::relspec::join_spec(chain_next(xs), set![seq![xs[k]]]).finite(),
{
    let j = crate::relspec::join_spec(chain_next(xs), set![seq![xs[k]]]);
    let w = set![seq![xs[k - 1]]];
    assert forall|u: Seq<nat>| j.contains(u) implies w.contains(u) by {
        let (x, y) = choose|x: Seq<nat>, y: Seq<nat>|
            #![trigger chain_next(xs).contains(x), set![seq![xs[k]]].contains(y)]
            chain_next(xs).contains(x) && set![seq![xs[k]]].contains(y) && x.len() >= 1 && y.len() >= 1 && x.last() == y[0]
                && u == x.drop_last() + y.drop_first();
        let i = choose|i: int| 0 <= i < xs.len() - 1 && x == seq![#[trigger] xs[i], xs[i + 1]];
        assert(y == seq![xs[k]]);
        assert(xs[i + 1] == xs[k]);
        assert(i + 1 == k);
        assert(u =~= seq![xs[k - 1]]);
    }
    vstd::set_lib::lemma_len_subset(j, w);
}

/// Every atom of the chain is reached from the first.
proof fn lemma_chain_covered(xs: Seq<nat>, n: nat)
    requires
        xs.len() >= 1,
        forall|i: int| 0 <= i < xs.len() ==> #[trigger] xs[i] < n,
    ensures
        chain_elems(xs).subset_of(
            crate::relspec::join_spec(
                set![seq![xs[0]]],
                crate::relspec::rel_unary_spec(RelUnOp::ReflexiveClosure, chain_next(xs), n),
            ),
        ),
{
    let star = crate::relspec::rel_unary_spec(RelUnOp::ReflexiveClosure, chain_next(xs), n);
    assert forall|u: Seq<nat>| chain_elems(xs).contains(u) implies crate::relspec::join_spec(set![seq![xs[0]]], star).contains(u) by {
        let k = choose|k: int| 0 <= k < xs.len() && u == seq![#[trigger] xs[k]];
        let x = seq![xs[0]];
        let y = seq![xs[0], xs[k]];
        if k == 0 {
            assert(crate::relspec::const_spec(RelConst::Iden, n).contains(y));
        } else {
            lemma_chain_reaches(xs, 0, k);
            assert(crate::relspec::closure_spec(chain_next(xs)).contains(y));
        }
        assert(star.contains(y));
        assert(set![seq![xs[0]]].contains(x));
        assert(u =~= x.drop_last() + y.drop_first());
    }
}

/// Every linear order satisfies the total-order formula: when `elem`
/// holds exactly the distinct atoms `xs`, `first` the first of them, and
/// `next` the successor relation of the order `xs` lists (whatever the
/// formula's two new variables are bound to), the built formula holds.
/// In particular it is satisfiable whenever `elem` is nonempty.
#[verifier::rlimit(100)]
pub proof fn law_total_order_holds_on_chains(
    ir0: Ir,
    ir1: Ir,
    elem: RelExprId,
    first: RelExprId,
    next: RelExprId,
    span: Span,
    f: FormulaId,
    inst: crate::evaluator::InstView,
    p: crate::evaluator::IntParams,
    env: Seq<Option<Seq<nat>>>,
    xs: Seq<nat>,
)
    requires
        ir0.formulas@.len() + 8 < usize::MAX,
        ir0.rel_exprs@.len() + 7 < usize::MAX,
        ir0.vars@.len() + 2 < usize::MAX,
        total_order_shape(ir0, ir1, elem, first, next, span, f),
        crate::encode::freevars::acyclic(ir1),
        env.len() >= ir1.vars@.len(),
        xs.len() >= 1,
        xs.no_duplicates(),
        forall|i: int| 0 <= i < xs.len() ==> #[trigger] xs[i] < inst.0,
        crate::evaluator::denote(ir1, inst, p, env, elem.index) == Some((1nat, chain_elems(xs))),
        crate::evaluator::denote(ir1, inst, p, env, first.index) == Some((1nat, set![seq![xs[0]]])),
        forall|e2: Seq<Option<Seq<nat>>>|
            e2.len() == env.len() && (forall|j: int| 0 <= j < ir0.vars@.len() ==> e2[j] == env[j]) ==> #[trigger] crate::evaluator::denote(
                ir1,
                inst,
                p,
                e2,
                next.index,
            ) == Some((2nat, chain_next(xs))),
    ensures
        crate::evaluator::holds(ir1, inst, p, env, f.index) == Some(true),
{
    let rank = crate::encode::freevars::the_rank(ir1);
    assert(crate::encode::freevars::ranked(ir1, rank));
    let fb = ir0.formulas@.len() as int;
    let rb = ir0.rel_exprs@.len() as int;
    let vb = ir0.vars@.len() as int;
    let rels = total_order_rels(first, next, rb as nat, vb as nat, span);
    let parts = total_order_parts(elem, first, rb as nat, fb as nat, vb as nat, span);
    assert forall|k: int| 0 <= k < 7 implies #[trigger] ir1.rel_exprs@[rb + k] == rels[k] by {}
    assert forall|k: int| 0 <= k < 7 implies #[trigger] ir1.formulas@[fb + k] == parts[k] by {
        assert(ir1.formulas@.take(fb + 7)[fb + k] == ir1.formulas@[fb + k]);
    }
    assert(ir1.formulas@[fb + 0] == parts[0]);
    assert(ir1.formulas@[fb + 2] == parts[2]);
    assert(ir1.formulas@[fb + 4] == parts[4]);
    assert(ir1.rel_exprs@[rb + 0] == rels[0]);
    assert(ir1.rel_exprs@[rb + 1] == rels[1]);
    assert(ir1.rel_exprs@[rb + 2] == rels[2]);
    assert(ir1.rel_exprs@[rb + 3] == rels[3]);
    assert(ir1.rel_exprs@[rb + 4] == rels[4]);
    let nn = chain_next(xs);
    let ff = set![seq![xs[0]]];
    let ee = chain_elems(xs);
    assert(crate::evaluator::denote(ir1, inst, p, env, next.index) == Some((2nat, nn)));
    // one first
    assert(ir1.formulas@[fb].kind == FormulaKind::MultTest { test: MultTest::One, expr: first });
    assert(crate::encode::freevars::children(ir1, crate::encode::freevars::NodeRef::Formula(fb as usize))[0] == crate::encode::freevars::NodeRef::Rel(first.index));
    assert(ff.len() == 1) by {
        assert(ff =~= Set::<Seq<nat>>::empty().insert(seq![xs[0]]));
    }
    assert(crate::evaluator::holds(ir1, inst, p, env, fb as usize) == Some(true));
    // no next.first
    assert(ir1.rel_exprs@[rb].kind == RelExprKind::Binary { op: RelBinOp::Join, lhs: next, rhs: first });
    assert(crate::encode::freevars::children(ir1, crate::encode::freevars::NodeRef::Rel(rb as usize))[0] == crate::encode::freevars::NodeRef::Rel(next.index));
    assert(crate::encode::freevars::children(ir1, crate::encode::freevars::NodeRef::Rel(rb as usize))[1] == crate::encode::freevars::NodeRef::Rel(first.index));
    lemma_chain_no_pred(xs);
    assert(crate::evaluator::denote(ir1, inst, p, env, rb as usize) == Some((1nat, Set::<Seq<nat>>::empty())));
    assert(crate::encode::freevars::children(ir1, crate::encode::freevars::NodeRef::Formula((fb + 1) as usize))[0] == crate::encode::freevars::NodeRef::Rel(rb as usize));
    assert(crate::evaluator::holds(ir1, inst, p, env, (fb + 1) as usize) == Some(true));
    // the quantifiers' bound
    lemma_chain_elems_finite(xs);
    crate::evaluator::lemma_sorted_of_finite(ee);
    let ts = crate::evaluator::sorted_of(ee);
    // all e: elem | lone e.next
    let n3 = crate::encode::freevars::NodeRef::Formula((fb + 3) as usize);
    assert(crate::encode::freevars::children(ir1, n3)[0] == crate::encode::freevars::NodeRef::Rel(elem.index));
    assert(crate::encode::freevars::children(ir1, n3)[1] == crate::encode::freevars::NodeRef::Formula((fb + 2) as usize));
    assert forall|t: Seq<nat>| ts.contains(t) implies #[trigger] crate::evaluator::h_sub(ir1, rank, inst, p, env.update(vb, Some(t)), n3, (fb + 2) as usize)
        == Some(true) by {
        assert(ts.to_set().contains(t));
        let k = choose|k: int| 0 <= k < xs.len() && t == seq![#[trigger] xs[k]];
        let et = env.update(vb, Some(t));
        assert(crate::evaluator::denote(ir1, inst, p, et, next.index) == Some((2nat, nn)));
        assert(crate::encode::freevars::children(ir1, crate::encode::freevars::NodeRef::Rel((rb + 2) as usize))[0] == crate::encode::freevars::NodeRef::Rel((rb + 1) as usize));
        assert(crate::encode::freevars::children(ir1, crate::encode::freevars::NodeRef::Rel((rb + 2) as usize))[1] == crate::encode::freevars::NodeRef::Rel(next.index));
        assert(crate::evaluator::denote(ir1, inst, p, et, (rb + 1) as usize) == Some((1nat, set![t])));
        lemma_chain_lone_succ(xs, k);
        assert(crate::evaluator::denote(ir1, inst, p, et, (rb + 2) as usize) == Some((1nat, crate::relspec::join_spec(set![t], nn))));
        assert(crate::encode::freevars::children(ir1, crate::encode::freevars::NodeRef::Formula((fb + 2) as usize))[0] == crate::encode::freevars::NodeRef::Rel((rb + 2) as usize));
        assert(crate::evaluator::holds(ir1, inst, p, et, (fb + 2) as usize) == Some(true));
    }
    assert(crate::evaluator::d_sub(ir1, rank, inst, p, env, n3, elem.index) == Some((1nat, ee)));
    crate::encode::walk::lemma_bindings_set(ir1, rank, inst, p, env, n3, vb as usize, (fb + 2) as usize, ts, true);
    assert(crate::evaluator::holds(ir1, inst, p, env, (fb + 3) as usize) == Some(true));
    // all p: elem | lone next.p
    let n5 = crate::encode::freevars::NodeRef::Formula((fb + 5) as usize);
    assert(crate::encode::freevars::children(ir1, n5)[0] == crate::encode::freevars::NodeRef::Rel(elem.index));
    assert(crate::encode::freevars::children(ir1, n5)[1] == crate::encode::freevars::NodeRef::Formula((fb + 4) as usize));
    assert forall|t: Seq<nat>| ts.contains(t) implies #[trigger] crate::evaluator::h_sub(ir1, rank, inst, p, env.update(vb + 1, Some(t)), n5, (fb + 4) as usize)
        == Some(true) by {
        assert(ts.to_set().contains(t));
        let k = choose|k: int| 0 <= k < xs.len() && t == seq![#[trigger] xs[k]];
        let et = env.update(vb + 1, Some(t));
        assert(crate::evaluator::denote(ir1, inst, p, et, next.index) == Some((2nat, nn)));
        assert(crate::encode::freevars::children(ir1, crate::encode::freevars::NodeRef::Rel((rb + 4) as usize))[0] == crate::encode::freevars::NodeRef::Rel(next.index));
        assert(crate::encode::freevars::children(ir1, crate::encode::freevars::NodeRef::Rel((rb + 4) as usize))[1] == crate::encode::freevars::NodeRef::Rel((rb + 3) as usize));
        assert(crate::evaluator::denote(ir1, inst, p, et, (rb + 3) as usize) == Some((1nat, set![t])));
        lemma_chain_lone_pred(xs, k);
        assert(crate::evaluator::denote(ir1, inst, p, et, (rb + 4) as usize) == Some((1nat, crate::relspec::join_spec(nn, set![t]))));
        assert(crate::encode::freevars::children(ir1, crate::encode::freevars::NodeRef::Formula((fb + 4) as usize))[0] == crate::encode::freevars::NodeRef::Rel((rb + 4) as usize));
        assert(crate::evaluator::holds(ir1, inst, p, et, (fb + 4) as usize) == Some(true));
    }
    assert(crate::evaluator::d_sub(ir1, rank, inst, p, env, n5, elem.index) == Some((1nat, ee)));
    crate::encode::walk::lemma_bindings_set(ir1, rank, inst, p, env, n5, (vb + 1) as usize, (fb + 4) as usize, ts, true);
    assert(crate::evaluator::holds(ir1, inst, p, env, (fb + 5) as usize) == Some(true));
    // elem in first.*next
    assert(crate::encode::freevars::children(ir1, crate::encode::freevars::NodeRef::Rel((rb + 5) as usize))[0] == crate::encode::freevars::NodeRef::Rel(next.index));
    assert(crate::encode::freevars::children(ir1, crate::encode::freevars::NodeRef::Rel((rb + 6) as usize))[0] == crate::encode::freevars::NodeRef::Rel(first.index));
    assert(crate::encode::freevars::children(ir1, crate::encode::freevars::NodeRef::Rel((rb + 6) as usize))[1] == crate::encode::freevars::NodeRef::Rel((rb + 5) as usize));
    let star = crate::relspec::rel_unary_spec(RelUnOp::ReflexiveClosure, nn, inst.0);
    assert(crate::evaluator::denote(ir1, inst, p, env, (rb + 5) as usize) == Some((2nat, star)));
    assert(crate::evaluator::denote(ir1, inst, p, env, (rb + 6) as usize) == Some((1nat, crate::relspec::join_spec(ff, star))));
    lemma_chain_covered(xs, inst.0);
    assert(crate::encode::freevars::children(ir1, crate::encode::freevars::NodeRef::Formula((fb + 6) as usize))[0] == crate::encode::freevars::NodeRef::Rel(elem.index));
    assert(crate::encode::freevars::children(ir1, crate::encode::freevars::NodeRef::Formula((fb + 6) as usize))[1] == crate::encode::freevars::NodeRef::Rel((rb + 6) as usize));
    assert(crate::evaluator::holds(ir1, inst, p, env, (fb + 6) as usize) == Some(true));
    // the conjunction
    let nf = crate::encode::freevars::NodeRef::Formula(f.index);
    let ps = seq![
        FormulaId { index: fb as usize },
        FormulaId { index: (fb + 1) as usize },
        FormulaId { index: (fb + 3) as usize },
        FormulaId { index: (fb + 5) as usize },
        FormulaId { index: (fb + 6) as usize },
    ];
    assert forall|j: int| 0 <= j < ps.len() implies #[trigger] crate::evaluator::h_sub(ir1, rank, inst, p, env, nf, ps[j].index) == Some(true) by {
        assert(crate::encode::freevars::children(ir1, nf)[j] == crate::encode::freevars::NodeRef::Formula(ps[j].index));
    }
    crate::encode::walk::lemma_parts_set(ir1, rank, inst, p, env, nf, ps);
}


/// The total-order formula admits only chains: wherever the built formula
/// holds, `first` is a single atom that has no predecessor in `next`, each
/// element of `elem` has at most one successor and at most one predecessor
/// in `next`, and every element of `elem` is `first` itself or reached from
/// it along `next`.
#[verifier::rlimit(100)]
pub proof fn law_total_order_only_chains(
    ir0: Ir,
    ir1: Ir,
    elem: RelExprId,
    first: RelExprId,
    next: RelExprId,
    span: Span,
    f: FormulaId,
    inst: crate::evaluator::InstView,
    p: crate::evaluator::IntParams,
    env: Seq<Option<Seq<nat>>>,
    es: Set<Seq<nat>>,
    fs: Set<Seq<nat>>,
    ns: Set<Seq<nat>>,
)
    requires
        ir0.formulas@.len() + 8 < usize::MAX,
        ir0.rel_exprs@.len() + 7 < usize::MAX,
        ir0.vars@.len() + 2 < usize::MAX,
        total_order_shape(ir0, ir1, elem, first, next, span, f),
        crate::encode::freevars::acyclic(ir1),
        env.len() >= ir1.vars@.len(),
        es.finite(),
        fs.finite(),
        ns.finite(),
        crate::relspec::all_of_arity(fs, 1),
        crate::relspec::all_of_arity(ns, 2),
        crate::evaluator::denote(ir1, inst, p, env, elem.index) == Some((1nat, es)),
        crate::evaluator::denote(ir1, inst, p, env, first.index) == Some((1nat, fs)),
        forall|e2: Seq<Option<Seq<nat>>>|
            e2.len() == env.len() && (forall|j: int| 0 <= j < ir0.vars@.len() ==> e2[j] == env[j]) ==> #[trigger] crate::evaluator::denote(
                ir1,
                inst,
                p,
                e2,
                next.index,
            ) == Some((2nat, ns)),
        crate::evaluator::holds(ir1, inst, p, env, f.index) == Some(true),
    ensures
        exists|x0: nat| fs == set![seq![x0]],
        forall|x: nat, y: nat| #![trigger fs.contains(seq![x]), ns.contains(pair(y, x))] fs.contains(seq![x]) ==> !ns.contains(pair(y, x)),
        forall|e: nat, y1: nat, y2: nat|
            #![trigger es.contains(seq![e]), ns.contains(pair(e, y1)), ns.contains(pair(e, y2))]
            es.contains(seq![e]) && ns.contains(pair(e, y1)) && ns.contains(pair(e, y2)) ==> y1 == y2,
        forall|e: nat, y1: nat, y2: nat|
            #![trigger es.contains(seq![e]), ns.contains(pair(y1, e)), ns.contains(pair(y2, e))]
            es.contains(seq![e]) && ns.contains(pair(y1, e)) && ns.contains(pair(y2, e)) ==> y1 == y2,
        forall|x: nat, e: nat|
            #![trigger fs.contains(seq![x]), es.contains(seq![e])]
            fs.contains(seq![x]) && es.contains(seq![e]) ==> x == e || exists|k: nat| crate::relspec::reaches(ns, x, e, k),
{
    let rank = crate::encode::freevars::the_rank(ir1);
    assert(crate::encode::freevars::ranked(ir1, rank));
    let fb = ir0.formulas@.len() as int;
    let rb = ir0.rel_exprs@.len() as int;
    let vb = ir0.vars@.len() as int;
    let rels = total_order_rels(first, next, rb as nat, vb as nat, span);
    let parts = total_order_parts(elem, first, rb as nat, fb as nat, vb as nat, span);
    assert forall|k: int| 0 <= k < 7 implies #[trigger] ir1.rel_exprs@[rb + k] == rels[k] by {}
    assert forall|k: int| 0 <= k < 7 implies #[trigger] ir1.formulas@[fb + k] == parts[k] by {
        assert(ir1.formulas@.take(fb + 7)[fb + k] == ir1.formulas@[fb + k]);
    }
    assert(ir1.formulas@[fb + 0] == parts[0]);
    assert(ir1.formulas@[fb + 2] == parts[2]);
    assert(ir1.formulas@[fb + 4] == parts[4]);
    assert(ir1.rel_exprs@[rb + 0] == rels[0]);
    assert(ir1.rel_exprs@[rb + 1] == rels[1]);
    assert(ir1.rel_exprs@[rb + 2] == rels[2]);
    assert(ir1.rel_exprs@[rb + 3] == rels[3]);
    assert(ir1.rel_exprs@[rb + 4] == rels[4]);
    assert(crate::evaluator::denote(ir1, inst, p, env, next.index) == Some((2nat, ns)));
    // the conjunction: each part holds
    let nf = crate::encode::freevars::NodeRef::Formula(f.index);
    let ps = seq![
        FormulaId { index: fb as usize },
        FormulaId { index: (fb + 1) as usize },
        FormulaId { index: (fb + 3) as usize },
        FormulaId { index: (fb + 5) as usize },
        FormulaId { index: (fb + 6) as usize },
    ];
    crate::encode::walk::lemma_parts_set(ir1, rank, inst, p, env, nf, ps);
    assert forall|j: int| 0 <= j < ps.len() implies #[trigger] crate::evaluator::h_sub(ir1, rank, inst, p, env, nf, ps[j].index)
        == crate::evaluator::holds(ir1, inst, p, env, ps[j].index) by {
        assert(crate::encode::freevars::children(ir1, nf)[j] == crate::encode::freevars::NodeRef::Formula(ps[j].index));
    }
    assert(crate::evaluator::h_sub(ir1, rank, inst, p, env, nf, ps[0].index) == Some(true));
    assert(crate::evaluator::h_sub(ir1, rank, inst, p, env, nf, ps[1].index) == Some(true));
    assert(crate::evaluator::h_sub(ir1, rank, inst, p, env, nf, ps[2].index) == Some(true));
    assert(crate::evaluator::h_sub(ir1, rank, inst, p, env, nf, ps[3].index) == Some(true));
    assert(crate::evaluator::h_sub(ir1, rank, inst, p, env, nf, ps[4].index) == Some(true));
    // one first
    assert(ir1.formulas@[fb].kind == FormulaKind::MultTest { test: MultTest::One, expr: first });
    assert(crate::encode::freevars::children(ir1, crate::encode::freevars::NodeRef::Formula(fb as usize))[0] == crate::encode::freevars::NodeRef::Rel(first.index));
    crate::encode::walk::lemma_mult(MultTest::One, fs);
    let xf = fs.choose();
    assert(fs.contains(xf));
    let x0 = xf[0];
    assert(xf =~= seq![x0]);
    assert(fs =~= set![seq![x0]]);
    // no next.first
    assert(crate::encode::freevars::children(ir1, crate::encode::freevars::NodeRef::Rel(rb as usize))[0] == crate::encode::freevars::NodeRef::Rel(next.index));
    assert(crate::encode::freevars::children(ir1, crate::encode::freevars::NodeRef::Rel(rb as usize))[1] == crate::encode::freevars::NodeRef::Rel(first.index));
    let jp = crate::relspec::join_spec(ns, fs);
    assert(crate::evaluator::denote(ir1, inst, p, env, rb as usize) == Some((1nat, jp)));
    assert(crate::encode::freevars::children(ir1, crate::encode::freevars::NodeRef::Formula((fb + 1) as usize))[0] == crate::encode::freevars::NodeRef::Rel(rb as usize));
    ns.lemma_map_finite(|t: Seq<nat>| t.drop_last());
    ns.lemma_map_finite(|t: Seq<nat>| t.drop_first());
    assert(jp.subset_of(ns.map(|t: Seq<nat>| t.drop_last()))) by {
        assert forall|t: Seq<nat>| jp.contains(t) implies ns.map(|t: Seq<nat>| t.drop_last()).contains(t) by {
            let (a, b) = choose|a: Seq<nat>, b: Seq<nat>|
                ns.contains(a) && fs.contains(b) && a.len() >= 1 && b.len() >= 1 && a.last() == b[0] && t == a.drop_last() + b.drop_first();
            assert(b.drop_first() =~= Seq::<nat>::empty());
            assert(t =~= a.drop_last());
        }
    }
    vstd::set_lib::lemma_set_subset_finite(ns.map(|t: Seq<nat>| t.drop_last()), jp);
    crate::encode::walk::lemma_mult(MultTest::No, jp);
    assert forall|x: nat, y: nat| #![trigger fs.contains(seq![x]), ns.contains(pair(y, x))] fs.contains(seq![x]) implies !ns.contains(pair(y, x)) by {
        if ns.contains(pair(y, x)) {
            let a = pair(y, x);
            let b = seq![x];
            assert(a.drop_last() + b.drop_first() =~= seq![y]);
            assert(jp.contains(seq![y]));
        }
    }
    // the quantifiers' bound
    crate::evaluator::lemma_sorted_of_finite(es);
    let ts = crate::evaluator::sorted_of(es);
    // all e: elem | lone e.next
    let n3 = crate::encode::freevars::NodeRef::Formula((fb + 3) as usize);
    assert(crate::encode::freevars::children(ir1, n3)[0] == crate::encode::freevars::NodeRef::Rel(elem.index));
    assert(crate::encode::freevars::children(ir1, n3)[1] == crate::encode::freevars::NodeRef::Formula((fb + 2) as usize));
    assert(crate::evaluator::d_sub(ir1, rank, inst, p, env, n3, elem.index) == Some((1nat, es)));
    crate::encode::walk::lemma_bindings_set(ir1, rank, inst, p, env, n3, vb as usize, (fb + 2) as usize, ts, true);
    assert forall|e: nat, y1: nat, y2: nat|
        #![trigger es.contains(seq![e]), ns.contains(pair(e, y1)), ns.contains(pair(e, y2))]
        es.contains(seq![e]) && ns.contains(pair(e, y1)) && ns.contains(pair(e, y2)) implies y1 == y2 by {
        let t = seq![e];
        assert(ts.to_set().contains(t));
        assert(ts.contains(t));
        let et = env.update(vb, Some(t));
        assert(crate::evaluator::h_sub(ir1, rank, inst, p, et, n3, (fb + 2) as usize) == Some(true));
        assert(crate::evaluator::denote(ir1, inst, p, et, next.index) == Some((2nat, ns)));
        assert(crate::encode::freevars::children(ir1, crate::encode::freevars::NodeRef::Rel((rb + 2) as usize))[0] == crate::encode::freevars::NodeRef::Rel((rb + 1) as usize));
        assert(crate::encode::freevars::children(ir1, crate::encode::freevars::NodeRef::Rel((rb + 2) as usize))[1] == crate::encode::freevars::NodeRef::Rel(next.index));
        assert(crate::evaluator::denote(ir1, inst, p, et, (rb + 1) as usize) == Some((1nat, set![t])));
        let js = crate::relspec::join_spec(set![t], ns);
        assert(crate::evaluator::denote(ir1, inst, p, et, (rb + 2) as usize) == Some((1nat, js)));
        assert(crate::encode::freevars::children(ir1, crate::encode::freevars::NodeRef::Formula((fb + 2) as usize))[0] == crate::encode::freevars::NodeRef::Rel((rb + 2) as usize));
        assert(crate::evaluator::holds(ir1, inst, p, et, (fb + 2) as usize) == Some(true));
        assert(js.subset_of(ns.map(|u: Seq<nat>| u.drop_first()))) by {
            assert forall|u: Seq<nat>| js.contains(u) implies ns.map(|u: Seq<nat>| u.drop_first()).contains(u) by {
                let (a, b) = choose|a: Seq<nat>, b: Seq<nat>|
                    set![t].contains(a) && ns.contains(b) && a.len() >= 1 && b.len() >= 1 && a.last() == b[0] && u == a.drop_last() + b.drop_first();
                assert(a.drop_last() =~= Seq::<nat>::empty());
                assert(u =~= b.drop_first());
            }
        }
        vstd::set_lib::lemma_set_subset_finite(ns.map(|u: Seq<nat>| u.drop_first()), js);
        crate::encode::walk::lemma_mult(MultTest::Lone, js);
        assert(t.drop_last() + pair(e, y1).drop_first() =~= seq![y1]);
        assert(t.drop_last() + pair(e, y2).drop_first() =~= seq![y2]);
        assert(set![t].contains(t));
        assert(js.contains(seq![y1]));
        assert(js.contains(seq![y2]));
        assert(seq![y1][0] == y1 && seq![y2][0] == y2);
    }
    // all p: elem | lone next.p
    let n5 = crate::encode::freevars::NodeRef::Formula((fb + 5) as usize);
    assert(crate::encode::freevars::children(ir1, n5)[0] == crate::encode::freevars::NodeRef::Rel(elem.index));
    assert(crate::encode::freevars::children(ir1, n5)[1] == crate::encode::freevars::NodeRef::Formula((fb + 4) as usize));
    assert(crate::evaluator::d_sub(ir1, rank, inst, p, env, n5, elem.index) == Some((1nat, es)));
    crate::encode::walk::lemma_bindings_set(ir1, rank, inst, p, env, n5, (vb + 1) as usize, (fb + 4) as usize, ts, true);
    assert forall|e: nat, y1: nat, y2: nat|
        #![trigger es.contains(seq![e]), ns.contains(pair(y1, e)), ns.contains(pair(y2, e))]
        es.contains(seq![e]) && ns.contains(pair(y1, e)) && ns.contains(pair(y2, e)) implies y1 == y2 by {
        let t = seq![e];
        assert(ts.to_set().contains(t));
        assert(ts.contains(t));
        let et = env.update(vb + 1, Some(t));
        assert(crate::evaluator::h_sub(ir1, rank, inst, p, et, n5, (fb + 4) as usize) == Some(true));
        assert(crate::evaluator::denote(ir1, inst, p, et, next.index) == Some((2nat, ns)));
        assert(crate::encode::freevars::children(ir1, crate::encode::freevars::NodeRef::Rel((rb + 4) as usize))[0] == crate::encode::freevars::NodeRef::Rel(next.index));
        assert(crate::encode::freevars::children(ir1, crate::encode::freevars::NodeRef::Rel((rb + 4) as usize))[1] == crate::encode::freevars::NodeRef::Rel((rb + 3) as usize));
        assert(crate::evaluator::denote(ir1, inst, p, et, (rb + 3) as usize) == Some((1nat, set![t])));
        let js = crate::relspec::join_spec(ns, set![t]);
        assert(crate::evaluator::denote(ir1, inst, p, et, (rb + 4) as usize) == Some((1nat, js)));
        assert(crate::encode::freevars::children(ir1, crate::encode::freevars::NodeRef::Formula((fb + 4) as usize))[0] == crate::encode::freevars::NodeRef::Rel((rb + 4) as usize));
        assert(crate::evaluator::holds(ir1, inst, p, et, (fb + 4) as usize) == Some(true));
        assert(js.subset_of(ns.map(|u: Seq<nat>| u.drop_last()))) by {
            assert forall|u: Seq<nat>| js.contains(u) implies ns.map(|u: Seq<nat>| u.drop_last()).contains(u) by {
                let (a, b) = choose|a: Seq<nat>, b: Seq<nat>|
                    ns.contains(a) && set![t].contains(b) && a.len() >= 1 && b.len() >= 1 && a.last() == b[0] && u == a.drop_last() + b.drop_first();
                assert(b.drop_first() =~= Seq::<nat>::empty());
                assert(u =~= a.drop_last());
            }
        }
        vstd::set_lib::lemma_set_subset_finite(ns.map(|u: Seq<nat>| u.drop_last()), js);
        crate::encode::walk::lemma_mult(MultTest::Lone, js);
        assert(pair(y1, e).drop_last() + t.drop_first() =~= seq![y1]);
        assert(pair(y2, e).drop_last() + t.drop_first() =~= seq![y2]);
        assert(set![t].contains(t));
        assert(js.contains(seq![y1]));
        assert(js.contains(seq![y2]));
        assert(seq![y1][0] == y1 && seq![y2][0] == y2);
    }
    // elem in first.*next
    assert(crate::encode::freevars::children(ir1, crate::encode::freevars::NodeRef::Rel((rb + 5) as usize))[0] == crate::encode::freevars::NodeRef::Rel(next.index));
    assert(crate::encode::freevars::children(ir1, crate::encode::freevars::NodeRef::Rel((rb + 6) as usize))[0] == crate::encode::freevars::NodeRef::Rel(first.index));
    assert(crate::encode::freevars::children(ir1, crate::encode::freevars::NodeRef::Rel((rb + 6) as usize))[1] == crate::encode::freevars::NodeRef::Rel((rb + 5) as usize));
    let star = crate::relspec::rel_unary_spec(RelUnOp::ReflexiveClosure, ns, inst.0);
    assert(crate::evaluator::denote(ir1, inst, p, env, (rb + 5) as usize) == Some((2nat, star)));
    let reach = crate::relspec::join_spec(fs, star);
    assert(crate::evaluator::denote(ir1, inst, p, env, (rb + 6) as usize) == Some((1nat, reach)));
    assert(crate::encode::freevars::children(ir1, crate::encode::freevars::NodeRef::Formula((fb + 6) as usize))[0] == crate::encode::freevars::NodeRef::Rel(elem.index));
    assert(crate::encode::freevars::children(ir1, crate::encode::freevars::NodeRef::Formula((fb + 6) as usize))[1] == crate::encode::freevars::NodeRef::Rel((rb + 6) as usize));
    assert(crate::evaluator::holds(ir1, inst, p, env, (fb + 6) as usize) == Some(true));
    assert(es.subset_of(reach));
    assert forall|x: nat, e: nat|
        #![trigger fs.contains(seq![x]), es.contains(seq![e])]
        fs.contains(seq![x]) && es.contains(seq![e]) implies x == e || exists|k: nat| crate::relspec::reaches(ns, x, e, k) by {
        assert(reach.contains(seq![e]));
        let (a, b) = choose|a: Seq<nat>, b: Seq<nat>|
            fs.contains(a) && star.contains(b) && a.len() >= 1 && b.len() >= 1 && a.last() == b[0] && seq![e] == a.drop_last() + b.drop_first();
        assert(a == seq![x0]);
        assert(seq![x] == seq![x0]);
        assert(seq![x][0] == x && seq![x0][0] == x0);
        assert(b.len() == 2);
        assert((a.drop_last() + b.drop_first())[0] == b[1]);
        assert(seq![e][0] == e);
    }
}


/// Facts about a successor relation `ns` over the unary elements `es`
/// starting at `x0`: `ns` relates elements of `es`, `x0` has no
/// predecessor, each element has at most one successor and at most one
/// predecessor, and every element is `x0` or reached from it.
pub open spec fn successor_facts(es: Set<Seq<nat>>, ns: Set<Seq<nat>>, x0: nat) -> bool {
    &&& es.finite()
    &&& es.contains(seq![x0])
    &&& forall|t: Seq<nat>| #[trigger] es.contains(t) ==> t.len() == 1
    &&& forall|t: Seq<nat>| #[trigger] ns.contains(t) ==> t.len() == 2 && es.contains(seq![t[0]]) && es.contains(seq![t[1]])
    &&& forall|y: nat| !ns.contains(#[trigger] pair(y, x0))
    &&& forall|e: nat, y1: nat, y2: nat|
        #![trigger es.contains(seq![e]), ns.contains(pair(e, y1)), ns.contains(pair(e, y2))]
        es.contains(seq![e]) && ns.contains(pair(e, y1)) && ns.contains(pair(e, y2)) ==> y1 == y2
    &&& forall|e: nat, y1: nat, y2: nat|
        #![trigger es.contains(seq![e]), ns.contains(pair(y1, e)), ns.contains(pair(y2, e))]
        es.contains(seq![e]) && ns.contains(pair(y1, e)) && ns.contains(pair(y2, e)) ==> y1 == y2
    &&& forall|e: nat| #[trigger] es.contains(seq![e]) ==> x0 == e || exists|k: nat| crate::relspec::reaches(ns, x0, e, k)
}

/// A successor of `a` in `ns`, where it has one.
pub open spec fn succ_of(ns: Set<Seq<nat>>, a: nat) -> nat {
    choose|b: nat| ns.contains(pair(a, b))
}

/// `x0` and the `k` atoms that follow it along `ns`.
pub open spec fn succ_walk(ns: Set<Seq<nat>>, x0: nat, k: nat) -> Seq<nat>
    decreases k,
{
    if k == 0 {
        seq![x0]
    } else {
        let w = succ_walk(ns, x0, (k - 1) as nat);
        w.push(succ_of(ns, w.last()))
    }
}

/// Along a walk whose last atom has no successor, whatever is reached from
/// one of its atoms lies further along it.
proof fn lemma_reach_in_walk(es: Set<Seq<nat>>, ns: Set<Seq<nat>>, x0: nat, w: Seq<nat>, i: int, e: nat, m: nat)
    requires
        successor_facts(es, ns, x0),
        0 <= i < w.len(),
        forall|j: int| 0 <= j < w.len() - 1 ==> ns.contains(pair(#[trigger] w[j], w[j + 1])),
        forall|j: int| 0 <= j < w.len() ==> es.contains(seq![#[trigger] w[j]]),
        forall|b: nat| !ns.contains(#[trigger] pair(w.last(), b)),
        crate::relspec::reaches(ns, w[i], e, m),
    ensures
        exists|j: int| i < j < w.len() && w[j] == e,
    decreases m,
{
    if i == w.len() - 1 {
        if m == 0 {
            assert(ns.contains(pair(w.last(), e)));
        } else {
            let z = choose|z: nat| #[trigger] ns.contains(pair(w[i], z)) && crate::relspec::reaches(ns, z, e, (m - 1) as nat);
            assert(ns.contains(pair(w.last(), z)));
        }
    } else {
        assert(ns.contains(pair(w[i], w[i + 1])));
        assert(es.contains(seq![w[i]]));
        if m == 0 {
            assert(ns.contains(pair(w[i], e)));
            assert(w[i + 1] == e);
        } else {
            let z = choose|z: nat| #[trigger] ns.contains(pair(w[i], z)) && crate::relspec::reaches(ns, z, e, (m - 1) as nat);
            assert(z == w[i + 1]);
            lemma_reach_in_walk(es, ns, x0, w, i + 1, e, (m - 1) as nat);
        }
    }
}

/// The atoms of `w` as unary tuples.
pub open spec fn unary_tuples(w: Seq<nat>) -> Seq<Seq<nat>> {
    w.map_values(|x: nat| seq![x])
}

/// A walk that stops early covers too few elements: `es` fits in its set.
proof fn lemma_walk_covers(es: Set<Seq<nat>>, ns: Set<Seq<nat>>, x0: nat, w: Seq<nat>)
    requires
        successor_facts(es, ns, x0),
        w.len() >= 1,
        w[0] == x0,
        forall|j: int| 0 <= j < w.len() - 1 ==> ns.contains(pair(#[trigger] w[j], w[j + 1])),
        forall|j: int| 0 <= j < w.len() ==> es.contains(seq![#[trigger] w[j]]),
        forall|b: nat| !ns.contains(#[trigger] pair(w.last(), b)),
    ensures
        es.len() <= w.len(),
{
    let q = unary_tuples(w);
    assert forall|t: Seq<nat>| es.contains(t) implies q.to_set().contains(t) by {
        let e = t[0];
        assert(t =~= seq![e]);
        assert(es.contains(seq![e]));
        let j: int = if x0 == e {
            0
        } else {
            let k = choose|k: nat| crate::relspec::reaches(ns, x0, e, k);
            lemma_reach_in_walk(es, ns, x0, w, 0, e, k);
            choose|j: int| 0 < j < w.len() && w[j] == e
        };
        assert(q[j] == t);
    }
    vstd::set_lib::lemma_len_subset(es, q.to_set());
    q.lemma_cardinality_of_set();
}

/// The walk from `x0` runs through distinct elements of `es` for as long
/// as `es` has elements.
proof fn lemma_walk_ok(es: Set<Seq<nat>>, ns: Set<Seq<nat>>, x0: nat, k: nat)
    requires
        successor_facts(es, ns, x0),
        k < es.len(),
    ensures
        succ_walk(ns, x0, k).len() == k + 1,
        succ_walk(ns, x0, k)[0] == x0,
        succ_walk(ns, x0, k).no_duplicates(),
        forall|j: int| 0 <= j < k ==> ns.contains(pair(#[trigger] succ_walk(ns, x0, k)[j], succ_walk(ns, x0, k)[j + 1])),
        forall|j: int| 0 <= j <= k ==> es.contains(seq![#[trigger] succ_walk(ns, x0, k)[j]]),
    decreases k,
{
    if k > 0 {
        let w0 = succ_walk(ns, x0, (k - 1) as nat);
        lemma_walk_ok(es, ns, x0, (k - 1) as nat);
        if forall|b: nat| !ns.contains(#[trigger] pair(w0.last(), b)) {
            lemma_walk_covers(es, ns, x0, w0);
        }
        let b = succ_of(ns, w0.last());
        assert(ns.contains(pair(w0.last(), b)));
        let w = succ_walk(ns, x0, k);
        assert(w == w0.push(b));
        assert(es.contains(seq![pair(w0.last(), b)[1]]));
        assert forall|j: int| 0 <= j < w0.len() implies w0[j] != b by {
            if w0[j] == b {
                if j == 0 {
                    assert(ns.contains(pair(w0.last(), x0)));
                } else {
                    assert(ns.contains(pair(w0[j - 1], w0[j])));
                    assert(es.contains(seq![w0[j]]));
                    assert(w0[j - 1] == w0[w0.len() - 1]);
                }
            }
        }
        assert forall|j: int| 0 <= j < k implies ns.contains(pair(#[trigger] w[j], w[j + 1])) by {
            if j < k - 1 {
                assert(w[j] == w0[j] && w[j + 1] == w0[j + 1]);
            }
        }
        assert forall|j: int| 0 <= j <= k implies es.contains(seq![#[trigger] w[j]]) by {
            if j < k {
                assert(w[j] == w0[j]);
            }
        }
        assert forall|a: int, c: int| 0 <= a < w.len() && 0 <= c < w.len() && a != c implies w[a] != w[c] by {
            if a < k && c < k {
                assert(w[a] == w0[a] && w[c] == w0[c]);
            } else if a < k {
                assert(w[a] == w0[a]);
            } else {
                assert(w[c] == w0[c]);
            }
        }
    }
}

/// A successor relation with these facts lists `es` as one chain from
/// `x0`: there is an order `xs` of the elements of `es`, starting at `x0`,
/// whose successor relation is exactly `ns`.
proof fn lemma_successor_chain(es: Set<Seq<nat>>, ns: Set<Seq<nat>>, x0: nat) -> (xs: Seq<nat>)
    requires
        successor_facts(es, ns, x0),
    ensures
        xs.len() >= 1,
        xs[0] == x0,
        xs.no_duplicates(),
        chain_elems(xs) == es,
        chain_next(xs) == ns,
{
    vstd::set_lib::lemma_set_empty_equivalency_len(es);
    let l = (es.len() - 1) as nat;
    lemma_walk_ok(es, ns, x0, l);
    let xs = succ_walk(ns, x0, l);
    let q = unary_tuples(xs);
    assert(chain_elems(xs) =~= q.to_set()) by {
        assert forall|t: Seq<nat>| chain_elems(xs).contains(t) implies q.to_set().contains(t) by {
            let i = choose|i: int| 0 <= i < xs.len() && t == seq![#[trigger] xs[i]];
            assert(q[i] == t);
        }
        assert forall|t: Seq<nat>| q.to_set().contains(t) implies chain_elems(xs).contains(t) by {
            let i = choose|i: int| 0 <= i < q.len() && q[i] == t;
            assert(t == seq![xs[i]]);
        }
    }
    assert(q.no_duplicates()) by {
        assert forall|a: int, c: int| 0 <= a < q.len() && 0 <= c < q.len() && a != c implies q[a] != q[c] by {
            assert(q[a][0] == xs[a] && q[c][0] == xs[c]);
        }
    }
    q.unique_seq_to_set();
    assert(q.to_set().subset_of(es)) by {
        assert forall|t: Seq<nat>| q.to_set().contains(t) implies es.contains(t) by {
            let i = choose|i: int| 0 <= i < q.len() && q[i] == t;
            assert(es.contains(seq![xs[i]]));
        }
    }
    assert(es.subset_of(q.to_set())) by {
        assert forall|t: Seq<nat>| es.contains(t) implies q.to_set().contains(t) by {
            if !q.to_set().contains(t) {
                vstd::set_lib::lemma_len_subset(q.to_set(), es.remove(t));
            }
        }
    }
    assert(chain_elems(xs) =~= es);
    assert forall|t: Seq<nat>| ns.contains(t) <==> chain_next(xs).contains(t) by {
        if ns.contains(t) {
            let a = t[0];
            let b = t[1];
            assert(t =~= pair(a, b));
            assert(chain_elems(xs).contains(seq![a]));
            let i = choose|i: int| 0 <= i < xs.len() && seq![a] == seq![#[trigger] xs[i]];
            assert(seq![a][0] == a && seq![xs[i]][0] == xs[i]);
            assert(chain_elems(xs).contains(seq![b]));
            let j = choose|j: int| 0 <= j < xs.len() && seq![b] == seq![#[trigger] xs[j]];
            assert(seq![b][0] == b && seq![xs[j]][0] == xs[j]);
            if i < xs.len() - 1 {
                assert(ns.contains(pair(xs[i], xs[i + 1])));
                assert(es.contains(seq![xs[i]]));
                assert(b == xs[i + 1]);
                assert(t == seq![xs[i], xs[i + 1]]);
            } else {
                if j == 0 {
                    assert(ns.contains(pair(a, x0)));
                } else {
                    assert(ns.contains(pair(xs[j - 1], xs[j])));
                    assert(es.contains(seq![xs[j]]));
                    assert(xs[j - 1] == xs[i]);
                }
            }
        }
        if chain_next(xs).contains(t) {
            let i = choose|i: int| 0 <= i < xs.len() - 1 && t == seq![#[trigger] xs[i], xs[i + 1]];
            assert(ns.contains(pair(xs[i], xs[i + 1])));
        }
    }
    assert(chain_next(xs) =~= ns);
    xs
}

/// The models of the total-order formula are exactly the linear orders:
/// where `elem` is unary, `first` lies in `elem` and `next` relates atoms
/// of `elem`, the built formula holds only if some order `xs` of the
/// elements of `elem` starts at `first`'s atom and has `next` as its
/// successor relation (with [`law_total_order_holds_on_chains`], if and
/// only if).
pub proof fn law_total_order_models_are_chains(
    ir0: Ir,
    ir1: Ir,
    elem: RelExprId,
    first: RelExprId,
    next: RelExprId,
    span: Span,
    f: FormulaId,
    inst: crate::evaluator::InstView,
    p: crate::evaluator::IntParams,
    env: Seq<Option<Seq<nat>>>,
    es: Set<Seq<nat>>,
    fs: Set<Seq<nat>>,
    ns: Set<Seq<nat>>,
)
    requires
        ir0.formulas@.len() + 8 < usize::MAX,
        ir0.rel_exprs@.len() + 7 < usize::MAX,
        ir0.vars@.len() + 2 < usize::MAX,
        total_order_shape(ir0, ir1, elem, first, next, span, f),
        crate::encode::freevars::acyclic(ir1),
        env.len() >= ir1.vars@.len(),
        es.finite(),
        fs.finite(),
        ns.finite(),
        crate::relspec::all_of_arity(es, 1),
        crate::relspec::all_of_arity(fs, 1),
        fs.subset_of(es),
        forall|t: Seq<nat>| #[trigger] ns.contains(t) ==> t.len() == 2 && es.contains(seq![t[0]]) && es.contains(seq![t[1]]),
        crate::evaluator::denote(ir1, inst, p, env, elem.index) == Some((1nat, es)),
        crate::evaluator::denote(ir1, inst, p, env, first.index) == Some((1nat, fs)),
        forall|e2: Seq<Option<Seq<nat>>>|
            e2.len() == env.len() && (forall|j: int| 0 <= j < ir0.vars@.len() ==> e2[j] == env[j]) ==> #[trigger] crate::evaluator::denote(
                ir1,
                inst,
                p,
                e2,
                next.index,
            ) == Some((2nat, ns)),
        crate::evaluator::holds(ir1, inst, p, env, f.index) == Some(true),
    ensures
        exists|xs: Seq<nat>|
            xs.len() >= 1 && xs.no_duplicates() && fs == set![seq![xs[0]]] && es == chain_elems(xs) && ns == chain_next(xs),
{
    law_total_order_only_chains(ir0, ir1, elem, first, next, span, f, inst, p, env, es, fs, ns);
    let x0 = choose|x0: nat| fs == set![seq![x0]];
    assert(fs.contains(seq![x0]));
    assert forall|e: nat| #[trigger] es.contains(seq![e]) implies x0 == e || exists|k: nat| crate::relspec::reaches(ns, x0, e, k) by {
        assert(fs.contains(seq![x0]));
    }
    assert forall|y: nat| !ns.contains(#[trigger] pair(y, x0)) by {
        assert(fs.contains(seq![x0]));
    }
    assert(successor_facts(es, ns, x0));
    let xs = lemma_successor_chain(es, ns, x0);
    assert(fs == set![seq![xs[0]]]);
}

} // verus!
