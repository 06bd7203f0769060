use als_core::bounds::{AtomId, Tuple, TupleSet};
use als_core::evaluator::{accepts, eval_formula, eval_int, eval_rel, Instance, IntParams};
use als_core::ir::{
    CompDecl,
    Formula, FormulaId, FormulaKind, IntBinOp, IntCmpOp, IntExpr, IntExprId, IntExprKind, Ir, MultTest, Mutability,
    QuantKind, RelBinOp, RelExpr, RelExprId, RelExprKind, RelId, RelUnOp, Relation, TemporalUnOp, Var, VarId,
};
use als_core::span::{FileId, Span};

fn span() -> Span {
    Span::new(FileId { index: 0 }, 0, 1)
}

fn var(ir: &mut Ir, name: &str) -> VarId {
    ir.alloc_var(Var { name: name.to_owned(), arity: 1, span: span() })
}

fn rel(ir: &mut Ir, kind: RelExprKind) -> RelExprId {
    ir.alloc_rel_expr(RelExpr { kind, span: span() })
}

fn formula(ir: &mut Ir, kind: FormulaKind) -> FormulaId {
    ir.alloc_formula(Formula { kind, span: span() })
}

fn int_node(ir: &mut Ir, kind: IntExprKind) -> IntExprId {
    ir.alloc_int_expr(IntExpr { kind, span: span() })
}

fn relation(ir: &mut Ir, name: &str, arity: usize) -> RelId {
    ir.alloc_relation(Relation {
        name: name.to_owned(),
        arity,
        span: span(),
        mutability: Mutability::Static,
        is_meta_field: false,
    })
}

fn set(arity: usize, tuples: &[&[usize]]) -> TupleSet {
    let mut s = TupleSet::empty(arity);
    for t in tuples {
        s.insert(Tuple::new(t.iter().map(|&i| AtomId::from_index(i)).collect()));
    }
    s
}

fn rows(s: &TupleSet) -> Vec<Vec<usize>> {
    s.iter().iter().map(|t| t.atoms().iter().map(|a| a.index()).collect()).collect()
}

/// Three atoms; `S = {0, 1}`, `next = {(0,1), (1,2)}`; the `Int` atoms of
/// bitwidth 2 (values −2 … 1) at positions 3 … 6.
fn setup() -> (Ir, Instance, IntParams, RelExprId, RelExprId) {
    let mut ir = Ir::default();
    let s = relation(&mut ir, "this/S", 1);
    let next = relation(&mut ir, "this/S.next", 2);
    let rs = rel(&mut ir, RelExprKind::Relation(s));
    let rn = rel(&mut ir, RelExprKind::Relation(next));
    let inst = Instance {
        universe_len: 7,
        relations: vec![Some(set(1, &[&[0], &[1]])), Some(set(2, &[&[0, 1], &[1, 2]]))],
    };
    let p = IntParams { bitwidth: 2, int_start: 3, int_end: 7 };
    (ir, inst, p, rs, rn)
}

#[test]
fn quantifiers_ground_over_the_bound() {
    let (mut ir, inst, p, rs, rn) = setup();
    let x = var(&mut ir, "x");
    let vx = rel(&mut ir, RelExprKind::Var(x));
    let step = rel(&mut ir, RelExprKind::Binary { op: RelBinOp::Join, lhs: vx, rhs: rn });
    let some_step = formula(&mut ir, FormulaKind::MultTest { test: MultTest::Nonempty, expr: step });
    let no_step = formula(&mut ir, FormulaKind::MultTest { test: MultTest::No, expr: step });
    let all = formula(&mut ir, FormulaKind::Quant { kind: QuantKind::All, var: x, bound: rs, body: some_step });
    let ex = formula(&mut ir, FormulaKind::Quant { kind: QuantKind::Exists, var: x, bound: rs, body: no_step });
    assert_eq!(accepts(&ir, &inst, p, all), Ok(true));
    assert_eq!(accepts(&ir, &inst, p, ex), Ok(false));
}

#[test]
fn environment_is_restored_after_a_quantifier() {
    let (mut ir, inst, p, rs, _rn) = setup();
    let x = var(&mut ir, "x");
    let vx = rel(&mut ir, RelExprKind::Var(x));
    let one = formula(&mut ir, FormulaKind::MultTest { test: MultTest::One, expr: vx });
    let all = formula(&mut ir, FormulaKind::Quant { kind: QuantKind::All, var: x, bound: rs, body: one });
    let mut env = vec![Some(Tuple::new(vec![AtomId::from_index(2)]))];
    assert_eq!(eval_formula(&ir, &inst, p, &mut env, all), Ok(true));
    assert_eq!(env[0].as_ref().map(|t| t.atoms()[0].index()), Some(2));
    // Unbound, the variable denotes nothing.
    let mut empty = vec![None];
    assert_eq!(rows(&eval_rel(&ir, &inst, p, &mut empty, vx).unwrap()), Vec::<Vec<usize>>::new());
}

#[test]
fn closure_and_comparisons() {
    let (mut ir, inst, p, rs, rn) = setup();
    let cl = rel(&mut ir, RelExprKind::Unary { op: RelUnOp::Closure, expr: rn });
    let mut env = vec![];
    assert_eq!(rows(&eval_rel(&ir, &inst, p, &mut env, cl).unwrap()), vec![vec![0, 1], vec![0, 2], vec![1, 2]]);
    let sub = formula(&mut ir, FormulaKind::RelCompare { op: als_core::ir::RelCmpOp::Subset, lhs: rn, rhs: cl });
    let eq = formula(&mut ir, FormulaKind::RelCompare { op: als_core::ir::RelCmpOp::Equal, lhs: rn, rhs: cl });
    let eq_arity = formula(&mut ir, FormulaKind::RelCompare { op: als_core::ir::RelCmpOp::Equal, lhs: rs, rhs: rs });
    assert_eq!(accepts(&ir, &inst, p, sub), Ok(true));
    assert_eq!(accepts(&ir, &inst, p, eq), Ok(false));
    assert_eq!(accepts(&ir, &inst, p, eq_arity), Ok(true));
}

#[test]
fn integers_wrap_and_flag_overflow() {
    let (mut ir, inst, p, rs, _rn) = setup();
    let mut env = vec![];
    let card = int_node(&mut ir, IntExprKind::Card(rs));
    // #S = 2 wraps to −2 at bitwidth 2, and overflows.
    assert_eq!(eval_int(&ir, &inst, p, &mut env, card), Ok((-2, true)));
    let three = int_node(&mut ir, IntExprKind::Const(3));
    assert_eq!(eval_int(&ir, &inst, p, &mut env, three), Ok((-1, true)));
    let one = int_node(&mut ir, IntExprKind::Const(1));
    let sum = int_node(&mut ir, IntExprKind::Binary { op: IntBinOp::Add, lhs: one, rhs: one });
    assert_eq!(eval_int(&ir, &inst, p, &mut env, sum), Ok((-2, true)));
    let minus_one = int_node(&mut ir, IntExprKind::Const(-1));
    let prod = int_node(&mut ir, IntExprKind::Binary { op: IntBinOp::Mul, lhs: minus_one, rhs: minus_one });
    assert_eq!(eval_int(&ir, &inst, p, &mut env, prod), Ok((1, false)));
    let neg = int_node(&mut ir, IntExprKind::Const(-2));
    let negated = int_node(&mut ir, IntExprKind::Neg(neg));
    assert_eq!(eval_int(&ir, &inst, p, &mut env, negated), Ok((-2, true)));
    let lt = formula(&mut ir, FormulaKind::IntCompare { op: IntCmpOp::Lt, lhs: minus_one, rhs: one });
    assert_eq!(accepts(&ir, &inst, p, lt), Ok(true));
}

#[test]
fn int_atoms_round_trip() {
    let (mut ir, inst, p, _rs, _rn) = setup();
    let mut env = vec![];
    let one = int_node(&mut ir, IntExprKind::Const(1));
    let atom = rel(&mut ir, RelExprKind::IntToAtom(one));
    assert_eq!(rows(&eval_rel(&ir, &inst, p, &mut env, atom).unwrap()), vec![vec![6]]);
    let back = int_node(&mut ir, IntExprKind::AtomToInt(atom));
    assert_eq!(eval_int(&ir, &inst, p, &mut env, back), Ok((1, false)));
}

#[test]
fn unevaluable_constructs_are_errors() {
    let (mut ir, inst, p, rs, _rn) = setup();
    let some_s = formula(&mut ir, FormulaKind::MultTest { test: MultTest::Nonempty, expr: rs });
    let always = formula(&mut ir, FormulaKind::TemporalUnary { op: TemporalUnOp::Always, body: some_s });
    assert!(accepts(&ir, &inst, p, always).is_err());
    let primed = rel(&mut ir, RelExprKind::Prime(rs));
    let mut env = vec![];
    assert!(eval_rel(&ir, &inst, p, &mut env, primed).is_err());
    let one = int_node(&mut ir, IntExprKind::Const(1));
    let shl = int_node(&mut ir, IntExprKind::Binary { op: IntBinOp::Shl, lhs: one, rhs: one });
    assert!(eval_int(&ir, &inst, p, &mut env, shl).is_err());
    // Union of a unary and a binary relation is ill-sorted.
    let rn = rel(&mut ir, RelExprKind::Relation(RelId::from_index(1)));
    let bad = rel(&mut ir, RelExprKind::Binary { op: RelBinOp::Union, lhs: rs, rhs: rn });
    assert!(eval_rel(&ir, &inst, p, &mut env, bad).is_err());
}

#[test]
fn division_and_remainder_follow_the_tables() {
    let mut ir = Ir::default();
    let inst = Instance { universe_len: 16, relations: vec![] };
    let p = IntParams { bitwidth: 4, int_start: 0, int_end: 16 };
    let mut env = vec![];
    let cases: [(i32, i32, i64, i64, bool, bool); 4] =
        [(-7, 2, -3, -1, false, false), (5, 0, -1, 5, true, true), (-5, 0, 1, -5, true, true), (-8, -1, -8, 0, true, false)];
    for (x, y, q, r, dof, rof) in cases {
        let a = int_node(&mut ir, IntExprKind::Const(x));
        let b = int_node(&mut ir, IntExprKind::Const(y));
        let d = int_node(&mut ir, IntExprKind::Binary { op: IntBinOp::Div, lhs: a, rhs: b });
        let m = int_node(&mut ir, IntExprKind::Binary { op: IntBinOp::Rem, lhs: a, rhs: b });
        assert_eq!(eval_int(&ir, &inst, p, &mut env, d), Ok((q, dof)), "{x} / {y}");
        assert_eq!(eval_int(&ir, &inst, p, &mut env, m), Ok((r, rof)), "{x} % {y}");
    }
}

#[test]
fn sum_adds_the_body_over_the_bound() {
    let (mut ir, inst, _p, rs, _rn) = setup();
    let p = IntParams { bitwidth: 4, int_start: 3, int_end: 7 };
    let x = var(&mut ir, "x");
    let vx = rel(&mut ir, RelExprKind::Var(x));
    let three = int_node(&mut ir, IntExprKind::Const(3));
    let card = int_node(&mut ir, IntExprKind::Card(vx));
    let body = int_node(&mut ir, IntExprKind::Binary { op: IntBinOp::Add, lhs: three, rhs: card });
    let sum = int_node(&mut ir, IntExprKind::Sum { var: x, bound: rs, body });
    let mut env = vec![None];
    // Two atoms in S, each contributing 3 + 1.
    assert_eq!(eval_int(&ir, &inst, p, &mut env, sum), Ok((-8, true)));
    let q = IntParams { bitwidth: 5, int_start: 3, int_end: 7 };
    assert_eq!(eval_int(&ir, &inst, q, &mut env, sum), Ok((8, false)));
    assert!(env[0].is_none());
}

#[test]
fn comprehension_collects_the_bindings_the_body_accepts() {
    let (mut ir, inst, p, rs, rn) = setup();
    let x = var(&mut ir, "x");
    let y = var(&mut ir, "y");
    let vx = rel(&mut ir, RelExprKind::Var(x));
    let succ = rel(&mut ir, RelExprKind::Binary { op: RelBinOp::Join, lhs: vx, rhs: rn });
    let yes = formula(&mut ir, FormulaKind::Const(true));
    // {x: S, y: x.next | true}
    let pairs = rel(
        &mut ir,
        RelExprKind::Comprehension { decls: vec![CompDecl { var: x, bound: rs }, CompDecl { var: y, bound: succ }], body: yes },
    );
    let mut env = vec![None, None];
    assert_eq!(rows(&eval_rel(&ir, &inst, p, &mut env, pairs).unwrap()), vec![vec![0, 1], vec![1, 2]]);
    // {x: S | some x.next.next}
    let two = rel(&mut ir, RelExprKind::Binary { op: RelBinOp::Join, lhs: succ, rhs: rn });
    let some_two = formula(&mut ir, FormulaKind::MultTest { test: MultTest::Nonempty, expr: two });
    let starts = rel(&mut ir, RelExprKind::Comprehension { decls: vec![CompDecl { var: x, bound: rs }], body: some_two });
    assert_eq!(rows(&eval_rel(&ir, &inst, p, &mut env, starts).unwrap()), vec![vec![0]]);
    assert!(env[0].is_none() && env[1].is_none());
}
