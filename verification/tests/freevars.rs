use als_core::encode::freevars::FreeVars;
use als_core::occurs::{collect_formula_vars, collect_int_vars, collect_rel_vars};
use als_core::ir::{
    CompDecl, Formula, FormulaId, FormulaKind, IntCmpOp, IntExpr, IntExprId, IntExprKind, Ir, MultTest, Mutability, QuantKind,
    RelBinOp, RelExpr, RelExprId, RelExprKind, RelId, Relation, Var, VarId,
};
use als_core::span::{FileId, Span};

fn span() -> Span {
    Span::new(FileId { index: 0 }, 0, 1)
}

fn var(ir: &mut Ir, name: &str) -> VarId {
    ir.alloc_var(Var { name: name.to_owned(), arity: 1, span: span() })
}

fn rel(ir: &mut Ir, kind: RelExprKind) -> RelExprId {
    ir.alloc_rel_expr(RelExpr { kind, span: span() })
}

fn formula(ir: &mut Ir, kind: FormulaKind) -> FormulaId {
    ir.alloc_formula(Formula { kind, span: span() })
}

fn int_node(ir: &mut Ir, kind: IntExprKind) -> IntExprId {
    ir.alloc_int_expr(IntExpr { kind, span: span() })
}

fn relation(ir: &mut Ir, name: &str) -> RelId {
    ir.alloc_relation(Relation {
        name: name.to_owned(),
        arity: 1,
        span: span(),
        mutability: Mutability::Static,
        is_meta_field: false,
    })
}

fn indices(vars: &[VarId]) -> Vec<usize> {
    vars.iter().map(|v| v.index).collect()
}

#[test]
fn quantifiers_bind_their_variable_in_the_body_only() {
    let mut ir = Ir::default();
    let x = var(&mut ir, "x");
    let y = var(&mut ir, "y");
    let s = relation(&mut ir, "this/S");
    let sig = rel(&mut ir, RelExprKind::Relation(s));
    let vx = rel(&mut ir, RelExprKind::Var(x));
    let vy = rel(&mut ir, RelExprKind::Var(y));
    let joined = rel(&mut ir, RelExprKind::Binary { op: RelBinOp::Join, lhs: vx, rhs: vy });
    let some_joined = formula(&mut ir, FormulaKind::MultTest { test: MultTest::Nonempty, expr: joined });
    // all y: x | some x.y  — x stays free, y is bound.
    let all_y = formula(&mut ir, FormulaKind::Quant { kind: QuantKind::All, var: y, bound: vx, body: some_joined });
    // all x: S | (all y: x | some x.y)  — closed.
    let all_x = formula(&mut ir, FormulaKind::Quant { kind: QuantKind::All, var: x, bound: sig, body: all_y });
    // A quantifier whose bound mentions its own variable keeps it free there.
    let odd = formula(&mut ir, FormulaKind::Quant { kind: QuantKind::Exists, var: y, bound: vy, body: some_joined });

    let fv = FreeVars::build(&ir);
    assert_eq!(indices(fv.rel(sig)), Vec::<usize>::new());
    assert_eq!(indices(fv.rel(vx)), vec![0]);
    assert_eq!(indices(fv.rel(joined)), vec![0, 1]);
    assert_eq!(indices(fv.formula(some_joined)), vec![0, 1]);
    assert_eq!(indices(fv.formula(all_y)), vec![0]);
    assert_eq!(indices(fv.formula(all_x)), Vec::<usize>::new());
    assert_eq!(indices(fv.formula(odd)), vec![0, 1]);
}

#[test]
fn comprehensions_bind_every_declared_variable() {
    let mut ir = Ir::default();
    let a = var(&mut ir, "a");
    let b = var(&mut ir, "b");
    let c = var(&mut ir, "c");
    let s = relation(&mut ir, "this/S");
    let sig = rel(&mut ir, RelExprKind::Relation(s));
    let va = rel(&mut ir, RelExprKind::Var(a));
    let vb = rel(&mut ir, RelExprKind::Var(b));
    let vc = rel(&mut ir, RelExprKind::Var(c));
    let ab = rel(&mut ir, RelExprKind::Binary { op: RelBinOp::Product, lhs: va, rhs: vb });
    let abc = rel(&mut ir, RelExprKind::Binary { op: RelBinOp::Union, lhs: ab, rhs: vc });
    let body = formula(&mut ir, FormulaKind::MultTest { test: MultTest::Nonempty, expr: abc });
    // { a: S, b: a | some (a->b + c) }: the second bound mentions `a`, `c` is free.
    let comp = rel(
        &mut ir,
        RelExprKind::Comprehension { decls: vec![CompDecl { var: a, bound: sig }, CompDecl { var: b, bound: va }], body },
    );
    let fv = FreeVars::build(&ir);
    assert_eq!(indices(fv.formula(body)), vec![0, 1, 2]);
    assert_eq!(indices(fv.rel(comp)), vec![2]);
}

#[test]
fn sums_and_connectives_collect_from_every_operand() {
    let mut ir = Ir::default();
    let x = var(&mut ir, "x");
    let y = var(&mut ir, "y");
    let s = relation(&mut ir, "this/S");
    let sig = rel(&mut ir, RelExprKind::Relation(s));
    let vx = rel(&mut ir, RelExprKind::Var(x));
    let vy = rel(&mut ir, RelExprKind::Var(y));
    let card_x = int_node(&mut ir, IntExprKind::Card(vx));
    let card_y = int_node(&mut ir, IntExprKind::Card(vy));
    let plus = int_node(&mut ir, IntExprKind::Binary { op: als_core::ir::IntBinOp::Add, lhs: card_x, rhs: card_y });
    // sum x: S | #x + #y  — only y remains free.
    let sum = int_node(&mut ir, IntExprKind::Sum { var: x, bound: sig, body: plus });
    let zero = int_node(&mut ir, IntExprKind::Const(0));
    let cmp = formula(&mut ir, FormulaKind::IntCompare { op: IntCmpOp::Gt, lhs: sum, rhs: zero });
    let t = formula(&mut ir, FormulaKind::Const(true));
    let some_x = formula(&mut ir, FormulaKind::MultTest { test: MultTest::Nonempty, expr: vx });
    let both = formula(&mut ir, FormulaKind::And(vec![t, some_x, cmp]));
    let neither = formula(&mut ir, FormulaKind::Or(vec![]));
    let fv = FreeVars::build(&ir);
    assert_eq!(indices(fv.int_expr(plus)), vec![0, 1]);
    assert_eq!(indices(fv.int_expr(sum)), vec![1]);
    assert_eq!(indices(fv.formula(cmp)), vec![1]);
    assert_eq!(indices(fv.formula(both)), vec![0, 1]);
    assert_eq!(indices(fv.formula(neither)), Vec::<usize>::new());
    assert_eq!(indices(fv.int_expr(zero)), Vec::<usize>::new());
}

#[test]
fn mentioned_variables_include_the_bound_ones() {
    let mut ir = Ir::default();
    let x = var(&mut ir, "x");
    let y = var(&mut ir, "y");
    let z = var(&mut ir, "z");
    let s = relation(&mut ir, "this/S");
    let sig = rel(&mut ir, RelExprKind::Relation(s));
    let vx = rel(&mut ir, RelExprKind::Var(x));
    let vy = rel(&mut ir, RelExprKind::Var(y));
    let vz = rel(&mut ir, RelExprKind::Var(z));
    let joined = rel(&mut ir, RelExprKind::Binary { op: RelBinOp::Join, lhs: vx, rhs: vy });
    let some_joined = formula(&mut ir, FormulaKind::MultTest { test: MultTest::Nonempty, expr: joined });
    // all x: S | some x.y  — mentions x and y, only y is free.
    let all_x = formula(&mut ir, FormulaKind::Quant { kind: QuantKind::All, var: x, bound: sig, body: some_joined });
    let card_z = int_node(&mut ir, IntExprKind::Card(vz));
    // sum z: S | #z
    let sum = int_node(&mut ir, IntExprKind::Sum { var: z, bound: sig, body: card_z });

    let mut out = Vec::new();
    collect_formula_vars(&ir, all_x, &mut out);
    assert_eq!(indices(&out), vec![0, 1]);
    let fv = FreeVars::build(&ir);
    assert_eq!(indices(fv.formula(all_x)), vec![1]);

    // Collecting adds to what is already there, keeping it ascending.
    collect_int_vars(&ir, sum, &mut out);
    assert_eq!(indices(&out), vec![0, 1, 2]);
    let mut only_sig = Vec::new();
    collect_rel_vars(&ir, sig, &mut only_sig);
    assert!(only_sig.is_empty());
    let mut from_z = vec![z];
    collect_rel_vars(&ir, joined, &mut from_z);
    assert_eq!(indices(&from_z), vec![0, 1, 2]);
}
