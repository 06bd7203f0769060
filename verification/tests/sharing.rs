use als_core::ir::{
    Formula, FormulaId, FormulaKind, IntCmpOp, IntExpr, IntExprId, IntExprKind, Ir, RelConst, RelExpr, RelExprId,
    RelExprKind,
};
use als_core::sharing::has_shared_formula;
use als_core::span::{FileId, Span};

fn span() -> Span {
    Span::new(FileId { index: 0 }, 0, 1)
}

fn formula(ir: &mut Ir, kind: FormulaKind) -> FormulaId {
    ir.alloc_formula(Formula { kind, span: span() })
}

fn rel(ir: &mut Ir, kind: RelExprKind) -> RelExprId {
    ir.alloc_rel_expr(RelExpr { kind, span: span() })
}

fn int_node(ir: &mut Ir, kind: IntExprKind) -> IntExprId {
    ir.alloc_int_expr(IntExpr { kind, span: span() })
}

#[test]
fn a_tree_shares_nothing() {
    let mut ir = Ir::default();
    assert!(!has_shared_formula(&ir), "an empty IR");
    let a = formula(&mut ir, FormulaKind::Const(true));
    let b = formula(&mut ir, FormulaKind::Const(false));
    let not_b = formula(&mut ir, FormulaKind::Not(b));
    let c = formula(&mut ir, FormulaKind::Const(true));
    let and = formula(&mut ir, FormulaKind::And(vec![a, not_b]));
    formula(&mut ir, FormulaKind::Implies { antecedent: and, consequent: c });
    assert!(!has_shared_formula(&ir));
}

#[test]
fn a_condition_used_plainly_and_negated_is_shared() {
    // (c and t) or (not c and e): the lowering of a formula if/then/else.
    let mut ir = Ir::default();
    let c = formula(&mut ir, FormulaKind::Const(true));
    let t = formula(&mut ir, FormulaKind::Const(true));
    let e = formula(&mut ir, FormulaKind::Const(false));
    let not_c = formula(&mut ir, FormulaKind::Not(c));
    let then_arm = formula(&mut ir, FormulaKind::And(vec![c, t]));
    let else_arm = formula(&mut ir, FormulaKind::And(vec![not_c, e]));
    formula(&mut ir, FormulaKind::Or(vec![then_arm, else_arm]));
    assert!(has_shared_formula(&ir));
}

#[test]
fn two_operands_of_one_node_count_twice() {
    let mut ir = Ir::default();
    let a = formula(&mut ir, FormulaKind::Const(true));
    formula(&mut ir, FormulaKind::Iff(a, a));
    assert!(has_shared_formula(&ir));
}

#[test]
fn conditions_of_expressions_count_as_references() {
    // A relation-valued and an integer-valued conditional on one condition.
    let mut ir = Ir::default();
    let c = formula(&mut ir, FormulaKind::Const(true));
    let none = rel(&mut ir, RelExprKind::Const(RelConst::Empty));
    let univ = rel(&mut ir, RelExprKind::Const(RelConst::Univ));
    rel(&mut ir, RelExprKind::IfThenElse { cond: c, then_branch: univ, else_branch: none });
    assert!(!has_shared_formula(&ir), "one reference only");
    let one = int_node(&mut ir, IntExprKind::Const(1));
    let two = int_node(&mut ir, IntExprKind::Const(2));
    let ite = int_node(&mut ir, IntExprKind::IfThenElse { cond: c, then_branch: one, else_branch: two });
    assert!(has_shared_formula(&ir));
    // Comparisons refer to no formula: they never create sharing.
    let mut ir2 = Ir::default();
    let k = int_node(&mut ir2, IntExprKind::Const(0));
    formula(&mut ir2, FormulaKind::IntCompare { op: IntCmpOp::Eq, lhs: k, rhs: k });
    assert!(!has_shared_formula(&ir2));
    let _ = ite;
}
