use als_core::bounds::{AtomId, Tuple, TupleSet};
use als_core::bounds::Universe;
use als_core::error::TranslateError;
use als_core::ir::{
    Formula, FormulaId, FormulaKind, IntExpr, IntExprKind, Ir, MultTest, QuantKind, RelBinOp, RelCmpOp, RelConst, RelExpr,
    RelExprId, RelExprKind, RelUnOp, VarId,
};
use als_core::lower::{
    conjoin, iden_upper, int_max, int_min, lower_builtin_value, BuiltinValue, none_of_arity, push_pairwise_disjoint, to_int, total_order_formula, tupleset_closure,
    tupleset_intersect, tupleset_join, tupleset_product, tupleset_transpose, tupleset_union, union_rel, univ_upper, FragmentRoot,
    LoweredFragment, Pol,
};
use als_core::span::{FileId, Span};

fn span() -> Span {
    Span::new(FileId { index: 0 }, 0, 1)
}

fn rel(ir: &mut Ir, kind: RelExprKind) -> RelExprId {
    ir.alloc_rel_expr(RelExpr { kind, span: span() })
}

fn set(arity: usize, tuples: &[&[usize]]) -> TupleSet {
    let mut s = TupleSet::empty(arity);
    for t in tuples {
        s.insert(Tuple::new(t.iter().map(|&a| AtomId::from_index(a)).collect()));
    }
    s
}

fn rows(s: &TupleSet) -> Vec<Vec<usize>> {
    s.iter().iter().map(|t| t.atoms().iter().map(|a| a.index).collect()).collect()
}

#[test]
fn the_signed_range_of_a_bitwidth() {
    assert_eq!((int_min(0), int_max(0)), (0, 0));
    assert_eq!((int_min(1), int_max(1)), (-1, 0));
    assert_eq!((int_min(4), int_max(4)), (-8, 7));
    assert_eq!((int_min(31), int_max(31)), (-(1 << 30), (1 << 30) - 1));
}

#[test]
fn an_asserted_conjunct_is_positive_and_unblocked() {
    let p = Pol::asserted();
    assert!(p.positive);
    assert!(!p.blocked);
}

#[test]
fn tuple_set_algebra_of_upper_bounds() {
    let a = set(1, &[&[0], &[1]]);
    let b = set(1, &[&[1], &[2]]);
    let r = set(2, &[&[0, 1], &[1, 2]]);
    assert_eq!(rows(&tupleset_product(&a, &b)), vec![vec![0, 1], vec![0, 2], vec![1, 1], vec![1, 2]]);
    assert_eq!(rows(&tupleset_union(&a, &b).unwrap()), vec![vec![0], vec![1], vec![2]]);
    assert_eq!(rows(&tupleset_intersect(&a, &b).unwrap()), vec![vec![1]]);
    assert!(tupleset_union(&a, &r).is_none(), "arities differ");
    assert!(tupleset_intersect(&a, &r).is_none(), "arities differ");
    assert_eq!(rows(&tupleset_join(&a, &r).unwrap()), vec![vec![1], vec![2]]);
    assert_eq!(rows(&tupleset_join(&r, &r).unwrap()), vec![vec![0, 2]]);
    assert!(tupleset_join(&a, &b).is_none(), "two unary sets have no join");
    assert_eq!(rows(&tupleset_transpose(&r).unwrap()), vec![vec![1, 0], vec![2, 1]]);
    assert!(tupleset_transpose(&a).is_none());
}

#[test]
fn closure_of_an_upper_bound_reaches_every_path() {
    let chain = set(2, &[&[0, 1], &[1, 2], &[2, 3]]);
    assert_eq!(
        rows(&tupleset_closure(&chain).unwrap()),
        vec![vec![0, 1], vec![0, 2], vec![0, 3], vec![1, 2], vec![1, 3], vec![2, 3]]
    );
    let cycle = set(2, &[&[0, 1], &[1, 0]]);
    assert_eq!(rows(&tupleset_closure(&cycle).unwrap()), vec![vec![0, 0], vec![0, 1], vec![1, 0], vec![1, 1]]);
    assert!(tupleset_closure(&set(1, &[&[0]])).is_none());
    assert!(rows(&tupleset_closure(&TupleSet::empty(2)).unwrap()).is_empty());
}

#[test]
fn a_fragment_names_its_sort_and_root() {
    let f = LoweredFragment::Formula(FormulaId { index: 3 });
    assert_eq!(f, LoweredFragment::Formula(FormulaId { index: 3 }));
    assert_ne!(f, LoweredFragment::Rel(RelExprId { index: 3 }));
    assert_ne!(FragmentRoot::Evaluator, FragmentRoot::Value);
}

#[test]
fn conjoining_zero_one_or_many_parts() {
    let mut ir = Ir::default();
    let t = conjoin(&mut ir, vec![], span());
    assert_eq!(ir.formulas[t.index].kind, FormulaKind::Const(true));
    let a = ir.alloc_formula(Formula { kind: FormulaKind::Const(false), span: span() });
    assert_eq!(conjoin(&mut ir, vec![a], span()), a);
    assert_eq!(ir.formulas.len(), 2, "a single part adds nothing");
    let both = conjoin(&mut ir, vec![a, t], span());
    assert_eq!(ir.formulas[both.index].kind, FormulaKind::And(vec![a, t]));
}

#[test]
fn unions_fold_to_the_left() {
    let mut ir = Ir::default();
    let parts: Vec<RelExprId> = (0..3).map(|_| rel(&mut ir, RelExprKind::Const(RelConst::Univ))).collect();
    let u = union_rel(&mut ir, &parts, span());
    assert_eq!(u.index, 4);
    assert_eq!(ir.rel_exprs[3].kind, RelExprKind::Binary { op: RelBinOp::Union, lhs: parts[0], rhs: parts[1] });
    assert_eq!(ir.rel_exprs[4].kind, RelExprKind::Binary { op: RelBinOp::Union, lhs: RelExprId { index: 3 }, rhs: parts[2] });
    assert_eq!(union_rel(&mut ir, &parts[..1], span()), parts[0]);
    let none = union_rel(&mut ir, &[], span());
    assert_eq!(ir.rel_exprs[none.index].kind, RelExprKind::Const(RelConst::Empty));
}

#[test]
fn an_empty_relation_of_any_arity() {
    let mut ir = Ir::default();
    let one = none_of_arity(&mut ir, 1, span());
    assert_eq!((one.index, ir.rel_exprs.len()), (0, 1));
    let three = none_of_arity(&mut ir, 3, span());
    assert_eq!(three.index, 5);
    assert_eq!(ir.rel_exprs[3].kind, RelExprKind::Binary { op: RelBinOp::Product, lhs: RelExprId { index: 1 }, rhs: RelExprId { index: 2 } });
    assert_eq!(ir.rel_exprs[5].kind, RelExprKind::Binary { op: RelBinOp::Product, lhs: RelExprId { index: 3 }, rhs: RelExprId { index: 4 } });
    let zero = none_of_arity(&mut ir, 0, span());
    assert_eq!(ir.rel_exprs[zero.index].kind, RelExprKind::Const(RelConst::Empty));
}

#[test]
fn cast_round_trips_are_stripped() {
    let mut ir = Ir::default();
    let k = ir.alloc_int_expr(IntExpr { kind: IntExprKind::Const(5), span: span() });
    let cast = rel(&mut ir, RelExprKind::IntToAtom(k));
    let card = ir.alloc_int_expr(IntExpr { kind: IntExprKind::Card(cast), span: span() });
    let back = ir.alloc_int_expr(IntExpr { kind: IntExprKind::AtomToInt(cast), span: span() });
    assert_eq!(to_int(&ir, card), k);
    assert_eq!(to_int(&ir, back), k);
    assert_eq!(to_int(&ir, k), k);
    let univ = rel(&mut ir, RelExprKind::Const(RelConst::Univ));
    let count = ir.alloc_int_expr(IntExpr { kind: IntExprKind::Card(univ), span: span() });
    assert_eq!(to_int(&ir, count), count);
}

#[test]
fn a_total_order_is_five_conjoined_constraints() {
    let mut ir = Ir::default();
    let elem = rel(&mut ir, RelExprKind::Const(RelConst::Univ));
    let first = rel(&mut ir, RelExprKind::Const(RelConst::Univ));
    let next = rel(&mut ir, RelExprKind::Const(RelConst::Iden));
    let f = total_order_formula(&mut ir, elem, first, next, span());
    assert_eq!(f.index, 7);
    assert_eq!((ir.vars[0].name.as_str(), ir.vars[1].name.as_str()), ("totalOrder_e", "totalOrder_p"));
    assert_eq!(ir.formulas[0].kind, FormulaKind::MultTest { test: MultTest::One, expr: first });
    assert_eq!(ir.formulas[3].kind, FormulaKind::Quant { kind: QuantKind::All, var: VarId { index: 0 }, bound: elem, body: FormulaId { index: 2 } });
    assert_eq!(ir.rel_exprs[8].kind, RelExprKind::Unary { op: RelUnOp::ReflexiveClosure, expr: next });
    assert_eq!(ir.formulas[6].kind, FormulaKind::RelCompare { op: RelCmpOp::Subset, lhs: elem, rhs: RelExprId { index: 9 } });
    let ids = |xs: &[usize]| -> Vec<FormulaId> { xs.iter().map(|&index| FormulaId { index }).collect() };
    assert_eq!(ir.formulas[7].kind, FormulaKind::And(ids(&[0, 1, 3, 5, 6])));
}

#[test]
fn siblings_are_pairwise_disjoint() {
    let mut ir = Ir::default();
    let group: Vec<RelExprId> = (0..3).map(|_| rel(&mut ir, RelExprKind::Const(RelConst::Univ))).collect();
    let mut out = vec![FormulaId { index: 99 }];
    push_pairwise_disjoint(&mut ir, &group, span(), &mut out);
    assert_eq!(out.iter().map(|f| f.index).collect::<Vec<_>>(), vec![99, 0, 1, 2]);
    let pairs: Vec<(usize, usize)> = ir.rel_exprs[3..]
        .iter()
        .map(|e| match e.kind {
            RelExprKind::Binary { op: RelBinOp::Intersect, lhs, rhs } => (lhs.index, rhs.index),
            _ => panic!("not an intersection"),
        })
        .collect();
    assert_eq!(pairs, vec![(0, 1), (0, 2), (1, 2)]);
    assert_eq!(ir.formulas[2].kind, FormulaKind::MultTest { test: MultTest::No, expr: RelExprId { index: 5 } });
}

#[test]
fn univ_and_iden_upper_bounds_span_the_universe() {
    let u = Universe::new(vec!["A$0".to_owned(), "A$1".to_owned()]);
    assert_eq!(rows(&univ_upper(&u)), vec![vec![0], vec![1]]);
    assert_eq!(rows(&iden_upper(&u)), vec![vec![0, 0], vec![1, 1]]);
}

#[test]
fn integer_library_values() {
    let mut ir = Ir::default();
    let min = lower_builtin_value(&mut ir, BuiltinValue::IntMin, 4, None, span()).unwrap();
    assert_eq!(ir.int_exprs[0].kind, IntExprKind::Const(-8));
    assert_eq!(ir.rel_exprs[min.index].kind, RelExprKind::IntToAtom(als_core::ir::IntExprId { index: 0 }));
    let max = lower_builtin_value(&mut ir, BuiltinValue::IntMax, 4, None, span()).unwrap();
    assert_eq!(ir.int_exprs[1].kind, IntExprKind::Const(7));
    assert_eq!(max.index, 1);
    let next = rel(&mut ir, RelExprKind::Const(RelConst::Iden));
    assert_eq!(lower_builtin_value(&mut ir, BuiltinValue::IntNext, 4, Some(next), span()).unwrap(), next);
    let prev = lower_builtin_value(&mut ir, BuiltinValue::IntPrev, 4, Some(next), span()).unwrap();
    assert_eq!(ir.rel_exprs[prev.index].kind, RelExprKind::Unary { op: RelUnOp::Transpose, expr: next });
    match lower_builtin_value(&mut ir, BuiltinValue::IntNext, 0, None, span()) {
        Err(TranslateError::LoweringUnsupported { what, .. }) => assert_eq!(what, "`fun/next` with no integer atoms (bitwidth 0)"),
        other => panic!("unexpected {other:?}"),
    }
    match lower_builtin_value(&mut ir, BuiltinValue::IntPrev, 0, None, span()) {
        Err(TranslateError::LoweringUnsupported { what, .. }) => assert_eq!(what, "`fun/prev` with no integer atoms (bitwidth 0)"),
        other => panic!("unexpected {other:?}"),
    }
}
