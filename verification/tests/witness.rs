use als_core::bounds_builder::{
    build_size_witness, build_size_witness_exact, emit_disjointness, emit_multiplicity, emit_size, union_of, SigMult,
};
use als_core::ir::{FormulaId, FormulaKind, Ir, MultTest, QuantKind, RelBinOp, RelCmpOp, RelConst, RelExpr, RelExprId, RelExprKind, VarId};
use als_core::numeral::append_decimal;
use als_core::span::{FileId, Span};

fn span() -> Span {
    Span::new(FileId { index: 0 }, 0, 1)
}

fn sig(ir: &mut Ir) -> RelExprId {
    ir.alloc_rel_expr(RelExpr { kind: RelExprKind::Const(RelConst::Univ), span: span() })
}

fn names(ir: &Ir) -> Vec<String> {
    ir.vars.iter().map(|v| v.name.clone()).collect()
}

#[test]
fn numerals_are_plain_decimal() {
    let mut s = String::from("x");
    append_decimal(&mut s, 0);
    append_decimal(&mut s, 7);
    append_decimal(&mut s, 10);
    append_decimal(&mut s, 1234);
    assert_eq!(s, "x07101234");
}

#[test]
fn union_of_one_part_is_that_part() {
    let mut ir = Ir::default();
    let a = sig(&mut ir);
    assert_eq!(union_of(&mut ir, &[a], span()), a);
    let b = sig(&mut ir);
    let u = union_of(&mut ir, &[a, b], span());
    assert_eq!(ir.rel_exprs[u.index].kind, RelExprKind::Binary { op: RelBinOp::Union, lhs: a, rhs: b });
}

#[test]
fn a_size_cap_is_a_union_of_witnesses() {
    let mut ir = Ir::default();
    let denote = sig(&mut ir);
    let f = build_size_witness(&mut ir, "this/A", denote, 3, span());
    assert_eq!(names(&ir), vec!["this/A_sz0", "this/A_sz1", "this/A_sz2"]);
    // Three witness nodes, then two union nodes.
    assert_eq!(ir.rel_exprs.len(), 6);
    assert_eq!(ir.rel_exprs[5].kind, RelExprKind::Binary { op: RelBinOp::Union, lhs: RelExprId { index: 4 }, rhs: RelExprId { index: 3 } });
    assert_eq!(ir.formulas[0].kind, FormulaKind::RelCompare { op: RelCmpOp::Equal, lhs: RelExprId { index: 5 }, rhs: denote });
    // The outermost quantifier binds the first witness.
    assert_eq!(f.index, 3);
    assert_eq!(
        ir.formulas[3].kind,
        FormulaKind::Quant { kind: QuantKind::Exists, var: VarId { index: 0 }, bound: denote, body: FormulaId { index: 2 } }
    );
    assert_eq!(
        ir.formulas[1].kind,
        FormulaKind::Quant { kind: QuantKind::Exists, var: VarId { index: 2 }, bound: denote, body: FormulaId { index: 0 } }
    );
}

#[test]
fn a_single_witness_needs_no_union() {
    let mut ir = Ir::default();
    let denote = sig(&mut ir);
    let f = build_size_witness(&mut ir, "S", denote, 1, span());
    assert_eq!(ir.rel_exprs.len(), 2);
    assert_eq!(ir.formulas[0].kind, FormulaKind::RelCompare { op: RelCmpOp::Equal, lhs: RelExprId { index: 1 }, rhs: denote });
    assert_eq!(f.index, 1);
    let g = build_size_witness_exact(&mut ir, "S", denote, 1, span());
    assert_eq!(names(&ir), vec!["S_sz0", "S_ex0"]);
    assert_eq!(g.index, 3);
    assert_eq!(
        ir.formulas[3].kind,
        FormulaKind::Quant { kind: QuantKind::Exists, var: VarId { index: 1 }, bound: denote, body: FormulaId { index: 2 } }
    );
}

#[test]
fn an_exact_size_adds_staged_disjointness() {
    let mut ir = Ir::default();
    let denote = sig(&mut ir);
    let f = build_size_witness_exact(&mut ir, "A", denote, 3, span());
    assert_eq!(names(&ir), vec!["A_ex0", "A_ex1", "A_ex2"]);
    // Witnesses at 1..=3, the full union at 4..=5; stage 1: intersection at 6;
    // stage 2: the union of the first two at 7, the intersection at 8.
    assert_eq!(ir.rel_exprs[6].kind, RelExprKind::Binary { op: RelBinOp::Intersect, lhs: RelExprId { index: 2 }, rhs: RelExprId { index: 1 } });
    assert_eq!(ir.rel_exprs[7].kind, RelExprKind::Binary { op: RelBinOp::Union, lhs: RelExprId { index: 1 }, rhs: RelExprId { index: 2 } });
    assert_eq!(ir.rel_exprs[8].kind, RelExprKind::Binary { op: RelBinOp::Intersect, lhs: RelExprId { index: 3 }, rhs: RelExprId { index: 7 } });
    assert_eq!(ir.formulas[1].kind, FormulaKind::MultTest { test: MultTest::No, expr: RelExprId { index: 6 } });
    assert_eq!(ir.formulas[2].kind, FormulaKind::MultTest { test: MultTest::No, expr: RelExprId { index: 8 } });
    assert_eq!(
        ir.formulas[3].kind,
        FormulaKind::And(vec![FormulaId { index: 0 }, FormulaId { index: 1 }, FormulaId { index: 2 }])
    );
    assert_eq!(f.index, 6);
    assert_eq!(
        ir.formulas[6].kind,
        FormulaKind::Quant { kind: QuantKind::Exists, var: VarId { index: 0 }, bound: denote, body: FormulaId { index: 5 } }
    );
}

#[test]
fn witness_names_count_past_nine() {
    let mut ir = Ir::default();
    let denote = sig(&mut ir);
    build_size_witness(&mut ir, "B", denote, 12, span());
    assert_eq!(ir.vars[11].name, "B_sz11");
}

#[test]
fn a_signature_within_its_scope_needs_no_size_constraint() {
    let mut ir = Ir::default();
    let denote = sig(&mut ir);
    let mut cs = Vec::new();
    emit_size(&mut ir, &mut cs, "A", denote, 3, false, false, false, 0, 3, span());
    assert!(cs.is_empty());
    assert_eq!((ir.formulas.len(), ir.rel_exprs.len()), (0, 1));
}

#[test]
fn small_scopes_cap_with_a_multiplicity_test() {
    let mut ir = Ir::default();
    let denote = sig(&mut ir);
    let mut cs = Vec::new();
    emit_size(&mut ir, &mut cs, "A", denote, 0, false, false, false, 0, 2, span());
    emit_size(&mut ir, &mut cs, "A", denote, 1, false, false, false, 0, 2, span());
    assert_eq!(cs, vec![FormulaId { index: 0 }, FormulaId { index: 1 }]);
    assert_eq!(ir.formulas[0].kind, FormulaKind::MultTest { test: MultTest::No, expr: denote });
    assert_eq!(ir.formulas[1].kind, FormulaKind::MultTest { test: MultTest::Lone, expr: denote });
}

#[test]
fn a_larger_scope_allows_none_or_up_to_scope_witnesses() {
    let mut ir = Ir::default();
    let denote = sig(&mut ir);
    let mut cs = Vec::new();
    emit_size(&mut ir, &mut cs, "A", denote, 2, false, false, false, 0, 5, span());
    // `no A` at 0, the equation at 1, two quantifiers at 2 and 3, the disjunction at 4.
    assert_eq!(cs, vec![FormulaId { index: 4 }]);
    assert_eq!(ir.formulas[4].kind, FormulaKind::Or(vec![FormulaId { index: 0 }, FormulaId { index: 3 }]));
    assert_eq!(names(&ir), vec!["A_sz0", "A_sz1"]);
}

#[test]
fn an_exact_abstract_parent_gets_disjoint_witnesses() {
    let mut ir = Ir::default();
    let denote = sig(&mut ir);
    let mut cs = Vec::new();
    emit_size(&mut ir, &mut cs, "P", denote, 2, true, true, true, 1, 2, span());
    assert_eq!(names(&ir), vec!["P_ex0", "P_ex1"]);
    assert_eq!(cs.len(), 1);
    // Pinned already by the children: nothing.
    let mut more = Vec::new();
    emit_size(&mut ir, &mut more, "Q", denote, 2, true, true, true, 2, 2, span());
    assert!(more.is_empty());
}

#[test]
fn multiplicities_not_already_guaranteed() {
    let mut ir = Ir::default();
    let denote = sig(&mut ir);
    let mut cs = Vec::new();
    emit_multiplicity(&mut ir, &mut cs, Some(SigMult::Nonempty), 0, 3, denote, span());
    emit_multiplicity(&mut ir, &mut cs, Some(SigMult::Nonempty), 1, 3, denote, span());
    emit_multiplicity(&mut ir, &mut cs, Some(SigMult::One), 1, 1, denote, span());
    emit_multiplicity(&mut ir, &mut cs, Some(SigMult::One), 0, 2, denote, span());
    emit_multiplicity(&mut ir, &mut cs, Some(SigMult::Lone), 0, 2, denote, span());
    emit_multiplicity(&mut ir, &mut cs, None, 0, 2, denote, span());
    assert_eq!(cs.len(), 2);
    assert_eq!(ir.formulas[0].kind, FormulaKind::MultTest { test: MultTest::Nonempty, expr: denote });
    assert_eq!(ir.formulas[1].kind, FormulaKind::MultTest { test: MultTest::One, expr: denote });
}

#[test]
fn siblings_are_disjoint_pair_by_pair() {
    let mut ir = Ir::default();
    let kids: Vec<RelExprId> = (0..3).map(|_| sig(&mut ir)).collect();
    let mut cs = Vec::new();
    emit_disjointness(&mut ir, &mut cs, &kids, span());
    assert_eq!(cs.len(), 3);
    assert_eq!(ir.rel_exprs[5].kind, RelExprKind::Binary { op: RelBinOp::Intersect, lhs: kids[1], rhs: kids[2] });
    let mut none = Vec::new();
    emit_disjointness(&mut ir, &mut none, &kids[..1], span());
    assert!(none.is_empty());
}
