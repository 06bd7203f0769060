use als_core::bounds::{AtomId, Bounds, RelBound, Tuple, TupleSet, Universe};
use als_core::circuit::{Bool, Circuit, Cnf, Lit};
use als_core::encode::walk::{encode_formula, encode_int, encode_rel, EncodeState};
use als_core::error::TranslateError;
use als_core::evaluator::{eval_formula, eval_int, eval_rel, Instance, IntParams};
use als_core::ir::{
    CompDecl, Formula, FormulaId, FormulaKind, IntBinOp, IntCmpOp, IntExpr, IntExprId, IntExprKind, Ir, MultTest, Mutability,
    QuantKind, RelBinOp, RelCmpOp, RelExpr, RelExprId, RelExprKind, RelId, Relation, TemporalUnOp, Var as IrVar, VarId,
};
use als_core::span::{FileId, Span};
use als_core::tuple_map::TupleMap;

fn span() -> Span {
    Span::new(FileId { index: 0 }, 0, 1)
}

fn tuple(atoms: &[usize]) -> Tuple {
    Tuple::new(atoms.iter().map(|&i| AtomId::from_index(i)).collect())
}

fn set(arity: usize, tuples: &[&[usize]]) -> TupleSet {
    let mut s = TupleSet::empty(arity);
    for t in tuples {
        s.insert(tuple(t));
    }
    s
}

fn relation(ir: &mut Ir, name: &str, arity: usize) -> RelId {
    ir.alloc_relation(Relation {
        name: name.to_owned(),
        arity,
        span: span(),
        mutability: Mutability::Static,
        is_meta_field: false,
    })
}

fn rel(ir: &mut Ir, kind: RelExprKind) -> RelExprId {
    ir.alloc_rel_expr(RelExpr { kind, span: span() })
}

fn formula(ir: &mut Ir, kind: FormulaKind) -> FormulaId {
    ir.alloc_formula(Formula { kind, span: span() })
}

fn int_node(ir: &mut Ir, kind: IntExprKind) -> IntExprId {
    ir.alloc_int_expr(IntExpr { kind, span: span() })
}

fn var(ir: &mut Ir, name: &str) -> VarId {
    ir.alloc_var(IrVar { name: name.to_owned(), arity: 1, span: span() })
}

/// Three atoms. `S` ranges over all of them, undetermined; `next` holds
/// `(0,1)` surely and may hold `(1,2)` and `(2,0)`.
struct Model {
    ir: Ir,
    cnf: Cnf,
    st: EncodeState,
    s: RelExprId,
    next: RelExprId,
    primaries: usize,
}

fn model() -> Model {
    let mut ir = Ir::default();
    let rs = relation(&mut ir, "this/S", 1);
    let rn = relation(&mut ir, "this/S.next", 2);
    let s = rel(&mut ir, RelExprKind::Relation(rs));
    let next = rel(&mut ir, RelExprKind::Relation(rn));
    let universe = Universe::new(vec!["a0".to_owned(), "a1".to_owned(), "a2".to_owned()]);
    let mut bounds = Bounds::new(universe);
    let s_hi = set(1, &[&[0], &[1], &[2]]);
    let n_lo = set(2, &[&[0, 1]]);
    let n_hi = set(2, &[&[0, 1], &[1, 2], &[2, 0]]);
    bounds.bind(rs, RelBound::new(TupleSet::empty(1), s_hi));
    bounds.bind(rn, RelBound::new(n_lo, n_hi));
    let mut cnf = Cnf::new();
    let mut ps = TupleMap::new();
    for a in 0..3 {
        ps.insert(tuple(&[a]), cnf.fresh_var());
    }
    let mut pn = TupleMap::new();
    pn.insert(tuple(&[1, 2]), cnf.fresh_var());
    pn.insert(tuple(&[2, 0]), cnf.fresh_var());
    let st = EncodeState {
        bounds,
        prims: vec![ps, pn],
        universe_len: 3,
        params: IntParams { bitwidth: 2, int_start: 3, int_end: 3 },
    };
    Model { ir, cnf, st, s, next, primaries: 5 }
}

fn lit_holds(a: &[Option<bool>], l: &Lit) -> Option<bool> {
    a[l.var.index as usize].map(|v| v != l.negated)
}

/// A model of the clauses extending the fixed values in `a`, by unit
/// propagation and backtracking; `None` when there is none.
fn solve(clauses: &[Vec<Lit>], a: &mut Vec<Option<bool>>) -> bool {
    loop {
        let mut changed = false;
        for c in clauses {
            let mut open = None;
            let mut open_count = 0;
            let mut sat = false;
            for l in c {
                match lit_holds(a, l) {
                    Some(true) => sat = true,
                    Some(false) => {}
                    None => {
                        open = Some(*l);
                        open_count += 1;
                    }
                }
            }
            if sat {
                continue;
            }
            if open_count == 0 {
                return false;
            }
            if open_count == 1 {
                let l = open.unwrap();
                a[l.var.index as usize] = Some(!l.negated);
                changed = true;
            }
        }
        if !changed {
            break;
        }
    }
    match a.iter().position(|v| v.is_none()) {
        None => true,
        Some(k) => {
            for choice in [false, true] {
                let mut b = a.clone();
                b[k] = Some(choice);
                if solve(clauses, &mut b) {
                    *a = b;
                    return true;
                }
            }
            false
        }
    }
}

/// The models' primary parts: for each assignment of the first `k`
/// variables, a model of the clauses extending it (every one must extend).
fn models(cnf: &Cnf, k: usize) -> Vec<Vec<bool>> {
    let n = cnf.num_vars() as usize;
    let mut out = Vec::new();
    for bits in 0u32..(1u32 << k) {
        let mut a: Vec<Option<bool>> = vec![None; n];
        for v in 0..k {
            a[v] = Some((bits >> v) & 1 == 1);
        }
        assert!(solve(cnf.clauses(), &mut a), "primary assignment {bits:#b} has no model");
        out.push(a.into_iter().map(|v| v.unwrap()).collect());
    }
    out
}

fn bool_value(a: &[bool], b: Bool) -> bool {
    match b {
        Bool::Const(v) => v,
        Bool::Lit(l) => a[l.var.index as usize] != l.negated,
    }
}

/// The value bits read as a two's-complement integer.
fn int_value_of(a: &[bool], bits: &[Bool]) -> i64 {
    let w = bits.len();
    let mut u: i64 = 0;
    for (k, b) in bits.iter().enumerate() {
        if bool_value(a, *b) {
            u |= 1 << k;
        }
    }
    if w > 0 && (u >> (w - 1)) & 1 == 1 {
        u - (1 << w)
    } else {
        u
    }
}

/// The instance an assignment denotes: each bound relation holds its lower
/// bound and the undetermined tuples whose primary variable is set.
fn instance_of(st: &EncodeState, a: &[bool]) -> Instance {
    let mut relations = Vec::new();
    for (k, prim) in st.prims.iter().enumerate() {
        let b = st.bounds.get(RelId { index: k }).unwrap();
        let mut value = b.lower().duplicate();
        for (t, v) in prim.entries() {
            if a[v.index as usize] {
                value.insert(t.duplicate());
            }
        }
        relations.push(Some(value));
    }
    Instance { universe_len: st.universe_len, relations }
}

fn rows(s: &TupleSet) -> Vec<Vec<usize>> {
    s.iter().iter().map(|t| t.atoms().iter().map(|a| a.index()).collect()).collect()
}

/// Encodes `f`, then checks on a model of each primary assignment that the
/// result agrees with the evaluator. Returns how many primary assignments
/// make the formula true.
fn agree_formula(m: Model, f: FormulaId) -> usize {
    let mut c = Circuit::new(m.cnf);
    let mut env = vec![None; m.ir.vars.len()];
    let g = encode_formula(&mut c, &m.st, &m.ir, &mut env, f).unwrap();
    let cnf = c.into_cnf();
    let mut count = 0;
    for a in models(&cnf, m.primaries) {
        let inst = instance_of(&m.st, &a);
        let mut env2 = vec![None; m.ir.vars.len()];
        let want = eval_formula(&m.ir, &inst, m.st.params, &mut env2, f).unwrap();
        assert_eq!(bool_value(&a, g), want);
        if want {
            count += 1;
        }
    }
    count
}

/// Encodes integer expression `i`, then checks on a model of each primary
/// assignment that its value and flag agree with the evaluator. Returns the
/// values seen, in primary order.
fn agree_int(m: Model, i: IntExprId) -> Vec<(i64, bool)> {
    let mut c = Circuit::new(m.cnf);
    let mut env = vec![None; m.ir.vars.len()];
    let (v, of) = encode_int(&mut c, &m.st, &m.ir, &mut env, i).unwrap();
    let cnf = c.into_cnf();
    let mut seen = Vec::new();
    for a in models(&cnf, m.primaries) {
        let inst = instance_of(&m.st, &a);
        let mut env2 = vec![None; m.ir.vars.len()];
        let want = eval_int(&m.ir, &inst, m.st.params, &mut env2, i).unwrap();
        let got = (int_value_of(&a, v.bits()), bool_value(&a, of));
        assert_eq!(got, want);
        seen.push(got);
    }
    seen
}

#[test]
fn universal_quantifier_agrees_with_the_evaluator() {
    let mut m = model();
    let x = var(&mut m.ir, "x");
    let vx = rel(&mut m.ir, RelExprKind::Var(x));
    let step = rel(&mut m.ir, RelExprKind::Binary { op: RelBinOp::Join, lhs: vx, rhs: m.next });
    let body = formula(&mut m.ir, FormulaKind::MultTest { test: MultTest::Nonempty, expr: step });
    let all = formula(&mut m.ir, FormulaKind::Quant { kind: QuantKind::All, var: x, bound: m.s, body });
    // S ⊆ {0,1,2}; 0 always steps; 1 steps iff (1,2); 2 steps iff (2,0).
    // Count: for each of (1,2),(2,0) present or not, S must avoid the
    // atoms that cannot step: 8 + 4 + 4 + 2 = 18 of 32.
    assert_eq!(agree_formula(m, all), 18);
}

#[test]
fn existential_quantifier_agrees_with_the_evaluator() {
    let mut m = model();
    let x = var(&mut m.ir, "x");
    let vx = rel(&mut m.ir, RelExprKind::Var(x));
    let step = rel(&mut m.ir, RelExprKind::Binary { op: RelBinOp::Join, lhs: vx, rhs: m.next });
    let body = formula(&mut m.ir, FormulaKind::MultTest { test: MultTest::No, expr: step });
    let ex = formula(&mut m.ir, FormulaKind::Quant { kind: QuantKind::Exists, var: x, bound: m.s, body });
    // The complement of the universal count above.
    assert_eq!(agree_formula(m, ex), 14);
}

#[test]
fn multiplicities_and_comparisons_agree_with_the_evaluator() {
    let m = model();
    let mut m1 = m;
    let one = formula(&mut m1.ir, FormulaKind::MultTest { test: MultTest::One, expr: m1.s });
    // Exactly one atom in S: 3 choices of S times 4 of next.
    assert_eq!(agree_formula(m1, one), 12);
    let mut m2 = model();
    let prod = rel(&mut m2.ir, RelExprKind::Binary { op: RelBinOp::Product, lhs: m2.s, rhs: m2.s });
    let sub = formula(&mut m2.ir, FormulaKind::RelCompare { op: RelCmpOp::Subset, lhs: m2.next, rhs: prod });
    // next ⊆ S×S: 0,1 ∈ S always; with (1,2) also 2; with (2,0) also 2.
    // Without either: S ⊇ {0,1}, 2 free: 2; otherwise S = {0,1,2}: 1 each.
    assert_eq!(agree_formula(m2, sub), 5);
}

#[test]
fn connectives_agree_with_the_evaluator() {
    let mut m = model();
    let some_s = formula(&mut m.ir, FormulaKind::MultTest { test: MultTest::Nonempty, expr: m.s });
    let lone_s = formula(&mut m.ir, FormulaKind::MultTest { test: MultTest::Lone, expr: m.s });
    let both = formula(&mut m.ir, FormulaKind::And(vec![some_s, lone_s]));
    let not_both = formula(&mut m.ir, FormulaKind::Not(both));
    let iff = formula(&mut m.ir, FormulaKind::Iff(not_both, lone_s));
    // ¬(some ∧ lone) ⇔ lone holds exactly when S is empty or S has 2+
    // atoms with lone false: |S| = 0 → (true ⇔ true); |S| = 1 → (false ⇔
    // true); |S| ≥ 2 → (true ⇔ false). So only S = ∅: 1 × 4.
    assert_eq!(agree_formula(m, iff), 4);
}

#[test]
fn a_join_denotes_what_the_evaluator_gives() {
    let mut m = model();
    let joined = rel(&mut m.ir, RelExprKind::Binary { op: RelBinOp::Join, lhs: m.s, rhs: m.next });
    let mut c = Circuit::new(m.cnf);
    let mut env: Vec<Option<Tuple>> = vec![];
    let mx = encode_rel(&mut c, &m.st, &m.ir, &mut env, joined).unwrap();
    let cnf = c.into_cnf();
    for a in models(&cnf, m.primaries) {
        let inst = instance_of(&m.st, &a);
        let want = eval_rel(&m.ir, &inst, m.st.params, &mut vec![], joined).unwrap();
        let got: Vec<Vec<usize>> = mx
            .iter()
            .iter()
            .filter(|(_, b)| bool_value(&a, *b))
            .map(|(t, _)| t.atoms().iter().map(|a| a.index()).collect())
            .collect();
        assert_eq!(got, rows(&want));
    }
}

#[test]
fn exact_bounds_encode_to_constants() {
    let mut ir = Ir::default();
    let rs = relation(&mut ir, "this/S", 1);
    let s = rel(&mut ir, RelExprKind::Relation(rs));
    let universe = Universe::new(vec!["a0".to_owned(), "a1".to_owned()]);
    let mut bounds = Bounds::new(universe);
    bounds.bind(rs, RelBound::exact(set(1, &[&[1]])));
    let st = EncodeState {
        bounds,
        prims: vec![TupleMap::new()],
        universe_len: 2,
        params: IntParams { bitwidth: 2, int_start: 2, int_end: 2 },
    };
    let one = formula(&mut ir, FormulaKind::MultTest { test: MultTest::One, expr: s });
    let no = formula(&mut ir, FormulaKind::MultTest { test: MultTest::No, expr: s });
    let mut c = Circuit::new(Cnf::new());
    let g1 = encode_formula(&mut c, &st, &ir, &mut vec![], one).unwrap();
    let g2 = encode_formula(&mut c, &st, &ir, &mut vec![], no).unwrap();
    let cnf = c.into_cnf();
    for a in models(&cnf, 0) {
        assert!(bool_value(&a, g1));
        assert!(!bool_value(&a, g2));
    }
}

#[test]
fn cardinality_and_arithmetic_agree_with_the_evaluator() {
    let mut m = model();
    m.st.params = IntParams { bitwidth: 3, int_start: 3, int_end: 3 };
    let card = int_node(&mut m.ir, IntExprKind::Card(m.s));
    let two = int_node(&mut m.ir, IntExprKind::Const(2));
    let sum = int_node(&mut m.ir, IntExprKind::Binary { op: IntBinOp::Add, lhs: card, rhs: two });
    let seen = agree_int(m, sum);
    // #S + 2 at 3 bits: 2, 3, then 4 and 5 wrap to −4 and −3 with the flag.
    assert!(seen.contains(&(2, false)));
    assert!(seen.contains(&(3, false)));
    assert!(seen.contains(&(-4, true)));
    assert!(seen.contains(&(-3, true)));
    let mut m2 = model();
    m2.st.params = IntParams { bitwidth: 3, int_start: 3, int_end: 3 };
    let card = int_node(&mut m2.ir, IntExprKind::Card(m2.next));
    let neg = int_node(&mut m2.ir, IntExprKind::Neg(card));
    let three = int_node(&mut m2.ir, IntExprKind::Const(3));
    let prod = int_node(&mut m2.ir, IntExprKind::Binary { op: IntBinOp::Mul, lhs: neg, rhs: three });
    let seen = agree_int(m2, prod);
    // #next ∈ {1, 2, 3}: −3, −6 → 2 (flag), −9 → −1 (flag).
    assert!(seen.contains(&(-3, false)));
    assert!(seen.contains(&(2, true)));
    assert!(seen.contains(&(-1, true)));
}

#[test]
fn integer_comparisons_agree_with_the_evaluator() {
    let mut m = model();
    m.st.params = IntParams { bitwidth: 3, int_start: 3, int_end: 3 };
    let card = int_node(&mut m.ir, IntExprKind::Card(m.s));
    let two = int_node(&mut m.ir, IntExprKind::Const(2));
    let lt = formula(&mut m.ir, FormulaKind::IntCompare { op: IntCmpOp::Lt, lhs: card, rhs: two });
    // #S < 2: S of size 0 or 1, 4 choices, times 4 of next.
    assert_eq!(agree_formula(m, lt), 16);
    let mut m2 = model();
    m2.st.params = IntParams { bitwidth: 3, int_start: 3, int_end: 3 };
    let cs = int_node(&mut m2.ir, IntExprKind::Card(m2.s));
    let cn = int_node(&mut m2.ir, IntExprKind::Card(m2.next));
    let some = formula(&mut m2.ir, FormulaKind::MultTest { test: MultTest::Nonempty, expr: m2.s });
    let pick = int_node(&mut m2.ir, IntExprKind::IfThenElse { cond: some, then_branch: cs, else_branch: cn });
    let eq = formula(&mut m2.ir, FormulaKind::IntCompare { op: IntCmpOp::Eq, lhs: pick, rhs: cn });
    // Equal when S is empty (4), or when |S| = |next| (|next| = 1: 3 × 1,
    // 2: 3 × 2, 3: 1 × 1): 4 + 3 + 6 + 1 = 14.
    assert_eq!(agree_formula(m2, eq), 14);
}

#[test]
fn int_atoms_denote_what_the_evaluator_gives() {
    let mut m = model();
    // Four Int atoms after the three atoms, bitwidth 2: values −2 … 1.
    m.st.params = IntParams { bitwidth: 2, int_start: 3, int_end: 7 };
    m.st.universe_len = 7;
    let card = int_node(&mut m.ir, IntExprKind::Card(m.s));
    let atom = rel(&mut m.ir, RelExprKind::IntToAtom(card));
    let mut c = Circuit::new(m.cnf);
    let mx = encode_rel(&mut c, &m.st, &m.ir, &mut vec![], atom).unwrap();
    let cnf = c.into_cnf();
    for a in models(&cnf, m.primaries) {
        let inst = instance_of(&m.st, &a);
        let want = eval_rel(&m.ir, &inst, m.st.params, &mut vec![], atom).unwrap();
        let got: Vec<Vec<usize>> = mx
            .iter()
            .iter()
            .filter(|(_, b)| bool_value(&a, *b))
            .map(|(t, _)| t.atoms().iter().map(|a| a.index()).collect())
            .collect();
        assert_eq!(got, rows(&want));
        assert_eq!(got.len(), 1);
    }
}

#[test]
fn grounded_sums_agree_with_the_evaluator() {
    let mut m = model();
    m.st.params = IntParams { bitwidth: 3, int_start: 3, int_end: 3 };
    let x = var(&mut m.ir, "x");
    let vx = rel(&mut m.ir, RelExprKind::Var(x));
    let step = rel(&mut m.ir, RelExprKind::Binary { op: RelBinOp::Join, lhs: vx, rhs: m.next });
    let card = int_node(&mut m.ir, IntExprKind::Card(step));
    let sum = int_node(&mut m.ir, IntExprKind::Sum { var: x, bound: m.s, body: card });
    let seen = agree_int(m, sum);
    // The atoms of S with a successor: none (S empty) up to all three.
    assert!(seen.contains(&(0, false)));
    assert!(seen.contains(&(3, false)));
}

#[test]
fn int_of_int_atoms_round_trips() {
    let mut m = model();
    m.st.params = IntParams { bitwidth: 2, int_start: 3, int_end: 7 };
    m.st.universe_len = 7;
    let card = int_node(&mut m.ir, IntExprKind::Card(m.s));
    let atom = rel(&mut m.ir, RelExprKind::IntToAtom(card));
    let back = int_node(&mut m.ir, IntExprKind::AtomToInt(atom));
    let seen = agree_int(m, back);
    // #S ∈ 0 … 3 wraps to 0, 1, −2, −1 at 2 bits; the atom's value sums
    // without overflow.
    assert!(seen.contains(&(0, false)));
    assert!(seen.contains(&(1, false)));
    assert!(seen.contains(&(-2, false)));
    assert!(seen.contains(&(-1, false)));
}

#[test]
fn comprehensions_denote_what_the_evaluator_gives() {
    let mut m = model();
    let x = var(&mut m.ir, "x");
    let y = var(&mut m.ir, "y");
    let vx = rel(&mut m.ir, RelExprKind::Var(x));
    let vy = rel(&mut m.ir, RelExprKind::Var(y));
    let pair = rel(&mut m.ir, RelExprKind::Binary { op: RelBinOp::Product, lhs: vx, rhs: vy });
    let body = formula(&mut m.ir, FormulaKind::RelCompare { op: RelCmpOp::Subset, lhs: pair, rhs: m.next });
    let comp = rel(
        &mut m.ir,
        RelExprKind::Comprehension {
            decls: vec![CompDecl { var: x, bound: m.s }, CompDecl { var: y, bound: m.s }],
            body,
        },
    );
    let mut c = Circuit::new(m.cnf);
    let mut env: Vec<Option<Tuple>> = vec![None, None];
    let mx = encode_rel(&mut c, &m.st, &m.ir, &mut env, comp).unwrap();
    let cnf = c.into_cnf();
    let mut sizes = Vec::new();
    for a in models(&cnf, m.primaries) {
        let inst = instance_of(&m.st, &a);
        let want = eval_rel(&m.ir, &inst, m.st.params, &mut vec![None, None], comp).unwrap();
        let got: Vec<Vec<usize>> = mx
            .iter()
            .iter()
            .filter(|(_, b)| bool_value(&a, *b))
            .map(|(t, _)| t.atoms().iter().map(|a| a.index()).collect())
            .collect();
        assert_eq!(got, rows(&want));
        sizes.push(got.len());
    }
    // S = {0,1,2} with both optional edges: all three edges.
    assert!(sizes.contains(&3));
    assert!(sizes.contains(&0));
}

#[test]
fn temporal_constructs_are_refused() {
    let mut m = model();
    let primed = rel(&mut m.ir, RelExprKind::Prime(m.s));
    let some_s = formula(&mut m.ir, FormulaKind::MultTest { test: MultTest::Nonempty, expr: m.s });
    let always = formula(&mut m.ir, FormulaKind::TemporalUnary { op: TemporalUnOp::Always, body: some_s });
    let mut c = Circuit::new(m.cnf);
    let r = encode_rel(&mut c, &m.st, &m.ir, &mut vec![], primed);
    assert!(matches!(r, Err(TranslateError::LoweringUnsupported { .. })));
    let f = encode_formula(&mut c, &m.st, &m.ir, &mut vec![], always);
    assert!(matches!(f, Err(TranslateError::LoweringUnsupported { .. })));
}

#[test]
fn a_relation_without_a_bound_is_empty() {
    let mut m = model();
    let free = relation(&mut m.ir, "this/T", 1);
    let t = rel(&mut m.ir, RelExprKind::Relation(free));
    let no_t = formula(&mut m.ir, FormulaKind::MultTest { test: MultTest::No, expr: t });
    // The unbound relation denotes nothing, whatever the primaries hold.
    assert_eq!(agree_formula(m, no_t), 32);
}
