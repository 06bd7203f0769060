use als_core::bounds::{AtomId, RelBound, Tuple, TupleSet};
use als_core::circuit::{Bool, Circuit, Cnf, Lit, Var};
use als_core::encode::integer::{IntBuilder, IntVal};
use als_core::encode::leaves::{const_matrix, relation_matrix, var_matrix};
use als_core::encode::terms::{
    apply_overflow_guard, atom_int_value, empty_on_overflow, gate_intval, int_atom_to_int, int_binary, int_card, int_compare, int_ite,
    int_sum, int_to_atom,
};
use als_core::ir::{IntBinOp, IntCmpOp, RelConst};
use als_core::matrix::Matrix;
use als_core::tuple_map::TupleMap;

fn tuple(atoms: &[usize]) -> Tuple {
    Tuple::new(atoms.iter().map(|&i| AtomId::from_index(i)).collect())
}

fn unary_true(atoms: &[usize]) -> Matrix {
    let mut m = Matrix::empty(1);
    for &a in atoms {
        m.set(tuple(&[a]), Bool::Const(true));
    }
    m
}

/// Reads an all-constant value back as a signed integer.
fn to_i64(v: &IntVal) -> i64 {
    let w = v.width();
    let mut u: i64 = 0;
    for (i, &b) in v.bits().iter().enumerate() {
        match b {
            Bool::Const(true) => u |= 1 << i,
            Bool::Const(false) => {}
            Bool::Lit(_) => panic!("non-constant bit {i}"),
        }
    }
    if u & (1 << (w - 1)) != 0 {
        u - (1 << w)
    } else {
        u
    }
}

fn const_bool(b: Bool) -> bool {
    match b {
        Bool::Const(x) => x,
        Bool::Lit(_) => panic!("non-constant flag"),
    }
}

fn builder(w: usize) -> IntBuilder {
    IntBuilder::new(Circuit::new(Cnf::new()), w)
}

fn cells(m: &Matrix) -> Vec<(Vec<usize>, Bool)> {
    m.iter().iter().map(|(t, b)| (t.atoms().iter().map(|a| a.index).collect(), *b)).collect()
}

#[test]
fn cardinality_of_constant_cells_counts_them() {
    let mut ib = builder(4);
    let (v, of) = int_card(&mut ib, &unary_true(&[0, 2, 5]));
    assert_eq!((to_i64(&v), const_bool(of)), (3, false));
    // Five cells do not fit in three bits: the count wraps and overflows.
    let mut ib = builder(3);
    let (v, of) = int_card(&mut ib, &unary_true(&[0, 1, 2, 3, 4]));
    assert_eq!((to_i64(&v), const_bool(of)), (-3, true));
    assert_eq!(ib.into_circuit().cnf().num_vars(), 0, "constants fold away");
}

#[test]
fn gating_keeps_or_clears_a_constant() {
    let k = IntVal::constant(5, 4);
    assert_eq!(to_i64(&gate_intval(Bool::Const(true), &k)), 5);
    assert_eq!(to_i64(&gate_intval(Bool::Const(false), &k)), 0);
    let l = Bool::Lit(Lit::positive(Var { index: 3 }));
    let g = gate_intval(l, &k);
    assert_eq!(g.bits(), &[l, Bool::Const(false), l, Bool::Const(false)]);
}

#[test]
fn int_atoms_stand_for_the_signed_range_in_order() {
    // Atoms 2..6 are the integers of bitwidth 2: -2, -1, 0, 1.
    assert_eq!(atom_int_value(AtomId::from_index(2), 2, 6, 2), Some(-2));
    assert_eq!(atom_int_value(AtomId::from_index(5), 2, 6, 2), Some(1));
    assert_eq!(atom_int_value(AtomId::from_index(1), 2, 6, 2), None);
    assert_eq!(atom_int_value(AtomId::from_index(6), 2, 6, 2), None);
    assert_eq!(atom_int_value(AtomId::from_index(3), 2, 6, 0), None);
}

#[test]
fn int_to_atom_marks_the_atom_of_the_value() {
    let mut ib = builder(2);
    let m = int_to_atom(&mut ib, &IntVal::constant(1, 2), 2, 6, 2);
    assert_eq!(cells(&m), vec![(vec![5], Bool::Const(true))]);
    let mut ib = builder(2);
    let m = int_to_atom(&mut ib, &IntVal::constant(-2, 2), 2, 6, 2);
    assert_eq!(cells(&m), vec![(vec![2], Bool::Const(true))]);
}

#[test]
fn int_of_atoms_sums_the_present_int_atoms() {
    // Atoms 2..10 are the integers of bitwidth 3: -4 .. 3; atom 0 is no integer.
    let mut ib = builder(3);
    let (v, of) = int_atom_to_int(&mut ib, &unary_true(&[0, 7, 9]), 2, 10, 3);
    // Atom 7 is 1 and atom 9 is 3: their sum 4 leaves the range, wraps to -4 and overflows.
    assert_eq!((to_i64(&v), const_bool(of)), (-4, true));
    let mut ib = builder(3);
    let (v, of) = int_atom_to_int(&mut ib, &unary_true(&[2, 7]), 2, 10, 3);
    assert_eq!((to_i64(&v), const_bool(of)), (-3, false));
    // -4 + -1 leaves the range: the sum wraps to 3 and overflows.
    let mut ib = builder(3);
    let (v, of) = int_atom_to_int(&mut ib, &unary_true(&[2, 5]), 2, 10, 3);
    assert_eq!((to_i64(&v), const_bool(of)), (3, true));
}

#[test]
fn binary_operations_combine_their_flags() {
    let mut ib = builder(4);
    let (v, of) = int_binary(&mut ib, IntBinOp::Add, &IntVal::constant(3, 4), Bool::Const(false), &IntVal::constant(4, 4), Bool::Const(false));
    assert_eq!((to_i64(&v), const_bool(of)), (7, false));
    let (v, of) = int_binary(&mut ib, IntBinOp::Add, &IntVal::constant(3, 4), Bool::Const(true), &IntVal::constant(4, 4), Bool::Const(false));
    assert_eq!((to_i64(&v), const_bool(of)), (7, true), "an operand's overflow is inherited");
    let (v, of) = int_binary(&mut ib, IntBinOp::Div, &IntVal::constant(7, 4), Bool::Const(false), &IntVal::constant(0, 4), Bool::Const(false));
    assert_eq!((to_i64(&v), const_bool(of)), (-1, true));
    let (v, of) = int_binary(&mut ib, IntBinOp::Rem, &IntVal::constant(-7, 4), Bool::Const(false), &IntVal::constant(2, 4), Bool::Const(false));
    assert_eq!((to_i64(&v), const_bool(of)), (-1, false));
    let (v, of) = int_binary(&mut ib, IntBinOp::Mul, &IntVal::constant(3, 4), Bool::Const(false), &IntVal::constant(3, 4), Bool::Const(false));
    assert_eq!((to_i64(&v), const_bool(of)), (-7, true));
    let (v, of) = int_binary(&mut ib, IntBinOp::Sha, &IntVal::constant(-8, 4), Bool::Const(false), &IntVal::constant(2, 4), Bool::Const(false));
    assert_eq!((to_i64(&v), const_bool(of)), (-2, false));
    let (v, of) = int_binary(&mut ib, IntBinOp::Sub, &IntVal::constant(-8, 4), Bool::Const(false), &IntVal::constant(1, 4), Bool::Const(false));
    assert_eq!((to_i64(&v), const_bool(of)), (7, true));
}

#[test]
fn conditional_integers_take_the_branch_and_its_flag() {
    let mut ib = builder(4);
    let t = IntVal::constant(5, 4);
    let e = IntVal::constant(-3, 4);
    let (v, of) = int_ite(&mut ib, Bool::Const(true), &t, Bool::Const(true), &e, Bool::Const(false));
    assert_eq!((to_i64(&v), const_bool(of)), (5, true));
    let (v, of) = int_ite(&mut ib, Bool::Const(false), &t, Bool::Const(true), &e, Bool::Const(false));
    assert_eq!((to_i64(&v), const_bool(of)), (-3, false));
}

#[test]
fn sums_count_only_present_summands() {
    let mut ib = builder(4);
    let terms = vec![
        (Bool::Const(true), IntVal::constant(3, 4), Bool::Const(false)),
        (Bool::Const(false), IntVal::constant(5, 4), Bool::Const(true)),
        (Bool::Const(true), IntVal::constant(2, 4), Bool::Const(false)),
    ];
    let (v, of) = int_sum(&mut ib, &terms);
    assert_eq!((to_i64(&v), const_bool(of)), (5, false));
    let terms = vec![
        (Bool::Const(true), IntVal::constant(6, 4), Bool::Const(false)),
        (Bool::Const(true), IntVal::constant(6, 4), Bool::Const(false)),
    ];
    let (v, of) = int_sum(&mut ib, &terms);
    assert_eq!((to_i64(&v), const_bool(of)), (-4, true));
    let terms = vec![(Bool::Const(true), IntVal::constant(1, 4), Bool::Const(true))];
    let (_, of) = int_sum(&mut ib, &terms);
    assert!(const_bool(of), "a present summand's own overflow counts");
}

#[test]
fn constants_denote_none_univ_and_iden() {
    assert!(cells(&const_matrix(RelConst::Empty, 3)).is_empty());
    assert_eq!(
        cells(&const_matrix(RelConst::Univ, 3)),
        vec![(vec![0], Bool::Const(true)), (vec![1], Bool::Const(true)), (vec![2], Bool::Const(true))]
    );
    assert_eq!(cells(&const_matrix(RelConst::Iden, 2)), vec![(vec![0, 0], Bool::Const(true)), (vec![1, 1], Bool::Const(true))]);
}

#[test]
fn a_variable_holds_its_binding() {
    let t = tuple(&[1, 2]);
    assert_eq!(cells(&var_matrix(2, Some(&t))), vec![(vec![1, 2], Bool::Const(true))]);
    assert!(cells(&var_matrix(2, None)).is_empty());
}

#[test]
fn a_relation_holds_true_for_lower_and_variables_for_floating_tuples() {
    let mut lower = TupleSet::empty(1);
    lower.insert(tuple(&[0]));
    let mut upper = TupleSet::empty(1);
    upper.insert(tuple(&[0]));
    upper.insert(tuple(&[1]));
    let bound = RelBound::new(lower, upper);
    let mut prim = TupleMap::new();
    prim.insert(tuple(&[1]), Var { index: 7 });
    let m = relation_matrix(&bound, &prim);
    assert_eq!(
        cells(&m),
        vec![(vec![0], Bool::Const(true)), (vec![1], Bool::Lit(Lit::positive(Var { index: 7 })))]
    );
}

#[test]
fn an_overflow_rescues_or_excludes_by_polarity_and_dependence() {
    let mut c = Circuit::new(Cnf::new());
    let (t, f) = (Bool::top(), Bool::bottom());
    // Polarity agrees with the dependence: an overflow forces the comparison true.
    assert_eq!(apply_overflow_guard(&mut c, f, t, true, true), t);
    assert_eq!(apply_overflow_guard(&mut c, f, t, false, false), t);
    // They differ: an overflow forces it false.
    assert_eq!(apply_overflow_guard(&mut c, t, t, true, false), f);
    assert_eq!(apply_overflow_guard(&mut c, t, t, false, true), f);
    // No overflow: the comparison stands.
    assert_eq!(apply_overflow_guard(&mut c, t, f, true, false), t);
    assert_eq!(apply_overflow_guard(&mut c, f, f, true, true), f);
    let x = Bool::Lit(Lit::positive(Var { index: 0 }));
    let mut cnf = Cnf::new();
    let _ = cnf.fresh_var();
    let mut c = Circuit::new(cnf);
    assert_eq!(apply_overflow_guard(&mut c, x, f, true, true), x, "a constant-false flag adds nothing");
    assert_eq!(c.into_cnf().num_vars(), 1);
}

#[test]
fn comparisons_read_signed_values_and_honour_the_guard() {
    let mut ib = builder(4);
    let (three, five, minus) = (IntVal::constant(3, 4), IntVal::constant(5, 4), IntVal::constant(-2, 4));
    let no = Bool::bottom();
    let yes = Bool::top();
    let cmp = |ib: &mut IntBuilder, op, a: &IntVal, b: &IntVal| const_bool(int_compare(ib, op, a, b, no, no, false, true, false, false));
    assert!(cmp(&mut ib, IntCmpOp::Lt, &three, &five));
    assert!(!cmp(&mut ib, IntCmpOp::Ge, &three, &five));
    assert!(cmp(&mut ib, IntCmpOp::Gt, &three, &minus), "-2 is below 3 in two's complement");
    assert!(cmp(&mut ib, IntCmpOp::Le, &minus, &minus));
    assert!(cmp(&mut ib, IntCmpOp::Eq, &five, &five));
    // An overflowed left operand under positive polarity, not universally
    // dependent: excluded.
    assert!(!const_bool(int_compare(&mut ib, IntCmpOp::Lt, &three, &five, yes, no, false, true, false, false)));
    // The same with overflow allowed: the raw comparison.
    assert!(const_bool(int_compare(&mut ib, IntCmpOp::Lt, &three, &five, yes, no, true, true, false, false)));
    // A universally dependent right operand under positive polarity: rescued.
    assert!(const_bool(int_compare(&mut ib, IntCmpOp::Gt, &three, &five, no, yes, false, true, false, true)));
}

#[test]
fn an_overflowed_cast_denotes_nothing() {
    let m = unary_true(&[2, 5]);
    let mut c = Circuit::new(Cnf::new());
    assert!(cells(&empty_on_overflow(&mut c, &m, Bool::top())).is_empty());
    assert_eq!(cells(&empty_on_overflow(&mut c, &m, Bool::bottom())), cells(&m));
}
