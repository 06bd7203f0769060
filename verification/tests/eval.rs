use als_core::bounds::{AtomId, Tuple, TupleSet};
use als_core::eval::{
    apply_int_guard, atom_to_int_value, closure, int_compare_guard, const_value, diff, intersect, join, override_, product, rel_binary, rel_unary, transpose, union, var_value,
};
use als_core::ir::{RelBinOp, RelConst, RelUnOp};

fn atom(i: usize) -> AtomId {
    AtomId::from_index(i)
}

fn bin(pairs: &[(usize, usize)]) -> TupleSet {
    let mut ts = TupleSet::empty(2);
    for &(a, b) in pairs {
        ts.insert(Tuple::new(vec![atom(a), atom(b)]));
    }
    ts
}

fn un(atoms: &[usize]) -> TupleSet {
    let mut ts = TupleSet::empty(1);
    for &a in atoms {
        ts.insert(Tuple::new(vec![atom(a)]));
    }
    ts
}

#[test]
fn set_ops_match_definitions() {
    let a = un(&[0, 1, 2]);
    let b = un(&[1, 2, 3]);
    assert_eq!(union(&a, &b), un(&[0, 1, 2, 3]));
    assert_eq!(intersect(&a, &b), un(&[1, 2]));
    assert_eq!(diff(&a, &b), un(&[0]));
}

#[test]
fn join_over_middle_atom() {
    let r = bin(&[(0, 1), (1, 2)]);
    let s = bin(&[(1, 9), (2, 8)]);
    assert_eq!(join(&r, &s), bin(&[(0, 9), (1, 8)]));
}

#[test]
fn transpose_reverses_pairs() {
    assert_eq!(transpose(&bin(&[(0, 1), (2, 3)])), bin(&[(1, 0), (3, 2)]));
}

#[test]
fn product_concatenates() {
    let p = product(&un(&[0, 1]), &un(&[5]));
    assert_eq!(p, bin(&[(0, 5), (1, 5)]));
}

#[test]
fn transitive_closure_reaches_all_paths() {
    let chain = bin(&[(0, 1), (1, 2), (2, 3)]);
    let want = bin(&[(0, 1), (0, 2), (0, 3), (1, 2), (1, 3), (2, 3)]);
    assert_eq!(closure(&chain), want);
}

#[test]
fn closure_of_a_cycle_is_complete() {
    let cyc = bin(&[(0, 1), (1, 0)]);
    assert_eq!(closure(&cyc), bin(&[(0, 0), (0, 1), (1, 0), (1, 1)]));
}

#[test]
fn override_replaces_domain_rows() {
    let a = bin(&[(0, 1), (2, 3)]);
    let b = bin(&[(0, 9)]);
    assert_eq!(override_(&a, &b), bin(&[(0, 9), (2, 3)]));
}

#[test]
fn closure_is_transitive_and_contains_the_relation() {
    let r = bin(&[(0, 1), (1, 2), (3, 3), (2, 0)]);
    let c = closure(&r);
    assert!(r.is_subset_of(&c));
    assert_eq!(join(&c, &c).is_subset_of(&c), true);
    assert_eq!(closure(&c), c);
}

#[test]
fn dispatch_matches_the_direct_operators() {
    let a = bin(&[(0, 1), (1, 2)]);
    let b = bin(&[(1, 2), (2, 3)]);
    assert_eq!(rel_binary(RelBinOp::Union, &a, &b), union(&a, &b));
    assert_eq!(rel_binary(RelBinOp::Join, &a, &b), join(&a, &b));
    assert_eq!(rel_binary(RelBinOp::Override, &a, &b), override_(&a, &b));
    assert_eq!(rel_binary(RelBinOp::Diff, &a, &b), bin(&[(0, 1)]));
}

#[test]
fn closure_of_the_empty_relation_is_empty() {
    assert!(closure(&TupleSet::empty(2)).is_empty());
}

#[test]
fn constants_range_over_the_universe() {
    assert_eq!(const_value(RelConst::Empty, 3), TupleSet::empty(1));
    assert_eq!(const_value(RelConst::Univ, 3), un(&[0, 1, 2]));
    assert_eq!(const_value(RelConst::Iden, 3), bin(&[(0, 0), (1, 1), (2, 2)]));
    assert_eq!(const_value(RelConst::Univ, 0), TupleSet::empty(1));
}

#[test]
fn a_variable_denotes_its_binding() {
    let t = Tuple::new(vec![atom(4)]);
    assert_eq!(var_value(1, Some(&t)), un(&[4]));
    assert_eq!(var_value(2, None), TupleSet::empty(2));
}

#[test]
fn unary_operators_transpose_and_close() {
    let r = bin(&[(0, 1), (1, 2)]);
    assert_eq!(rel_unary(RelUnOp::Transpose, &r, 3), bin(&[(1, 0), (2, 1)]));
    assert_eq!(rel_unary(RelUnOp::Closure, &r, 3), bin(&[(0, 1), (0, 2), (1, 2)]));
    assert_eq!(
        rel_unary(RelUnOp::ReflexiveClosure, &r, 3),
        bin(&[(0, 0), (0, 1), (0, 2), (1, 1), (1, 2), (2, 2)])
    );
}

#[test]
fn int_cast_sums_the_present_int_atoms() {
    // Atoms 2..10 are the integers -4 .. 3 of bitwidth 3; atom 0 is no integer.
    assert_eq!(atom_to_int_value(&un(&[0, 7, 9]), 2, 10, 3), (-4, true), "1 + 3 wraps");
    assert_eq!(atom_to_int_value(&un(&[2, 7]), 2, 10, 3), (-3, false));
    assert_eq!(atom_to_int_value(&un(&[2, 5]), 2, 10, 3), (3, true), "-4 + -1 wraps");
    assert_eq!(atom_to_int_value(&un(&[2, 9]), 2, 10, 3), (-1, false));
    assert_eq!(atom_to_int_value(&un(&[]), 2, 10, 3), (0, false));
    assert_eq!(atom_to_int_value(&bin(&[(7, 7)]), 2, 10, 3), (0, false), "binary tuples carry no value");
    assert_eq!(atom_to_int_value(&un(&[0, 1]), 2, 2, 0), (0, false), "no integers at bitwidth 0");
}

#[test]
fn concrete_guards_match_the_circuit_rule() {
    assert!(apply_int_guard(false, true, true, true), "rescued");
    assert!(!apply_int_guard(true, true, true, false), "excluded");
    assert!(apply_int_guard(true, false, false, true), "no overflow, no change");
    assert!(!int_compare_guard(true, true, false, false, true, false, false));
    assert!(int_compare_guard(true, true, false, true, true, false, false), "allowed overflow");
    assert!(int_compare_guard(false, false, true, false, false, false, false), "negative polarity rescues the independent operand");
}
