use std::collections::BTreeSet;

use als_core::bounds::{AtomId, Tuple};
use als_core::circuit::{Bool, Circuit, Cnf, Var};
use als_core::encode::closure::{closure, rel_unary};
use als_core::encode::formula::{at_most_one, lex_leq, mult_test, rel_compare};
use als_core::encode::join::join;
use als_core::encode::overriding::override_;
use als_core::encode::{diff, intersect, log2_ceil, product, rel_ite, support_size, swap_tuple, transpose, union};
use als_core::ir::{MultTest, RelCmpOp, RelUnOp};
use als_core::matrix::Matrix;

fn tuple(atoms: &[usize]) -> Tuple {
    Tuple::new(atoms.iter().map(|&i| AtomId::from_index(i)).collect())
}

/// A binary matrix of constant-true cells for each edge.
fn edge_matrix(edges: &[(usize, usize)]) -> Matrix {
    let mut m = Matrix::empty(2);
    for &(a, b) in edges {
        m.set(tuple(&[a, b]), Bool::top());
    }
    m
}

/// The tuples whose cells are constant true.
fn true_tuples(m: &Matrix) -> BTreeSet<Vec<usize>> {
    m.iter()
        .iter()
        .filter(|(_, b)| matches!(b, Bool::Const(true)))
        .map(|(t, _)| t.atoms().iter().map(|a| a.index()).collect())
        .collect()
}

/// Brute-force transitive closure by repeated relaxation.
fn brute_closure(edges: &[(usize, usize)]) -> BTreeSet<(usize, usize)> {
    let mut set: BTreeSet<(usize, usize)> = edges.iter().copied().collect();
    loop {
        let mut grown = set.clone();
        for &(a, b) in &set {
            for &(c, d) in &set {
                if b == c {
                    grown.insert((a, d));
                }
            }
        }
        if grown.len() == set.len() {
            return set;
        }
        set = grown;
    }
}

fn closure_tuples(edges: &[(usize, usize)]) -> BTreeSet<(usize, usize)> {
    let mut c = Circuit::new(Cnf::new());
    let out = closure(&mut c, &edge_matrix(edges));
    true_tuples(&out).into_iter().map(|t| (t[0], t[1])).collect()
}

struct SplitMix64(u64);

impl SplitMix64 {
    fn next(&mut self) -> u64 {
        self.0 = self.0.wrapping_add(0x9E37_79B9_7F4A_7C15);
        let mut z = self.0;
        z = (z ^ (z >> 30)).wrapping_mul(0xBF58_476D_1CE4_E5B9);
        z = (z ^ (z >> 27)).wrapping_mul(0x94D0_49BB_1331_11EB);
        z ^ (z >> 31)
    }
}

#[test]
fn log2_ceil_is_the_smallest_covering_power_of_two() {
    assert_eq!(log2_ceil(0), 0);
    assert_eq!(log2_ceil(1), 0);
    assert_eq!(log2_ceil(2), 1);
    assert_eq!(log2_ceil(3), 2);
    assert_eq!(log2_ceil(4), 2);
    assert_eq!(log2_ceil(5), 3);
    assert_eq!(log2_ceil(9), 4);
}

#[test]
fn support_size_counts_atoms_not_cells() {
    assert_eq!(support_size(&edge_matrix(&[(0, 1), (1, 2)])), 3);
    assert_eq!(support_size(&edge_matrix(&[(4, 4)])), 1);
    assert_eq!(support_size(&Matrix::empty(2)), 0);
}

#[test]
fn closure_matches_brute_force_exhaustively() {
    for n in 1..=4usize {
        let cells = n * n;
        for mask in 0u32..(1u32 << cells) {
            let edges: Vec<(usize, usize)> =
                (0..cells).filter(|i| mask & (1 << i) != 0).map(|i| (i / n, i % n)).collect();
            assert_eq!(closure_tuples(&edges), brute_closure(&edges), "closure mismatch at n={n} mask={mask:#x}");
        }
    }
}

#[test]
fn closure_matches_brute_force_on_random_matrices() {
    let mut rng = SplitMix64(0x5EED_0080_0081);
    for n in [5usize, 7, 9, 12] {
        for _ in 0..60 {
            let density = rng.next() % 100;
            let mut edges = Vec::new();
            for a in 0..n {
                for b in 0..n {
                    if rng.next() % 100 < density {
                        edges.push((a, b));
                    }
                }
            }
            assert_eq!(closure_tuples(&edges), brute_closure(&edges), "closure mismatch at n={n} edges={edges:?}");
        }
    }
}

#[test]
fn support_bound_never_exceeds_the_universe_bound() {
    let m = edge_matrix(&[(0, 1), (1, 2), (2, 0)]);
    assert!(log2_ceil(support_size(&m)) <= log2_ceil(64));
    let dense: Vec<(usize, usize)> = (0..9).flat_map(|a| (0..9).map(move |b| (a, b))).collect();
    assert_eq!(log2_ceil(support_size(&edge_matrix(&dense))), 4);
    assert_eq!(log2_ceil(71), 7);
}

#[test]
fn constant_operands_fold_through_every_operator() {
    let a = edge_matrix(&[(0, 1), (1, 2)]);
    let b = edge_matrix(&[(1, 2), (2, 3)]);
    let mut c = Circuit::new(Cnf::new());
    let set = |v: &[[usize; 2]]| -> BTreeSet<Vec<usize>> { v.iter().map(|p| p.to_vec()).collect() };
    assert_eq!(true_tuples(&union(&mut c, &a, &b)), set(&[[0, 1], [1, 2], [2, 3]]));
    assert_eq!(true_tuples(&intersect(&mut c, &a, &b)), set(&[[1, 2]]));
    assert_eq!(true_tuples(&diff(&mut c, &a, &b)), set(&[[0, 1]]));
    assert_eq!(true_tuples(&join(&mut c, &a, &b)), set(&[[0, 2], [1, 3]]));
    assert_eq!(true_tuples(&transpose(&a)), set(&[[1, 0], [2, 1]]));
    assert_eq!(true_tuples(&override_(&mut c, &a, &b)), set(&[[0, 1], [1, 2], [2, 3]]));
    let p = product(&mut c, &edge_matrix(&[(0, 1)]), &edge_matrix(&[(5, 6)]));
    assert_eq!(true_tuples(&p), [vec![0, 1, 5, 6]].into_iter().collect());
    assert_eq!(c.into_cnf().num_vars(), 0);
}

#[test]
fn override_keeps_rows_outside_the_domain() {
    let a = edge_matrix(&[(0, 1), (2, 3)]);
    let b = edge_matrix(&[(0, 9)]);
    let mut c = Circuit::new(Cnf::new());
    let o = override_(&mut c, &a, &b);
    let want: BTreeSet<Vec<usize>> = [vec![0, 9], vec![2, 3]].into_iter().collect();
    assert_eq!(true_tuples(&o), want);
}

#[test]
fn rel_ite_on_a_constant_condition_picks_a_branch() {
    let t = edge_matrix(&[(0, 1)]);
    let e = edge_matrix(&[(2, 3)]);
    let mut c = Circuit::new(Cnf::new());
    let r = rel_ite(&mut c, Bool::top(), &t, &e);
    assert_eq!(true_tuples(&r), true_tuples(&t));
    let r = rel_ite(&mut c, Bool::bottom(), &t, &e);
    assert_eq!(true_tuples(&r), true_tuples(&e));
}

#[test]
fn comparisons_and_multiplicities_on_constants() {
    let a = edge_matrix(&[(0, 1)]);
    let b = edge_matrix(&[(0, 1), (1, 2)]);
    let mut c = Circuit::new(Cnf::new());
    assert_eq!(rel_compare(&mut c, RelCmpOp::Subset, &a, &b), Bool::top());
    assert_eq!(rel_compare(&mut c, RelCmpOp::Subset, &b, &a), Bool::bottom());
    assert_eq!(rel_compare(&mut c, RelCmpOp::Equal, &a, &b), Bool::bottom());
    assert_eq!(rel_compare(&mut c, RelCmpOp::Equal, &b, &b), Bool::top());
    assert_eq!(mult_test(&mut c, MultTest::No, &Matrix::empty(2)), Bool::top());
    assert_eq!(mult_test(&mut c, MultTest::Nonempty, &a), Bool::top());
    assert_eq!(mult_test(&mut c, MultTest::Lone, &b), Bool::bottom());
    assert_eq!(mult_test(&mut c, MultTest::One, &a), Bool::top());
    assert_eq!(mult_test(&mut c, MultTest::One, &b), Bool::bottom());
}

#[test]
fn at_most_one_and_lex_leq_on_constants() {
    let mut c = Circuit::new(Cnf::new());
    let t = Bool::top();
    let f = Bool::bottom();
    assert_eq!(at_most_one(&mut c, &[f, t, f]), t);
    assert_eq!(at_most_one(&mut c, &[t, f, t]), f);
    assert_eq!(lex_leq(&mut c, &[f, t], &[t, f]), t);
    assert_eq!(lex_leq(&mut c, &[t, f], &[f, t]), f);
    assert_eq!(lex_leq(&mut c, &[t, f], &[t, f]), t);
}

#[test]
fn swap_tuple_transposes_two_atoms() {
    let t = tuple(&[0, 1, 2, 1]);
    let s = swap_tuple(&t, AtomId::from_index(1), AtomId::from_index(2));
    let got: Vec<usize> = s.atoms().iter().map(|a| a.index()).collect();
    assert_eq!(got, vec![0, 2, 1, 2]);
}

#[test]
fn join_of_literal_cells_is_satisfied_as_the_relational_join() {
    let mut cnf = Cnf::new();
    let vars: Vec<Var> = (0..4).map(|_| cnf.fresh_var()).collect();
    let mut a = Matrix::empty(2);
    a.set(tuple(&[0, 1]), Bool::var(vars[0]));
    a.set(tuple(&[0, 2]), Bool::var(vars[1]));
    let mut b = Matrix::empty(2);
    b.set(tuple(&[1, 3]), Bool::var(vars[2]));
    b.set(tuple(&[2, 3]), Bool::var(vars[3]));
    let mut c = Circuit::new(cnf);
    let j = join(&mut c, &a, &b);
    let cnf = c.into_cnf();
    assert_eq!(j.len(), 1);
    let cell = j.get(&tuple(&[0, 3]));
    let n = cnf.num_vars();
    for bits in 0u32..(1u32 << n) {
        let value = |v: u32| (bits >> v) & 1 == 1;
        let sat = cnf.clauses().iter().all(|cl| cl.iter().any(|l| value(l.var.index) != l.negated));
        if sat {
            let want = (value(0) && value(2)) || (value(1) && value(3));
            let got = match cell {
                Bool::Const(x) => x,
                Bool::Lit(l) => value(l.var.index) != l.negated,
            };
            assert_eq!(got, want);
        }
    }
}

#[test]
fn unary_operators_on_constant_matrices() {
    let edges = edge_matrix(&[(0, 1), (1, 2)]);
    let mut c = Circuit::new(Cnf::new());
    let t = rel_unary(&mut c, RelUnOp::Transpose, &edges, 3);
    assert_eq!(true_tuples(&t), [vec![1, 0], vec![2, 1]].into_iter().collect());
    let cl = rel_unary(&mut c, RelUnOp::Closure, &edges, 3);
    assert_eq!(true_tuples(&cl), [vec![0, 1], vec![0, 2], vec![1, 2]].into_iter().collect());
    let rc = rel_unary(&mut c, RelUnOp::ReflexiveClosure, &edges, 3);
    assert_eq!(
        true_tuples(&rc),
        [vec![0, 0], vec![0, 1], vec![0, 2], vec![1, 1], vec![1, 2], vec![2, 2]].into_iter().collect()
    );
    assert_eq!(c.into_cnf().num_vars(), 0, "constant cells fold away");
}

#[test]
fn constant_join_and_union_mint_nothing() {
    let mut c = Circuit::new(Cnf::new());
    let a = edge_matrix(&[(0, 1), (1, 2)]);
    let b = edge_matrix(&[(1, 3), (2, 0)]);
    let j = join(&mut c, &a, &b);
    let u = union(&mut c, &a, &b);
    assert_eq!(c.cnf().num_vars(), 0);
    assert_eq!(c.cnf().clauses().len(), 0);
    assert!(j.iter().iter().all(|(_, v)| matches!(v, Bool::Const(_))));
    assert!(u.iter().iter().all(|(_, v)| matches!(v, Bool::Const(_))));
    let expected: BTreeSet<Vec<usize>> = [vec![0, 3], vec![1, 0]].into_iter().collect();
    assert_eq!(true_tuples(&j), expected);
    assert_eq!(true_tuples(&u).len(), 4);
}
