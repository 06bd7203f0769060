use als_core::circuit::{Bool, Circuit, Cnf, Lit, Var};

/// Every assignment of the CNF's variables that satisfies all clauses,
/// projected onto `vars` (sorted, deduplicated).
fn models(cnf: &Cnf, vars: &[Var]) -> Vec<Vec<bool>> {
    let n = cnf.num_vars() as usize;
    assert!(n <= 16, "brute force over too many variables");
    let mut out = Vec::new();
    for bits in 0u32..(1u32 << n) {
        let value = |l: &Lit| ((bits >> l.var.index) & 1 == 1) != l.negated;
        if cnf.clauses().iter().all(|c| c.iter().any(value)) {
            let proj: Vec<bool> = vars.iter().map(|v| (bits >> v.index) & 1 == 1).collect();
            if !out.contains(&proj) {
                out.push(proj);
            }
        }
    }
    out.sort();
    out
}

/// Forces `g` true (or false) and returns the two inputs' values over every
/// model, empty when unsatisfiable.
fn solve_gate(build: impl FnOnce(&mut Circuit, Bool, Bool) -> Bool, want: bool) -> Vec<(bool, bool)> {
    let mut cnf = Cnf::new();
    let x = cnf.fresh_var();
    let y = cnf.fresh_var();
    let mut c = Circuit::new(cnf);
    let g = build(&mut c, Bool::var(x), Bool::var(y));
    let mut cnf = c.into_cnf();
    match g {
        Bool::Const(b) => {
            if b != want {
                return vec![];
            }
        }
        Bool::Lit(l) => cnf.add_clause(vec![if want { l } else { l.negate() }]),
    }
    models(&cnf, &[x, y]).into_iter().map(|m| (m[0], m[1])).collect()
}

#[test]
fn and_gate_is_conjunction() {
    let got = solve_gate(|c, a, b| c.and(a, b), true);
    assert_eq!(got, vec![(true, true)]);
}

#[test]
fn or_gate_is_disjunction() {
    let got = solve_gate(|c, a, b| c.or(a, b), false);
    assert_eq!(got, vec![(false, false)]);
}

#[test]
fn xor_gate_is_exclusive_or() {
    let got = solve_gate(|c, a, b| c.xor(a, b), true);
    assert_eq!(got, vec![(false, true), (true, false)]);
}

#[test]
fn iff_gate_is_equivalence() {
    let got = solve_gate(|c, a, b| c.iff(a, b), true);
    assert_eq!(got, vec![(false, false), (true, true)]);
}

#[test]
fn constants_fold() {
    let mut c = Circuit::new(Cnf::new());
    assert_eq!(c.and(Bool::top(), Bool::bottom()), Bool::bottom());
    assert_eq!(c.or(Bool::top(), Bool::bottom()), Bool::top());
    assert_eq!(c.not(Bool::top()), Bool::bottom());
    assert_eq!(c.into_cnf().num_vars(), 0);
}

#[test]
fn implies_gate_is_implication() {
    let got = solve_gate(|c, a, b| c.implies(a, b), false);
    assert_eq!(got, vec![(true, false)]);
}

#[test]
fn ite_gate_selects() {
    let mut cnf = Cnf::new();
    let x = cnf.fresh_var();
    let y = cnf.fresh_var();
    let z = cnf.fresh_var();
    let mut c = Circuit::new(cnf);
    let g = c.ite(Bool::var(x), Bool::var(y), Bool::var(z));
    let mut cnf = c.into_cnf();
    if let Bool::Lit(l) = g {
        cnf.add_clause(vec![l]);
    } else {
        panic!("a gate over three literals folded");
    }
    let got = models(&cnf, &[x, y, z]);
    for m in &got {
        assert!(if m[0] { m[1] } else { m[2] });
    }
    assert_eq!(got.len(), 4);
}

#[test]
fn and_many_mints_one_gate_with_its_clauses() {
    let mut cnf = Cnf::new();
    let vs: Vec<Var> = (0..3).map(|_| cnf.fresh_var()).collect();
    let mut c = Circuit::new(cnf);
    let g = c.and_many(vs.iter().map(|&v| Bool::var(v)).collect());
    let cnf = c.into_cnf();
    assert_eq!(cnf.num_vars(), 4);
    assert_eq!(cnf.clauses().len(), 4);
    assert_eq!(g, Bool::Lit(Lit::positive(Var { index: 3 })));
}

#[test]
fn many_gates_fold_constants_and_single_literals() {
    let mut cnf = Cnf::new();
    let x = cnf.fresh_var();
    let mut c = Circuit::new(cnf);
    assert_eq!(c.and_many(vec![]), Bool::top());
    assert_eq!(c.or_many(vec![]), Bool::bottom());
    assert_eq!(c.and_many(vec![Bool::top(), Bool::var(x)]), Bool::var(x));
    assert_eq!(c.or_many(vec![Bool::var(x), Bool::bottom()]), Bool::var(x));
    assert_eq!(c.and_many(vec![Bool::var(x), Bool::bottom()]), Bool::bottom());
    assert_eq!(c.or_many(vec![Bool::var(x), Bool::top()]), Bool::top());
    assert_eq!(c.into_cnf().num_vars(), 1);
}

#[test]
fn literal_codes_are_dense() {
    let v = Var { index: 5 };
    assert_eq!(Lit::positive(v).code(), 10);
    assert_eq!(Lit::positive(v).negate().code(), 11);
}

#[test]
fn identical_gates_share_one_auxiliary() {
    let mut cnf = Cnf::new();
    let (x, y, z) = (cnf.fresh_var(), cnf.fresh_var(), cnf.fresh_var());
    let mut c = Circuit::new(cnf);
    let (bx, by, bz) = (Bool::var(x), Bool::var(y), Bool::var(z));

    let first = c.and(bx, by);
    let vars = c.cnf().num_vars();
    let clauses = c.cnf().clauses().len();

    assert_eq!(c.and(bx, by), first, "a repeat request re-gated");
    assert_eq!(c.and(by, bx), first, "operand order was not sorted");
    let dual = {
        let nx = c.not(bx);
        let ny = c.not(by);
        let or = c.or(nx, ny);
        c.not(or)
    };
    assert_eq!(dual, first, "the De Morgan dual minted a parallel gate");
    assert_eq!(c.cnf().num_vars(), vars, "gate sharing minted a variable");
    assert_eq!(c.cnf().clauses().len(), clauses, "gate sharing emitted a clause");
    let other = c.and(bx, bz);
    assert_ne!(other, first, "distinct conjunctions collided");
    assert!(c.cnf().num_vars() > vars, "a fresh gate minted nothing");
}

#[test]
fn duplicate_and_complementary_operands_fold() {
    let mut cnf = Cnf::new();
    let x = cnf.fresh_var();
    let mut c = Circuit::new(cnf);
    let bx = Bool::var(x);
    let nx = c.not(bx);
    let before = c.cnf().num_vars();
    assert_eq!(c.and(bx, bx), bx);
    assert_eq!(c.and(bx, nx), Bool::bottom());
    assert_eq!(c.or(bx, nx), Bool::top());
    assert_eq!(c.cnf().num_vars(), before, "a folded gate minted a variable");
}

#[test]
fn many_operand_conjunction_shares_across_order_and_repeats() {
    let mut cnf = Cnf::new();
    let (x, y, z) = (cnf.fresh_var(), cnf.fresh_var(), cnf.fresh_var());
    let mut c = Circuit::new(cnf);
    let (bx, by, bz) = (Bool::var(x), Bool::var(y), Bool::var(z));
    let g = c.and_many(vec![bx, by, bz]);
    let vars = c.cnf().num_vars();
    assert_eq!(c.and_many(vec![bz, bx, by, bx, Bool::top()]), g);
    assert_eq!(c.cnf().num_vars(), vars);
    let nz = c.not(bz);
    assert_eq!(c.and_many(vec![bx, nz, by, bz]), Bool::bottom());
    assert_eq!(c.cnf().num_vars(), vars);
}
