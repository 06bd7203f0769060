use als_core::bounds::{AtomId, Bounds, RelBound, Tuple, TupleSet, Universe};
use als_core::circuit::{Bool, Circuit, Cnf, Lit, Var};
use als_core::encode::sbp::{conjoin_sbp, generate_sbp, rel_touches_class, sbp_cell, sbp_relation};
use als_core::encode::symmetry::build_plan;
use als_core::ir::{Ir, Mutability, RelId, Relation};
use als_core::span::{FileId, Span};
use als_core::tuple_map::TupleMap;

fn span() -> Span {
    Span::new(FileId { index: 0 }, 0, 1)
}

fn tuple(atoms: &[usize]) -> Tuple {
    Tuple::new(atoms.iter().map(|&a| AtomId::from_index(a)).collect())
}

fn set(arity: usize, tuples: &[&[usize]]) -> TupleSet {
    let mut s = TupleSet::empty(arity);
    for t in tuples {
        s.insert(tuple(t));
    }
    s
}

fn universe(n: usize) -> Universe {
    Universe::new((0..n).map(|i| format!("A${i}")).collect())
}

fn relation(ir: &mut Ir, name: &str, arity: usize) -> RelId {
    ir.alloc_relation(Relation {
        name: name.to_owned(),
        arity,
        span: span(),
        mutability: Mutability::Static,
        is_meta_field: false,
    })
}

/// Mints a primary variable for every floating tuple of `rel`.
fn mint(cnf: &mut Cnf, prims: &mut Vec<TupleMap<Var>>, rel: RelId, bound: &RelBound) -> Vec<Var> {
    while prims.len() <= rel.index {
        prims.push(TupleMap::new());
    }
    let mut vars = Vec::new();
    for t in bound.upper().iter() {
        if !bound.lower().contains(t) {
            let v = cnf.fresh_var();
            prims[rel.index].insert(t.clone(), v);
            vars.push(v);
        }
    }
    vars
}

/// Every assignment satisfying the clauses and making `g` true, projected
/// onto `vars`.
fn models_where(cnf: &Cnf, g: Bool, vars: &[Var]) -> Vec<Vec<bool>> {
    let n = cnf.num_vars() as usize;
    assert!(n <= 16, "brute force over too many variables");
    let mut out = Vec::new();
    for bits in 0u32..(1u32 << n) {
        let value = |l: &Lit| ((bits >> l.var.index) & 1 == 1) != l.negated;
        let holds = match g {
            Bool::Const(b) => b,
            Bool::Lit(l) => value(&l),
        };
        if holds && cnf.clauses().iter().all(|c| c.iter().any(value)) {
            let proj: Vec<bool> = vars.iter().map(|v| (bits >> v.index) & 1 == 1).collect();
            if !out.contains(&proj) {
                out.push(proj);
            }
        }
    }
    out.sort();
    out
}

#[test]
fn cells_are_true_in_the_lower_bound_variables_above_it_and_false_outside() {
    let mut cnf = Cnf::new();
    let mut ir = Ir::default();
    let r = relation(&mut ir, "this/R", 1);
    let bound = RelBound::new(set(1, &[&[0]]), set(1, &[&[0], &[1]]));
    let mut prims = Vec::new();
    let vars = mint(&mut cnf, &mut prims, r, &bound);
    assert_eq!(sbp_cell(&bound, &prims, r, &tuple(&[0])), Bool::top());
    assert_eq!(sbp_cell(&bound, &prims, r, &tuple(&[1])), Bool::var(vars[0]));
    assert_eq!(sbp_cell(&bound, &prims, r, &tuple(&[2])), Bool::bottom());
    // A relation with no primary map of its own has no variables.
    assert_eq!(sbp_cell(&bound, &prims, RelId::from_index(5), &tuple(&[1])), Bool::bottom());
}

#[test]
fn a_relation_touches_a_class_through_any_column() {
    let mut bounds = Bounds::new(universe(4));
    let r = RelId::from_index(0);
    bounds.bind(r, RelBound::new(TupleSet::empty(2), set(2, &[&[0, 3]])));
    let class = |atoms: &[usize]| -> Vec<AtomId> { atoms.iter().map(|&a| AtomId::from_index(a)).collect() };
    assert!(rel_touches_class(&bounds, r, &class(&[3])));
    assert!(rel_touches_class(&bounds, r, &class(&[0, 1])));
    assert!(!rel_touches_class(&bounds, r, &class(&[1, 2])));
    assert!(!rel_touches_class(&bounds, RelId::from_index(1), &class(&[0])), "an unbound relation");
}

#[test]
fn fixed_tuples_and_mirrored_pairs_are_skipped() {
    let mut cnf = Cnf::new();
    let mut ir = Ir::default();
    let r = relation(&mut ir, "this/R", 2);
    let bound = RelBound::new(TupleSet::empty(2), set(2, &[&[0, 1], &[1, 0], &[2, 2]]));
    let mut prims = Vec::new();
    let vars = mint(&mut cnf, &mut prims, r, &bound);
    let mut bounds = Bounds::new(universe(3));
    bounds.bind(r, bound);
    let mut original = Vec::new();
    let mut permuted = Vec::new();
    sbp_relation(&bounds, &prims, r, AtomId::from_index(0), AtomId::from_index(1), &mut original, &mut permuted);
    // (0,1) swaps to (1,0); (1,0) would mirror that pair; (2,2) is fixed.
    assert_eq!(original, vec![Bool::var(vars[0])]);
    assert_eq!(permuted, vec![Bool::var(vars[1])]);
    // An unbound relation adds nothing.
    sbp_relation(&bounds, &prims, RelId::from_index(3), AtomId::from_index(0), AtomId::from_index(1), &mut original, &mut permuted);
    assert_eq!(original.len(), 1);
}

#[test]
fn the_predicate_orders_interchangeable_atoms() {
    let mut cnf = Cnf::new();
    let mut ir = Ir::default();
    let r = relation(&mut ir, "this/R", 1);
    let bound = RelBound::new(TupleSet::empty(1), set(1, &[&[0], &[1]]));
    let mut prims = Vec::new();
    let vars = mint(&mut cnf, &mut prims, r, &bound);
    let mut bounds = Bounds::new(universe(2));
    bounds.bind(r, bound);
    let plan = build_plan(&ir, &bounds, 2, false);
    assert!(!plan.is_trivial());
    let mut c = Circuit::new(cnf);
    let g = generate_sbp(&mut c, &plan, &bounds, &prims, 20);
    let cnf = c.into_cnf();
    // R may hold atom 1 alone, but not atom 0 alone: the lexicographic leader.
    assert_eq!(
        models_where(&cnf, g, &vars),
        vec![vec![false, false], vec![false, true], vec![true, true]]
    );
}

#[test]
fn a_zero_cap_leaves_every_list_empty() {
    let mut cnf = Cnf::new();
    let mut ir = Ir::default();
    let r = relation(&mut ir, "this/R", 1);
    let bound = RelBound::new(TupleSet::empty(1), set(1, &[&[0], &[1]]));
    let mut prims = Vec::new();
    mint(&mut cnf, &mut prims, r, &bound);
    let mut bounds = Bounds::new(universe(2));
    bounds.bind(r, bound);
    let plan = build_plan(&ir, &bounds, 2, false);
    let mut c = Circuit::new(cnf);
    assert_eq!(generate_sbp(&mut c, &plan, &bounds, &prims, 0), Bool::top());
}

#[test]
fn only_a_non_constant_goal_is_conjoined_with_the_predicate() {
    let mut cnf = Cnf::new();
    let mut ir = Ir::default();
    let r = relation(&mut ir, "this/R", 1);
    let bound = RelBound::new(TupleSet::empty(1), set(1, &[&[0], &[1]]));
    let mut prims = Vec::new();
    let vars = mint(&mut cnf, &mut prims, r, &bound);
    let goal_var = cnf.fresh_var();
    let mut bounds = Bounds::new(universe(2));
    bounds.bind(r, bound);
    let plan = build_plan(&ir, &bounds, 2, false);
    let mut c = Circuit::new(cnf);
    assert_eq!(conjoin_sbp(&mut c, Bool::top(), Some(&plan), 20, &bounds, &prims), Bool::top());
    assert_eq!(conjoin_sbp(&mut c, Bool::var(goal_var), None, 20, &bounds, &prims), Bool::var(goal_var));
    assert_eq!(conjoin_sbp(&mut c, Bool::var(goal_var), Some(&plan), 0, &bounds, &prims), Bool::var(goal_var));
    let g = conjoin_sbp(&mut c, Bool::var(goal_var), Some(&plan), 20, &bounds, &prims);
    let cnf = c.into_cnf();
    let mut watched = vars.clone();
    watched.push(goal_var);
    assert_eq!(
        models_where(&cnf, g, &watched),
        vec![vec![false, false, true], vec![false, true, true], vec![true, true, true]]
    );
}
