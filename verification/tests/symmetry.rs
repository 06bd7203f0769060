use als_core::bounds::{AtomId, Bounds, RelBound, Tuple, TupleSet, Universe};
use als_core::encode::symmetry::{build_plan, detect_partition, is_builtin_sig, is_skolem, rel_parts};
use als_core::ir::{Ir, Mutability, RelId, Relation};
use als_core::span::{FileId, Span};

fn span() -> Span {
    Span::new(FileId { index: 0 }, 0, 1)
}

fn unary(atoms: &[usize]) -> TupleSet {
    let mut set = TupleSet::empty(1);
    for &a in atoms {
        set.insert(Tuple::new(vec![AtomId::from_index(a)]));
    }
    set
}

fn binary(pairs: &[(usize, usize)]) -> TupleSet {
    let mut set = TupleSet::empty(2);
    for &(a, b) in pairs {
        set.insert(Tuple::new(vec![AtomId::from_index(a), AtomId::from_index(b)]));
    }
    set
}

fn universe(n: usize) -> Universe {
    Universe::new((0..n).map(|i| format!("A${i}")).collect())
}

fn relation(ir: &mut Ir, name: &str, arity: usize) -> RelId {
    ir.alloc_relation(Relation {
        name: name.to_owned(),
        arity,
        span: span(),
        mutability: Mutability::Static,
        is_meta_field: false,
    })
}

/// Allocates `name` with a free unary bound (so it contributes SBP bits).
fn free(ir: &mut Ir, bounds: &mut Bounds, name: &str) -> RelId {
    let rel = relation(ir, name, 1);
    bounds.bind(rel, RelBound::new(TupleSet::empty(1), unary(&[0, 1])));
    rel
}

/// Same, but marked as a metamodel field placeholder.
fn free_meta_field(ir: &mut Ir, bounds: &mut Bounds, name: &str) -> RelId {
    let rel = free(ir, bounds, name);
    ir.relations[rel.index].is_meta_field = true;
    rel
}

fn names(ir: &Ir, parts: &[RelId]) -> Vec<String> {
    parts.iter().map(|&r| ir.relations[r.index].name.clone()).collect()
}

fn class_indices(classes: &[Vec<AtomId>]) -> Vec<Vec<usize>> {
    classes.iter().map(|c| c.iter().map(|a| a.index).collect()).collect()
}

#[test]
fn per_state_copies_sort_adjacent_and_state_ascending() {
    let mut ir = Ir::default();
    let mut bounds = Bounds::new(Universe::new(vec!["A$0".to_owned(), "A$1".to_owned()]));
    for name in ["this/B@1", "this/A@2", "this/A@0", "this/B@0", "this/A@1", "this/AB"] {
        let _ = free(&mut ir, &mut bounds, name);
    }
    assert_eq!(
        names(&ir, &rel_parts(&ir, &bounds, true)),
        vec!["this/A@0", "this/A@1", "this/A@2", "this/AB", "this/B@0", "this/B@1"]
    );
}

#[test]
fn beyond_ten_states_copies_order_lexicographically() {
    let mut ir = Ir::default();
    let mut bounds = Bounds::new(Universe::new(vec!["A$0".to_owned(), "A$1".to_owned()]));
    for name in ["this/A@2", "this/A@10", "this/A@1"] {
        let _ = free(&mut ir, &mut bounds, name);
    }
    assert_eq!(names(&ir, &rel_parts(&ir, &bounds, true)), vec!["this/A@1", "this/A@10", "this/A@2"]);
}

#[test]
fn skolems_are_excluded_from_the_sbp_only_in_temporal_mode() {
    let mut ir = Ir::default();
    let mut bounds = Bounds::new(Universe::new(vec!["A$0".to_owned(), "A$1".to_owned()]));
    for name in ["$cmd_x", "this/A@0", "this/A@1"] {
        let _ = free(&mut ir, &mut bounds, name);
    }
    assert_eq!(
        names(&ir, &rel_parts(&ir, &bounds, false)),
        vec!["$cmd_x", "this/A@0", "this/A@1"],
        "static: skolems sort first and keep their slots"
    );
    assert_eq!(
        names(&ir, &rel_parts(&ir, &bounds, true)),
        vec!["this/A@0", "this/A@1"],
        "temporal: skolems are dropped outright"
    );
}

#[test]
fn unrolling_does_not_refine_the_atom_partition() {
    let universe = Universe::new(vec!["A$0".to_owned(), "A$1".to_owned()]);
    let mut ir = Ir::default();

    let mut base = Bounds::new(universe.clone());
    let _ = free(&mut ir, &mut base, "this/A");
    let flat = build_plan(&ir, &base, universe.len(), false);

    let mut unrolled = Bounds::new(universe.clone());
    for state in 0..3 {
        let _ = free(&mut ir, &mut unrolled, &format!("this/A@{state}"));
    }
    let per_state = build_plan(&ir, &unrolled, universe.len(), true);

    assert_eq!(flat.classes(), per_state.classes());
    assert_eq!(per_state.relparts().len(), 3);
}

#[test]
fn meta_field_placeholders_are_invisible_to_the_plan() {
    let universe = Universe::new(vec!["A$0".to_owned(), "A$1".to_owned()]);
    let mut ir = Ir::default();
    let mut bounds = Bounds::new(universe.clone());
    let _ = free_meta_field(&mut ir, &mut bounds, "so/Ord$.subfields");
    let _ = free(&mut ir, &mut bounds, "this/A");

    let plan = build_plan(&ir, &bounds, universe.len(), false);
    assert_eq!(names(&ir, plan.relparts()), vec!["this/A"]);

    let mut without = Bounds::new(universe.clone());
    let mut only_real = Ir::default();
    let _ = free(&mut only_real, &mut without, "this/A");
    assert_eq!(plan.classes(), build_plan(&only_real, &without, universe.len(), false).classes());
}

#[test]
fn meta_sig_relations_are_still_reference_bounded() {
    let universe = Universe::new(vec!["A$0".to_owned(), "A$1".to_owned()]);
    let mut ir = Ir::default();
    let mut bounds = Bounds::new(universe.clone());
    let _ = free(&mut ir, &mut bounds, "this/A$");
    let plan = build_plan(&ir, &bounds, universe.len(), false);
    assert_eq!(names(&ir, plan.relparts()), vec!["this/A$"]);
}

#[test]
fn partition_groups_atoms_with_equal_signatures() {
    let mut ir = Ir::default();
    let mut bounds = Bounds::new(universe(4));
    let rel = relation(&mut ir, "this/S", 1);
    bounds.bind(rel, RelBound::new(TupleSet::empty(1), unary(&[0, 1])));
    // Atoms 0 and 1 occur alike; 2 occurs nowhere; 3 is an integer atom.
    let classes = detect_partition(&ir, &bounds, 3, 4);
    assert_eq!(class_indices(&classes), vec![vec![0, 1], vec![2], vec![3]]);
    // Without integer atoms, 2 and 3 share the empty signature.
    let classes = detect_partition(&ir, &bounds, 4, 4);
    assert_eq!(class_indices(&classes), vec![vec![0, 1], vec![2, 3]]);
}

#[test]
fn partition_separates_atoms_by_their_continuations() {
    let mut ir = Ir::default();
    let mut bounds = Bounds::new(universe(3));
    let rel = relation(&mut ir, "this/next", 2);
    // A cycle 0 -> 1 -> 0 keeps 0 and 1 apart (their rows differ in the other
    // column), while the product {0,1} x {0,1} would not.
    bounds.bind(rel, RelBound::new(TupleSet::empty(2), binary(&[(0, 1), (1, 0)])));
    let classes = detect_partition(&ir, &bounds, 3, 3);
    assert_eq!(class_indices(&classes), vec![vec![0], vec![1], vec![2]]);

    let mut ir2 = Ir::default();
    let mut product = Bounds::new(universe(3));
    let rel2 = relation(&mut ir2, "this/r", 2);
    product.bind(rel2, RelBound::new(TupleSet::empty(2), binary(&[(0, 0), (0, 1), (1, 0), (1, 1)])));
    let classes = detect_partition(&ir2, &product, 3, 3);
    assert_eq!(class_indices(&classes), vec![vec![0, 1], vec![2]]);
}

#[test]
fn lower_bounds_refine_only_when_strictly_smaller() {
    let mut ir = Ir::default();
    let mut bounds = Bounds::new(universe(3));
    let rel = relation(&mut ir, "this/S", 1);
    // Lower {0}, upper {0,1,2}: the lower bound singles out atom 0.
    bounds.bind(rel, RelBound::new(unary(&[0]), unary(&[0, 1, 2])));
    let classes = detect_partition(&ir, &bounds, 3, 3);
    assert_eq!(class_indices(&classes), vec![vec![0], vec![1, 2]]);
    // An exact bound is a constant: it neither contributes bits nor refines
    // beyond its upper bound.
    let mut ir2 = Ir::default();
    let mut exact = Bounds::new(universe(3));
    let rel2 = relation(&mut ir2, "this/T", 1);
    exact.bind(rel2, RelBound::exact(unary(&[0, 1])));
    assert_eq!(class_indices(&detect_partition(&ir2, &exact, 3, 3)), vec![vec![0, 1], vec![2]]);
    assert!(rel_parts(&ir2, &exact, false).is_empty());
}

#[test]
fn builtin_sigs_and_skolems_do_not_refine() {
    let mut ir = Ir::default();
    let mut bounds = Bounds::new(universe(3));
    let int_rel = relation(&mut ir, "Int", 1);
    bounds.bind(int_rel, RelBound::new(TupleSet::empty(1), unary(&[0])));
    let sk = relation(&mut ir, "$x", 1);
    bounds.bind(sk, RelBound::new(TupleSet::empty(1), unary(&[1])));
    assert!(is_builtin_sig(&ir, int_rel));
    assert!(!is_builtin_sig(&ir, sk));
    assert!(is_skolem(&ir, sk));
    assert!(!is_skolem(&ir, int_rel));
    assert_eq!(class_indices(&detect_partition(&ir, &bounds, 3, 3)), vec![vec![0, 1, 2]]);
}

#[test]
fn relation_order_is_by_arity_then_name() {
    let mut ir = Ir::default();
    let mut bounds = Bounds::new(universe(2));
    let b2 = relation(&mut ir, "this/b", 2);
    bounds.bind(b2, RelBound::new(TupleSet::empty(2), binary(&[(0, 1)])));
    let z1 = relation(&mut ir, "this/z", 1);
    bounds.bind(z1, RelBound::new(TupleSet::empty(1), unary(&[0])));
    let a2 = relation(&mut ir, "this/a", 2);
    bounds.bind(a2, RelBound::new(TupleSet::empty(2), binary(&[(1, 0)])));
    assert_eq!(names(&ir, &rel_parts(&ir, &bounds, false)), vec!["this/z", "this/a", "this/b"]);
}

#[test]
fn a_plan_without_parts_or_pairs_is_trivial() {
    let universe = Universe::new(vec!["A$0".to_owned(), "A$1".to_owned()]);
    let mut ir = Ir::default();
    let mut bounds = Bounds::new(universe.clone());
    let _ = free(&mut ir, &mut bounds, "this/A");
    let plan = build_plan(&ir, &bounds, universe.len(), false);
    assert!(!plan.is_trivial(), "one class of two atoms and one relation");

    let empty = Bounds::new(universe.clone());
    let plan = build_plan(&Ir::default(), &empty, universe.len(), false);
    assert!(plan.is_trivial(), "no contributing relation");

    let mut split = Bounds::new(universe.clone());
    let mut ir2 = Ir::default();
    let rel = relation(&mut ir2, "this/S", 1);
    split.bind(rel, RelBound::new(TupleSet::empty(1), unary(&[0])));
    let plan = build_plan(&ir2, &split, universe.len(), false);
    assert_eq!(class_indices(plan.classes()), vec![vec![0], vec![1]]);
    assert!(plan.is_trivial(), "every class a singleton");
}
