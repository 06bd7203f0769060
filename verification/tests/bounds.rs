use als_core::bounds::{AtomId, Bounds, RelBound, Tuple, TupleOrder, TupleSet, Universe};
use als_core::bounds_builder::{insert_product, unary_tupleset};
use als_core::ir::RelId;

fn atom(index: usize) -> AtomId {
    AtomId::from_index(index)
}

fn atoms(indices: &[usize]) -> Vec<AtomId> {
    indices.iter().map(|&i| AtomId::from_index(i)).collect()
}

#[test]
fn tuple_set_iterates_in_lexicographic_order() {
    let mut set = TupleSet::empty(2);
    set.insert(Tuple::new(vec![atom(1), atom(0)]));
    set.insert(Tuple::new(vec![atom(0), atom(1)]));
    set.insert(Tuple::new(vec![atom(0), atom(0)]));
    let order: Vec<Vec<AtomId>> = set.iter().iter().map(|t| t.atoms().to_vec()).collect();
    assert_eq!(
        order,
        vec![
            vec![atom(0), atom(0)],
            vec![atom(0), atom(1)],
            vec![atom(1), atom(0)],
        ]
    );
}

#[test]
fn unary_tupleset_is_in_atom_order() {
    let ts = unary_tupleset(&atoms(&[2, 0, 1]));
    let got: Vec<usize> = ts.iter().iter().map(|t| t.atoms()[0].index()).collect();
    assert_eq!(got, vec![0, 1, 2], "BTreeSet order");
}

#[test]
fn insert_product_is_cartesian() {
    let mut ts = TupleSet::empty(2);
    insert_product(&mut ts, &[atoms(&[0, 1]), atoms(&[2])]);
    let got: Vec<Vec<usize>> = ts
        .iter()
        .iter()
        .map(|t| t.atoms().iter().map(|a| a.index()).collect())
        .collect();
    assert_eq!(got, vec![vec![0, 2], vec![1, 2]]);
}

#[test]
fn insert_product_with_empty_column_is_empty() {
    let mut ts = TupleSet::empty(2);
    insert_product(&mut ts, &[atoms(&[0, 1]), Vec::new()]);
    assert!(ts.is_empty());
}

#[test]
fn insert_reports_whether_the_tuple_was_new() {
    let mut set = TupleSet::empty(1);
    assert!(set.insert(Tuple::new(vec![atom(3)])));
    assert!(!set.insert(Tuple::new(vec![atom(3)])));
    assert_eq!(set.len(), 1);
    assert!(set.contains(&Tuple::new(vec![atom(3)])));
    assert!(!set.contains(&Tuple::new(vec![atom(4)])));
}

#[test]
fn subset_is_inclusion() {
    let mut small = TupleSet::empty(1);
    small.insert(Tuple::new(vec![atom(1)]));
    let mut big = TupleSet::empty(1);
    big.insert(Tuple::new(vec![atom(0)]));
    big.insert(Tuple::new(vec![atom(1)]));
    assert!(small.is_subset_of(&big));
    assert!(!big.is_subset_of(&small));
    assert!(TupleSet::empty(1).is_subset_of(&small));
}

#[test]
fn tuple_compare_is_lexicographic() {
    let a = Tuple::new(vec![atom(0), atom(5)]);
    let b = Tuple::new(vec![atom(1), atom(0)]);
    assert_eq!(a.compare(&b), TupleOrder::Less);
    assert_eq!(b.compare(&a), TupleOrder::Greater);
    assert_eq!(a.compare(&a.duplicate()), TupleOrder::Equal);
    let short = Tuple::new(vec![atom(0)]);
    assert_eq!(short.compare(&a), TupleOrder::Less);
}

#[test]
fn universe_names_atoms_in_order() {
    let u = Universe::new(vec!["A$0".to_owned(), "B$0".to_owned()]);
    assert_eq!(u.len(), 2);
    assert!(!u.is_empty());
    assert_eq!(u.name(atom(1)), "B$0");
    let listed: Vec<(usize, String)> = u.iter().into_iter().map(|(a, n)| (a.index(), n.to_owned())).collect();
    assert_eq!(listed, vec![(0, "A$0".to_owned()), (1, "B$0".to_owned())]);
}

#[test]
fn bounds_bind_then_get_reads_back() {
    let mut b = Bounds::new(Universe::new(vec!["A$0".to_owned()]));
    let mut upper = TupleSet::empty(1);
    upper.insert(Tuple::new(vec![atom(0)]));
    let bound = RelBound::new(TupleSet::empty(1), upper.duplicate());
    b.bind(RelId::from_index(2), bound);
    let got = b.get(RelId::from_index(2)).expect("bound");
    assert_eq!(got.upper(), &upper);
    assert!(got.lower().is_empty());
    assert!(b.get(RelId::from_index(0)).is_none());
    b.rebind(RelId::from_index(2), RelBound::exact(upper.duplicate()));
    assert_eq!(b.get(RelId::from_index(2)).expect("bound").lower(), &upper);
    assert_eq!(b.iter().len(), 1);
}
