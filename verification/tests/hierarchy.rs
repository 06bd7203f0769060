use als_core::bounds::TupleSet;
use als_core::hierarchy::{compute_atom_bounds, SigInfo};

fn indices(set: &TupleSet) -> Vec<usize> {
    set.iter().iter().map(|t| t.atoms()[0].index()).collect()
}

fn sig(parent: Option<usize>, top_level: bool, first: usize, count: usize, exact: bool, scope: u32) -> SigInfo {
    SigInfo { parent, scopable: true, top_level, minted_first: first, minted_count: count, exact, scope }
}

fn univ() -> SigInfo {
    SigInfo { parent: None, scopable: false, top_level: false, minted_first: 0, minted_count: 0, exact: false, scope: 0 }
}

#[test]
fn lower_bounds_go_bottom_up_and_uppers_absorb_floating_atoms() {
    // univ; A extends univ; B (exact 1) and C (scope 2) extend A.
    let sigs = vec![
        univ(),
        sig(Some(0), true, 2, 1, false, 3),
        sig(Some(1), false, 0, 1, true, 1),
        sig(Some(1), false, 1, 1, false, 2),
    ];
    let res = compute_atom_bounds(&sigs);
    assert_eq!(res.len(), 4);
    assert!(res[0].is_none());
    let a = res[1].as_ref().unwrap();
    assert_eq!(indices(&a.lower), vec![0]);
    assert_eq!(indices(&a.upper), vec![0, 2]);
    let b = res[2].as_ref().unwrap();
    assert_eq!(indices(&b.lower), vec![0]);
    assert_eq!(indices(&b.upper), vec![0]);
    let c = res[3].as_ref().unwrap();
    assert_eq!(indices(&c.lower), Vec::<usize>::new());
    assert_eq!(indices(&c.upper), vec![1, 2]);
}

#[test]
fn exact_signature_holds_its_minted_atoms() {
    let sigs = vec![univ(), sig(Some(0), true, 0, 3, true, 3)];
    let res = compute_atom_bounds(&sigs);
    let a = res[1].as_ref().unwrap();
    assert_eq!(indices(&a.lower), vec![0, 1, 2]);
    assert_eq!(indices(&a.upper), vec![0, 1, 2]);
}

#[test]
fn signature_under_an_unscoped_parent_gets_no_bounds() {
    let sigs = vec![univ(), sig(Some(0), false, 0, 1, false, 1)];
    let res = compute_atom_bounds(&sigs);
    assert!(res[0].is_none());
    assert!(res[1].is_none());
}
