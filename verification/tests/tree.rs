use closure_store::tree::{descendant_paths, Outline};

/// * A (0)
/// ** B (1)
/// *** C (2)
/// ** D (3)
/// * E (4)
fn outline() -> Outline {
    Outline { roots: vec![0, 4], children: vec![vec![1, 3], vec![2], vec![], vec![], vec![]] }
}

#[test]
fn descendants_are_listed_depth_first_by_path() {
    let o = outline();
    assert_eq!(descendant_paths(&o, &vec![0]), vec![vec![0, 0], vec![0, 0, 0], vec![0, 1]]);
    assert_eq!(descendant_paths(&o, &vec![0, 0]), vec![vec![0, 0, 0]]);
    assert!(descendant_paths(&o, &vec![1]).is_empty());
}

#[test]
fn a_path_that_names_nothing_has_no_descendants() {
    let o = outline();
    assert!(descendant_paths(&o, &Vec::new()).is_empty());
    assert!(descendant_paths(&o, &vec![2]).is_empty());
    assert!(descendant_paths(&o, &vec![0, 5]).is_empty());
}
