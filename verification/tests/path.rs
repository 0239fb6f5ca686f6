use pixmux::path::{common_prefix_of, path_lists_equal, path_to_vec, paths_equal};

#[test]
fn the_common_prefix_ends_where_two_paths_part() {
    assert_eq!(common_prefix_of(&[true, false, true], &[true, false, false, true]), vec![true, false]);
    assert_eq!(common_prefix_of(&[true, false], &[true, false, false]), vec![true, false]);
    assert_eq!(common_prefix_of(&[true], &[false]), Vec::<bool>::new());
    assert_eq!(common_prefix_of(&[], &[false]), Vec::<bool>::new());
    assert_eq!(common_prefix_of(&[false, true], &[false, true]), vec![false, true]);
}

#[test]
fn paths_are_equal_choice_by_choice() {
    assert!(paths_equal(&[], &[]));
    assert!(paths_equal(&[true, false], &[true, false]));
    assert!(!paths_equal(&[true, false], &[true, true]));
    assert!(!paths_equal(&[true], &[true, true]));
    assert!(path_lists_equal(&vec![vec![true], vec![]], &vec![vec![true], vec![]]));
    assert!(!path_lists_equal(&vec![vec![true], vec![]], &vec![vec![], vec![true]]));
    assert!(!path_lists_equal(&vec![vec![true]], &vec![vec![true], vec![]]));
    assert!(path_lists_equal(&vec![], &vec![]));
    assert_eq!(path_to_vec(&[true, true, false]), vec![true, true, false]);
}
