use pixmux::btree::{BTreeNode, BTreeSpec, PathError, SpecError};

type TestBTree = BTreeNode<(), ()>;

fn new_leaf() -> TestBTree {
    TestBTree::new_leaf()
}

fn new_branch(first: TestBTree, second: TestBTree) -> TestBTree {
    TestBTree::new_branch(first, second)
}

fn new_lastbranch() -> TestBTree {
    TestBTree::new_lastbranch()
}

fn spec_from(leaf_paths: Vec<Vec<bool>>) -> BTreeSpec {
    TestBTree::spec_from(leaf_paths)
}

fn first_heavy() -> Vec<Vec<bool>> {
    vec![vec![true, true], vec![true, false], vec![false]]
}

fn second_heavy() -> Vec<Vec<bool>> {
    vec![vec![true], vec![false, true], vec![false, false]]
}

fn equal_depth() -> Vec<Vec<bool>> {
    vec![vec![true, true], vec![true, false], vec![false, true], vec![false, false]]
}

fn check_collected(tree: TestBTree, expected_paths: Vec<Vec<bool>>) {
    let size = expected_paths.len();
    assert_eq!(tree.collect_paths(), expected_paths);
    assert_eq!(tree.collect_leaf_data(), vec![(); size]);
    assert_eq!(tree.collect_branch_data(), vec![(); size - 1]);
    let spec = tree.get_spec();
    assert_eq!(spec.leaf_paths, expected_paths);
    assert_eq!(spec.leaf_data, vec![(); size]);
    assert_eq!(spec.branch_data, vec![(); size - 1]);
}

#[test]
fn test_btree_leaf_at_root() {
    check_collected(new_leaf(), vec![vec![]]);
}

#[test]
fn test_btree_end_branch_at_root() {
    check_collected(new_lastbranch(), vec![vec![true], vec![false]]);
}

#[test]
fn test_btree_first_heavy_branching() {
    check_collected(new_branch(new_lastbranch(), new_leaf()), first_heavy());
}

#[test]
fn test_btree_second_heavy_branching() {
    check_collected(new_branch(new_leaf(), new_lastbranch()), second_heavy());
}

#[test]
fn test_btree_equal_branching() {
    check_collected(new_branch(new_lastbranch(), new_lastbranch()), equal_depth());
}

#[test]
fn tests_test_btree_with_data_on_leaf() {
    let tree = BTreeNode::<i32>::Leaf(42);

    let paths = tree.collect_paths();
    let leaf_data = tree.collect_leaf_data();
    let branch_data = tree.collect_branch_data();

    assert_eq!(paths, [[]]);
    assert_eq!(leaf_data, [42]);
    assert_eq!(branch_data, []);
}

#[test]
fn tests_test_btree_with_data_on_branch() {
    let tree = BTreeNode::Branch {
        first: Box::new(BTreeNode::Leaf(())),
        second: Box::new(BTreeNode::Leaf(())),
        data: 42,
    };

    let paths = tree.collect_paths();
    let leaf_data = tree.collect_leaf_data();
    let branch_data = tree.collect_branch_data();

    assert_eq!(paths, [[true], [false]]);
    assert_eq!(leaf_data, [(), ()]);
    assert_eq!(branch_data, [42]);
}

#[test]
fn btree_test_btree_with_data_on_leaf() {
    let tree = BTreeNode::<i32>::Leaf(42);

    let spec = tree.get_spec();

    assert_eq!(spec.leaf_paths, [[]]);
    assert_eq!(spec.leaf_data, [42]);
    assert_eq!(spec.branch_data, []);
}

#[test]
fn btree_test_btree_with_data_on_branch() {
    let tree = BTreeNode::Branch {
        first: Box::new(BTreeNode::Leaf(())),
        second: Box::new(BTreeNode::Leaf(())),
        data: 42,
    };

    let spec = tree.get_spec();

    assert_eq!(spec.leaf_paths, [[true], [false]]);
    assert_eq!(spec.leaf_data, [(), ()]);
    assert_eq!(spec.branch_data, [42]);
}

#[test]
fn tests_test_btree_with_data() {
    let spec = BTreeSpec {
        leaf_paths: equal_depth(),
        leaf_data: vec![1, 2, 3, 4],
        branch_data: vec![5, 6, 7],
    };
    let tree = BTreeNode::from_spec(&spec).unwrap();
    assert_eq!(tree.collect_paths(), spec.leaf_paths);
    assert_eq!(tree.collect_leaf_data(), spec.leaf_data);
    assert_eq!(tree.collect_branch_data(), spec.branch_data);
}

#[test]
fn btree_test_btree_with_data() {
    let spec = BTreeSpec {
        leaf_paths: equal_depth(),
        leaf_data: vec![1, 2, 3, 4],
        branch_data: vec![5, 6, 7],
    };
    let tree = BTreeNode::from_spec(&spec).unwrap();

    let coll_spec = tree.get_spec();

    assert_eq!(coll_spec.leaf_paths, spec.leaf_paths);
    assert_eq!(coll_spec.leaf_data, spec.leaf_data);
    assert_eq!(coll_spec.branch_data, spec.branch_data);
}

fn check_round_trip(leaf_paths: Vec<Vec<bool>>) {
    let spec = spec_from(leaf_paths);
    let tree = BTreeNode::<(), ()>::from_spec(&spec).unwrap();
    assert_eq!(tree.collect_paths(), spec.leaf_paths);
    let coll_spec = tree.get_spec();
    assert_eq!(coll_spec.leaf_paths, spec.leaf_paths);
    assert_eq!(coll_spec.leaf_data, spec.leaf_data);
    assert_eq!(coll_spec.branch_data, spec.branch_data);
}

#[test]
fn from_spec_round_trips_every_small_shape() {
    check_round_trip(vec![vec![]]);
    check_round_trip(vec![vec![true], vec![false]]);
    check_round_trip(first_heavy());
    check_round_trip(second_heavy());
    check_round_trip(equal_depth());
}

#[test]
fn from_spec_builds_a_leaf_three_levels_down() {
    check_round_trip(vec![
        vec![true, true, true],
        vec![true, true, false],
        vec![true, false],
        vec![false],
    ]);
    check_round_trip(vec![
        vec![true],
        vec![false, true],
        vec![false, false, true],
        vec![false, false, false, true],
        vec![false, false, false, false],
    ]);
}

#[test]
fn from_spec_keeps_payloads_in_traversal_order() {
    let spec = BTreeSpec {
        leaf_paths: vec![vec![true, true, true], vec![true, true, false], vec![true, false], vec![false]],
        leaf_data: vec![10u8, 20, 30, 40],
        branch_data: vec![1i64, 2, 3],
    };
    let tree = BTreeNode::from_spec(&spec).unwrap();
    match tree.get_node_at(&[true]).unwrap() {
        BTreeNode::Branch { data, second, .. } => {
            assert_eq!(*data, 2);
            assert!(matches!(**second, BTreeNode::Leaf(30)));
        }
        BTreeNode::Leaf(_) => panic!("a branch stands at [true]"),
    }
    assert!(matches!(tree.get_node_at(&[true, true]).unwrap(), BTreeNode::Branch { data: 3, .. }));
    assert!(matches!(tree.get_leaf_at(&[false]).unwrap(), BTreeNode::Leaf(40)));
    assert_eq!(tree.get_leaf_data_at(&[true, true, false]), Ok(&20));
}

fn check_fails(spec: BTreeSpec, expected: SpecError, expected_error_msg: &str) {
    let result = BTreeNode::from_spec(&spec);
    let error = result.unwrap_err();
    assert_eq!(error, expected);
    assert_eq!(error.to_string(), expected_error_msg);
}

#[test]
fn test_btree_fails_on_payload_counts() {
    check_fails(
        BTreeSpec { leaf_paths: vec![vec![]], leaf_data: vec![], branch_data: vec![] },
        SpecError::LeafDataExhausted,
        "Prematurely exhausted leaf data",
    );
    check_fails(
        BTreeSpec { leaf_paths: vec![vec![]], leaf_data: vec![(), ()], branch_data: vec![] },
        SpecError::LeafDataRemaining,
        "Remaining unused leaf data",
    );
    check_fails(
        BTreeSpec {
            leaf_paths: vec![vec![true], vec![false]],
            leaf_data: vec![(), ()],
            branch_data: vec![],
        },
        SpecError::BranchDataExhausted,
        "Prematurely exhausted branch data",
    );
    check_fails(
        BTreeSpec {
            leaf_paths: vec![vec![true], vec![false]],
            leaf_data: vec![(), ()],
            branch_data: vec![(), ()],
        },
        SpecError::BranchDataRemaining,
        "Remaining unused branch data",
    );
}

#[test]
fn test_btree_fails_on_paths() {
    let message = "Non-canonical/invalid path spec";
    let fault = SpecError::NonCanonicalSpec;
    check_fails(
        BTreeSpec { leaf_paths: vec![vec![true]], leaf_data: vec![()], branch_data: vec![] },
        fault,
        message,
    );
    check_fails(
        BTreeSpec { leaf_paths: vec![vec![false]], leaf_data: vec![()], branch_data: vec![] },
        fault,
        message,
    );
    check_fails(
        BTreeSpec { leaf_paths: vec![], leaf_data: vec![], branch_data: vec![] },
        fault,
        message,
    );
    check_fails(
        BTreeSpec {
            leaf_paths: vec![vec![], vec![true], vec![false]],
            leaf_data: vec![(), (), ()],
            branch_data: vec![()],
        },
        fault,
        message,
    );
    check_fails(
        BTreeSpec {
            leaf_paths: vec![vec![true], vec![false], vec![]],
            leaf_data: vec![(), (), ()],
            branch_data: vec![()],
        },
        fault,
        message,
    );
}

#[test]
fn from_spec_refuses_paths_out_of_order_or_twice() {
    let fault = SpecError::NonCanonicalSpec;
    let message = "Non-canonical/invalid path spec";
    check_fails(
        BTreeSpec {
            leaf_paths: vec![vec![false], vec![true]],
            leaf_data: vec![(), ()],
            branch_data: vec![()],
        },
        fault,
        message,
    );
    check_fails(
        BTreeSpec {
            leaf_paths: vec![vec![true], vec![true], vec![false]],
            leaf_data: vec![(), (), ()],
            branch_data: vec![(), ()],
        },
        fault,
        message,
    );
}

#[test]
fn from_spec_judges_paths_before_payloads_and_leaves_before_branches() {
    check_fails(
        BTreeSpec { leaf_paths: vec![vec![true]], leaf_data: vec![], branch_data: vec![(), ()] },
        SpecError::NonCanonicalSpec,
        "Non-canonical/invalid path spec",
    );
    check_fails(
        BTreeSpec {
            leaf_paths: vec![vec![true], vec![false]],
            leaf_data: vec![()],
            branch_data: vec![(), (), ()],
        },
        SpecError::LeafDataExhausted,
        "Prematurely exhausted leaf data",
    );
}

#[test]
fn test_extract_leaf_at() {
    let specs = vec![
        BTreeSpec { leaf_paths: vec![vec![]], leaf_data: vec![1i8], branch_data: vec![] },
        BTreeSpec {
            leaf_paths: vec![vec![true], vec![false]],
            leaf_data: vec![1, 2],
            branch_data: vec![()],
        },
        BTreeSpec { leaf_paths: first_heavy(), leaf_data: vec![1, 2, 3], branch_data: vec![(), ()] },
        BTreeSpec { leaf_paths: second_heavy(), leaf_data: vec![1, 2, 3], branch_data: vec![(), ()] },
        BTreeSpec {
            leaf_paths: equal_depth(),
            leaf_data: vec![1, 2, 3, 4],
            branch_data: vec![(), (), ()],
        },
    ];
    for spec in specs {
        let tree = BTreeNode::from_spec(&spec).unwrap();
        for (path, expected_data) in spec.leaf_paths.iter().zip(spec.leaf_data.iter()) {
            let leaf = tree.get_leaf_at(path).unwrap();
            match leaf {
                BTreeNode::Leaf(actual_data) => assert_eq!(actual_data, expected_data),
                BTreeNode::Branch { .. } => panic!("a leaf stands at every leaf path"),
            }
            assert_eq!(tree.get_leaf_data_at(path), Ok(expected_data));
        }
    }
}

#[test]
fn lookups_tell_a_path_too_long_from_a_path_too_short() {
    let mut tree = BTreeNode::<i8, i8>::from_spec(&BTreeSpec {
        leaf_paths: first_heavy(),
        leaf_data: vec![1, 2, 3],
        branch_data: vec![10, 11],
    })
    .unwrap();
    assert_eq!(tree.get_leaf_at(&[false, true]).unwrap_err(), PathError::PathBeyondLeaf);
    assert_eq!(tree.get_leaf_at(&[true]).unwrap_err(), PathError::PathNotFound);
    assert_eq!(tree.get_leaf_at_mut(&[false, true]).unwrap_err(), PathError::PathBeyondLeaf);
    assert_eq!(tree.get_leaf_at_mut(&[]).unwrap_err(), PathError::PathNotFound);
    assert_eq!(tree.get_branch_at_mut(&[false]).unwrap_err(), PathError::PathNotFound);
    assert_eq!(tree.get_branch_at_mut(&[false, false]).unwrap_err(), PathError::PathBeyondLeaf);
    assert_eq!(tree.get_node_at(&[true, true, true]).unwrap_err(), PathError::PathBeyondLeaf);
    assert_eq!(tree.get_leaf_data_at(&[true]), Err(PathError::PathNotFound));
    assert!(tree.get_node_at(&[true]).unwrap().get_node_at(&[false]).unwrap().is_leaf());
    assert_eq!(tree.collect_leaf_data(), vec![1, 2, 3]);
}

#[test]
fn mutable_lookups_change_the_node_in_place() {
    let mut tree = BTreeNode::<i8, i8>::from_spec(&BTreeSpec {
        leaf_paths: first_heavy(),
        leaf_data: vec![1, 2, 3],
        branch_data: vec![10, 11],
    })
    .unwrap();
    *tree.get_leaf_at_mut(&[true, false]).unwrap() = BTreeNode::Leaf(7);
    assert_eq!(tree.collect_leaf_data(), vec![1, 7, 3]);
    match tree.get_branch_at_mut(&[true]).unwrap() {
        BTreeNode::Branch { data, .. } => *data = 99,
        BTreeNode::Leaf(_) => panic!("a branch stands at [true]"),
    }
    assert_eq!(tree.collect_branch_data(), vec![10, 99]);
    *tree.get_node_at_mut(&[true]).unwrap() = BTreeNode::Leaf(5);
    assert_eq!(tree.collect_paths(), vec![vec![true], vec![false]]);
    assert_eq!(tree.collect_leaf_data(), vec![5, 3]);
    assert_eq!(tree.collect_branch_data(), vec![10]);
}

fn check_splits(leaf_paths: Vec<Vec<bool>>, split_paths: Vec<Vec<Vec<bool>>>) {
    let spec = spec_from(leaf_paths);
    assert_eq!(spec.leaf_paths.len(), split_paths.len());
    for (path, expected_paths) in spec.leaf_paths.iter().zip(split_paths) {
        let mut tree = BTreeNode::from_spec(&spec).unwrap();
        tree.split_leaf_at(path, ()).unwrap();
        assert_eq!(tree.collect_paths(), expected_paths);
        assert_eq!(tree.get_spec().leaf_paths.len(), spec.leaf_paths.len() + 1);
    }
}

#[test]
fn test_split_at_paths() {
    check_splits(vec![vec![]], vec![vec![vec![true], vec![false]]]);
    check_splits(vec![vec![true], vec![false]], vec![first_heavy(), second_heavy()]);
    check_splits(
        first_heavy(),
        vec![
            vec![vec![true, true, true], vec![true, true, false], vec![true, false], vec![false]],
            vec![vec![true, true], vec![true, false, true], vec![true, false, false], vec![false]],
            equal_depth(),
        ],
    );
    check_splits(
        second_heavy(),
        vec![
            equal_depth(),
            vec![vec![true], vec![false, true, true], vec![false, true, false], vec![false, false]],
            vec![vec![true], vec![false, true], vec![false, false, true], vec![false, false, false]],
        ],
    );
}

fn check_split_data(spec: BTreeSpec<i8, i8>, leaf_datas: Vec<Vec<i8>>, branch_datas: Vec<Vec<i8>>) {
    assert_eq!(spec.leaf_paths.len(), leaf_datas.len());
    for ((path, expected_leaf_data), expected_branch_data) in
        spec.leaf_paths.iter().zip(leaf_datas).zip(branch_datas)
    {
        let mut tree = BTreeNode::from_spec(&spec).unwrap();
        tree.split_leaf_at(path, 5).unwrap();
        assert_eq!(tree.collect_leaf_data(), expected_leaf_data);
        assert_eq!(tree.collect_branch_data(), expected_branch_data);
    }
}

#[test]
fn test_split_at_with_data() {
    check_split_data(
        BTreeSpec { leaf_paths: vec![vec![]], leaf_data: vec![1], branch_data: vec![] },
        vec![vec![1, 1]],
        vec![vec![5]],
    );
    check_split_data(
        BTreeSpec {
            leaf_paths: vec![vec![true], vec![false]],
            leaf_data: vec![1, 2],
            branch_data: vec![10],
        },
        vec![vec![1, 1, 2], vec![1, 2, 2]],
        vec![vec![10, 5], vec![10, 5]],
    );
    check_split_data(
        BTreeSpec { leaf_paths: equal_depth(), leaf_data: vec![1, 2, 3, 4], branch_data: vec![10, 11, 12] },
        vec![vec![1, 1, 2, 3, 4], vec![1, 2, 2, 3, 4], vec![1, 2, 3, 3, 4], vec![1, 2, 3, 4, 4]],
        vec![vec![10, 11, 5, 12], vec![10, 11, 5, 12], vec![10, 11, 12, 5], vec![10, 11, 12, 5]],
    );
}

#[test]
fn split_refuses_a_branch_and_a_path_too_long() {
    let mut tree = new_branch(new_lastbranch(), new_leaf());
    assert_eq!(tree.split_leaf_at(&[], ()), Err(PathError::CannotSplitBranch));
    assert_eq!(tree.split_leaf_at(&[true], ()), Err(PathError::CannotSplitBranch));
    assert_eq!(tree.split_leaf_at(&[false, false], ()), Err(PathError::PathBeyondLeaf));
    assert_eq!(tree.collect_paths(), first_heavy());
}

fn check_removes(leaf_paths: Vec<Vec<bool>>, post_remove_paths: Vec<Vec<Vec<bool>>>) {
    let spec = spec_from(leaf_paths);
    assert_eq!(spec.leaf_paths.len(), post_remove_paths.len());
    for (path, expected_paths) in spec.leaf_paths.iter().zip(post_remove_paths) {
        let mut tree = BTreeNode::from_spec(&spec).unwrap();
        tree.remove_leaf_at(path).unwrap();
        assert_eq!(tree.get_spec().leaf_paths, expected_paths);
    }
}

#[test]
fn test_remove_at_paths() {
    let pair = vec![vec![true], vec![false]];
    check_removes(vec![vec![]], vec![vec![vec![]]]);
    check_removes(pair.clone(), vec![vec![vec![]], vec![vec![]]]);
    check_removes(first_heavy(), vec![pair.clone(), pair.clone(), pair.clone()]);
    check_removes(second_heavy(), vec![pair.clone(), pair.clone(), pair]);
}

fn check_remove_data(spec: BTreeSpec<i8, i8>, leaf_datas: Vec<Vec<i8>>, branch_datas: Vec<Vec<i8>>) {
    assert_eq!(spec.leaf_paths.len(), leaf_datas.len());
    for ((path, expected_leaf_data), expected_branch_data) in
        spec.leaf_paths.iter().zip(leaf_datas).zip(branch_datas)
    {
        let mut tree = BTreeNode::from_spec(&spec).unwrap();
        tree.remove_leaf_at(path).unwrap();
        let coll_spec = tree.get_spec();
        assert_eq!(coll_spec.leaf_data, expected_leaf_data);
        assert_eq!(coll_spec.branch_data, expected_branch_data);
    }
}

#[test]
fn test_remove_at_with_data() {
    check_remove_data(
        BTreeSpec {
            leaf_paths: vec![vec![true], vec![false]],
            leaf_data: vec![1, 2],
            branch_data: vec![10],
        },
        vec![vec![2], vec![1]],
        vec![vec![], vec![]],
    );
    check_remove_data(
        BTreeSpec { leaf_paths: first_heavy(), leaf_data: vec![1, 2, 3], branch_data: vec![10, 11] },
        vec![vec![2, 3], vec![1, 3], vec![1, 2]],
        vec![vec![10], vec![10], vec![11]],
    );
    check_remove_data(
        BTreeSpec { leaf_paths: second_heavy(), leaf_data: vec![1, 2, 3], branch_data: vec![10, 11] },
        vec![vec![2, 3], vec![1, 3], vec![1, 2]],
        vec![vec![11], vec![10], vec![10]],
    );
}

#[test]
fn removing_the_root_leaf_leaves_a_default_leaf() {
    let mut tree = BTreeNode::<i8, i8>::Leaf(1);
    assert_eq!(tree.remove_leaf_at(&[]), Ok(vec![]));
    assert_eq!(tree.collect_paths(), vec![Vec::<bool>::new()]);
    assert_eq!(tree.collect_leaf_data(), vec![0]);
    assert_eq!(tree.collect_branch_data(), Vec::<i8>::new());
}

#[test]
fn remove_says_where_to_go_on() {
    let spec = BTreeSpec { leaf_paths: first_heavy(), leaf_data: vec![1, 2, 3], branch_data: vec![10, 11] };
    let mut tree = BTreeNode::<i8, i8>::from_spec(&spec).unwrap();
    assert_eq!(tree.remove_leaf_at(&[false]), Ok(vec![]));
    assert_eq!(tree.collect_paths(), vec![vec![true], vec![false]]);
    let mut tree = BTreeNode::<i8, i8>::from_spec(&spec).unwrap();
    assert_eq!(tree.remove_leaf_at(&[true, true]), Ok(vec![true]));
    assert_eq!(tree.remove_leaf_at(&[]), Err(PathError::CannotRemoveBranch));
    assert_eq!(tree.remove_leaf_at(&[true, true]), Err(PathError::PathBeyondLeaf));
    assert_eq!(tree.collect_leaf_data(), vec![2, 3]);
}

#[test]
fn assigning_payloads_wants_one_for_each_node() {
    let mut tree = BTreeNode::<i8, i8>::from_spec(&BTreeSpec {
        leaf_paths: first_heavy(),
        leaf_data: vec![1, 2, 3],
        branch_data: vec![10, 11],
    })
    .unwrap();
    assert_eq!(tree.assign_leaf_data(&[7, 8]), Err(SpecError::LeafDataExhausted));
    assert_eq!(tree.assign_leaf_data(&[7, 8, 9, 9]), Err(SpecError::LeafDataRemaining));
    assert_eq!(tree.assign_branch_data(&[7]), Err(SpecError::BranchDataExhausted));
    assert_eq!(tree.assign_branch_data(&[7, 8, 9]), Err(SpecError::BranchDataRemaining));
    assert_eq!(tree.collect_leaf_data(), vec![1, 2, 3]);
    assert_eq!(tree.collect_branch_data(), vec![10, 11]);
    assert_eq!(tree.assign_leaf_data(&[7, 8, 9]), Ok(()));
    assert_eq!(tree.assign_branch_data(&[20, 21]), Ok(()));
    assert_eq!(tree.collect_leaf_data(), vec![7, 8, 9]);
    assert_eq!(tree.collect_branch_data(), vec![20, 21]);
    assert_eq!(tree.collect_paths(), first_heavy());
}

#[test]
fn default_from_path_opens_every_leaf_on_the_way() {
    let mut tree = BTreeNode::<u8, u8>::Leaf(9);
    assert_eq!(BTreeNode::default_from_path(&mut tree, &[true, false]), Ok(()));
    assert_eq!(
        tree.collect_paths(),
        vec![vec![true, true], vec![true, false], vec![false]]
    );
    assert_eq!(tree.collect_leaf_data(), vec![0, 0, 0]);
    assert_eq!(BTreeNode::default_from_path(&mut tree, &[true]), Err(SpecError::NonCanonicalSpec));
    assert_eq!(BTreeNode::default_from_path(&mut tree, &[false]), Ok(()));
    assert!(matches!(
        BTreeNode::<u8, u8>::default_branch(),
        BTreeNode::Branch { data: 0, .. }
    ));
    assert!(matches!(BTreeNode::<u8, u8>::default_leaf(), BTreeNode::Leaf(0)));
}

#[test]
fn path_errors_say_what_went_wrong() {
    assert_eq!(PathError::PathBeyondLeaf.to_string(), "Path leads beyond a leaf node");
    assert_eq!(PathError::PathNotFound.to_string(), "Could not find leaf at specified path");
    assert_eq!(PathError::CannotSplitBranch.to_string(), "Can only split a leaf node");
    assert_eq!(PathError::CannotRemoveBranch.to_string(), "Not allowed to remove a split node");
    assert_eq!(
        PathError::CannotCycleImageOnBranch.to_string(),
        "Cannot change image on a split node"
    );
}

#[test]
fn shapes_without_payload_are_built_from_leaves() {
    assert!(matches!(TestBTree::new_leaf(), BTreeNode::Leaf(())));
    let tree = TestBTree::new_branch(TestBTree::new_lastbranch(), TestBTree::new_leaf());
    assert_eq!(tree.collect_paths(), first_heavy());
    let spec = TestBTree::spec_from(first_heavy());
    assert_eq!(spec.leaf_paths, first_heavy());
    assert_eq!(spec.leaf_data.len(), 3);
    assert_eq!(spec.branch_data.len(), 2);
    let spec = TestBTree::spec_from(vec![vec![]]);
    assert_eq!(spec.leaf_data.len(), 1);
    assert_eq!(spec.branch_data.len(), 0);
}

#[test]
fn payloads_are_changed_through_their_references() {
    let mut tree = BTreeNode::<i8, i8>::from_spec(&BTreeSpec {
        leaf_paths: first_heavy(),
        leaf_data: vec![1, 2, 3],
        branch_data: vec![10, 11],
    })
    .unwrap();
    let leaves = tree.collect_leaf_data_mut();
    assert_eq!(leaves.len(), 3);
    for (position, leaf) in leaves.into_iter().enumerate() {
        assert_eq!(*leaf as usize, position + 1);
        *leaf *= 2;
    }
    let branches = tree.collect_branch_data_mut();
    assert_eq!(branches.len(), 2);
    for branch in branches {
        *branch += 1;
    }
    assert_eq!(tree.collect_leaf_data(), vec![2, 4, 6]);
    assert_eq!(tree.collect_branch_data(), vec![11, 12]);
    assert_eq!(tree.collect_paths(), first_heavy());
}

#[test]
fn a_clone_is_a_tree_of_its_own() {
    let tree = BTreeNode::<String, u8>::from_spec(&BTreeSpec {
        leaf_paths: second_heavy(),
        leaf_data: vec!["a".to_string(), "b".to_string(), "c".to_string()],
        branch_data: vec![1, 2],
    })
    .unwrap();
    let mut copy = tree.clone();
    copy.split_leaf_at(&[true], 9).unwrap();
    assert_eq!(tree.collect_paths(), second_heavy());
    assert_eq!(tree.collect_leaf_data(), vec!["a", "b", "c"]);
    assert_eq!(copy.collect_leaf_data(), vec!["a", "a", "b", "c"]);
    assert_eq!(copy.collect_branch_data(), vec![1, 9, 2]);
}
