use data_structures::b_tree::{BTree, BTreeProps};

#[test]
fn props_follow_from_degree() {
    let props = BTreeProps::new(6);
    assert_eq!(props.degree, 6);
    assert_eq!(props.max_keys, 5);
    assert_eq!(props.mid_key_index, 2);
}

#[test]
fn props_of_smallest_degree() {
    let props = BTreeProps::new(1);
    assert_eq!(props.max_keys, 0);
    assert_eq!(props.mid_key_index, 0);
}

#[test]
fn tree_of_branch_factor_builds() {
    let _tree: BTree<i32> = BTree::new(2);
}
