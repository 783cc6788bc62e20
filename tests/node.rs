use transient_btree_index::{Error, KeyBound, NodeFile, SearchResult, StackEntry};

#[test]
fn tests_allocate_nodes() {
    let mut f = NodeFile::with_capacity(0).unwrap();
    let n1 = f.allocate_new_node().unwrap();
    let n2 = f.allocate_new_node().unwrap();
    let n3 = f.allocate_new_node().unwrap();

    assert_eq!(0, n1);
    assert_eq!(1, n2);
    assert_eq!(2, n3);

    assert_eq!(0, f.number_of_keys(n1));
    assert_eq!(true, f.is_leaf(n1));
}

#[test]
fn slots_are_bounds_checked() {
    let mut f = NodeFile::with_capacity(1).unwrap();
    let n = f.allocate_new_node().unwrap();
    assert!(matches!(f.get_key(n, 0), Err(Error::KeyIndexOutOfBounds { idx: 0, len: 0 })));
    assert!(matches!(f.set_key(n, 1, 5), Err(Error::KeyIndexOutOfBounds { idx: 1, len: 0 })));
    f.set_key(n, 0, 5).unwrap();
    assert_eq!(1, f.number_of_keys(n));
    assert_eq!(5, f.get_key(n, 0).unwrap());
    f.set_payload(n, 0, 77).unwrap();
    assert_eq!(77, f.get_payload(n, 0).unwrap());
    assert!(matches!(f.set_payload(n, 1, 1), Err(Error::KeyIndexOutOfBounds { .. })));
    assert!(matches!(f.get_child_node(n, 0), Err(Error::KeyIndexOutOfBounds { .. })));
    assert_eq!(0, f.number_of_children(n));
    f.set_child_node(n, 0, 9).unwrap();
    assert_eq!(false, f.is_leaf(n));
    assert_eq!(2, f.number_of_children(n));
    assert_eq!(9, f.get_child_node(n, 0).unwrap());
}

#[test]
fn binary_search_in_node() {
    let mut f = NodeFile::with_capacity(1).unwrap();
    let n = f.allocate_new_node().unwrap();
    for (i, k) in [2u64, 4, 8].iter().enumerate() {
        f.set_key(n, i, *k).unwrap();
    }
    assert_eq!(SearchResult::Found(1), f.binary_search(n, 4));
    assert_eq!(SearchResult::NotFound(2), f.binary_search(n, 5));
    assert_eq!(SearchResult::NotFound(0), f.binary_search(n, 1));
    assert_eq!(SearchResult::NotFound(3), f.binary_search(n, 10));
}

#[test]
fn find_range_in_leaf_and_internal_node() {
    let mut f = NodeFile::with_capacity(1).unwrap();
    let n = f.allocate_new_node().unwrap();
    for (i, k) in [2u64, 4, 8].iter().enumerate() {
        f.set_key(n, i, *k).unwrap();
    }
    assert_eq!(
        vec![StackEntry::Key { node: n, idx: 1 }, StackEntry::Key { node: n, idx: 2 }],
        f.find_range(n, KeyBound::Included(3), KeyBound::Unbounded)
    );
    assert_eq!(
        vec![StackEntry::Key { node: n, idx: 1 }],
        f.find_range(n, KeyBound::Excluded(2), KeyBound::Excluded(8))
    );
    assert!(f.find_range(n, KeyBound::Included(9), KeyBound::Unbounded).is_empty());

    for i in 0..4 {
        f.set_child_node(n, i, 100 + i as u64).unwrap();
    }
    assert_eq!(
        vec![
            StackEntry::Child { parent: n, idx: 2 },
            StackEntry::Key { node: n, idx: 2 },
            StackEntry::Child { parent: n, idx: 3 },
        ],
        f.find_range(n, KeyBound::Included(5), KeyBound::Unbounded)
    );
    assert_eq!(
        vec![StackEntry::Child { parent: n, idx: 0 }, StackEntry::Key { node: n, idx: 0 }, StackEntry::Child { parent: n, idx: 1 }],
        f.find_range(n, KeyBound::Unbounded, KeyBound::Excluded(4))
    );
}

#[test]
fn split_child_moves_median_up() {
    let mut f = NodeFile::with_capacity(1).unwrap();
    let parent = f.allocate_new_node().unwrap();
    let child = f.allocate_new_node().unwrap();
    for i in 0..3usize {
        f.set_key(child, i, (i as u64 + 1) * 10).unwrap();
        f.set_payload(child, i, 500 + i as u64).unwrap();
    }
    f.set_child_node(parent, 0, child).unwrap();
    let (left, right) = f.split_child(parent, 0, 2).unwrap();
    assert_eq!(child, left);
    assert_eq!(2, right);
    assert_eq!(1, f.number_of_keys(parent));
    assert_eq!(20, f.get_key(parent, 0).unwrap());
    assert_eq!(501, f.get_payload(parent, 0).unwrap());
    assert_eq!(left, f.get_child_node(parent, 0).unwrap());
    assert_eq!(right, f.get_child_node(parent, 1).unwrap());
    assert_eq!(1, f.number_of_keys(left));
    assert_eq!(10, f.get_key(left, 0).unwrap());
    assert_eq!(1, f.number_of_keys(right));
    assert_eq!(30, f.get_key(right, 0).unwrap());
    assert_eq!(502, f.get_payload(right, 0).unwrap());
    assert!(f.is_leaf(right));
}

#[test]
fn split_root_node_builds_new_root() {
    let mut f = NodeFile::with_capacity(1).unwrap();
    let root = f.allocate_new_node().unwrap();
    for i in 0..3usize {
        f.set_key(root, i, i as u64 + 1).unwrap();
        f.set_payload(root, i, i as u64).unwrap();
    }
    let new_root = f.split_root_node(root, 2).unwrap();
    assert_eq!(1, new_root);
    assert_eq!(false, f.is_leaf(new_root));
    assert_eq!(1, f.number_of_keys(new_root));
    assert_eq!(2, f.get_key(new_root, 0).unwrap());
    assert_eq!(root, f.get_child_node(new_root, 0).unwrap());
    assert_eq!(2, f.get_child_node(new_root, 1).unwrap());
    assert_eq!(1, f.number_of_keys(root));
    assert_eq!(3, f.get_key(2, 0).unwrap());
}
