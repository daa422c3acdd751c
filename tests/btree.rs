use red::{BPlusTree, BtreeNode, InternalNode, LeafNode, NodeType};

fn type_of_node(node: &NodeType) -> String {
    match node {
        NodeType::Leaf(_) => "LeafNode".to_string(),
        NodeType::Internal(_) => "InternalNode".to_string(),
    }
}

#[test]
fn test_btree_creation() {
    let btree = BPlusTree::new(3);
    assert_eq!(btree.get_order(), 3);
    assert!(btree.get_root_node().is_none());
    assert_eq!(0, btree.get_tree_height());
}

#[test]
fn test_btree_add_leaf() {
    let mut btree = BPlusTree::new(2);
    assert_eq!(btree.get_order(), 2);
    assert!(btree.get_root_node().is_none());
    assert_eq!(0, btree.get_tree_height());

    btree.insert(7);
    assert_eq!(1, btree.get_tree_height());
    assert_eq!("LeafNode", type_of_node(btree.get_root_node().unwrap()));

    btree.insert(10);
    assert_eq!(1, btree.get_tree_height());
    assert_eq!("LeafNode", type_of_node(btree.get_root_node().unwrap()));

    btree.insert(15);
    assert_eq!(2, btree.get_tree_height());
    assert_eq!("InternalNode", type_of_node(btree.get_root_node().unwrap()));
}

#[test]
fn btree_grows_one_level_at_a_time() {
    let mut btree = BPlusTree::new(2);
    let mut last = 0;
    for key in 0..200 {
        btree.insert(key);
        let h = btree.get_tree_height();
        assert!(h == last || h == last + 1);
        last = h;
    }
    // 200 keys in nodes of at most two keys need at least five levels.
    assert!(last >= 5);
    assert!(last <= 9);
}

#[test]
fn btree_accepts_duplicate_and_descending_keys() {
    let mut btree = BPlusTree::new(3);
    for key in (0..50).rev() {
        btree.insert(key);
        btree.insert(key);
    }
    assert!(btree.get_tree_height() >= 3);
    assert_eq!("InternalNode", type_of_node(btree.get_root_node().unwrap()));
}

#[test]
fn btree_of_order_zero_still_grows() {
    let mut btree = BPlusTree::new(0);
    btree.insert(1);
    assert_eq!(1, btree.get_tree_height());
    btree.insert(2);
    assert_eq!(2, btree.get_tree_height());
}

#[test]
fn btree_order_one_splits_on_second_key() {
    let mut btree = BPlusTree::new(1);
    btree.insert(5);
    assert_eq!("LeafNode", type_of_node(btree.get_root_node().unwrap()));
    btree.insert(3);
    assert_eq!(2, btree.get_tree_height());
    assert_eq!("InternalNode", type_of_node(btree.get_root_node().unwrap()));
}

#[test]
fn leaf_splits_when_over_its_order() {
    let mut leaf = LeafNode::new(2);
    assert_eq!(BtreeNode::get_depth(&leaf), 1);
    assert!(BtreeNode::insert(&mut leaf, 10).is_none());
    assert!(BtreeNode::insert(&mut leaf, 5).is_none());
    match BtreeNode::insert(&mut leaf, 7) {
        Some((key, NodeType::Leaf(_))) => assert_eq!(key, 7),
        _ => panic!("a leaf over its order splits"),
    }
}

#[test]
fn node_depths() {
    let internal = InternalNode::new(3);
    assert_eq!(BtreeNode::get_depth(&internal), 1);
    let mut btree = BPlusTree::new(1);
    for key in [4, 8, 15, 16, 23, 42] {
        btree.insert(key);
    }
    let root = btree.get_root_node().unwrap();
    assert_eq!(BtreeNode::get_depth(root), btree.get_tree_height());
}

#[test]
fn new_leaf_has_no_next_link() {
    let leaf = LeafNode::new(4);
    assert!(format!("{:?}", leaf).contains("next: None"));
}
