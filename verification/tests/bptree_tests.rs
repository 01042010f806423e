//! Tests of the B+-tree: iteration order, splits, duplicate rejection and
//! the depth-first structure walk.
use sqlearn::bptree::{BPTree, BPTreeNode, Entry, InternalNode, LeafNode, Serializer};
use sqlearn::value::TableValue;

fn iv(x: i32) -> TableValue {
    TableValue::Int(x)
}

fn row(xs: &[i32]) -> Vec<TableValue> {
    xs.iter().map(|x| TableValue::Int(*x)).collect()
}

fn ivs(xs: &[i32]) -> Vec<TableValue> {
    xs.iter().map(|x| TableValue::Int(*x)).collect()
}

fn entry(k: i32, vs: &[i32]) -> Entry {
    Entry::new(iv(k), row(vs))
}

#[test]
fn bp_tree_insertion_works() {
    let mut bptree = BPTree::new(3);
    bptree.insert(entry(1, &[1, 2, 3])).unwrap();
    bptree.insert(entry(3, &[400, 500, 600])).unwrap();
    bptree.insert(entry(2, &[-1, -2, -3])).unwrap();

    assert_eq!(
        bptree.values(),
        vec![row(&[1, 2, 3]), row(&[-1, -2, -3]), row(&[400, 500, 600])],
    );
}

#[test]
fn tree_is_built_correctly() {
    let mut bptree = BPTree::new(4);
    assert_eq!(bptree.insert(entry(1, &[1])).is_err(), false);
    assert_eq!(bptree.insert(entry(2, &[1])).is_err(), false);
    assert_eq!(bptree.insert(entry(3, &[1])).is_err(), false);
    assert_eq!(bptree.insert(entry(4, &[1])).is_err(), false);
    assert_eq!(bptree.insert(entry(10, &[1])).is_err(), false);
    assert_eq!(bptree.insert(entry(11, &[1])).is_err(), false);
    assert_eq!(bptree.insert(entry(5, &[1])).is_err(), false);
    assert_eq!(bptree.insert(entry(6, &[1])).is_err(), false);
    assert_eq!(bptree.insert(entry(20, &[1])).is_err(), false);
    assert_eq!(bptree.insert(entry(30, &[1])).is_err(), false);

    assert_eq!(
        bptree.keys(),
        ivs(&[1, 2, 3, 3, 4, 3, 4, 5, 5, 6, 10, 10, 11, 20, 20, 30])
    );
}

fn new_leaf_node(page_byte_size: usize, kvs: &[(i32, &[i32])]) -> (LeafNode, Option<LeafNode>) {
    let mut leafnode = LeafNode::new();
    let mut split = None;
    for (k, vs) in kvs {
        let r = leafnode.insert(entry(*k, vs), page_byte_size, &Serializer::Mock);
        assert_eq!(r.is_err(), false);
        if let Ok(Some(right)) = r {
            split = Some(right);
        }
    }
    (leafnode, split)
}

#[test]
fn leaf_node_has_correct_iteration_order_after_insertion() {
    let page_byte_size = 3;
    let (leafnode, split) = new_leaf_node(
        page_byte_size,
        &[(1, &[1, 2, 3]), (3, &[400, 500, 600]), (2, &[-1, -2, -3])],
    );
    let mut all = leafnode.values();
    all.extend(split.unwrap().values());
    assert_eq!(
        all,
        vec![row(&[1, 2, 3]), row(&[-1, -2, -3]), row(&[400, 500, 600])]
    );
}

#[test]
fn nodes_are_split_when_page_byte_size_is_reached() {
    let page_byte_size = 3;
    let (leafnode, split) = new_leaf_node(
        page_byte_size,
        &[(1, &[1, 2, 3]), (3, &[400, 500, 600]), (2, &[-1, -2, -3])],
    );
    assert_eq!(leafnode.entries, vec![entry(1, &[1, 2, 3])]);
    assert_ne!(split.is_none(), true);
    assert_eq!(
        split.unwrap().entries,
        vec![entry(2, &[-1, -2, -3]), entry(3, &[400, 500, 600])]
    );
}

#[test]
fn nodes_are_split_when_page_byte_size_is_reached2() {
    let page_byte_size = 4;
    let (leafnode, split) = new_leaf_node(
        page_byte_size,
        &[
            (1, &[1, 2, 3]),
            (3, &[400, 500, 600]),
            (2, &[-1, -2, -3]),
            (4, &[-1, -2, -3]),
        ],
    );
    assert_eq!(
        leafnode.entries,
        vec![entry(1, &[1, 2, 3]), entry(2, &[-1, -2, -3])]
    );
    assert_ne!(split.is_none(), true);
    assert_eq!(
        split.unwrap().entries,
        vec![entry(3, &[400, 500, 600]), entry(4, &[-1, -2, -3])]
    );
}

#[test]
fn leaf_node_duplicate_insertion_fails() {
    let page_byte_size = 3;
    let (mut leafnode, _) = new_leaf_node(page_byte_size, &[(1, &[1, 2, 3]), (3, &[400, 500, 600])]);
    assert_eq!(
        leafnode
            .insert(entry(3, &[-1, -2, -3]), page_byte_size, &Serializer::Mock)
            .is_err(),
        true
    );
}

#[test]
fn mod_has_correct_iteration_order_after_insertion() {
    let degree = 3;
    let (left_node, _) = new_leaf_node(degree, &[(1, &[1, 2, 3])]);
    let (right_node, _) = new_leaf_node(degree, &[(3, &[400, 500, 600]), (2, &[-1, -2, -3])]);
    let internal_node = InternalNode::from_leaves(left_node, right_node);
    assert_eq!(
        internal_node.values(),
        vec![row(&[1, 2, 3]), row(&[-1, -2, -3]), row(&[400, 500, 600])]
    );
}

#[test]
fn mod_internal_node_is_built_correctly() {
    let degree = 3;
    let (left_node, _) = new_leaf_node(degree, &[(1, &[1, 2, 3])]);
    let (right_node, _) = new_leaf_node(degree, &[(3, &[400, 500, 600]), (2, &[-1, -2, -3])]);
    let mut internal_node = InternalNode::from_leaves(left_node, right_node);
    assert_eq!(
        internal_node
            .insert(entry(4, &[1]), degree, degree, &Serializer::Mock)
            .is_err(),
        false
    );
    assert_eq!(internal_node.keys(), ivs(&[1, 2, 2, 2, 3, 3, 4]));
}

#[test]
fn mod_internal_node_is_built_correctly2() {
    let degree = 4;
    let (left_leafnode, split) = new_leaf_node(
        degree,
        &[(1, &[1, 2, 3]), (2, &[1, 2, 3]), (3, &[1, 2, 3]), (4, &[1, 2, 3])],
    );
    let right_leafnode = split.unwrap();
    let internal_node = InternalNode::from_leaves(left_leafnode, right_leafnode);
    assert_eq!(internal_node.keys(), ivs(&[1, 2, 3, 3, 4]));
}

#[test]
fn mod_internal_node_is_built_correctly3() {
    let degree = 4;
    let (left_leafnode, split) = new_leaf_node(
        degree,
        &[(1, &[1, 2, 3]), (2, &[1, 2, 3]), (3, &[1, 2, 3]), (4, &[1, 2, 3])],
    );
    let right_leafnode = split.unwrap();
    let mut internal_node = InternalNode::from_leaves(left_leafnode, right_leafnode);
    for k in [10, 11, 5, 6, 20] {
        assert_eq!(
            internal_node
                .insert(entry(k, &[1]), degree, degree, &Serializer::Mock)
                .is_err(),
            false
        );
    }
    assert_eq!(
        internal_node.keys(),
        ivs(&[1, 2, 3, 3, 4, 3, 4, 5, 5, 6, 5, 6, 10, 10, 11, 20])
    );
}

#[test]
fn bp_tree_node_has_correct_iteration_order_after_insertion() {
    let capacity = 3;
    let (leafnode, split) = new_leaf_node(
        capacity,
        &[(1, &[1, 2, 3]), (3, &[400, 500, 600]), (2, &[-1, -2, -3])],
    );
    let internal_node = InternalNode::from_two_leaf_nodes(leafnode, split.unwrap());
    assert_eq!(
        internal_node.values(),
        vec![row(&[1, 2, 3]), row(&[-1, -2, -3]), row(&[400, 500, 600])]
    );
}

#[test]
fn leaf_node_nodes_are_split_when_capacity_is_reached() {
    let capacity = 3;
    let (leafnode, split) = new_leaf_node(
        capacity,
        &[(1, &[1, 2, 3]), (3, &[400, 500, 600]), (2, &[-1, -2, -3])],
    );
    assert_eq!(leafnode.entries, vec![entry(1, &[1, 2, 3])]);
    assert_ne!(split.is_none(), true);
    assert_eq!(
        split.unwrap().entries,
        vec![entry(2, &[-1, -2, -3]), entry(3, &[400, 500, 600])]
    );
}

#[test]
fn leaf_node_nodes_are_split_when_capacity_is_reached2() {
    let capacity = 4;
    let (leafnode, split) = new_leaf_node(
        capacity,
        &[
            (1, &[1, 2, 3]),
            (3, &[400, 500, 600]),
            (2, &[-1, -2, -3]),
            (4, &[-1, -2, -3]),
        ],
    );
    assert_eq!(
        leafnode.entries,
        vec![entry(1, &[1, 2, 3]), entry(2, &[-1, -2, -3])]
    );
    assert_ne!(split.is_none(), true);
    assert_eq!(
        split.unwrap().entries,
        vec![entry(3, &[400, 500, 600]), entry(4, &[-1, -2, -3])]
    );
}

#[test]
fn bp_tree_node_duplicate_insertion_fails() {
    let capacity = 3;
    let (mut leafnode, _) = new_leaf_node(capacity, &[(1, &[1, 2, 3]), (3, &[400, 500, 600])]);
    assert_eq!(
        leafnode
            .insert(entry(3, &[-1, -2, -3]), capacity, &Serializer::Mock)
            .is_err(),
        true
    );
    let (left, _) = new_leaf_node(capacity, &[(1, &[1, 2, 3])]);
    let (right, _) = new_leaf_node(capacity, &[(3, &[400, 500, 600]), (2, &[-1, -2, -3])]);
    let mut inode = InternalNode::from_two_leaf_nodes(left, right);
    assert_eq!(
        inode
            .insert(entry(3, &[-1, -2, -3]), capacity, capacity, &Serializer::Mock)
            .is_err(),
        true
    );
    assert_eq!(
        inode
            .insert(entry(2, &[-1, -2, -3]), capacity, capacity, &Serializer::Mock)
            .is_err(),
        true
    );
}

#[test]
fn bp_tree_node_internal_node_is_built_correctly() {
    let capacity = 3;
    let (left, _) = new_leaf_node(capacity, &[(1, &[1, 2, 3])]);
    let (right, _) = new_leaf_node(capacity, &[(3, &[400, 500, 600]), (2, &[-1, -2, -3])]);
    let mut inode = InternalNode::from_two_leaf_nodes(left, right);
    assert_eq!(
        inode
            .insert(entry(4, &[1]), capacity, capacity, &Serializer::Mock)
            .is_err(),
        false
    );
    assert_eq!(inode.keys(), ivs(&[1, 2, 2, 2, 3, 3, 4]));
}

#[test]
fn bp_tree_node_internal_node_is_built_correctly2() {
    let capacity = 4;
    let (left_leafnode, split) = new_leaf_node(
        capacity,
        &[(1, &[1, 2, 3]), (2, &[1, 2, 3]), (3, &[1, 2, 3]), (4, &[1, 2, 3])],
    );
    let inode = InternalNode::from_two_leaf_nodes(left_leafnode, split.unwrap());
    assert_eq!(inode.keys(), ivs(&[1, 2, 3, 3, 4]));
}

#[test]
fn bp_tree_node_internal_node_is_built_correctly3() {
    let capacity = 4;
    let (left_leafnode, split) = new_leaf_node(
        capacity,
        &[(1, &[1, 2, 3]), (2, &[1, 2, 3]), (3, &[1, 2, 3]), (4, &[1, 2, 3])],
    );
    let mut inode = InternalNode::from_two_leaf_nodes(left_leafnode, split.unwrap());
    for k in [10, 11, 5, 6, 20] {
        assert_eq!(
            inode
                .insert(entry(k, &[1]), capacity, capacity, &Serializer::Mock)
                .is_err(),
            false
        );
    }
    assert_eq!(
        inode.keys(),
        ivs(&[1, 2, 3, 3, 4, 3, 4, 5, 5, 6, 5, 6, 10, 10, 11, 20])
    );
}

#[test]
fn duplicate_insertion_fails() {
    let mut bptree = BPTree::new(3);
    assert_eq!(bptree.insert(entry(1, &[1, 2, 3])).is_err(), false);
    assert_eq!(bptree.insert(entry(3, &[400, 500, 600])).is_err(), false);
    assert_eq!(bptree.insert(entry(3, &[-1, -2, -3])).is_err(), true);
    assert_eq!(
        bptree.values(),
        vec![row(&[1, 2, 3]), row(&[400, 500, 600])]
    );
}

#[test]
fn bp_tree_node_nodes_are_split_when_capacity_is_reached() {
    let capacity = 3;
    let (leafnode, split) = new_leaf_node(
        capacity,
        &[(1, &[1, 2, 3]), (3, &[400, 500, 600]), (2, &[-1, -2, -3])],
    );
    assert_eq!(leafnode.entries, vec![entry(1, &[1, 2, 3])]);
    assert_ne!(split.is_none(), true);
    assert_eq!(
        split.unwrap().entries,
        vec![entry(2, &[-1, -2, -3]), entry(3, &[400, 500, 600])]
    );
}

#[test]
fn bp_tree_node_nodes_are_split_when_capacity_is_reached2() {
    let capacity = 4;
    let (leafnode, split) = new_leaf_node(
        capacity,
        &[
            (1, &[1, 2, 3]),
            (3, &[400, 500, 600]),
            (2, &[-1, -2, -3]),
            (4, &[-1, -2, -3]),
        ],
    );
    assert_eq!(
        leafnode.entries,
        vec![entry(1, &[1, 2, 3]), entry(2, &[-1, -2, -3])]
    );
    assert_ne!(split.is_none(), true);
    assert_eq!(
        split.unwrap().entries,
        vec![entry(3, &[400, 500, 600]), entry(4, &[-1, -2, -3])]
    );
}

#[test]
fn size_driven_leaf_split() {
    let mut tree = BPTree::new_with(100, 4, Serializer::Mock);
    for k in [1, 3, 2, 4] {
        tree.insert(entry(k, &[k])).unwrap();
    }
    assert_eq!(
        tree.values(),
        vec![row(&[1]), row(&[2]), row(&[3]), row(&[4])]
    );
    // The four keys sit in a leaf holding one and two and a successor
    // holding three and four.
    match tree.root.as_ref().unwrap() {
        BPTreeNode::Internal(node) => {
            assert_eq!(node.keys.len(), 1);
            assert_eq!(node.keys[0], iv(3));
            match (&node.children[0], &node.children[1]) {
                (BPTreeNode::Leaf(l), BPTreeNode::Leaf(r)) => {
                    assert_eq!(l.entries, vec![entry(1, &[1]), entry(2, &[2])]);
                    assert_eq!(r.entries, vec![entry(3, &[3]), entry(4, &[4])]);
                    // Leaf link integrity, on this tree: the largest key of
                    // the first leaf is below the smallest of its successor.
                    assert!(l.entries.last().unwrap().key == iv(2));
                    assert!(r.entries.first().unwrap().key == iv(3));
                },
                _ => panic!("expected two leaves"),
            }
        },
        _ => panic!("expected an internal root"),
    }
}
