use vector_index::node::{ChildType, InternalItem, LeafItem, TreeNode};
use vector_index::ordering::{binary_search_internal_nodes, binary_search_leafs, compare};
use vector_index::siblings::{borrow_from_left, borrow_from_right, min_fill_of};
use vector_index::tree::{BTree, ELEMENTS_PER_PAGE};

fn tree_of(keys: &[usize]) -> BTree {
    let mut tree = BTree::new();
    for k in keys {
        tree.set_item(*k, format!("v{}", k));
    }
    tree
}

fn leaf_of(keys: &[usize]) -> TreeNode {
    let mut leaf = LeafItem::new();
    for k in keys {
        leaf.push(*k, format!("v{}", k));
    }
    TreeNode::LeafNode(leaf)
}

fn leaf_keys(node: &TreeNode) -> Vec<usize> {
    match node {
        TreeNode::LeafNode(l) => l.index.clone(),
        _ => panic!("not a leaf"),
    }
}

fn check_shape(node: &TreeNode, fanout: usize, least: usize, lo: usize, hi: Option<usize>) -> usize {
    let min = min_fill_of(fanout);
    match node {
        TreeNode::Null => panic!("no subtree inside a tree"),
        TreeNode::LeafNode(l) => {
            assert_eq!(l.index.len(), l.data.len());
            assert!(l.index.len() >= least && l.index.len() <= fanout);
            for w in l.index.windows(2) {
                assert!(w[0] < w[1]);
            }
            for k in &l.index {
                assert!(*k >= lo);
                if let Some(h) = hi {
                    assert!(*k < h);
                }
            }
            1
        }
        TreeNode::InternalNode(n) => {
            assert_eq!(n.data.len(), n.index.len() + 1);
            assert!(n.data.len() >= least && n.data.len() <= fanout);
            for w in n.index.windows(2) {
                assert!(w[0] < w[1]);
            }
            let mut depth = None;
            for (i, child) in n.data.iter().enumerate() {
                let clo = if i == 0 { lo } else { n.index[i - 1] };
                let chi = if i < n.index.len() { Some(n.index[i]) } else { hi };
                let d = check_shape(child, fanout, min, clo, chi);
                if let Some(prev) = depth {
                    assert_eq!(prev, d);
                }
                depth = Some(d);
            }
            depth.unwrap() + 1
        }
    }
}

fn check_tree(tree: &BTree) {
    let root = tree.root();
    match root {
        TreeNode::Null => {
            assert_eq!(tree.get_depth(), 0);
            assert_eq!(tree.get_num_elements(), 0);
        }
        TreeNode::LeafNode(_) => {
            assert_eq!(check_shape(root, tree.get_fanout(), 1, 0, None), tree.get_depth());
        }
        TreeNode::InternalNode(_) => {
            assert_eq!(check_shape(root, tree.get_fanout(), 2, 0, None), tree.get_depth());
        }
    }
    assert_eq!(tree.iterate_through().len(), tree.get_num_elements());
}

#[test]
fn compare_is_strict_order() {
    assert!(compare(&1, &2));
    assert!(!compare(&2, &2));
    assert!(!compare(&3, &2));
}

#[test]
fn leaf_search_finds_position_or_insertion_point() {
    let data: Vec<usize> = vec![5, 9, 10, 12];
    assert_eq!(binary_search_leafs(&data, &5, compare), 0);
    assert_eq!(binary_search_leafs(&data, &10, compare), 2);
    assert_eq!(binary_search_leafs(&data, &12, compare), 3);
    assert_eq!(binary_search_leafs(&data, &0, compare), 0);
    assert_eq!(binary_search_leafs(&data, &11, compare), 3);
    assert_eq!(binary_search_leafs(&data, &13, compare), 4);
    let empty: Vec<usize> = vec![];
    assert_eq!(binary_search_leafs(&empty, &7, compare), 0);
}

#[test]
fn internal_search_is_upper_bound() {
    let seps: Vec<usize> = vec![10, 20, 30];
    assert_eq!(binary_search_internal_nodes(&seps, &0, compare), 0);
    assert_eq!(binary_search_internal_nodes(&seps, &9, compare), 0);
    assert_eq!(binary_search_internal_nodes(&seps, &10, compare), 1);
    assert_eq!(binary_search_internal_nodes(&seps, &19, compare), 1);
    assert_eq!(binary_search_internal_nodes(&seps, &20, compare), 2);
    assert_eq!(binary_search_internal_nodes(&seps, &30, compare), 3);
    assert_eq!(binary_search_internal_nodes(&seps, &usize::MAX, compare), 3);
    let empty: Vec<usize> = vec![];
    assert_eq!(binary_search_internal_nodes(&empty, &7, compare), 0);
}

#[test]
fn new_tree_has_default_fanout() {
    let tree = BTree::new();
    assert_eq!(ELEMENTS_PER_PAGE, 4);
    assert_eq!(tree.get_fanout(), 4);
    assert!(tree.root().is_null());
}

#[test]
fn with_fanout_rejects_small_and_huge() {
    assert!(BTree::with_fanout(0).is_none());
    assert!(BTree::with_fanout(2).is_none());
    assert!(BTree::with_fanout(usize::MAX).is_none());
    let tree = BTree::with_fanout(3).unwrap();
    assert_eq!(tree.get_fanout(), 3);
    assert_eq!(tree.get_depth(), 0);
    assert!(BTree::with_fanout(usize::MAX - 1).is_some());
}

#[test]
fn round_trip_last_set_wins() {
    let mut tree = BTree::new();
    tree.set_item(7, "a".to_string());
    tree.set_item(3, "b".to_string());
    tree.set_item(7, "c".to_string());
    tree.set_item(9, "d".to_string());
    tree.set_item(3, "e".to_string());
    assert_eq!(tree.get_item(7), Some("c".to_string()));
    assert_eq!(tree.get_item(3), Some("e".to_string()));
    assert_eq!(tree.get_item(9), Some("d".to_string()));
    assert_eq!(tree.get_item(8), None);
    assert_eq!(tree.get_num_elements(), 3);
}

#[test]
fn overwrite_keeps_count() {
    let mut tree = tree_of(&[1, 2, 3, 4, 5, 6, 7]);
    assert_eq!(tree.get_num_elements(), 7);
    tree.set_item(4, "first".to_string());
    assert_eq!(tree.get_num_elements(), 7);
    tree.set_item(4, "second".to_string());
    assert_eq!(tree.get_num_elements(), 7);
    assert_eq!(tree.get_item(4), Some("second".to_string()));
    check_tree(&tree);
}

#[test]
fn count_follows_inserts_and_removes() {
    let mut tree = BTree::new();
    let n = 100usize;
    for i in 0..n {
        tree.set_item((i * 37) % 101, i.to_string());
        assert_eq!(tree.get_num_elements(), i + 1);
    }
    let m = 40usize;
    for i in 0..m {
        tree.remove((i * 37) % 101);
        assert_eq!(tree.get_num_elements(), n - i - 1);
    }
    tree.remove(1000);
    assert_eq!(tree.get_num_elements(), n - m);
    check_tree(&tree);
}

#[test]
fn iteration_is_in_key_order() {
    let keys: Vec<usize> = vec![50, 3, 99, 17, 4, 88, 23, 1, 64, 42, 7, 31, 12, 76, 5];
    let mut tree = tree_of(&keys);
    tree.remove(17);
    tree.remove(88);
    tree.set_item(2, "v2".to_string());
    let mut expected: Vec<usize> = keys.clone();
    expected.retain(|k| *k != 17 && *k != 88);
    expected.push(2);
    expected.sort();
    let want: Vec<String> = expected.iter().map(|k| format!("v{}", k)).collect();
    assert_eq!(tree.iterate_through(), want);
}

#[test]
fn balance_holds_through_mixed_operations() {
    for fanout in [3usize, 4, 5, 8] {
        let mut tree = BTree::with_fanout(fanout).unwrap();
        let mut present = std::collections::BTreeMap::new();
        let mut x: usize = 12345;
        for step in 0..2000usize {
            x = x.wrapping_mul(6364136223846793005).wrapping_add(1442695040888963407);
            let key = (x >> 33) % 200;
            if (x >> 20) % 3 == 0 {
                tree.remove(key);
                present.remove(&key);
            } else {
                tree.set_item(key, step.to_string());
                present.insert(key, step.to_string());
            }
            check_tree(&tree);
            assert_eq!(tree.get_num_elements(), present.len());
        }
        for key in 0..200usize {
            assert_eq!(tree.get_item(key), present.get(&key).cloned());
        }
        let want: Vec<String> = present.values().cloned().collect();
        assert_eq!(tree.iterate_through(), want);
        for key in 0..200usize {
            tree.remove(key);
            check_tree(&tree);
        }
        assert_eq!(tree.get_depth(), 0);
        assert_eq!(tree.get_num_elements(), 0);
        assert!(tree.root().is_null());
    }
}

#[test]
fn four_keys_fill_one_leaf() {
    let tree = tree_of(&[9, 10, 12, 23]);
    assert_eq!(tree.get_depth(), 1);
    assert_eq!(tree.get_num_elements(), 4);
    for k in [9usize, 10, 12, 23] {
        assert_eq!(tree.get_item(k), Some(format!("v{}", k)));
    }
    assert_eq!(tree.get_item(11), None);
    assert_eq!(leaf_keys(tree.root()), vec![9, 10, 12, 23]);
}

#[test]
fn fifth_key_splits_at_rounded_up_midpoint() {
    let tree = tree_of(&[9, 10, 12, 23, 5]);
    assert_eq!(tree.get_depth(), 2);
    for k in [5usize, 9, 10, 12, 23] {
        assert_eq!(tree.get_item(k), Some(format!("v{}", k)));
    }
    match tree.root() {
        TreeNode::InternalNode(n) => {
            assert_eq!(n.index, vec![12]);
            assert_eq!(n.data.len(), 2);
            assert_eq!(leaf_keys(&n.data[0]), vec![5, 9, 10]);
            assert_eq!(leaf_keys(&n.data[1]), vec![12, 23]);
        }
        _ => panic!("root should be an internal node"),
    }
}

#[test]
fn removal_borrows_from_left_before_merging() {
    let mut tree = tree_of(&[9, 10, 12, 23, 5]);
    tree.remove(12);
    assert_eq!(tree.get_depth(), 2);
    match tree.root() {
        TreeNode::InternalNode(n) => {
            assert_eq!(n.index, vec![10]);
            assert_eq!(leaf_keys(&n.data[0]), vec![5, 9]);
            assert_eq!(leaf_keys(&n.data[1]), vec![10, 23]);
        }
        _ => panic!("root should be an internal node"),
    }
    assert_eq!(tree.get_item(10), Some("v10".to_string()));
}

#[test]
fn removal_borrows_from_right_when_left_is_missing() {
    let mut tree = tree_of(&[1, 2, 3, 4, 5, 6]);
    // leaves [1,2,3] and [4,5,6]
    tree.remove(1);
    tree.remove(2);
    match tree.root() {
        TreeNode::InternalNode(n) => {
            assert_eq!(n.index, vec![5]);
            assert_eq!(leaf_keys(&n.data[0]), vec![3, 4]);
            assert_eq!(leaf_keys(&n.data[1]), vec![5, 6]);
        }
        _ => panic!("root should be an internal node"),
    }
}

#[test]
fn removal_merges_back_to_one_level() {
    let mut tree = tree_of(&[9, 10, 12, 23, 5]);
    tree.remove(5);
    assert_eq!(tree.get_depth(), 2);
    tree.remove(9);
    assert_eq!(tree.get_depth(), 1);
    assert_eq!(tree.get_item(9), None);
    assert_eq!(tree.get_item(5), None);
    assert_eq!(tree.get_item(12), Some("v12".to_string()));
    assert_eq!(tree.get_item(23), Some("v23".to_string()));
    assert_eq!(leaf_keys(tree.root()), vec![10, 12, 23]);
}

#[test]
fn removing_absent_key_changes_nothing() {
    let mut tree = tree_of(&[1, 2, 3]);
    tree.remove(7);
    assert_eq!(tree.get_num_elements(), 3);
    assert_eq!(tree.iterate_through(), vec!["v1", "v2", "v3"]);
    let mut empty = BTree::new();
    empty.remove(7);
    assert_eq!(empty.get_depth(), 0);
}

#[test]
fn extreme_keys_are_stored() {
    let mut tree = BTree::new();
    tree.set_item(usize::MAX, "top".to_string());
    tree.set_item(0, "bottom".to_string());
    for k in 1..20usize {
        tree.set_item(k, k.to_string());
        tree.set_item(usize::MAX - k, k.to_string());
    }
    assert_eq!(tree.get_item(usize::MAX), Some("top".to_string()));
    assert_eq!(tree.get_item(0), Some("bottom".to_string()));
    check_tree(&tree);
    let all = tree.iterate_through();
    assert_eq!(all.first().unwrap(), "bottom");
    assert_eq!(all.last().unwrap(), "top");
}

#[test]
fn sequential_thousand_grows_and_shrinks() {
    let mut tree = BTree::new();
    for i in 0..1000usize {
        tree.set_item(i, i.to_string());
    }
    assert_eq!(tree.get_num_elements(), 1000);
    check_tree(&tree);
    let depth = tree.get_depth();
    assert!(depth >= 5 && depth <= 10);
    for i in (0..1000usize).rev() {
        assert_eq!(tree.get_item(i), Some(i.to_string()));
        tree.remove(i);
    }
    assert_eq!(tree.get_depth(), 0);
}

#[test]
fn node_lookup_and_depth() {
    let tree = tree_of(&[9, 10, 12, 23, 5]);
    let root = tree.root();
    assert_eq!(root.get_item(&10), Some("v10".to_string()));
    assert_eq!(root.get_item(&11), None);
    assert_eq!(root.get_max_depth(0), 2);
    assert_eq!(root.get_max_depth(5), 7);
    assert_eq!(root.get_index_len(), 2);
    assert_eq!(TreeNode::Null.get_item(&1), None);
    assert_eq!(TreeNode::Null.get_max_depth(0), 0);
    assert_eq!(root.iterate_through(vec!["x".to_string()]), vec!["x", "v5", "v9", "v10", "v12", "v23"]);
}

#[test]
fn min_fill_is_half_rounded_up() {
    assert_eq!(min_fill_of(3), 2);
    assert_eq!(min_fill_of(4), 2);
    assert_eq!(min_fill_of(5), 3);
    assert_eq!(min_fill_of(8), 4);
}

#[test]
fn pass_right_gives_last_only_above_minimum() {
    let mut rich = leaf_of(&[1, 2, 3]);
    match rich.pass_right(4) {
        Some((k, ChildType::Data(d))) => {
            assert_eq!(k, 3);
            assert_eq!(d, "v3");
        }
        _ => panic!("expected the last entry"),
    }
    assert_eq!(leaf_keys(&rich), vec![1, 2]);
    assert!(rich.pass_right(4).is_none());
    assert_eq!(leaf_keys(&rich), vec![1, 2]);
    assert!(TreeNode::Null.pass_right(4).is_none());
}

#[test]
fn pass_left_gives_first_only_above_minimum() {
    let mut rich = leaf_of(&[4, 5, 6]);
    match rich.pass_left(4) {
        Some((k, ChildType::Data(d))) => {
            assert_eq!(k, 4);
            assert_eq!(d, "v4");
        }
        _ => panic!("expected the first entry"),
    }
    assert_eq!(leaf_keys(&rich), vec![5, 6]);
    assert!(rich.pass_left(4).is_none());
}

#[test]
fn internal_nodes_pass_children() {
    let mut node = TreeNode::InternalNode(InternalItem {
        index: vec![10, 20],
        data: vec![leaf_of(&[1, 2]), leaf_of(&[10, 11]), leaf_of(&[20, 21])],
    });
    match node.pass_left(4) {
        Some((k, ChildType::Node(child))) => {
            assert_eq!(k, 10);
            assert_eq!(leaf_keys(&child), vec![1, 2]);
        }
        _ => panic!("expected the first child"),
    }
    match &node {
        TreeNode::InternalNode(n) => {
            assert_eq!(n.index, vec![20]);
            assert_eq!(n.data.len(), 2);
        }
        _ => panic!("still an internal node"),
    }
    assert!(node.pass_right(4).is_none());
}

#[test]
fn borrow_between_leaves_moves_boundary_entry() {
    let mut left = leaf_of(&[1, 2, 3]);
    let mut child = leaf_of(&[8]);
    assert_eq!(borrow_from_left(&mut left, 8, &mut child, 4), Some(3));
    assert_eq!(leaf_keys(&left), vec![1, 2]);
    assert_eq!(leaf_keys(&child), vec![3, 8]);

    let mut child = leaf_of(&[1]);
    let mut right = leaf_of(&[4, 5, 6]);
    assert_eq!(borrow_from_right(&mut child, 4, &mut right, 4), Some(5));
    assert_eq!(leaf_keys(&child), vec![1, 4]);
    assert_eq!(leaf_keys(&right), vec![5, 6]);

    let mut poor = leaf_of(&[1, 2]);
    let mut child = leaf_of(&[8]);
    assert_eq!(borrow_from_left(&mut poor, 8, &mut child, 4), None);
    assert_eq!(leaf_keys(&poor), vec![1, 2]);
    assert_eq!(leaf_keys(&child), vec![8]);
}

#[test]
fn merges_join_entries_in_order() {
    let mut left = leaf_of(&[1, 2]);
    left.merge_from_right(leaf_of(&[5]), 5);
    assert_eq!(leaf_keys(&left), vec![1, 2, 5]);

    let mut right = leaf_of(&[7, 8]);
    right.merge_from_left(leaf_of(&[3]), 7);
    assert_eq!(leaf_keys(&right), vec![3, 7, 8]);

    let mut a = TreeNode::InternalNode(InternalItem {
        index: vec![10],
        data: vec![leaf_of(&[1, 2]), leaf_of(&[10, 11])],
    });
    let b = TreeNode::InternalNode(InternalItem {
        index: vec![],
        data: vec![leaf_of(&[20, 21])],
    });
    a.merge_from_right(b, 20);
    match &a {
        TreeNode::InternalNode(n) => {
            assert_eq!(n.index, vec![10, 20]);
            assert_eq!(n.data.len(), 3);
            assert_eq!(leaf_keys(&n.data[2]), vec![20, 21]);
        }
        _ => panic!("still an internal node"),
    }
}

#[test]
fn render_shows_count_depth_and_nodes() {
    let tree = tree_of(&[9, 10, 12, 23, 5]);
    let text = tree.render();
    let want = "BTree:\n  Number of elements: 5\n  Max depth: 2\n  Tree structure:\n  InternalNode:\n    [0] Key: 12\n      LeafNode:\n        Key: 5, Value: v5\n        Key: 9, Value: v9\n        Key: 10, Value: v10\n    [1] Key: 18446744073709551615\n      LeafNode:\n        Key: 12, Value: v12\n        Key: 23, Value: v23\n";
    assert_eq!(text, want);
    assert_eq!(BTree::new().render(), "BTree:\n  Number of elements: 0\n  Max depth: 0\n  Tree structure:\n  Null\n");
}
