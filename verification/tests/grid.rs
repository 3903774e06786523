use sparse_tree::SparseTree;

#[test]
fn fresh_tree_reads_initial_value_everywhere() {
    let tree: SparseTree<u32, 2> = SparseTree::new(3, 7);
    for x in 0..4usize {
        for y in 0..4usize {
            assert!(tree.contains(&[x, y]));
            assert_eq!(tree.get([x, y]), 7);
        }
    }
    assert_eq!(tree.node_count(), 1);
}

#[test]
fn quadtree_write_read_exchange() {
    let mut tree: SparseTree<u32, 2> = SparseTree::new(3, 0);
    tree.put([1, 1], 9);
    assert_eq!(tree.get([1, 1]), 9);
    assert_eq!(tree.get([3, 3]), 0);
    assert_eq!(tree.swap([1, 1], 5), 9);
    assert_eq!(tree.get([1, 1]), 5);
}

#[test]
fn write_changes_one_cell_only() {
    let mut tree: SparseTree<i64, 2> = SparseTree::new(4, -1);
    tree.put([5, 2], 40);
    for x in 0..8usize {
        for y in 0..8usize {
            let expected = if x == 5 && y == 2 { 40 } else { -1 };
            assert_eq!(tree.get([x, y]), expected);
        }
    }
}

#[test]
fn every_cell_keeps_its_own_value() {
    let mut tree: SparseTree<usize, 3> = SparseTree::new(3, 0);
    for x in 0..4usize {
        for y in 0..4usize {
            for z in 0..4usize {
                tree.put([x, y, z], 100 * x + 10 * y + z);
            }
        }
    }
    for x in 0..4usize {
        for y in 0..4usize {
            for z in 0..4usize {
                assert_eq!(tree.get([x, y, z]), 100 * x + 10 * y + z);
            }
        }
    }
}

#[test]
fn last_write_wins() {
    let mut tree: SparseTree<u8, 2> = SparseTree::new(3, 0);
    tree.put([2, 3], 1);
    tree.put([2, 3], 2);
    assert_eq!(tree.get([2, 3]), 2);
    tree.put([2, 3], 0);
    assert_eq!(tree.get([2, 3]), 0);
    assert_eq!(tree.node_count(), 1);
}

#[test]
fn exchange_returns_previous_value() {
    let mut tree: SparseTree<char, 1> = SparseTree::new(4, 'a');
    let before = tree.get([6]);
    assert_eq!(tree.swap([6], 'b'), before);
    assert_eq!(tree.get([6]), 'b');
    assert_eq!(tree.swap([6], 'c'), 'b');
    assert_eq!(tree.swap([5], 'd'), 'a');
    assert_eq!(tree.get([6]), 'c');
    assert_eq!(tree.get([5]), 'd');
}

#[test]
fn exchange_of_equal_value_keeps_one_node() {
    let mut tree: SparseTree<u8, 2> = SparseTree::new(3, 4);
    assert_eq!(tree.swap([0, 3], 4), 4);
    assert_eq!(tree.node_count(), 1);
}

#[test]
fn exchange_collapses_like_write() {
    let mut tree: SparseTree<u8, 2> = SparseTree::new(2, 0);
    assert_eq!(tree.swap([0, 0], 1), 0);
    assert_eq!(tree.node_count(), 5);
    assert_eq!(tree.swap([0, 0], 0), 1);
    assert_eq!(tree.node_count(), 1);
}

#[test]
fn bounds_follow_depth() {
    let tree: SparseTree<u8, 2> = SparseTree::new(3, 0);
    assert!(tree.contains(&[0, 0]));
    assert!(tree.contains(&[3, 3]));
    assert!(!tree.contains(&[4, 0]));
    assert!(!tree.contains(&[0, 4]));
    assert!(!tree.contains(&[usize::MAX, usize::MAX]));
    let deeper: SparseTree<u8, 2> = SparseTree::new(5, 0);
    assert!(deeper.contains(&[15, 15]));
    assert!(!deeper.contains(&[16, 15]));
    let flat: SparseTree<u8, 2> = SparseTree::new(2, 0);
    assert!(flat.contains(&[1, 1]));
    assert!(!flat.contains(&[2, 1]));
}

#[test]
fn depth_one_is_a_single_cell() {
    let mut tree: SparseTree<u8, 3> = SparseTree::new(1, 3);
    assert!(tree.contains(&[0, 0, 0]));
    assert!(!tree.contains(&[1, 0, 0]));
    assert!(!tree.contains(&[0, 0, 1]));
    assert_eq!(tree.get([0, 0, 0]), 3);
    tree.put([0, 0, 0], 8);
    assert_eq!(tree.get([0, 0, 0]), 8);
    assert_eq!(tree.node_count(), 1);
    assert_eq!(tree.swap([0, 0, 0], 9), 8);
    assert_eq!(tree.node_count(), 1);
}

#[test]
fn bound_check_leaves_tree_unchanged() {
    let mut tree: SparseTree<u8, 2> = SparseTree::new(3, 0);
    tree.put([1, 2], 6);
    let nodes = tree.node_count();
    assert!(!tree.contains(&[9, 9]));
    assert_eq!(tree.node_count(), nodes);
    assert_eq!(tree.get([1, 2]), 6);
    assert_eq!(tree.get([0, 0]), 0);
}

#[test]
fn zero_dimensions_hold_one_value() {
    let mut tree: SparseTree<u8, 0> = SparseTree::new(3, 1);
    assert!(tree.contains(&[]));
    assert_eq!(tree.get([]), 1);
    tree.put([], 2);
    assert_eq!(tree.get([]), 2);
    assert_eq!(tree.node_count(), 1);
}

#[test]
fn deepest_tree_reaches_largest_coordinate() {
    let depth = usize::BITS + 1;
    let mut tree: SparseTree<bool, 1> = SparseTree::new(depth, false);
    assert!(tree.contains(&[usize::MAX]));
    tree.put([usize::MAX], true);
    assert!(tree.get([usize::MAX]));
    assert!(!tree.get([usize::MAX - 1]));
    assert!(!tree.get([0]));
    assert_eq!(tree.node_count(), 1 + 2 * (usize::BITS as usize));
}
