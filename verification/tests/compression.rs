use sparse_tree::SparseTree;

fn cells() -> Vec<[usize; 2]> {
    let mut all = Vec::new();
    for x in 0..4usize {
        for y in 0..4usize {
            all.push([x, y]);
        }
    }
    all
}

fn fill(order: &[[usize; 2]]) -> SparseTree<u8, 2> {
    let mut tree: SparseTree<u8, 2> = SparseTree::new(3, 0);
    for (i, key) in order.iter().enumerate() {
        tree.put(*key, 1);
        if i + 1 < order.len() {
            assert!(tree.node_count() > 1);
        }
    }
    tree
}

#[test]
fn uniform_fill_collapses_in_row_order() {
    let tree = fill(&cells());
    assert_eq!(tree.node_count(), 1);
    assert_eq!(tree.get([2, 1]), 1);
}

#[test]
fn uniform_fill_collapses_in_reverse_order() {
    let mut order = cells();
    order.reverse();
    let tree = fill(&order);
    assert_eq!(tree.node_count(), 1);
}

#[test]
fn uniform_fill_collapses_in_scattered_order() {
    let all = cells();
    let mut order = Vec::new();
    for i in 0..16usize {
        order.push(all[(i * 7 + 3) % 16]);
    }
    let tree = fill(&order);
    assert_eq!(tree.node_count(), 1);
}

#[test]
fn node_count_follows_subdivision() {
    let mut tree: SparseTree<u8, 2> = SparseTree::new(3, 0);
    assert_eq!(tree.node_count(), 1);
    tree.put([0, 0], 1);
    assert_eq!(tree.node_count(), 9);
    tree.put([3, 3], 1);
    assert_eq!(tree.node_count(), 13);
    tree.put([1, 0], 1);
    tree.put([0, 1], 1);
    assert_eq!(tree.node_count(), 13);
    tree.put([1, 1], 1);
    assert_eq!(tree.node_count(), 9);
    tree.put([3, 3], 0);
    assert_eq!(tree.node_count(), 5);
    assert_eq!(tree.get([0, 0]), 1);
    assert_eq!(tree.get([1, 1]), 1);
    assert_eq!(tree.get([2, 0]), 0);
}

#[test]
fn octree_collapses_when_all_children_agree() {
    let mut tree: SparseTree<u16, 3> = SparseTree::new(2, 0);
    tree.put([0, 0, 0], 5);
    assert_eq!(tree.node_count(), 9);
    for x in 0..2usize {
        for y in 0..2usize {
            for z in 0..2usize {
                tree.put([x, y, z], 5);
            }
        }
    }
    assert_eq!(tree.node_count(), 1);
    assert_eq!(tree.get([1, 0, 1]), 5);
}

#[test]
fn octree_collapse_reaches_the_parent() {
    let mut tree: SparseTree<u16, 3> = SparseTree::new(3, 0);
    tree.put([2, 2, 2], 5);
    assert_eq!(tree.node_count(), 17);
    for x in 2..4usize {
        for y in 2..4usize {
            for z in 2..4usize {
                tree.put([x, y, z], 5);
            }
        }
    }
    assert_eq!(tree.node_count(), 9);
    for x in 0..4usize {
        for y in 0..4usize {
            for z in 0..4usize {
                tree.put([x, y, z], 5);
            }
        }
    }
    assert_eq!(tree.node_count(), 1);
    tree.put([3, 3, 3], 0);
    assert_eq!(tree.node_count(), 17);
    tree.put([3, 3, 3], 5);
    assert_eq!(tree.node_count(), 1);
}

#[test]
fn writing_the_held_value_does_not_subdivide() {
    let mut tree: SparseTree<u8, 2> = SparseTree::new(4, 3);
    tree.put([7, 0], 3);
    assert_eq!(tree.node_count(), 1);
    tree.put([7, 0], 4);
    assert_eq!(tree.node_count(), 13);
    tree.put([6, 1], 3);
    assert_eq!(tree.node_count(), 13);
}
