use sparse_tree::node::Tree;

#[test]
fn sector_sets_one_bit_per_upper_half() {
    let mut key = [5usize, 1, 7];
    let mut bisector = 4usize;
    let sct = Tree::<u8, 3>::sector(&mut key, &mut bisector);
    assert_eq!(sct, 5);
    assert_eq!(key, [1, 1, 3]);
    assert_eq!(bisector, 2);
}

#[test]
fn sector_of_lower_corner_is_zero() {
    let mut key = [0usize, 3];
    let mut bisector = 4usize;
    let sct = Tree::<u8, 2>::sector(&mut key, &mut bisector);
    assert_eq!(sct, 0);
    assert_eq!(key, [0, 3]);
    assert_eq!(bisector, 2);
}

#[test]
fn sector_counts_the_bisector_itself_as_upper() {
    let mut key = [4usize, 4];
    let mut bisector = 4usize;
    let sct = Tree::<u8, 2>::sector(&mut key, &mut bisector);
    assert_eq!(sct, 3);
    assert_eq!(key, [0, 0]);
    assert_eq!(bisector, 2);
}

#[test]
fn sector_halves_one_to_zero() {
    let mut key = [1usize, 0];
    let mut bisector = 1usize;
    let sct = Tree::<u8, 2>::sector(&mut key, &mut bisector);
    assert_eq!(sct, 1);
    assert_eq!(key, [0, 0]);
    assert_eq!(bisector, 0);
}

#[test]
fn split_makes_one_uniform_node_per_sector() {
    let children = Tree::<u8, 3>::split(9);
    assert_eq!(children.len(), 8);
    assert_eq!(Tree::<u8, 3>::uniform_value(&children), Some(9));
    let pair = Tree::<u8, 1>::split(2);
    assert_eq!(pair.len(), 2);
    let single = Tree::<u8, 0>::split(2);
    assert_eq!(single.len(), 1);
}

#[test]
fn collapse_check_needs_all_sectors_equal() {
    let mut children = Tree::<u8, 2>::split(1);
    assert_eq!(Tree::<u8, 2>::uniform_value(&children), Some(1));
    children[3] = Tree::Leaf(2);
    assert_eq!(Tree::<u8, 2>::uniform_value(&children), None);
    children[3] = Tree::Branch(Tree::<u8, 2>::split(1));
    assert_eq!(Tree::<u8, 2>::uniform_value(&children), None);
    children[3] = Tree::Leaf(1);
    children[0] = Tree::Branch(Tree::<u8, 2>::split(1));
    assert_eq!(Tree::<u8, 2>::uniform_value(&children), None);
}

#[test]
fn node_writes_and_reads_at_a_given_half_width() {
    let mut node: Tree<u8, 2> = Tree::Leaf(0);
    node.put(2, [3, 0], 7);
    assert_eq!(node.get(2, [3, 0]), 7);
    assert_eq!(node.get(2, [2, 0]), 0);
    assert_eq!(node.get(2, [0, 3]), 0);
    assert_eq!(node.count_nodes(2), 9);
    assert_eq!(node.swap(2, [3, 0], 0), 7);
    assert_eq!(node.count_nodes(2), 1);
    assert!(matches!(node, Tree::Leaf(0)));
}

#[test]
fn node_without_halves_is_overwritten_in_place() {
    let mut node: Tree<u8, 2> = Tree::Leaf(0);
    node.put(0, [0, 0], 7);
    assert!(matches!(node, Tree::Leaf(7)));
    assert_eq!(node.swap(0, [0, 0], 8), 7);
    assert!(matches!(node, Tree::Leaf(8)));
}
