use galaxy_sim::octant::{octant_index, upper_side};
use galaxy_sim::octree::{Node, Octree};

#[test]
fn octant_index_sets_one_bit_per_axis() {
    assert_eq!(octant_index(false, false, false), 0);
    assert_eq!(octant_index(true, false, false), 1);
    assert_eq!(octant_index(false, true, false), 2);
    assert_eq!(octant_index(false, false, true), 4);
    assert_eq!(octant_index(true, true, true), 7);
    assert_eq!(octant_index(true, false, true), 5);
}

#[test]
fn upper_side_reads_the_bits_back() {
    for o in 0..8usize {
        let x = upper_side(o, 0);
        let y = upper_side(o, 1);
        let z = upper_side(o, 2);
        assert_eq!(octant_index(x, y, z), o);
    }
    assert!(upper_side(6, 1));
    assert!(upper_side(6, 2));
    assert!(!upper_side(6, 0));
}

#[test]
fn node_kinds() {
    let leaf = Node::new(3);
    assert!(leaf.is_leaf());
    assert!(!leaf.is_branch());
    assert_eq!(leaf.next, 3);
    let branch = Node { children: 9, next: 0 };
    assert!(branch.is_branch());
    assert!(!branch.is_leaf());
}

#[test]
fn clear_leaves_a_single_root() {
    let mut tree = Octree::new();
    assert!(tree.len() == 0);
    tree.clear();
    assert_eq!(tree.len(), 1);
    assert!(tree.parents().is_empty());
    assert!(tree.node(Octree::ROOT).is_leaf());
    assert_eq!(tree.node(Octree::ROOT).next, 0);
}

// Two bodies on either side of the center: the root is split once and each body lands in its
// own child, as when bodies at (2, 0, 0) and (-2, 0, 0) are inserted around the origin.
#[test]
fn split_of_the_root_for_two_bodies() {
    let mut tree = Octree::new();
    tree.clear();
    let children = tree.subdivide(Octree::ROOT);
    assert_eq!(children, 1);
    assert_eq!(tree.len(), 9);
    assert_eq!(*tree.parents(), vec![0]);
    assert_eq!(tree.node(0).children, 1);
    for i in 1..8 {
        assert_eq!(tree.node(i).next, i + 1);
        assert!(tree.node(i).is_leaf());
    }
    assert_eq!(tree.node(8).next, 0);
    let right = tree.descend(Octree::ROOT, octant_index(true, false, false));
    let left = tree.descend(Octree::ROOT, octant_index(false, false, false));
    assert_eq!(right, 2);
    assert_eq!(left, 1);
}

#[test]
fn nested_split_links_last_child_to_parent_next() {
    let mut tree = Octree::new();
    tree.clear();
    tree.subdivide(0);
    let grandchildren = tree.subdivide(3);
    assert_eq!(grandchildren, 9);
    assert_eq!(tree.len(), 17);
    assert_eq!(*tree.parents(), vec![0, 3]);
    assert_eq!(tree.node(3).children, 9);
    assert_eq!(tree.node(3).next, 4);
    assert_eq!(tree.node(16).next, 4);
    assert_eq!(tree.node(15).next, 16);
    assert_eq!(tree.descend(3, 7), 16);
}

#[test]
fn next_visit_goes_down_or_skips() {
    let mut tree = Octree::new();
    tree.clear();
    assert_eq!(tree.next_visit(0, true), None);
    tree.subdivide(0);
    tree.subdivide(8);
    assert_eq!(tree.next_visit(0, true), Some(1));
    assert_eq!(tree.next_visit(0, false), None);
    assert_eq!(tree.next_visit(2, true), Some(3));
    assert_eq!(tree.next_visit(8, true), Some(9));
    assert_eq!(tree.next_visit(8, false), None);
    assert_eq!(tree.next_visit(16, false), None);
    assert_eq!(tree.next_visit(15, false), Some(16));
}

#[test]
fn traversal_going_down_meets_every_node_once() {
    let mut tree = Octree::new();
    tree.clear();
    tree.subdivide(0);
    tree.subdivide(3);
    let mut seen = vec![Octree::ROOT];
    let mut node = Octree::ROOT;
    while let Some(next) = tree.next_visit(node, true) {
        seen.push(next);
        node = next;
    }
    assert_eq!(seen, vec![0, 1, 2, 3, 9, 10, 11, 12, 13, 14, 15, 16, 4, 5, 6, 7, 8]);
}

#[test]
fn skipping_passes_over_the_subtree() {
    let mut tree = Octree::new();
    tree.clear();
    tree.subdivide(0);
    tree.subdivide(3);
    tree.subdivide(16);
    // Skipping node 3 passes over 9..=16 and the children of 16.
    assert_eq!(tree.next_visit(3, false), Some(4));
    assert_eq!(tree.node(24).next, 4);
    assert_eq!(tree.next_visit(16, true), Some(17));
    assert_eq!(*tree.parents(), vec![0, 3, 16]);
}
