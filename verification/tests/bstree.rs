use algorithm_study::bstree::BSTree;

#[test]
fn foo() {
    let mut bstree = BSTree::new();
    assert!(bstree.remove(0).is_err());
    bstree.insert(0, ());
    assert!(bstree.remove(0).is_ok());
    assert_eq!(bstree.pre_order_traversal(), "**[Empty]**");

    bstree.insert(1, ());
    bstree.insert(2, ());
    bstree.insert(0, ());

    assert!(bstree.remove(1).is_ok());
    assert!(bstree.remove(10).is_err());

    bstree.insert(3, ());
    bstree.insert(5, ());
    bstree.insert(0, ());
    bstree.insert(4, ());

    assert_eq!(bstree.pre_order_traversal(), "[0, 2, 0, 3, 5, 4]");
    assert_eq!(bstree.in_order_traversal(), "[0, 0, 2, 3, 4, 5]");
    assert_eq!(bstree.post_order_traversal(), "[0, 4, 5, 3, 2, 0]");
    assert_eq!(bstree.breadth_first_traversal(), "[0, 2, 0, 3, 5, 4]");

    let mut bstree = BSTree::from_slice(&[
        ('F', 1u8),
        ('B', 2),
        ('G', 3),
        ('A', 4),
        ('D', 5),
        ('I', 6),
        ('C', 7),
        ('E', 8),
        ('H', 9),
    ]);
    assert_eq!(bstree.pre_order_traversal(), "[F, B, A, D, C, E, G, I, H]");
    assert_eq!(bstree.in_order_traversal(), "[A, B, C, D, E, F, G, H, I]");
    assert_eq!(bstree.post_order_traversal(), "[A, C, E, D, B, H, I, G, F]");
    assert_eq!(
        bstree.breadth_first_traversal(),
        "[F, B, G, A, D, I, C, E, H]"
    );
    assert_eq!(bstree.get('D'), Some(5));
    assert_eq!(bstree.get('F'), Some(1));
    assert_eq!(bstree.remove('Z'), Err(()));
    assert_eq!(bstree.get('C'), Some(7));
    assert_eq!(bstree.remove('F'), Ok(1));
    assert_eq!(bstree.breadth_first_traversal(), "[E, B, G, A, D, I, C, H]");
    assert_eq!(bstree.remove('G'), Ok(3));
    assert_eq!(bstree.breadth_first_traversal(), "[E, B, I, A, D, H, C]");
    assert_eq!(bstree.remove('Z'), Err(()));
}

#[test]
fn get_after_insert_returns_value() {
    let mut tree = BSTree::new();
    tree.insert(8, "eight");
    tree.insert(3, "three");
    tree.insert(12, "twelve");
    assert_eq!(tree.get(8), Some("eight"));
    assert_eq!(tree.get(3), Some("three"));
    assert_eq!(tree.get(12), Some("twelve"));
    assert_eq!(tree.get(7), None);
}

#[test]
fn remove_then_get_misses() {
    let mut tree = BSTree::from_slice(&[(5, 50), (2, 20), (9, 90), (7, 70)]);
    assert_eq!(tree.remove(7), Ok(70));
    assert_eq!(tree.get(7), None);
    assert_eq!(tree.remove(7), Err(()));
    assert_eq!(tree.in_order_traversal(), "[2, 5, 9]");
}

#[test]
fn remove_on_empty_tree_misses() {
    let mut tree = BSTree::<i32, i32>::new();
    assert_eq!(tree.remove(0), Err(()));
    assert_eq!(tree.remove(-3), Err(()));
    assert_eq!(tree.in_order_traversal(), "**[Empty]**");
}

#[test]
fn remove_missing_key_keeps_tree() {
    let mut tree = BSTree::from_slice(&[(4, ()), (1, ()), (6, ()), (5, ())]);
    let before = tree.in_order_traversal();
    assert_eq!(tree.remove(3), Err(()));
    assert_eq!(tree.in_order_traversal(), before);
    assert_eq!(tree.in_order_traversal(), "[1, 4, 5, 6]");
}

#[test]
fn removal_covers_every_child_state() {
    // Leaf, right-child-only, left-child-only, and the two shapes of the
    // two-child case: predecessor right below, and down a right chain.
    let mut tree = BSTree::from_slice(&[(50, ()), (20, ()), (80, ()), (10, ()), (30, ()), (70, ())]);

    // state 00: 10 is a leaf.
    assert!(tree.remove(10).is_ok());
    assert_eq!(tree.in_order_traversal(), "[20, 30, 50, 70, 80]");

    // state 01: 20 now has only a right child (30).
    assert!(tree.remove(20).is_ok());
    assert_eq!(tree.in_order_traversal(), "[30, 50, 70, 80]");

    // state 10: 80 has only a left child (70).
    assert!(tree.remove(80).is_ok());
    assert_eq!(tree.in_order_traversal(), "[30, 50, 70]");

    // state 11, predecessor is the left child itself (30 has no right child).
    assert!(tree.remove(50).is_ok());
    assert_eq!(tree.in_order_traversal(), "[30, 70]");
    assert_eq!(tree.breadth_first_traversal(), "[30, 70]");

    // state 11 with a right-descending chain below the left child:
    // predecessor of 60 is 55, the right-most node of its left subtree.
    let mut tree = BSTree::from_slice(&[(60, ()), (40, ()), (90, ()), (35, ()), (55, ()), (50, ())]);
    assert!(tree.remove(60).is_ok());
    assert_eq!(tree.in_order_traversal(), "[35, 40, 50, 55, 90]");
    assert_eq!(tree.breadth_first_traversal(), "[55, 40, 90, 35, 50]");

    // state 11 below the root rather than at it.
    let mut tree = BSTree::from_slice(&[(1, ()), (60, ()), (40, ()), (90, ()), (35, ()), (55, ()), (50, ())]);
    assert!(tree.remove(60).is_ok());
    assert_eq!(tree.in_order_traversal(), "[1, 35, 40, 50, 55, 90]");
    assert_eq!(tree.breadth_first_traversal(), "[1, 55, 40, 90, 35, 50]");
}

#[test]
fn in_order_is_ascending_after_mixed_ops() {
    let mut tree = BSTree::new();
    for k in [13, 4, 27, 1, 9, 20, 35, 6, 11, 16] {
        tree.insert(k, k * 10);
    }
    assert_eq!(tree.in_order_traversal(), "[1, 4, 6, 9, 11, 13, 16, 20, 27, 35]");
    assert!(tree.remove(13).is_ok());
    assert!(tree.remove(1).is_ok());
    assert!(tree.remove(35).is_ok());
    assert_eq!(tree.in_order_traversal(), "[4, 6, 9, 11, 16, 20, 27]");
}

#[test]
fn negative_keys_render_with_sign() {
    let mut tree = BSTree::new();
    tree.insert(-5, ());
    tree.insert(3, ());
    tree.insert(-12, ());
    tree.insert(0, ());
    assert_eq!(tree.in_order_traversal(), "[-12, -5, 0, 3]");
}
