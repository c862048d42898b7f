use rbtree::red_black_tree::RedBlackTree;

/// Walks the tree and returns its keys in iteration order.
fn collect_keys(tree: &RedBlackTree) -> Vec<u64> {
    let mut out = Vec::new();
    let mut it = tree.keys();
    while let Some(k) = it.next() {
        out.push(k);
    }
    out
}

/// Checks what a traversal must satisfy after any mutation: strictly
/// ascending keys and a length that matches `len()`.
fn check_traversal(tree: &RedBlackTree) {
    let keys = collect_keys(tree);
    assert_eq!(keys.len(), tree.len());
    for w in keys.windows(2) {
        assert!(w[0] < w[1]);
    }
}

#[test]
fn empty() {
    let _x: RedBlackTree = RedBlackTree::new();
}

#[test]
fn insert() {
    let mut tree = RedBlackTree::new();

    tree.insert(15, 7);
    tree.insert(2, 7);
    tree.insert(5, 3);
    tree.insert(12, 23);
    tree.insert(12, 25);
    tree.insert(4, 12);
    tree.insert(6, 15);
    tree.insert(7, 3);
    tree.insert(3, 21);
    tree.insert(9, 91);
    assert_eq!(tree.len(), 9);

    let vec = collect_keys(&tree);
    assert_eq!(vec, [2, 3, 4, 5, 6, 7, 9, 12, 15]);
}

#[test]
fn test_lots_of_insertions() {
    let mut m = RedBlackTree::new();

    // Try this a few times to make sure we never screw up the tree's
    // internal state.
    for _ in 0..10 {
        assert!(m.is_empty());

        for i in 1..101 {
            m.insert(i, i);

            for j in 1..i + 1 {
                let r = m.get(j);
                assert_eq!(r, Some(j));
            }

            for j in i + 1..101 {
                let r = m.get(j);
                assert_eq!(r, None);
            }
        }

        for i in 101..201 {
            assert!(!m.contains_key(i));
        }

        // remove forwards
        for i in 1..101 {
            assert!(m.remove(i).is_some());

            for j in 1..i + 1 {
                assert!(!m.contains_key(j));
            }

            for j in i + 1..101 {
                assert!(m.contains_key(j));
            }
        }

        for i in 1..101 {
            assert!(!m.contains_key(i));
        }

        for i in 1..101 {
            m.insert(i, i);
        }

        // remove backwards
        for i in (1..101).rev() {
            assert!(m.remove(i).is_some());

            for j in i..101 {
                assert!(!m.contains_key(j));
            }

            for j in 1..i {
                assert!(m.contains_key(j));
            }
        }
    }
}

#[test]
fn sequential_scenario() {
    let mut tree = RedBlackTree::new();
    for (k, v) in [
        (15u64, 1u64),
        (2, 2),
        (5, 3),
        (12, 23),
        (12, 25),
        (4, 4),
        (6, 5),
        (7, 6),
        (3, 7),
        (9, 8),
    ] {
        tree.insert(k, v);
        check_traversal(&tree);
    }
    assert_eq!(tree.len(), 9);
    assert_eq!(collect_keys(&tree), [2, 3, 4, 5, 6, 7, 9, 12, 15]);
    assert_eq!(tree.get(12), Some(25));
}

#[test]
fn idempotent_insert() {
    let mut tree = RedBlackTree::new();
    tree.insert(42, 1);
    let before = tree.len();
    tree.insert(42, 2);
    assert_eq!(tree.len(), before);
    assert_eq!(tree.len(), 1);
    assert_eq!(tree.get(42), Some(2));
}

#[test]
fn round_trip_ascending_and_descending() {
    let mut tree = RedBlackTree::new();
    for i in 0..60u64 {
        tree.insert(i * 3, i);
        check_traversal(&tree);
    }
    for i in 0..60u64 {
        assert_eq!(tree.remove(i * 3), Some(i));
        check_traversal(&tree);
    }
    assert!(tree.is_empty());
    assert_eq!(tree.len(), 0);

    for i in 0..60u64 {
        tree.insert(i * 3, i);
    }
    for i in (0..60u64).rev() {
        assert_eq!(tree.remove(i * 3), Some(i));
        check_traversal(&tree);
    }
    assert!(tree.is_empty());
}

#[test]
fn remove_absent_leaves_tree_alone() {
    let mut tree = RedBlackTree::new();
    tree.insert(1, 10);
    tree.insert(2, 20);
    assert_eq!(tree.remove(7), None);
    assert_eq!(tree.len(), 2);
    assert_eq!(tree.get(1), Some(10));
    assert_eq!(tree.get(2), Some(20));
}

#[test]
fn rotation_preserves_order() {
    let mut tree = RedBlackTree::new();
    for k in [50u64, 25, 75, 10, 30, 60, 90, 5, 12] {
        tree.insert(k, k + 100);
    }
    let before = collect_keys(&tree);

    tree.rotate_left();
    assert_eq!(collect_keys(&tree), before);

    tree.rotate_right();
    assert_eq!(collect_keys(&tree), before);

    // a rotated tree still answers lookups
    tree.rotate_left();
    for k in [50u64, 25, 75, 10, 30, 60, 90, 5, 12] {
        assert_eq!(tree.get(k), Some(k + 100));
    }
}

#[test]
fn boundary_empty_tree() {
    let mut tree = RedBlackTree::new();
    assert_eq!(tree.len(), 0);
    assert!(tree.is_empty());
    assert_eq!(tree.get(0), None);
    assert_eq!(tree.get(u64::MAX), None);
    assert_eq!(tree.remove(3), None);
    assert!(!tree.contains_key(3));
    let mut it = tree.iter();
    assert_eq!(it.next(), None);
    assert_eq!(it.next_back(), None);
    let mut ks = tree.keys();
    assert_eq!(ks.next(), None);
    let mut vs = tree.values();
    assert_eq!(vs.next(), None);
}

#[test]
fn iter_walks_both_ends() {
    let mut tree = RedBlackTree::new();
    for k in [4u64, 1, 3, 2, 5] {
        tree.insert(k, k * 10);
    }
    let mut it = tree.iter();
    assert_eq!(it.next(), Some((1, 10)));
    assert_eq!(it.next_back(), Some((5, 50)));
    assert_eq!(it.next(), Some((2, 20)));
    assert_eq!(it.next_back(), Some((4, 40)));
    assert_eq!(it.next(), Some((3, 30)));
    assert_eq!(it.next(), None);
    assert_eq!(it.next_back(), None);
}

#[test]
fn values_follow_key_order() {
    let mut tree = RedBlackTree::new();
    tree.insert(3, 33);
    tree.insert(1, 11);
    tree.insert(2, 22);
    let mut vs = tree.values();
    assert_eq!(vs.next(), Some(11));
    assert_eq!(vs.next(), Some(22));
    assert_eq!(vs.next_back(), Some(33));
    assert_eq!(vs.next(), None);
}

#[test]
fn clear_and_default() {
    let mut tree = RedBlackTree::default();
    tree.insert(1, 1);
    tree.insert(2, 2);
    tree.clear();
    assert!(tree.is_empty());
    assert_eq!(tree.get(1), None);
    tree.insert(9, 9);
    assert_eq!(tree.get(9), Some(9));
}

#[test]
fn largest_and_smallest_keys() {
    let mut tree = RedBlackTree::new();
    tree.insert(u64::MAX, 1);
    tree.insert(0, 2);
    tree.insert(u64::MAX - 1, 3);
    assert_eq!(collect_keys(&tree), [0, u64::MAX - 1, u64::MAX]);
    assert_eq!(tree.remove(u64::MAX), Some(1));
    assert_eq!(tree.get(u64::MAX - 1), Some(3));
}
