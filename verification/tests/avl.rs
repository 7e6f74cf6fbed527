use binary_tree::AVLNode;
use binary_tree::AVLTreeSet;
use std::collections::BTreeSet;

/// Walks every node, checking the cached height and the AVL balance bound,
/// and returns the subtree height.
fn check_node(n: &AVLNode) -> usize {
    let lh = n.left.as_ref().map_or(0, |c| check_node(c));
    let rh = n.right.as_ref().map_or(0, |c| check_node(c));
    assert_eq!(n.height, 1 + lh.max(rh));
    let diff = if lh > rh { lh - rh } else { rh - lh };
    assert!(diff <= 1);
    n.height
}

fn check_invariants(s: &AVLTreeSet) {
    if let Some(root) = s.root.as_ref() {
        check_node(root);
    }
}

#[test]
fn iter_insert() {
    let mut set = AVLTreeSet::new();

    for i in (1..4 as u64).rev() {
        set.insert(i);
    }

    let mut iter = set.iter();
    assert_eq!(iter.next(), Some(1));
    assert_eq!(iter.next(), Some(2));
    assert_eq!(iter.next(), Some(3));
    assert_eq!(iter.next(), None);
}

#[test]
fn descending_inserts_balance() {
    let mut set = AVLTreeSet::new();
    assert!(set.insert(3));
    assert!(set.insert(2));
    assert!(set.insert(1));
    assert_eq!(set.to_vec(), vec![1, 2, 3]);
    assert_eq!(set.root.as_ref().unwrap().height, 2);
    check_invariants(&set);
}

#[test]
fn take_odd_values() {
    let mut set = AVLTreeSet::new();
    for v in 1..=100 {
        assert!(set.insert(v));
    }
    check_invariants(&set);
    for v in 1..=100 {
        if v % 2 == 1 {
            assert_eq!(set.take(&v), Some(v));
        }
    }
    check_invariants(&set);
    let evens: Vec<u64> = (1..=50).map(|k| 2 * k).collect();
    assert_eq!(set.to_vec(), evens);
}

#[test]
fn empty_set_operations() {
    let mut set = AVLTreeSet::new();
    assert_eq!(set.take(&0), None);
    assert_eq!(set.take(&17), None);
    assert!(!set.contains(&0));
    assert!(!set.contains(&u64::MAX));
    assert_eq!(set.to_vec(), Vec::<u64>::new());
    let mut iter = set.iter();
    assert_eq!(iter.next(), None);
}

#[test]
fn duplicate_insert_rejected() {
    let mut set = AVLTreeSet::new();
    assert!(set.insert(5));
    assert!(set.insert(9));
    assert!(!set.insert(5));
    assert_eq!(set.to_vec(), vec![5, 9]);
    assert!(set.insert(7));
    assert!(!set.insert(9));
    assert_eq!(set.to_vec(), vec![5, 7, 9]);
}

#[test]
fn take_then_contains() {
    let mut set = AVLTreeSet::new();
    for v in [8, 3, 11, 1, 6, 10, 14] {
        assert!(set.insert(v));
    }
    assert_eq!(set.take(&6), Some(6));
    assert!(!set.contains(&6));
    for v in [8, 3, 11, 1, 10, 14] {
        assert!(set.contains(&v));
    }
    assert_eq!(set.take(&6), None);
    assert_eq!(set.take(&2), None);
    assert_eq!(set.to_vec(), vec![1, 3, 8, 10, 11, 14]);
}

#[test]
fn rotations_preserve_order() {
    let mut set = AVLTreeSet::new();
    for v in [4, 2, 6, 1, 3, 5, 7] {
        set.insert(v);
    }
    let expected = set.clone();
    let root = set.root.as_mut().unwrap();
    assert!(root.rotate_right());
    assert_eq!(set.to_vec(), vec![1, 2, 3, 4, 5, 6, 7]);
    let root = set.root.as_mut().unwrap();
    assert!(root.rotate_left());
    assert_eq!(set.to_vec(), vec![1, 2, 3, 4, 5, 6, 7]);
    // The round trip restores the original tree, not just its order.
    assert_eq!(set, expected);
}

#[test]
fn rotation_on_missing_child() {
    let mut set = AVLTreeSet::new();
    set.insert(1);
    set.insert(2);
    // The root has no left child, so a right rotation is not applicable.
    let root = set.root.as_mut().unwrap();
    assert!(!root.rotate_right());
    assert_eq!(set.to_vec(), vec![1, 2]);
}

#[test]
fn balance_factor_values() {
    let mut set = AVLTreeSet::new();
    set.insert(2);
    set.insert(1);
    assert_eq!(set.root.as_ref().unwrap().balance_factor(), 1);
    set.insert(3);
    assert_eq!(set.root.as_ref().unwrap().balance_factor(), 0);
    set.insert(4);
    assert_eq!(set.root.as_ref().unwrap().balance_factor(), -1);
    assert_eq!(set.root.as_ref().unwrap().left_height(), 1);
    assert_eq!(set.root.as_ref().unwrap().right_height(), 2);
}

#[test]
fn from_vec_ignores_duplicates() {
    let values = vec![5, 1, 5, 3, 1, 9];
    let set = AVLTreeSet::from_vec(&values);
    assert_eq!(set.to_vec(), vec![1, 3, 5, 9]);
    check_invariants(&set);
}

#[test]
fn default_is_empty() {
    let set = AVLTreeSet::default();
    assert_eq!(set.to_vec(), Vec::<u64>::new());
}

#[test]
fn reference_parity() {
    let mut avl = AVLTreeSet::new();
    let mut reference = BTreeSet::new();
    let mut state: u64 = 0x2545f4914f6cdd1d;
    for _ in 0..300 {
        state = state.wrapping_mul(6364136223846793005).wrapping_add(1442695040888963407);
        let v = (state >> 33) % 48;
        let op = (state >> 29) & 3;
        if op == 0 {
            let expected = if reference.remove(&v) { Some(v) } else { None };
            assert_eq!(avl.take(&v), expected);
        } else {
            assert_eq!(avl.insert(v), reference.insert(v));
        }
        assert_eq!(avl.contains(&v), reference.contains(&v));
        let snapshot: Vec<u64> = reference.iter().cloned().collect();
        assert_eq!(avl.to_vec(), snapshot);
        check_invariants(&avl);
    }
}
