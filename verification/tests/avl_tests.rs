use mini_redis::avl::{collect, delete, insert, verify, AVLNode};
use std::collections::BTreeSet;

fn values(root: &Option<Box<AVLNode>>) -> Vec<u32> {
    let mut vals = vec![];
    collect(root, &mut vals);
    vals
}

fn depth_of(root: &Option<Box<AVLNode>>) -> u32 {
    root.as_ref().map_or(0, |n| n.depth)
}

#[test]
fn basic_insert_and_delete() {
    let mut root: Option<Box<AVLNode>> = None;
    assert!(verify(&root));

    root = Some(insert(root, 123));
    assert!(verify(&root));
    assert_eq!(values(&root), vec![123]);

    let (new_root, deleted) = delete(root, 999);
    root = new_root;
    assert!(!deleted); // 999 was never inserted

    let (new_root, deleted) = delete(root, 123);
    root = new_root;
    assert!(deleted);
    assert!(verify(&root));
    assert!(root.is_none());
}

#[test]
fn sequential_insertion() {
    let mut root = None;
    let mut reference = BTreeSet::new();
    for i in (0..1000u32).step_by(3) {
        root = Some(insert(root, i));
        reference.insert(i);
        assert!(verify(&root));
        let ref_vals: Vec<u32> = reference.iter().cloned().collect();
        assert_eq!(values(&root), ref_vals, "mismatch after inserting {}", i);
    }
    // 334 nodes: an AVL tree of that size is at most 11 levels deep
    assert_eq!(root.as_ref().unwrap().cnt, 334);
    assert!(depth_of(&root) <= 11);
}

#[test]
fn random_insertion_and_deletion() {
    let mut root = None;
    let mut reference = BTreeSet::new();
    for i in 0..100u32 {
        let val = (i * 17 + 3) % 1000; // pseudo-random
        root = Some(insert(root, val));
        reference.insert(val);
        assert!(verify(&root));
    }
    for i in 0..200u32 {
        let val = (i * 13 + 7) % 1000;
        let (new_root, deleted) = delete(root, val);
        root = new_root;
        let was_there = reference.remove(&val);
        assert_eq!(deleted, was_there, "delete mismatch for val {}", val);
        assert!(verify(&root));
    }
    let ref_vals: Vec<u32> = reference.iter().cloned().collect();
    assert_eq!(values(&root), ref_vals);
}

#[test]
fn insert_at_every_position() {
    for sz in 0..50u32 {
        for val in 0..sz {
            let mut root = None;
            for i in 0..sz {
                if i != val {
                    root = Some(insert(root, i));
                }
            }
            assert!(verify(&root));
            root = Some(insert(root, val));
            assert!(verify(&root));
            let expected: Vec<u32> = (0..sz).collect();
            assert_eq!(values(&root), expected);
        }
    }
}

#[test]
fn delete_at_every_position() {
    for sz in 1..50u32 {
        for val in 0..sz {
            let mut root = None;
            for i in 0..sz {
                root = Some(insert(root, i));
            }
            let (new_root, deleted) = delete(root, val);
            root = new_root;
            assert!(deleted);
            assert!(verify(&root));
            let expected: Vec<u32> = (0..sz).filter(|&i| i != val).collect();
            assert_eq!(values(&root), expected);
        }
    }
}

#[test]
fn duplicates_are_kept_and_removed_one_at_a_time() {
    let mut root = None;
    for v in [5u32, 3, 5, 8, 5] {
        root = Some(insert(root, v));
        assert!(verify(&root));
    }
    assert_eq!(values(&root), vec![3, 5, 5, 5, 8]);
    let (r, deleted) = delete(root, 5);
    assert!(deleted);
    assert!(verify(&r));
    assert_eq!(values(&r), vec![3, 5, 5, 8]);
    assert_eq!(r.as_ref().unwrap().cnt, 4);
}

#[test]
fn delete_after_insert_restores_values() {
    let mut root = None;
    for i in 0..40u32 {
        root = Some(insert(root, (i * 7) % 40));
    }
    let before = values(&root);
    let with = Some(insert(root, 17));
    let (after, deleted) = delete(with, 17);
    assert!(deleted);
    assert_eq!(values(&after), before);
}

#[test]
fn new_node_is_a_leaf() {
    let n = AVLNode::new(42);
    assert_eq!((n.depth, n.cnt, n.val), (1, 1, 42));
    assert!(n.left.is_none() && n.right.is_none());
}

#[test]
fn rotations_keep_depths_exact() {
    // ascending inserts force left rotations, descending ones right rotations
    let mut root = None;
    for i in 0..7u32 {
        root = Some(insert(root, i));
    }
    assert_eq!(depth_of(&root), 3);
    assert_eq!(root.as_ref().unwrap().val, 3);
    let mut root = None;
    for i in (0..7u32).rev() {
        root = Some(insert(root, i));
    }
    assert_eq!(depth_of(&root), 3);
    assert_eq!(root.as_ref().unwrap().val, 3);
    // left-right and right-left double rotations
    let root = Some(insert(Some(insert(Some(insert(None, 30)), 10)), 20));
    assert_eq!(root.as_ref().unwrap().val, 20);
    assert_eq!(values(&root), vec![10, 20, 30]);
    let root = Some(insert(Some(insert(Some(insert(None, 10)), 30)), 20));
    assert_eq!(root.as_ref().unwrap().val, 20);
    assert!(verify(&root));
}

fn leaf(v: u32) -> Option<Box<AVLNode>> {
    Some(AVLNode::new(v))
}

#[test]
fn verify_rejects_broken_trees() {
    // wrong count
    let mut n = AVLNode::new(5);
    n.cnt = 2;
    assert!(!verify(&Some(n)));
    // wrong depth
    let mut n = AVLNode::new(5);
    n.depth = 3;
    assert!(!verify(&Some(n)));
    // left child larger than parent
    let n = Box::new(AVLNode { depth: 2, cnt: 2, val: 5, left: leaf(9), right: None });
    assert!(!verify(&Some(n)));
    // right child smaller than parent
    let n = Box::new(AVLNode { depth: 2, cnt: 2, val: 5, left: None, right: leaf(1) });
    assert!(!verify(&Some(n)));
    // unbalanced: a chain of three to the right
    let c = Box::new(AVLNode { depth: 2, cnt: 2, val: 6, left: None, right: leaf(7) });
    let n = Box::new(AVLNode { depth: 3, cnt: 3, val: 5, left: None, right: Some(c) });
    assert!(!verify(&Some(n)));
    // a correct hand-built tree passes
    let n = Box::new(AVLNode { depth: 2, cnt: 3, val: 5, left: leaf(5), right: leaf(6) });
    assert!(verify(&Some(n)));
}

#[test]
fn verify_checks_order_across_whole_subtrees() {
    // 7 sits in the left subtree of 5, below 3: every cached field is exact
    // and each child is on the right side of its own parent
    let l = Box::new(AVLNode { depth: 2, cnt: 3, val: 3, left: leaf(1), right: leaf(7) });
    let n = Box::new(AVLNode { depth: 3, cnt: 5, val: 5, left: Some(l), right: leaf(9) });
    assert!(!verify(&Some(n)));
    // 2 sits in the right subtree of 5, below 8
    let r = Box::new(AVLNode { depth: 2, cnt: 3, val: 8, left: leaf(2), right: leaf(9) });
    let n = Box::new(AVLNode { depth: 3, cnt: 5, val: 5, left: leaf(1), right: Some(r) });
    assert!(!verify(&Some(n)));
    // the same shapes, ordered, pass
    let l = Box::new(AVLNode { depth: 2, cnt: 3, val: 3, left: leaf(1), right: leaf(4) });
    let n = Box::new(AVLNode { depth: 3, cnt: 5, val: 5, left: Some(l), right: leaf(9) });
    assert!(verify(&Some(n)));
}
