use rand::seq::SliceRandom;
use rand::Rng;
use rust_tree::tree::rb_tree::{Branch, InsertState, RBTree};
use rust_tree::tree::rbtree_node::{Color, RBTreeNode, RotDir, RuleViolation};

fn tree_of(keys: &[u32]) -> RBTree<u32, String> {
    let mut tree = RBTree::new();
    for &k in keys {
        assert_eq!(tree.insert(k, k.to_string()), None);
    }
    tree
}

fn keys_asc(tree: &RBTree<u32, String>) -> Vec<u32> {
    tree.traverse_asc().into_iter().map(|(k, _)| *k).collect()
}

#[test]
fn scenario_neighbors_of_ten() {
    let tree = tree_of(&[10, 20, 5, 15, 25, 3, 8]);
    assert_eq!(tree.smallest(), Some((&3, &"3".to_string())));
    assert_eq!(tree.largest(), Some((&25, &"25".to_string())));
    assert_eq!(tree.smaller(&10), Some((&8, &"8".to_string())));
    assert_eq!(tree.larger(&10), Some((&15, &"15".to_string())));
}

#[test]
fn ascending_inserts_keep_rules_and_order() {
    let mut tree = RBTree::new();
    for k in 1..=100u32 {
        tree.insert(k, k.to_string());
        assert!(tree.check_rules().is_ok());
    }
    assert_eq!(keys_asc(&tree), (1..=100).collect::<Vec<u32>>());
}

#[test]
fn random_inserts_then_random_removes() {
    let mut rng = rand::thread_rng();
    let mut keys: Vec<u32> = Vec::new();
    let mut tree = RBTree::new();
    while keys.len() < 2000 {
        let k = rng.gen_range(0..100_000u32);
        if !tree.contains(&k) {
            assert_eq!(tree.insert(k, k.to_string()), None);
            keys.push(k);
            assert!(tree.check_rules().is_ok());
        }
    }
    keys.shuffle(&mut rng);
    for k in &keys {
        assert_eq!(tree.remove(k), Some(k.to_string()));
        assert!(!tree.contains(k));
        assert_eq!(tree.remove(k), None);
    }
    assert_eq!(tree.smallest(), None);
}

#[test]
fn second_insert_returns_first_value() {
    let mut tree = tree_of(&[4, 2, 6]);
    assert_eq!(tree.insert(2, "a".to_string()), Some("2".to_string()));
    assert_eq!(tree.insert(2, "b".to_string()), Some("a".to_string()));
    assert_eq!(tree.find(&2), Some(&"b".to_string()));
    assert!(tree.check_rules().is_ok());
}

#[test]
fn remove_of_absent_key_changes_nothing() {
    let keys = [50u32, 30, 70, 20, 40, 60, 80];
    let mut tree = tree_of(&keys);
    let before: Vec<(u32, String)> =
        tree.traverse_top_down().into_iter().map(|(k, v)| (*k, v.clone())).collect();
    assert_eq!(tree.remove(&55), None);
    let after: Vec<(u32, String)> =
        tree.traverse_top_down().into_iter().map(|(k, v)| (*k, v.clone())).collect();
    assert_eq!(before, after);
    for k in keys {
        assert!(tree.contains(&k));
    }
}

#[test]
fn traversal_is_sorted_and_distinct() {
    let tree = tree_of(&[9, 1, 8, 2, 7, 3, 6, 4, 5]);
    assert_eq!(keys_asc(&tree), vec![1, 2, 3, 4, 5, 6, 7, 8, 9]);
}

#[test]
fn predecessors_and_successors_follow_sorted_keys() {
    let keys = [40u32, 10, 30, 20, 50];
    let tree = tree_of(&keys);
    let sorted = keys_asc(&tree);
    for i in 0..sorted.len() {
        let below = tree.smaller(&sorted[i]).map(|(k, _)| *k);
        let above = tree.larger(&sorted[i]).map(|(k, _)| *k);
        assert_eq!(below, if i == 0 { None } else { Some(sorted[i - 1]) });
        assert_eq!(above, sorted.get(i + 1).copied());
    }
}

#[test]
fn top_down_traversal_starts_at_root() {
    let tree = tree_of(&[1, 2, 3]);
    let order: Vec<u32> = tree.traverse_top_down().into_iter().map(|(k, _)| *k).collect();
    assert_eq!(order, vec![2, 1, 3]);
}

#[test]
fn empty_tree_queries() {
    let mut tree: RBTree<u32, String> = RBTree::default();
    assert_eq!(tree.check_rules(), Ok(0));
    assert_eq!(tree.largest(), None);
    assert_eq!(tree.smaller(&3), None);
    assert_eq!(tree.larger(&3), None);
    assert_eq!(tree.remove(&3), None);
    assert!(tree.find_mut(&3).is_none());
    assert!(tree.traverse_asc().is_empty());
}

#[test]
fn black_height_of_small_trees() {
    assert_eq!(tree_of(&[1]).check_rules(), Ok(1));
    assert_eq!(tree_of(&[2, 1, 3]).check_rules(), Ok(1));
    assert_eq!(tree_of(&[2, 1, 3, 4]).check_rules(), Ok(2));
}

#[test]
fn red_root_after_removal_is_reported() {
    let mut tree = tree_of(&[10, 20]);
    assert_eq!(tree.remove(&10), Some("10".to_string()));
    assert_eq!(tree.check_rules(), Err(RuleViolation::RedRoot(&20)));
}

#[test]
fn black_height_mismatch_after_removal_is_reported() {
    let mut tree = tree_of(&[10, 5, 20, 1]);
    assert_eq!(tree.remove(&20), Some("20".to_string()));
    assert_eq!(tree.check_rules(), Err(RuleViolation::BlackHeightMismatch(&10)));
}

#[test]
fn consecutive_reds_after_removal_are_reported() {
    let mut tree = tree_of(&[10, 5, 20, 1, 7, 15, 25, 3]);
    assert_eq!(tree.remove(&1), Some("1".to_string()));
    assert_eq!(tree.check_rules(), Err(RuleViolation::ConsecutiveReds(&5)));
}

#[test]
fn removal_with_two_children_takes_successor() {
    let mut tree = tree_of(&[10, 5, 20, 15, 25]);
    assert_eq!(tree.remove(&10), Some("10".to_string()));
    let order: Vec<u32> = tree.traverse_top_down().into_iter().map(|(k, _)| *k).collect();
    assert_eq!(order, vec![15, 5, 20, 25]);
}

#[test]
fn insert_into_tree_that_lost_its_colors() {
    let mut tree = tree_of(&[10, 20]);
    tree.remove(&10);
    assert_eq!(tree.insert(30, "30".to_string()), None);
    assert_eq!(tree.insert(25, "25".to_string()), None);
    assert_eq!(keys_asc(&tree), vec![20, 25, 30]);
}

#[test]
fn node_insert_reports_conflict_below_red_node() {
    let mut node = RBTreeNode::new(10u32, "10".to_string());
    let leaf = Box::new(RBTreeNode::new(5u32, "5".to_string()));
    assert_eq!(
        node.insert_node_rb(leaf, false),
        (None, InsertState::Conflict(Branch::Smaller))
    );
    let mut node = RBTreeNode::new_black(10u32, "10".to_string());
    let leaf = Box::new(RBTreeNode::new(15u32, "15".to_string()));
    assert_eq!(node.insert_node_rb(leaf, true), (None, InsertState::Clean));
    let again = Box::new(RBTreeNode::new(10u32, "x".to_string()));
    assert_eq!(
        node.insert_node_rb(again, true),
        (Some("10".to_string()), InsertState::Clean)
    );
}

#[test]
fn node_insert_rec_and_remove() {
    let mut node = RBTreeNode::new_black(10u32, "10".to_string());
    assert_eq!(node.insert_node_rec(Box::new(RBTreeNode::new(5, "5".to_string()))), None);
    assert_eq!(node.insert_node_rec(Box::new(RBTreeNode::new(7, "7".to_string()))), None);
    assert_eq!(
        node.insert_node_rec(Box::new(RBTreeNode::new(7, "seven".to_string()))),
        Some("7".to_string())
    );
    assert_eq!(node.remove(&10), None);
    assert_eq!(node.remove(&5), Some("5".to_string()));
    assert_eq!(node.smaller.as_ref().unwrap().key, 7);
    let mut out = Vec::new();
    node.traverse_asc(&mut out);
    assert_eq!(out, vec![(&7, &"seven".to_string()), (&10, &"10".to_string())]);
}

#[test]
fn rotation_without_child_fails() {
    let node = Box::new(RBTreeNode::new_black(1u32, ()));
    let node = match node.left_rotate() {
        Ok(_) => panic!("rotated without a larger child"),
        Err((same, _)) => same,
    };
    assert!(node.right_rotate().is_err());
    let mut parent = RBTreeNode::new_black(2u32, ());
    assert!(parent.rotate_child(RotDir::Left, Branch::Larger).is_err());
    parent.smaller = Some(Box::new(RBTreeNode::new(1u32, ())));
    assert!(parent.rotate_child(RotDir::Left, Branch::Smaller).is_err());
    assert!(parent.rotate_child(RotDir::Right, Branch::Smaller).is_err());
    assert_eq!(parent.smaller.as_ref().unwrap().color, Color::Red);
}

#[test]
fn left_rotation_recolors() {
    let mut top = Box::new(RBTreeNode::new_black(1u32, ()));
    top.larger = Some(Box::new(RBTreeNode::new(2u32, ())));
    let rotated = match top.left_rotate() {
        Ok(n) => n,
        Err(_) => panic!("larger child present"),
    };
    assert_eq!(rotated.key, 2);
    assert_eq!(rotated.color, Color::Black);
    let below = rotated.smaller.as_ref().unwrap();
    assert_eq!(below.key, 1);
    assert_eq!(below.color, Color::Red);
}
