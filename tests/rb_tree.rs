use rand::Rng;
use rust_tree::tree::rb_tree::{Branch, RBTree};
use rust_tree::tree::rbtree_node::{Color, RBTreeNode, RotDir};

fn count(tree: &RBTree<u32, String>) -> usize {
    tree.traverse_asc().len()
}

#[test]
fn rb_test_first_level() {
    let mut tree: RBTree<String, String> = RBTree::new();
    assert_eq!(tree.insert(10.to_string(), "v0_10".to_string()), None);
    assert_eq!(
        tree.insert(10.to_string(), "v1_10".to_string()),
        Some("v0_10".to_string())
    );
    assert_eq!(tree.find(&"10".to_string()), Some(&"v1_10".to_string()));
    assert_eq!(tree.find(&"11".to_string()), None);
}

#[test]
fn rb_test_next_level() {
    let values = ["10", "20", "05", "15", "25", "03", "08"];

    let mut tree: RBTree<String, String> = RBTree::new();
    for value in values {
        assert_eq!(
            tree.insert(value.to_string(), String::from("v1_") + value),
            None
        );
    }

    for value in values {
        assert_eq!(
            tree.insert(value.to_string(), String::from("v2_") + value),
            Some(String::from("v1_") + value)
        );
    }

    for value in values {
        assert_eq!(
            tree.find(&value.to_string()),
            Some(&(String::from("v2_") + value))
        );
    }

    assert_eq!(tree.find(&11.to_string()), None)
}

#[test]
fn rb_test_remove() {
    let values = [10u32, 20, 5, 15, 25, 3, 8, 4, 1, 9, 6, 13, 17, 22, 27];
    let mut tree: RBTree<u32, String> = RBTree::new();
    for value in values {
        assert_eq!(tree.insert(value, value.to_string()), None);
    }

    assert_eq!(tree.remove(&10), Some(10.to_string()));
    assert!(!tree.contains(&10));
    if let Err(msg) = tree.check_rules() {
        panic!("invalid tree after remove {}: {:?}", 10, msg);
    }

    assert_eq!(tree.remove(&5), Some(5.to_string()));
    assert!(!tree.contains(&5));

    assert_eq!(tree.remove(&20), Some(20.to_string()));
    assert!(!tree.contains(&20));

    let values = [10u32, 20, 5];
    let mut tree: RBTree<u32, String> = RBTree::new();
    for value in values {
        assert_eq!(tree.insert(value, value.to_string()), None);
    }
    assert_eq!(tree.remove(&20), Some(20.to_string()));
    assert!(!tree.contains(&20));
    assert_eq!(tree.remove(&5), Some(5.to_string()));
    assert!(!tree.contains(&5));

    let values = [10u32, 20, 5, 15, 25, 3, 8, 4, 1, 9, 6, 13, 17, 22, 27];

    let mut tree: RBTree<u32, String> = RBTree::new();
    for value in values {
        assert_eq!(tree.insert(value, value.to_string()), None);
    }

    for value in values {
        assert_eq!(tree.remove(&value), Some(value.to_string()));
        assert_eq!(tree.find(&value), None);
        assert_eq!(tree.remove(&value), None);
    }
}

#[test]
fn rb_test_find_mut() {
    let values = [10u32, 20, 5, 15, 25, 3, 8];
    let mut tree: RBTree<u32, String> = RBTree::new();
    for value in values {
        assert_eq!(tree.insert(value, value.to_string()), None);
    }
    for value in values {
        if let Some(found) = tree.find_mut(&value) {
            *found = (value * 2).to_string();
        } else {
            panic!("key not found: {}", value)
        }
    }

    for value in values {
        assert_eq!(tree.find(&value), Some(&(value * 2).to_string()));
    }
}

#[test]
fn rb_test_smallest() {
    let values = [10u32, 20, 5, 15, 25, 3, 8, 22, 24];

    let mut tree: RBTree<u32, String> = RBTree::new();
    assert_eq!(tree.smallest(), None);
    for value in values {
        assert_eq!(tree.insert(value, value.to_string()), None);
    }
    assert_eq!(tree.smallest(), Some((&3, &3.to_string())))
}

#[test]
fn rb_test_largest() {
    let values = [10u32, 20, 5, 15, 25, 3, 8];

    let mut tree: RBTree<u32, String> = RBTree::new();
    assert_eq!(tree.smallest(), None);
    for value in values {
        assert_eq!(tree.insert(value, value.to_string()), None);
    }

    assert_eq!(tree.largest(), Some((&25, &25.to_string())))
}

#[test]
fn rb_test_smaller() {
    let mut values = [10u32, 20, 5, 15, 25, 3, 8];

    let mut tree: RBTree<u32, String> = RBTree::new();
    for value in values {
        assert_eq!(tree.insert(value, value.to_string()), None);
    }

    values.sort();
    values.reverse();
    let mut iter = values.iter();
    let mut key = iter.next().expect("No test cases found");
    for val in iter {
        if let Some((lkey, lval)) = tree.smaller(&key) {
            assert_eq!(val, lkey);
            assert_eq!(val.to_string(), *lval);
            key = lkey;
        } else {
            panic!("expected {}, found None @ key {}", val, key);
        }
    }

    assert_eq!(tree.smaller(&key), None);

    for val in values {
        if let Some((lkey, lval)) = tree.smaller(&(val + 1)) {
            assert_eq!(val, *lkey);
            assert_eq!(val.to_string(), *lval);
        } else {
            panic!("expected {}, found None @ key {}", val, key);
        }
    }
}

#[test]
fn rb_test_larger() {
    let mut values = [10u32, 20, 5, 15, 25, 3, 8];

    let mut tree: RBTree<u32, String> = RBTree::new();
    for value in values {
        assert_eq!(tree.insert(value, value.to_string()), None);
    }

    values.sort();
    let mut iter = values.iter();
    let mut key = iter.next().expect("empty test array");
    for val in iter {
        if let Some((lkey, lval)) = tree.larger(&key) {
            assert_eq!(val, lkey);
            assert_eq!(val.to_string(), *lval);
            key = lkey;
        } else {
            panic!("expected {}, found None @ key {}", val, key);
        }
    }

    assert_eq!(tree.larger(&key), None);

    for val in values {
        if let Some((lkey, lval)) = tree.larger(&(val - 1)) {
            assert_eq!(val, *lkey);
            assert_eq!(val.to_string(), *lval);
        } else {
            panic!("expected {}, found None @ key {}", val, key);
        }
    }
}

#[test]
fn rb_test_contains() {
    let values = [10u32, 20, 5, 15, 25, 3, 8];

    let mut tree: RBTree<u32, String> = RBTree::new();
    assert_eq!(tree.smallest(), None);
    for value in values {
        assert_eq!(tree.insert(value, value.to_string()), None);
    }
    for val in values {
        assert_eq!(tree.contains(&val), true);
    }
    assert_eq!(tree.contains(&100), false);
}

#[test]
fn rb_test_traverse() {
    let mut values = [10u32, 20, 5, 15, 25, 3, 8];

    let mut tree: RBTree<u32, String> = RBTree::new();
    for value in values {
        assert_eq!(tree.insert(value, value.to_string()), None);
    }

    values.sort();
    let mut iter = values.iter();
    for (key, value) in tree.traverse_asc() {
        let xpctd_key = iter.next().expect("unexpected end of values encountered");
        assert_eq!(key, xpctd_key);
        assert_eq!(value, &xpctd_key.to_string());
    }
}

#[test]
fn rb_test_insert() {
    let mut tree: RBTree<u32, String> = RBTree::new();
    for val in 1..=100 {
        assert_eq!(tree.insert(val, val.to_string()), None);
        if let Err(msg) = tree.check_rules() {
            panic!("RB violation after insert of {}, msg: {:?}", val, msg)
        }
    }
    assert_eq!(count(&tree), 100);

    let mut tree: RBTree<u32, String> = RBTree::new();
    for val in (1..=100).rev() {
        assert_eq!(tree.insert(val, val.to_string()), None);
        if let Err(msg) = tree.check_rules() {
            panic!("RB violation after insert of {}, msg: {:?}", val, msg)
        }
    }
    assert_eq!(count(&tree), 100, "invalid node count");

    let mut tree: RBTree<u32, String> = RBTree::new();
    let mut rng = rand::thread_rng();

    const MAX: u32 = 10000;
    let mut entries = Vec::new();
    for _ in 1..=MAX {
        loop {
            let val = rng.gen_range(1..MAX * 4);
            if !tree.contains(&val) {
                assert_eq!(tree.insert(val, val.to_string()), None);
                entries.push(val);
                if let Err(msg) = tree.check_rules() {
                    panic!("RB violation after insert of {}, msg: {:?}", val, msg)
                }
                break;
            }
        }
    }

    let count = count(&tree);
    assert_eq!(
        count, MAX as usize,
        "invalid node count {}, should be {}",
        count, MAX
    );

    for val in entries {
        assert_eq!(tree.find(&val), Some(&val.to_string()));
    }
}

fn leaf(key: u32, value: u32) -> Option<Box<RBTreeNode<u32, String>>> {
    Some(Box::new(RBTreeNode {
        key,
        value: value.to_string(),
        color: Color::Black,
        smaller: None,
        larger: None,
    }))
}

fn inner(
    key: u32,
    smaller: Option<Box<RBTreeNode<u32, String>>>,
    larger: Option<Box<RBTreeNode<u32, String>>>,
) -> Option<Box<RBTreeNode<u32, String>>> {
    Some(Box::new(RBTreeNode {
        key,
        value: key.to_string(),
        color: Color::Black,
        smaller,
        larger,
    }))
}

#[test]
fn test_rotate() {
    let mut tree = RBTreeNode {
        key: 10,
        value: 10.to_string(),
        color: Color::Black,
        smaller: inner(5, inner(3, leaf(2, 1), leaf(4, 4)), inner(8, leaf(7, 7), leaf(9, 9))),
        larger: inner(
            20,
            inner(15, leaf(12, 12), leaf(17, 17)),
            inner(25, leaf(22, 22), leaf(27, 27)),
        ),
    };

    assert_eq!(tree.rotate_child(RotDir::Left, Branch::Smaller), Ok(()));
    assert_eq!(tree.smaller.as_ref().unwrap().key, 8);
    assert_eq!(tree.smaller.as_ref().unwrap().smaller.as_ref().unwrap().key, 5);

    assert_eq!(tree.rotate_child(RotDir::Right, Branch::Smaller), Ok(()));
    assert_eq!(tree.smaller.as_ref().unwrap().key, 5);
}
