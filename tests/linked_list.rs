use rust_tree::list::linked_list::LinkedList;
use rust_tree::util::{make_list_string, make_list_usize};

const SAMPLES: usize = 10;

#[test]
fn test_push_contains() {
    let values = make_list_string(SAMPLES);
    let mut list = LinkedList::new();
    for val in &values {
        list.push(val.clone());
    }
    for val in values {
        assert!(list.contains(&val));
    }
}

#[test]
fn test_push_pop() {
    let values = make_list_string(SAMPLES);
    let mut list = LinkedList::new();
    for val in &values {
        list.push(val.clone());
    }
    for val in values.iter().rev() {
        assert_eq!(list.pop().unwrap(), *val);
        assert!(!list.contains(val));
    }
}

#[test]
fn test_peek() {
    let values = make_list_string(SAMPLES);
    let mut list = LinkedList::new();
    assert_eq!(list.peek(), None);
    for val in &values {
        list.push(val.clone());
        assert_eq!(list.peek(), Some(val));
    }
}

#[test]
fn test_peek_mut() {
    let values = make_list_string(SAMPLES);
    let mut list: LinkedList<String> = LinkedList::new();
    assert_eq!(list.peek_mut(), None);
    for val in &values {
        list.push(val.clone());
        list.peek_mut().unwrap().push('-');
        assert_eq!(list.peek().unwrap(), &(val.clone() + "-"));
    }
}

#[test]
fn test_into_iter() {
    let values = make_list_string(SAMPLES);
    let mut list = LinkedList::new();
    for val in &values {
        list.push(val.clone());
    }

    let mut vector: Vec<String> = Vec::new();
    let mut iter = list.into_iter();
    while let Some(value) = iter.next() {
        vector.push(value);
    }
    for (left, right) in vector.iter().rev().zip(values.iter()) {
        assert_eq!(left, right);
    }
}

#[test]
fn test_iter() {
    let values = make_list_string(SAMPLES);
    let mut list = LinkedList::new();
    for val in &values {
        list.push(val.clone());
    }

    let mut iter = list.iter();
    let mut expected = values.iter().rev();
    while let Some(left) = iter.next() {
        let right = expected.next().unwrap();
        assert_eq!(left, right);
    }
}

#[test]
fn test_iter_mut() {
    let mut values = make_list_string(SAMPLES);
    let mut list = LinkedList::new();
    for val in &values {
        list.push(val.clone());
    }

    let mut iter = list.iter_mut();
    let mut expected = values.iter_mut().rev();
    while let Some(left) = iter.next() {
        *left = format!("-{}", left);
        let right = expected.next().unwrap();
        *right = format!("-{}", right);
        assert_eq!(left, right);
    }
}

#[test]
fn list_pop_empty_gives_none() {
    let mut list: LinkedList<u32> = LinkedList::new();
    assert_eq!(list.pop(), None);
    list.push(1);
    assert_eq!(list.pop(), Some(1));
    assert_eq!(list.pop(), None);
}

#[test]
fn list_iter_mut_writes_back() {
    let mut list: LinkedList<u32> = LinkedList::default();
    list.push(1);
    list.push(2);
    let mut iter = list.iter_mut();
    while let Some(v) = iter.next() {
        *v *= 10;
    }
    assert_eq!(list.pop(), Some(20));
    assert_eq!(list.pop(), Some(10));
}

#[test]
fn util_lists_count_from_one() {
    assert_eq!(make_list_usize(4), vec![1, 2, 3, 4]);
    assert_eq!(make_list_usize(0), Vec::<usize>::new());
    let strings = make_list_string(12);
    assert_eq!(strings.len(), 12);
    assert_eq!(strings[0], "1");
    assert_eq!(strings[9], "10");
    assert_eq!(strings[11], "12");
}
