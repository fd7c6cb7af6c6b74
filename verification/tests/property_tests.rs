use avl_tree::AVLTree;
use avl_tree::Bound;
use avl_tree::node::Node;
use avl_tree::node::to_string;

// Inserting the same key twice keeps one entry with the latest value.
#[test]
fn test_insert_overwrite() {
    let mut t = AVLTree::<i32>::new();
    t.insert(7, 1);
    t.insert(9, 5);
    t.insert(7, 2);
    assert_eq!(t.get(7), Some(&2));
    let mut it = t.iter();
    let mut count = 0;
    while let Some(_) = it.next() {
        count += 1;
    }
    assert_eq!(count, 2);
}

// After a deletion the other keys keep their values.
#[test]
fn test_delete_keeps_others() {
    let mut t = AVLTree::<i32>::new();
    t.insert(10, 100);
    t.insert(20, 200);
    t.insert(30, 300);
    t.delete(20);
    assert!(!t.contains(20));
    assert_eq!(t.get(10), Some(&100));
    assert_eq!(t.get(30), Some(&300));
}

// Both invariants hold after a fixed mixed sequence of operations.
#[test]
fn test_invariants_after_operations() {
    let mut t = AVLTree::<i32>::new();
    let keys = [18u64, 13, 17, 10, 1, 3, 14, 4, 2, 16];
    for (i, k) in keys.iter().enumerate() {
        t.insert(*k, i as i32);
        assert!(t.test_avl_tree());
    }
    for k in [13u64, 1, 18, 4].iter() {
        t.delete(*k);
        assert!(t.test_avl_tree());
        assert!(!t.contains(*k));
    }
}

// The empty tree answers every query with nothing and survives deletes.
#[test]
fn test_empty_tree_behavior() {
    let mut t = AVLTree::<i32>::new();
    assert!(t.min().is_none());
    assert!(t.max().is_none());
    assert!(t.get(42).is_none());
    let mut it = t.iter();
    assert!(it.next().is_none());
    t.delete(42);
    assert!(t.empty());
}

// Iteration yields every inserted key exactly once, strictly ascending.
#[test]
fn test_ordered_iteration() {
    let mut t = AVLTree::<i32>::new();
    let keys = [41u64, 7, 23, 99, 3, 58, 12, 77, 31, 64];
    for k in keys.iter() {
        t.insert(*k, 0);
    }
    let mut it = t.iter();
    let mut seen: Vec<u64> = Vec::new();
    while let Some((k, _)) = it.next() {
        if let Some(last) = seen.last() {
            assert!(last < k);
        }
        seen.push(*k);
    }
    assert_eq!(seen.len(), keys.len());
    for k in keys.iter() {
        assert!(seen.contains(k));
    }
}

// A range whose bounds exclude every key yields nothing.
#[test]
fn test_range_outside_keys() {
    let mut t = AVLTree::<i32>::new();
    t.insert(32, 1337);
    t.insert(34, 1338);
    let mut it = t.range(Bound::Excluded(34), Bound::Unbounded);
    assert!(it.next().is_none());
    let mut it = t.range(Bound::Unbounded, Bound::Excluded(32));
    assert!(it.next().is_none());
    let mut it = t.range(Bound::Included(33), Bound::Included(33));
    assert!(it.next().is_none());
}

// The successor query works for keys that are not themselves stored.
#[test]
fn test_successor_of_absent_key() {
    let mut t = AVLTree::<i32>::new();
    t.insert(10, 1);
    t.insert(20, 2);
    let mut it = t.range(Bound::Excluded(15), Bound::Unbounded);
    let first = it.next().expect("a key above 15 exists");
    assert_eq!(first.0, &20);
}

// The rendering of small trees, digit by digit.
#[test]
fn test_to_string_format() {
    let leaf = Box::new(Node::<i32>::new(5, 1));
    assert_eq!(leaf.to_string(), "N 5(h: 1 l: \u{d8}, r: \u{d8})");
    let t = avl_tree::node::insert(27, 2, leaf);
    assert_eq!(t.to_string(), "N 5(h: 2 l: \u{d8}, r: N 27(h: 1 l: \u{d8}, r: \u{d8}))");
    assert_eq!(to_string::<i32>(&None), "\u{d8}");
}
