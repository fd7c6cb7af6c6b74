use avl_tree::node::Node;
use avl_tree::node::contains;
use avl_tree::node::delete;
use avl_tree::node::delete_root;
use avl_tree::node::drop_min;
use avl_tree::node::height;
use avl_tree::node::insert;
use avl_tree::node::is_avl_node;
use avl_tree::node::max;
use avl_tree::node::max_pair;
use avl_tree::node::min;
use avl_tree::node::min_after;
use avl_tree::node::min_pair;
use avl_tree::node::simple_tree;

#[test]
fn simple_tree_operations() {
    let mut t = Box::new(Node::<i32> {
        key: 3,
        data: 4,
        height: 2,
        left: Some(Box::new(Node::<i32> { key: 2, data: 5, height: 1, left: None, right: None })),
        right: None,
    });
    assert!(is_avl_node(&t));
    assert!(contains::<i32>(&3, &t));
    assert!(contains::<i32>(&2, &t));
    assert!(!contains::<i32>(&6, &t));
    assert!(!contains::<i32>(&4, &t));
    t = insert::<i32>(4, 7, t);
    t = insert::<i32>(5, 7, t);
    t = insert::<i32>(6, 8, t);
    assert!(contains::<i32>(&4, &t));
    assert!(contains::<i32>(&6, &t));
    assert!(!contains::<i32>(&7, &t));
}

#[test]
fn rotations_on_tree() {
    let mut t = Box::new(Node::<i32> { key: 1, data: 1337, height: 1, left: None, right: None });
    for i in 2..255 {
        t = insert::<i32>(i, 1337, t);
        assert!(is_avl_node(&t));
    }
    // check that the tree is indeed balanced
    assert!(height(&Some(t)) <= 8);
}

#[test]
fn test_drop_min() {
    let mut t = simple_tree(3);
    let (maybe_tree, min) = drop_min(t);
    t = maybe_tree.expect("failure to get tree for first min delete");
    assert!(is_avl_node(&t));
    assert!(min.key == 1);
    assert!(!contains::<i32>(&1, &t));
    assert!(contains::<i32>(&2, &t));
    assert!(contains::<i32>(&3, &t));

    let (maybe_tree, min) = drop_min(t);
    t = maybe_tree.expect("failure to get tree for second min delete");
    assert!(is_avl_node(&t));
    assert!(min.key == 2);
    assert!(!contains::<i32>(&1, &t));
    assert!(!contains::<i32>(&2, &t));
    assert!(contains::<i32>(&3, &t));

    let (maybe_tree, min) = drop_min(t);
    assert!(maybe_tree.is_none());
    assert!(min.key == 3);
}

#[test]
fn test_drop_root() {
    let mut t = simple_tree(3);
    let maybe_tree = delete_root(t);
    t = maybe_tree.expect("failure to get tree for first root drop");
    assert!(is_avl_node(&t));
    println!("{}", t.to_string());
    assert!(t.height == 2);
    assert!(contains::<i32>(&1, &t));
    assert!(!contains::<i32>(&2, &t));
    assert!(contains::<i32>(&3, &t));

    let maybe_tree = delete_root(t);
    t = maybe_tree.expect("failure to get tree for second root drop");
    assert!(is_avl_node(&t));
    assert!(contains::<i32>(&1, &t));
    assert!(!contains::<i32>(&2, &t));
    assert!(!contains::<i32>(&3, &t));

    let maybe_tree = delete_root(t);
    assert!(maybe_tree.is_none());
}

#[test]
fn node_test_delete() {
    let mut t = simple_tree(10);
    for i in 1..10u64 {
        assert!(contains::<i32>(&i, &t));
        let maybe_tree = delete(i, t);
        t = maybe_tree.expect("failure to get tree for delete");
        assert!(!contains::<i32>(&i, &t));
        assert!(is_avl_node(&t));
    }
    assert!(contains::<i32>(&10, &t));
    let maybe_tree = delete(10, t);
    assert!(maybe_tree.is_none());
}

#[test]
fn test_min_max() {
    let t = simple_tree(50);
    assert_eq!(min(&t), &1337);
    assert_eq!(max(&t), &(1337 + 50 - 1));
    assert_eq!(max_pair(&t).0, &50);
    assert_eq!(min_pair(&t).0, &1);
}

#[test]
fn test_min_after() {
    let t = simple_tree(50);
    for old_key in 0..55u64 {
        println!("trying value: {}", old_key);
        match min_after(&old_key, &t) {
            Some((k, _d)) => assert_eq!(k, &(old_key + 1)),
            None => assert!(old_key >= 50),
        }
    }
}
