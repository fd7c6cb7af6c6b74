use avl_tree::AVLTree;

#[test]
fn test_iterators() {
    let mut tree = AVLTree::<i32>::new();
    tree.insert(18, 1337);
    tree.insert(13, 1338);
    tree.insert(17, 1339);
    tree.insert(10, 1321);
    tree.insert(1, 1321);
    tree.insert(3, 1322);
    let mut iter = tree.iter();
    assert!(iter.next().expect("should have a few values").0 == &1);
    assert!(iter.next().expect("should have a few values").0 == &3);
    assert!(iter.next().expect("should have a few values").0 == &10);
    assert!(iter.next().expect("should have a few values").0 == &13);
    assert!(iter.next().expect("should have a few values").0 == &17);
    assert!(iter.next().expect("should have a few values").0 == &18);
    assert!(iter.next().is_none());
}
