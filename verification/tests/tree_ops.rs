use binary_tree::BinaryTree;

#[test]
fn bt_leaf() {
    let bt = BinaryTree::leaf(5);
    assert_eq!(5, bt.data);
    assert_eq!(None as Option<Box<BinaryTree>>, bt.left);
    assert_eq!(None as Option<Box<BinaryTree>>, bt.right);
}

#[test]
fn bt_leftonly() {
    let l = BinaryTree::leaf(1);
    let bt = BinaryTree::left(5, l);
    assert_eq!(5, bt.data);
    match bt.left {
        Some(btl) => assert_eq!(BinaryTree::leaf(1), *btl),
        _ => assert!(false),
    }
    assert_eq!(None as Option<Box<BinaryTree>>, bt.right);
}

#[test]
fn bt_rightonly() {
    let r = BinaryTree::leaf(10);
    let bt = BinaryTree::right(5, r);
    assert_eq!(5, bt.data);
    match bt.right {
        Some(btr) => assert_eq!(BinaryTree::leaf(10), *btr),
        _ => assert!(false),
    }
    assert_eq!(None as Option<Box<BinaryTree>>, bt.left);
}

#[test]
fn bt_branch() {
    let l = BinaryTree::leaf(1);
    let r = BinaryTree::leaf(10);
    let bt = BinaryTree::branch(5, l, r);
    assert_eq!(5, bt.data);
    match bt.left {
        Some(btl) => assert_eq!(BinaryTree::leaf(1), *btl),
        _ => assert!(false),
    }
    match bt.right {
        Some(btr) => assert_eq!(BinaryTree::leaf(10), *btr),
        _ => assert!(false),
    }
}

#[test]
fn leaf_contains_true() {
    let bt = BinaryTree::leaf(5);
    assert!(bt.contains(5));
}

#[test]
fn leaf_contains_false_going_right() {
    let bt = BinaryTree::leaf(5);
    assert!(!bt.contains(6));
}

#[test]
fn leaf_contains_false_going_left() {
    let bt = BinaryTree::leaf(5);
    assert!(!bt.contains(4));
}

#[test]
fn branch_contains_goes_left() {
    let l = BinaryTree::leaf(1);
    let bt = BinaryTree::left(5, l);
    assert!(bt.contains(1));
}

#[test]
fn branch_contains_goes_right() {
    let l = BinaryTree::leaf(10);
    let bt = BinaryTree::right(5, l);
    assert!(bt.contains(10));
}

#[test]
fn leaf_inserts_left() {
    let mut bt = BinaryTree::leaf(5);
    bt.insert(1);
    match bt.left {
        Some(btl) => assert_eq!(BinaryTree::leaf(1), *btl),
        _ => assert!(false),
    }
}

#[test]
fn leaf_inserts_right() {
    let mut bt = BinaryTree::leaf(5);
    bt.insert(10);
    match bt.right {
        Some(btr) => assert_eq!(BinaryTree::leaf(10), *btr),
        _ => assert!(false),
    }
}

#[test]
fn insert_routes_both_sides_of_a_leaf() {
    let mut bt = BinaryTree::leaf(5);
    bt.insert(1);
    bt.insert(10);
    assert_eq!(5, bt.data);
    match &bt.left {
        Some(btl) => assert_eq!(BinaryTree::leaf(1), **btl),
        _ => assert!(false),
    }
    match &bt.right {
        Some(btr) => assert_eq!(BinaryTree::leaf(10), **btr),
        _ => assert!(false),
    }
    assert!(bt.contains(1));
    assert!(bt.contains(5));
    assert!(bt.contains(10));
    assert!(!bt.contains(2));
}

#[test]
fn insert_duplicate_is_a_noop() {
    let mut once = BinaryTree::leaf(5);
    once.insert(3);
    once.insert(8);
    once.insert(3);
    let mut twice = BinaryTree::leaf(5);
    twice.insert(3);
    twice.insert(8);
    twice.insert(3);
    twice.insert(3);
    assert_eq!(once, twice);
}

#[test]
fn inserted_values_stay_present() {
    let mut bt = BinaryTree::leaf(50);
    let values = [20, 70, 10, 30, 60, 80, 25];
    for v in values {
        bt.insert(v);
        assert!(bt.contains(v));
    }
    for v in values {
        assert!(bt.contains(v));
    }
    assert!(bt.contains(50));
    assert!(!bt.contains(0));
    assert!(!bt.contains(55));
}

#[test]
fn extreme_values_route_correctly() {
    let mut bt = BinaryTree::leaf(0);
    bt.insert(i64::MIN);
    bt.insert(i64::MAX);
    assert!(bt.contains(i64::MIN));
    assert!(bt.contains(i64::MAX));
    assert!(bt.contains(0));
    assert!(!bt.contains(1));
}
