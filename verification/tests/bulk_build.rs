use binary_tree::BinaryTree;
use binary_tree::BuildError;

#[test]
fn test_from_slice_is_searchable() {
    let mut arr: Vec<i64> = vec![];
    let mut arr_for_bt = [0i64; 80000];

    for i in 0..80000 {
        arr.push(i as i64 * 2);
        arr_for_bt[i] = i as i64 * 2;
    }

    let tree = match BinaryTree::from_sorted(&arr_for_bt[..]) {
        Ok(t) => t,
        Err(_) => panic!("a non-empty slice must build a tree"),
    };

    println!("running binary search");
    for i in 0..80000 {
        assert!(tree.contains(i * 2));
        assert!(!tree.contains(i * 2 + 1));
    }
    println!("done");

    println!("running naive search");
    for i in 0..160000 {
        let should_contain = i % 2 == 0;
        let mut contains = false;
        for i2 in &arr {
            if *i2 == i {
                contains = true;
                break;
            }
        }

        assert_eq!(should_contain, contains);
    }
    println!("done");
}

#[test]
fn from_sorted_pivot_bias() {
    // Four elements: the pivot is index 4 / 2 = 2, biased right of the
    // middle, so 3 is the root, [1, 2] builds the left subtree and [4]
    // the right one.
    let tree = BinaryTree::from_sorted(&[1, 2, 3, 4]).unwrap();
    assert_eq!(3, tree.data);
    match tree.left {
        Some(l) => {
            assert_eq!(2, l.data);
            assert_eq!(Some(Box::new(BinaryTree::leaf(1))), l.left);
            assert_eq!(None, l.right);
        }
        _ => panic!("left subtree expected"),
    }
    assert_eq!(Some(Box::new(BinaryTree::leaf(4))), tree.right);
}

#[test]
fn empty_input_builds_nothing() {
    assert_eq!(Err(BuildError::EmptyInput), BinaryTree::from_sorted(&[]));
    let mut none: Vec<i64> = vec![];
    assert_eq!(Err(BuildError::EmptyInput), BinaryTree::from(&mut none));
}

#[test]
fn from_sorted_round_trip() {
    let values = [10, 20, 30, 40, 50];
    let tree = BinaryTree::from_sorted(&values).unwrap();
    for v in values {
        assert!(tree.contains(v));
    }
    for v in [5, 15, 25, 35, 45, 55] {
        assert!(!tree.contains(v));
    }
}

#[test]
fn from_sorts_its_input_in_place() {
    let mut data = vec![4, 1, 3, 2, 1];
    let tree = BinaryTree::from(&mut data).unwrap();
    assert_eq!(vec![1, 1, 2, 3, 4], data);
    assert!(tree.contains(1));
    assert!(tree.contains(4));
    assert!(!tree.contains(5));
}

#[test]
fn from_is_order_independent() {
    let mut shuffled = vec![30, 10, 50, 20, 40];
    let mut sorted = vec![10, 20, 30, 40, 50];
    let from_shuffled = BinaryTree::from(&mut shuffled).unwrap();
    let from_sorted = BinaryTree::from(&mut sorted).unwrap();
    assert_eq!(from_sorted, from_shuffled);
    for q in 0..60 {
        assert_eq!(from_sorted.contains(q), from_shuffled.contains(q));
    }
}

#[test]
fn from_sorted_keeps_duplicates() {
    // Unlike insert, bulk construction does not suppress duplicates:
    // each of the two equal elements becomes its own node.
    let tree = BinaryTree::from_sorted(&[2, 2]).unwrap();
    assert_eq!(2, tree.data);
    assert_eq!(Some(Box::new(BinaryTree::leaf(2))), tree.left);
    assert_eq!(None, tree.right);
    assert!(tree.contains(2));
}

#[test]
fn built_tree_accepts_later_inserts() {
    let mut data = vec![8, 3, 5];
    let mut tree = BinaryTree::from(&mut data).unwrap();
    tree.insert(1);
    tree.insert(9);
    tree.insert(5);
    for v in [1, 3, 5, 8, 9] {
        assert!(tree.contains(v));
    }
    for v in [0, 2, 4, 6, 7, 10] {
        assert!(!tree.contains(v));
    }
}
