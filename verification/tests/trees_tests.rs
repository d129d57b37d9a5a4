use data_structures::trees::avl_tree::AVLTree;
use data_structures::trees::b_tree::BTree;
use data_structures::trees::binary_search_tree::BinarySearchTree;
use data_structures::trees::red_black_tree::RedBlackTree;

#[test]
fn test_binary_search_tree_insert() {
    let mut bst = BinarySearchTree::new();
    bst.insert(10);
    bst.insert(20);
    bst.insert(5);
    assert!(bst.contains(&10));
    assert!(bst.contains(&20));
    assert!(bst.contains(&5));
    assert!(!bst.contains(&15));
}

#[test]
fn test_avl_tree_insert() {
    let mut avl = AVLTree::new();
    avl.insert(10);
    avl.insert(20);
    avl.insert(5);
    assert!(avl.contains(&10));
    assert!(avl.contains(&20));
    assert!(avl.contains(&5));
    assert!(!avl.contains(&15));
}

#[test]
fn test_red_black_tree_insert() {
    let mut rbt = RedBlackTree::new();
    rbt.insert(10);
    rbt.insert(20);
    rbt.insert(5);
    assert!(rbt.contains(&10));
    assert!(rbt.contains(&20));
    assert!(rbt.contains(&5));
    assert!(!rbt.contains(&15));
}

#[test]
fn binary_search_tree_traverses_in_order() {
    let mut bst = BinarySearchTree::new();
    assert!(bst.in_order_traversal().is_empty());
    for v in [50, 30, 70, 20, 40, 60, 80, 30, 50] {
        bst.insert(v);
    }
    assert_eq!(bst.in_order_traversal(), vec![&20, &30, &40, &50, &60, &70, &80]);
    assert!(!bst.contains(&55));
}

#[test]
fn avl_tree_traverses_in_order() {
    let mut avl = AVLTree::new();
    assert!(avl.in_order_traversal().is_empty());
    for v in 1..=200 {
        avl.insert(v);
    }
    for v in (1..=200).rev() {
        avl.insert(v);
    }
    let all: Vec<i32> = (1..=200).collect();
    let refs: Vec<&i32> = all.iter().collect();
    assert_eq!(avl.in_order_traversal(), refs);
    assert!(avl.contains(&1));
    assert!(avl.contains(&200));
    assert!(!avl.contains(&0));
    assert!(!avl.contains(&201));
}

#[test]
fn avl_tree_rotates_both_ways() {
    let mut avl = AVLTree::new();
    for v in [30, 10, 20] {
        avl.insert(v);
    }
    assert_eq!(avl.in_order_traversal(), vec![&10, &20, &30]);
    let mut avl = AVLTree::new();
    for v in [10, 30, 20] {
        avl.insert(v);
    }
    assert_eq!(avl.in_order_traversal(), vec![&10, &20, &30]);
}

#[test]
fn red_black_tree_traverses_in_order() {
    let mut rbt = RedBlackTree::new();
    assert!(rbt.in_order_traversal().is_empty());
    for v in [9, 1, 8, 2, 7, 3, 6, 4, 5, 5, 9] {
        rbt.insert(v);
    }
    assert_eq!(rbt.in_order_traversal(), vec![&1, &2, &3, &4, &5, &6, &7, &8, &9]);
    for v in 1..=9 {
        assert!(rbt.contains(&v));
    }
    assert!(!rbt.contains(&0));
    assert!(!rbt.contains(&10));
}

#[test]
fn red_black_tree_takes_ascending_runs() {
    let mut rbt = RedBlackTree::new();
    for v in 0..300u32 {
        rbt.insert(v);
    }
    let all: Vec<u32> = (0..300).collect();
    let refs: Vec<&u32> = all.iter().collect();
    assert_eq!(rbt.in_order_traversal(), refs);
}

#[test]
fn test_b_tree_insert() {
    let mut btree = BTree::new(2);
    btree.insert(10);
    btree.insert(20);
    btree.insert(5);
    assert!(btree.contains(&10));
    assert!(btree.contains(&20));
    assert!(btree.contains(&5));
    assert!(!btree.contains(&15));
}

#[test]
fn b_tree_empty_holds_nothing() {
    let btree: BTree<u8> = BTree::new(3);
    assert!(!btree.contains(&0));
    assert!(btree.in_order_traversal().is_empty());
}

#[test]
fn b_tree_splits_and_keeps_order() {
    for t in 2..6usize {
        let mut btree = BTree::new(t);
        let mut state: u64 = 17 + t as u64;
        let mut expected: Vec<u64> = Vec::new();
        for _ in 0..1500 {
            state = state.wrapping_mul(6364136223846793005).wrapping_add(1442695040888963407);
            let v = (state >> 30) % 700;
            btree.insert(v);
            if let Err(at) = expected.binary_search(&v) {
                expected.insert(at, v);
            }
        }
        let refs: Vec<&u64> = expected.iter().collect();
        assert_eq!(btree.in_order_traversal(), refs);
        for v in 0..700u64 {
            assert_eq!(btree.contains(&v), expected.binary_search(&v).is_ok());
        }
    }
}

#[test]
fn b_tree_takes_a_key_once() {
    let mut btree = BTree::new(2);
    for v in [1, 2, 3, 4, 5, 6, 7, 8, 9, 10] {
        btree.insert(v);
    }
    for v in [4, 2, 6, 10, 1] {
        btree.insert(v);
    }
    assert_eq!(
        btree.in_order_traversal(),
        vec![&1, &2, &3, &4, &5, &6, &7, &8, &9, &10]
    );
}

#[test]
fn trees_clone_into_trees_of_their_own() {
    let mut bst = BinarySearchTree::new();
    let mut avl = AVLTree::new();
    let mut rbt = RedBlackTree::new();
    let mut btree = BTree::new(2);
    for v in [5, 3, 8, 1, 4, 7, 9, 2, 6] {
        bst.insert(v);
        avl.insert(v);
        rbt.insert(v);
        btree.insert(v);
    }
    let bst2 = bst.clone();
    let avl2 = avl.clone();
    let rbt2 = rbt.clone();
    let btree2 = btree.clone();
    bst.insert(10);
    avl.insert(10);
    rbt.insert(10);
    btree.insert(10);
    let nine = vec![&1, &2, &3, &4, &5, &6, &7, &8, &9];
    assert_eq!(bst2.in_order_traversal(), nine);
    assert_eq!(avl2.in_order_traversal(), nine);
    assert_eq!(rbt2.in_order_traversal(), nine);
    assert_eq!(btree2.in_order_traversal(), nine);
    assert!(bst.contains(&10) && !bst2.contains(&10));
    assert!(avl.contains(&10) && !avl2.contains(&10));
    assert!(rbt.contains(&10) && !rbt2.contains(&10));
    assert!(btree.contains(&10) && !btree2.contains(&10));
}

#[test]
fn b_tree_prints_its_keys() {
    let mut btree = BTree::new(2);
    btree.insert(41);
    btree.insert(43);
    let text = format!("{:?}", btree);
    assert!(text.contains("41") && text.contains("43"));
}
