use bst::btree::BTree;
use rand::Rng;
use std::collections::HashSet;
use std::time::Instant;

fn make_small_tree() -> BTree<i32> {
    let mut tree = BTree::new();
    tree.insert(5);
    tree.insert(3);
    tree.insert(7);
    tree
}

fn make_large_data() -> (HashSet<i32>, i32) {
    let mut rng = rand::thread_rng();
    let mut data = HashSet::new();

    while data.len() < 1_000_000 {
        data.insert(rng.gen_range(1..2_000_000));
    }

    let target = rng.gen_range(1..2_000_000);
    (data, target)
}

#[test]
fn btree_test_insert_one() {
    let mut tree = BTree::new();
    tree.insert(5);
    assert!(tree.find(&5));
}

#[test]
fn btree_test_insert_duplicate() {
    let mut tree = BTree::new();
    tree.insert(5);
    tree.insert(5);
    assert!(tree.find(&5));
}

#[test]
fn btree_test_insert_multiple() {
    let tree = make_small_tree();
    assert!(tree.find(&5));
    assert!(tree.find(&3));
    assert!(tree.find(&7));
}

#[test]
fn btree_test_find() {
    let tree = make_small_tree();
    assert!(!tree.find(&4));
    assert!(tree.find(&5));
}

#[test]
fn btree_test_delete_single_node() {
    let mut tree = BTree::new();
    tree.insert(5);
    tree.delete(5);
    assert!(!tree.find(&5));
}

#[test]
fn btree_test_delete_root() {
    let mut tree = make_small_tree();
    tree.delete(5);
    assert!(!tree.find(&5));
    assert!(tree.find(&3));
    assert!(tree.find(&7));
}

#[test]
fn btree_test_build_large_tree() {
    let (data, _) = make_large_data();
    let mut tree = BTree::new();
    let start = Instant::now();
    for &item in &data {
        tree.insert(item);
    }
    let duration = start.elapsed();
    println!("Time taken to build large tree: {:?}", duration);
}

#[test]
fn btree_test_delete_from_large_tree() {
    let (data, target) = make_large_data();
    let mut tree = BTree::new();
    for &item in &data {
        tree.insert(item);
    }
    let start = Instant::now();
    tree.delete(target);
    let duration = start.elapsed();
    println!("Time taken to delete from large tree: {:?}", duration);
    assert!(!tree.find(&target));
}

#[test]
fn btree_scenario_three_keys() {
    let tree = make_small_tree();
    assert!(tree.find(&5));
    assert!(tree.find(&3));
    assert!(tree.find(&7));
    assert!(!tree.find(&4));
    assert_eq!(tree.in_order(), vec![3, 5, 7]);
}

#[test]
fn btree_scenario_insert_then_delete_leaves_empty() {
    let mut tree = BTree::new();
    tree.insert(5);
    tree.delete(5);
    assert!(!tree.find(&5));
    assert!(tree.in_order().is_empty());
}

#[test]
fn btree_scenario_delete_root_of_three() {
    let mut tree = make_small_tree();
    tree.delete(5);
    assert!(!tree.find(&5));
    assert!(tree.find(&3));
    assert!(tree.find(&7));
    assert_eq!(tree.in_order(), vec![3, 7]);
}

#[test]
fn btree_scenario_delete_with_two_children() {
    let mut tree = BTree::new();
    for k in [5, 2, 8, 6, 9] {
        tree.insert(k);
    }
    tree.delete(5);
    assert_eq!(tree.in_order(), vec![2, 6, 8, 9]);
    assert!(!tree.find(&5));
}

#[test]
fn btree_scenario_duplicate_gets_its_own_node() {
    let mut tree = BTree::new();
    tree.insert(5);
    tree.insert(5);
    assert!(tree.find(&5));
    assert_eq!(tree.in_order(), vec![5, 5]);
    tree.delete(5);
    assert!(tree.find(&5));
    assert_eq!(tree.in_order(), vec![5]);
    tree.delete(5);
    assert!(!tree.find(&5));
    assert!(tree.in_order().is_empty());
}

#[test]
fn btree_in_order_never_decreases() {
    let mut tree = BTree::new();
    for k in [50, 20, 80, 20, 65, 10, 90, 35, 50, 70, 5, 99] {
        tree.insert(k);
    }
    for k in [20, 80, 50, 42] {
        tree.delete(k);
    }
    let keys = tree.in_order();
    assert_eq!(keys, vec![5, 10, 20, 35, 50, 65, 70, 90, 99]);
    for w in keys.windows(2) {
        assert!(w[0] <= w[1]);
    }
}

#[test]
fn btree_membership_follows_inserts_and_deletes() {
    let mut tree = BTree::new();
    tree.insert(4);
    tree.insert(4);
    tree.insert(9);
    assert!(tree.find(&4));
    assert!(tree.find(&9));
    assert!(!tree.find(&1));
    tree.delete(4);
    assert!(tree.find(&4));
    assert!(tree.find(&9));
    tree.delete(4);
    assert!(!tree.find(&4));
    assert!(tree.find(&9));
}

#[test]
fn btree_delete_absent_changes_nothing() {
    let mut tree = make_small_tree();
    tree.delete(4);
    assert_eq!(tree.in_order(), vec![3, 5, 7]);
    let mut empty: BTree<i32> = BTree::new();
    empty.delete(4);
    assert!(empty.in_order().is_empty());
}

#[test]
fn btree_node_count_follows_inserts_and_deletes() {
    let mut tree = BTree::new();
    for k in 0..100 {
        tree.insert((k * 37) % 100);
    }
    assert_eq!(tree.in_order().len(), 100);
    tree.delete(37);
    assert_eq!(tree.in_order().len(), 99);
    assert!(!tree.find(&37));
}

#[test]
fn btree_delete_successor_that_equals_target() {
    let mut tree = BTree::new();
    for k in [5, 3, 8, 5, 7] {
        tree.insert(k);
    }
    tree.delete(5);
    assert_eq!(tree.in_order(), vec![3, 5, 7, 8]);
    tree.delete(5);
    assert_eq!(tree.in_order(), vec![3, 7, 8]);
}

#[test]
fn btree_delete_one_child_cases() {
    let mut tree = BTree::new();
    for k in [10, 5, 15, 12, 3] {
        tree.insert(k);
    }
    tree.delete(15);
    assert_eq!(tree.in_order(), vec![3, 5, 10, 12]);
    tree.delete(5);
    assert_eq!(tree.in_order(), vec![3, 10, 12]);
}

#[test]
fn btree_other_key_types() {
    let mut tree: BTree<u64> = BTree::new();
    tree.insert(u64::MAX);
    tree.insert(0);
    tree.insert(7);
    assert_eq!(tree.in_order(), vec![0, 7, u64::MAX]);
    tree.delete(u64::MAX);
    assert!(!tree.find(&u64::MAX));
    let mut signed: BTree<i64> = BTree::new();
    signed.insert(-3);
    signed.insert(i64::MIN);
    assert_eq!(signed.in_order(), vec![i64::MIN, -3]);
}

#[test]
fn btree_clone_is_unaffected_by_later_changes() {
    let mut tree = make_small_tree();
    let copy = tree.clone();
    tree.delete(5);
    tree.insert(1);
    assert_eq!(tree.in_order(), vec![1, 3, 7]);
    assert_eq!(copy.in_order(), vec![3, 5, 7]);
}
