use data_forest::avl_tree::AVLTree;
use data_forest::binary_search_tree::operations;
use data_forest::binary_search_tree::BinarySearchTree;
use data_forest::red_black_tree::RedBlackTree;

/// A fixed pseudo-random sequence of keys, with repeats.
fn scrambled(n: i64) -> Vec<i64> {
    let mut out = Vec::new();
    let mut x: i64 = 7;
    for _ in 0..n {
        x = (x * 1103515245 + 12345) % 2147483648;
        out.push(x % 97 - 40);
    }
    out
}

fn sorted_unique(values: &[i64]) -> Vec<i64> {
    let mut v = values.to_vec();
    v.sort();
    v.dedup();
    v
}

#[test]
fn seven_keys_in_all_three_trees() {
    let values = vec![5, 3, 7, 2, 4, 6, 8];
    let mut bst = BinarySearchTree::new();
    let mut avl = AVLTree::new();
    let mut rbt = RedBlackTree::new();
    for v in &values {
        bst.insert(*v);
        avl.insert(*v);
        rbt.insert(*v);
    }
    let sorted = vec![&2, &3, &4, &5, &6, &7, &8];
    assert_eq!(bst.in_order(), sorted);
    assert_eq!(avl.in_order(), sorted);
    assert_eq!(rbt.in_order(), sorted);
    assert_eq!(bst.pre_order(), vec![&5, &3, &2, &4, &7, &6, &8]);
    assert_eq!(bst.post_order(), vec![&2, &4, &3, &6, &8, &7, &5]);
    assert_eq!(bst.level_order(), vec![&5, &3, &7, &2, &4, &6, &8]);
    bst.remove(&2);
    avl.remove(&2);
    rbt.remove(&2);
    assert_eq!(bst.min(), Some(&3));
    assert_eq!(avl.min(), Some(&3));
    assert_eq!(rbt.min(), Some(&3));
}

#[test]
fn avl_rotations_change_pre_order_not_in_order() {
    let mut avl = AVLTree::new();
    let mut bst = BinarySearchTree::new();
    for v in [1, 2, 3, 4, 5] {
        avl.insert(v);
        bst.insert(v);
    }
    assert_eq!(avl.pre_order(), vec![&2, &1, &4, &3, &5]);
    assert_eq!(bst.pre_order(), vec![&1, &2, &3, &4, &5]);
    assert_eq!(avl.in_order(), bst.in_order());
    assert_eq!(avl.level_order(), vec![&2, &1, &4, &3, &5]);
    assert_eq!(avl.post_order(), vec![&1, &3, &5, &4, &2]);
}

#[test]
fn ascending_keys_stay_shallow() {
    let mut bst = BinarySearchTree::new();
    let mut avl = AVLTree::new();
    let mut rbt = RedBlackTree::new();
    for i in 1..=20 {
        bst.insert(i);
        avl.insert(i);
        rbt.insert(i);
    }
    assert_eq!(bst.height(), 19);
    assert!(avl.height() <= 10);
    assert!(rbt.height() <= 10);
    assert_eq!(avl.height(), 4);
    assert!(avl.is_balanced());
    assert!(rbt.is_valid_red_black_tree());
}

#[test]
fn in_order_is_strictly_increasing() {
    let values = scrambled(300);
    let mut bst = BinarySearchTree::new();
    let mut avl = AVLTree::new();
    let mut rbt = RedBlackTree::new();
    for v in &values {
        bst.insert(*v);
        avl.insert(*v);
        rbt.insert(*v);
    }
    let expected = sorted_unique(&values);
    let expected_refs: Vec<&i64> = expected.iter().collect();
    assert_eq!(bst.in_order(), expected_refs);
    assert_eq!(avl.in_order(), expected_refs);
    assert_eq!(rbt.in_order(), expected_refs);
    assert_eq!(bst.number_of_elements(), expected.len());
    assert_eq!(avl.number_of_elements(), expected.len());
    assert_eq!(rbt.number_of_elements(), expected.len());
}

#[test]
fn balance_and_color_rules_hold_after_every_operation() {
    let values = scrambled(200);
    let mut avl = AVLTree::new();
    let mut rbt = RedBlackTree::new();
    for v in &values {
        avl.insert(*v);
        rbt.insert(*v);
        assert!(avl.is_balanced());
        assert!(avl.is_valid_bst());
        assert!(rbt.is_valid_red_black_tree());
        assert!(rbt.is_valid_bst());
    }
    for v in values.iter().rev().step_by(2) {
        avl.remove(v);
        rbt.remove(v);
        assert!(avl.is_balanced());
        assert!(avl.is_valid_bst());
        assert!(rbt.is_valid_red_black_tree());
        assert!(rbt.is_valid_bst());
    }
    for v in [-1000, 1000] {
        rbt.remove(&v);
        avl.remove(&v);
        assert!(rbt.is_valid_red_black_tree());
        assert!(avl.is_balanced());
    }
}

#[test]
fn height_is_logarithmic() {
    for n in [1usize, 2, 3, 7, 8, 31, 100, 255, 256] {
        let mut avl = AVLTree::new();
        let mut rbt = RedBlackTree::new();
        for i in 0..n {
            avl.insert(i);
            rbt.insert(n - i);
        }
        let bound = 2.0 * ((n + 1) as f64).log2();
        assert!((avl.height() as f64) <= bound);
        assert!((rbt.height() as f64) <= bound);
    }
}

#[test]
fn membership_follows_inserts_and_removes() {
    let mut bst = BinarySearchTree::new();
    let mut avl = AVLTree::new();
    let mut rbt = RedBlackTree::new();
    for v in 0..50 {
        bst.insert(v);
        avl.insert(v);
        rbt.insert(v);
    }
    for v in (0..50).filter(|v| v % 3 == 0) {
        bst.remove(&v);
        avl.remove(&v);
        rbt.remove(&v);
    }
    for v in 0..50 {
        let kept = v % 3 != 0;
        assert_eq!(bst.contains(&v), kept);
        assert_eq!(avl.contains(&v), kept);
        assert_eq!(rbt.contains(&v), kept);
    }
    assert!(!bst.contains(&50));
    assert!(!avl.contains(&-1));
}

#[test]
fn min_and_max_track_the_key_set() {
    let values = scrambled(120);
    let mut bst = BinarySearchTree::new();
    let mut avl = AVLTree::new();
    let mut rbt = RedBlackTree::new();
    let mut present: Vec<i64> = Vec::new();
    for v in &values {
        bst.insert(*v);
        avl.insert(*v);
        rbt.insert(*v);
        present.push(*v);
        assert_eq!(bst.min(), present.iter().min());
        assert_eq!(avl.max(), present.iter().max());
        assert_eq!(rbt.min(), present.iter().min());
    }
    for v in &values {
        bst.remove(v);
        avl.remove(v);
        rbt.remove(v);
        present.retain(|x| x != v);
        assert_eq!(bst.max(), present.iter().max());
        assert_eq!(avl.min(), present.iter().min());
        assert_eq!(rbt.max(), present.iter().max());
    }
    assert_eq!(bst.min(), None);
    assert_eq!(avl.max(), None);
    assert_eq!(rbt.min(), None);
    assert!(rbt.is_empty());
}

#[test]
fn ceiling_and_floor_around_present_keys() {
    let mut bst = BinarySearchTree::new();
    let mut avl = AVLTree::new();
    let mut rbt = RedBlackTree::new();
    for v in [10, 20, 30, 40] {
        bst.insert(v);
        avl.insert(v);
        rbt.insert(v);
    }
    for v in [10, 20, 30, 40] {
        assert_eq!(bst.ceil(&v), Some(&v));
        assert_eq!(avl.floor(&v), Some(&v));
        assert_eq!(rbt.ceil(&v), rbt.floor(&v));
    }
    assert_eq!(bst.ceil(&25), Some(&30));
    assert_eq!(bst.floor(&25), Some(&20));
    assert_eq!(avl.ceil(&11), Some(&20));
    assert_eq!(avl.floor(&39), Some(&30));
    assert_eq!(rbt.ceil(&31), Some(&40));
    assert_eq!(rbt.floor(&19), Some(&10));
    assert_eq!(bst.floor(&9), None);
    assert_eq!(avl.floor(&-5), None);
    assert_eq!(rbt.ceil(&41), None);
    assert_eq!(bst.ceil(&100), None);
}

#[test]
fn inserting_a_present_key_changes_nothing() {
    let values = vec![8, 4, 12, 2, 6, 10, 1, 7];
    let mut bst = BinarySearchTree::new();
    let mut avl = AVLTree::new();
    let mut rbt = RedBlackTree::new();
    for v in &values {
        bst.insert(*v);
        avl.insert(*v);
        rbt.insert(*v);
    }
    let bst_before: Vec<i32> = bst.pre_order().into_iter().copied().collect();
    let avl_before: Vec<i32> = avl.pre_order().into_iter().copied().collect();
    let rbt_before: Vec<i32> = rbt.pre_order().into_iter().copied().collect();
    for v in &values {
        bst.insert(*v);
        avl.insert(*v);
        rbt.insert(*v);
    }
    assert_eq!(bst.pre_order().into_iter().copied().collect::<Vec<i32>>(), bst_before);
    assert_eq!(avl.pre_order().into_iter().copied().collect::<Vec<i32>>(), avl_before);
    assert_eq!(rbt.pre_order().into_iter().copied().collect::<Vec<i32>>(), rbt_before);
    assert_eq!(rbt.number_of_elements(), values.len());
}

#[test]
fn connections_are_listed_breadth_first() {
    let mut bst = BinarySearchTree::new();
    for v in [5, 3, 7, 2, 4, 6, 8] {
        bst.insert(v);
    }
    let expected = vec![(&5, &3), (&5, &7), (&3, &2), (&3, &4), (&7, &6), (&7, &8)];
    assert_eq!(bst.find_connections(), expected);
    assert_eq!(operations::find_connections(&bst), expected);
    let mut avl = AVLTree::new();
    for v in [1, 2, 3] {
        avl.insert(v);
    }
    assert_eq!(avl.find_connections(), vec![(&2, &1), (&2, &3)]);
    let rbt = RedBlackTree::<i32>::new();
    assert!(rbt.find_connections().is_empty());
}

#[test]
fn red_black_shape_after_ascending_keys() {
    let mut rbt = RedBlackTree::new();
    for v in [1, 2, 3] {
        rbt.insert(v);
    }
    assert_eq!(rbt.level_order(), vec![&2, &1, &3]);
    rbt.insert(4);
    rbt.insert(5);
    assert_eq!(rbt.pre_order(), vec![&4, &2, &1, &3, &5]);
    assert_eq!(rbt.height(), 2);
}

#[test]
fn default_trees_are_empty() {
    let bst: BinarySearchTree<u64> = Default::default();
    let avl: AVLTree<char> = Default::default();
    let rbt: RedBlackTree<usize> = Default::default();
    assert!(bst.is_empty());
    assert!(avl.is_empty());
    assert!(rbt.is_empty());
    assert_eq!(bst.height(), 0);
}

#[test]
fn other_key_types() {
    let mut avl = AVLTree::new();
    for c in ['m', 'c', 'x', 'a'] {
        avl.insert(c);
    }
    assert_eq!(avl.in_order(), vec![&'a', &'c', &'m', &'x']);
    let mut rbt = RedBlackTree::new();
    for v in [u64::MAX, 0, 17] {
        rbt.insert(v);
    }
    assert_eq!(rbt.max(), Some(&u64::MAX));
    assert_eq!(rbt.floor(&16), Some(&0));
}

#[test]
fn single_key_tree_has_height_zero() {
    let mut bst = BinarySearchTree::new();
    let mut avl = AVLTree::new();
    let mut rbt = RedBlackTree::new();
    bst.insert(1);
    avl.insert(1);
    rbt.insert(1);
    assert_eq!(bst.height(), 0);
    assert_eq!(avl.height(), 0);
    assert_eq!(rbt.height(), 0);
    assert_eq!(bst.level_order(), vec![&1]);
    bst.remove(&1);
    assert!(bst.is_empty());
    assert_eq!(bst.pre_order(), Vec::<&i32>::new());
}

#[test]
fn red_black_rules_survive_long_mixed_sequences() {
    for seed in 1..=40i64 {
        let mut rbt = RedBlackTree::new();
        let mut avl = AVLTree::new();
        let mut x = seed;
        for step in 0..600 {
            x = (x * 1103515245 + 12345) % 2147483648;
            let key = x % 151;
            if step < 250 || x % 3 == 0 {
                rbt.insert(key);
                avl.insert(key);
            } else {
                rbt.remove(&key);
                avl.remove(&key);
            }
            assert!(rbt.is_valid_red_black_tree());
            assert!(rbt.is_valid_bst());
            assert!(avl.is_balanced());
            assert_eq!(rbt.in_order(), avl.in_order());
        }
    }
}

#[test]
fn red_black_rules_survive_many_small_sequences() {
    for seed in 1..=3000i64 {
        let mut rbt = RedBlackTree::new();
        let mut x = seed;
        for step in 0..80 {
            x = (x * 1103515245 + 12345) % 2147483648;
            let key = (x / 7) % 25;
            if step < 30 || (x / 3) % 2 == 0 {
                rbt.insert(key);
            } else {
                rbt.remove(&key);
            }
            assert!(rbt.is_valid_red_black_tree(), "seed {} step {}", seed, step);
        }
    }
}

#[test]
fn avl_without_rotations_keeps_insertion_shape() {
    let mut avl = AVLTree::new();
    for v in [5, 3, 7, 2, 4, 6, 8] {
        avl.insert(v);
    }
    assert_eq!(avl.pre_order(), vec![&5, &3, &2, &4, &7, &6, &8]);
    assert_eq!(avl.height(), 2);
}

#[test]
fn avl_double_rotations() {
    let mut left_right = AVLTree::new();
    for v in [30, 10, 20] {
        left_right.insert(v);
    }
    assert_eq!(left_right.pre_order(), vec![&20, &10, &30]);
    let mut right_left = AVLTree::new();
    for v in [10, 30, 20] {
        right_left.insert(v);
    }
    assert_eq!(right_left.pre_order(), vec![&20, &10, &30]);
    let mut avl = AVLTree::new();
    for v in [4, 2, 6, 1, 3, 5, 7] {
        avl.insert(v);
    }
    avl.remove(&4);
    assert_eq!(avl.pre_order(), vec![&5, &2, &1, &3, &6, &7]);
    avl.remove(&6);
    avl.remove(&7);
    assert_eq!(avl.pre_order(), vec![&2, &1, &5, &3]);
    assert!(avl.is_balanced());
}

#[test]
fn bst_removal_takes_the_in_order_successor() {
    let mut bst = BinarySearchTree::new();
    for v in [8, 4, 12, 2, 6, 10, 14, 1, 7] {
        bst.insert(v);
    }
    bst.remove(&4);
    assert_eq!(bst.pre_order(), vec![&8, &6, &2, &1, &7, &12, &10, &14]);
    bst.remove(&8);
    assert_eq!(bst.pre_order(), vec![&10, &6, &2, &1, &7, &12, &14]);
    bst.remove(&2);
    assert_eq!(bst.pre_order(), vec![&10, &6, &1, &7, &12, &14]);
}

#[test]
fn red_black_removal_shapes() {
    let mut rbt = RedBlackTree::new();
    for v in 1..=7 {
        rbt.insert(v);
    }
    assert_eq!(rbt.pre_order(), vec![&4, &2, &1, &3, &6, &5, &7]);
    rbt.remove(&4);
    assert!(rbt.is_valid_red_black_tree());
    assert_eq!(rbt.in_order(), vec![&1, &2, &3, &5, &6, &7]);
    rbt.remove(&1);
    rbt.remove(&7);
    assert!(rbt.is_valid_red_black_tree());
    assert_eq!(rbt.in_order(), vec![&2, &3, &5, &6]);
}
