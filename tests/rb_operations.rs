use data_forest::red_black_tree::RedBlackTree;

#[test]
fn mod_is_and_isnt_empty_tree() {
    let rbt_1 = RedBlackTree::<i32>::new();
    assert!(rbt_1.is_empty());

    let mut rbt_2 = RedBlackTree::<i32>::new();
    rbt_2.insert(42);
    assert!(!rbt_2.is_empty());
}

#[test]
fn mod_contains_in_empty_tree() {
    let rbt = RedBlackTree::<i32>::new();
    assert!(!rbt.contains(&0));
}

#[test]
fn mod_contains_in_single_node_tree() {
    let mut rbt = RedBlackTree::new();
    rbt.insert(1);
    assert!(rbt.contains(&1));
}

#[test]
fn mod_contains_basic() {
    let mut rbt = RedBlackTree::new();
    let values = vec![5, 3, 7, 2, 4, 6, 8];

    for value in &values {
        rbt.insert(*value);
    }

    for value in &values {
        assert!(rbt.contains(value));
    }

    assert!(!rbt.contains(&0));
    assert!(!rbt.contains(&9));
}

#[test]
fn insert_maintains_red_black_properties() {
    let mut rbt = RedBlackTree::new();
    let values = vec![7, 3, 18, 10, 22, 8, 11, 26, 2, 6, 13];

    for value in values {
        rbt.insert(value);
        assert!(rbt.is_valid_red_black_tree(), "Tree invalid after inserting {}", value);
        assert!(rbt.is_valid_bst(), "BST property violated after inserting {}", value);
    }
}

#[test]
fn mod_remove_from_empty_tree() {
    let mut rbt = RedBlackTree::<i32>::new();
    rbt.remove(&42);
    assert!(!rbt.contains(&42));
    assert_eq!(rbt.min(), None);
    assert_eq!(rbt.max(), None);
}

#[test]
fn remove_from_single_node_tree() {
    let mut rbt = RedBlackTree::new();
    rbt.insert(1);
    assert!(rbt.contains(&1));

    rbt.remove(&1);
    assert!(!rbt.contains(&1));
    assert_eq!(rbt.min(), None);
    assert_eq!(rbt.max(), None);
}

#[test]
fn remove_maintains_red_black_properties() {
    let mut rbt = RedBlackTree::new();
    let values = vec![7, 3, 18, 10, 22, 8, 11, 26, 2, 6, 13];

    for value in &values {
        rbt.insert(*value);
    }

    for value in &values {
        rbt.remove(value);
        assert!(!rbt.contains(value));
        assert!(rbt.is_valid_red_black_tree(), "Tree invalid after removing {}", value);
        assert!(rbt.is_valid_bst(), "BST property violated after removing {}", value);
    }
}

#[test]
fn min_max_in_empty_tree() {
    let rbt = RedBlackTree::<i32>::new();
    assert_eq!(rbt.min(), None);
    assert_eq!(rbt.max(), None);
}

#[test]
fn min_max_basic() {
    let mut rbt = RedBlackTree::new();
    let values = vec![5, 3, 7, 2, 4, 6, 8];

    for value in &values {
        rbt.insert(*value);
    }

    assert_eq!(rbt.min(), Some(&2));
    assert_eq!(rbt.max(), Some(&8));
}

#[test]
fn min_max_after_removal() {
    let mut rbt = RedBlackTree::new();
    let values = vec![5, 3, 7, 2, 4, 6, 8];

    for value in &values {
        rbt.insert(*value);
    }

    rbt.remove(&2);
    assert_eq!(rbt.min(), Some(&3));

    rbt.remove(&8);
    assert_eq!(rbt.max(), Some(&7));
}

#[test]
fn mod_height_in_empty_tree() {
    let rbt = RedBlackTree::<i32>::new();
    assert_eq!(rbt.height(), 0);
}

#[test]
fn mod_height_basic() {
    let mut rbt = RedBlackTree::new();
    let values = vec![5, 3, 7, 2, 4, 6, 8];

    for value in &values {
        rbt.insert(*value);
    }

    // Red-Black trees are balanced, so height should be reasonable
    assert!(rbt.height() <= 2 * ((values.len() + 1) as f64).log2().ceil() as usize);
}

#[test]
fn mod_pre_order_in_empty_tree() {
    let rbt = RedBlackTree::<i32>::new();
    assert_eq!(rbt.pre_order(), Vec::<&i32>::new());
}

#[test]
fn mod_in_order_in_empty_tree() {
    let rbt = RedBlackTree::<i32>::new();
    assert_eq!(rbt.in_order(), Vec::<&i32>::new());
}

#[test]
fn in_order_returns_sorted() {
    let mut rbt = RedBlackTree::new();
    let values = vec![5, 3, 7, 2, 4, 6, 8];

    for value in &values {
        rbt.insert(*value);
    }

    let in_order = rbt.in_order();
    assert_eq!(in_order, vec![&2, &3, &4, &5, &6, &7, &8]);
}

#[test]
fn mod_post_order_in_empty_tree() {
    let rbt = RedBlackTree::<i32>::new();
    assert_eq!(rbt.post_order(), Vec::<&i32>::new());
}

#[test]
fn mod_level_order_in_empty_tree() {
    let rbt = RedBlackTree::<i32>::new();
    assert_eq!(rbt.level_order(), Vec::<&i32>::new());
}

#[test]
fn mod_number_of_elements_in_empty_tree() {
    let rbt = RedBlackTree::<i32>::new();
    assert_eq!(rbt.number_of_elements(), 0);
}

#[test]
fn mod_number_of_elements_basic() {
    let mut rbt = RedBlackTree::new();
    let values = vec![5, 3, 7, 2, 4, 6, 8];

    for value in &values {
        rbt.insert(*value);
    }

    assert_eq!(rbt.number_of_elements(), values.len());
}

#[test]
fn mod_ceil_in_empty_tree() {
    let rbt = RedBlackTree::<i32>::new();
    assert_eq!(rbt.ceil(&0), None);
}

#[test]
fn ceil_basic() {
    let mut rbt = RedBlackTree::<i32>::new();
    rbt.insert(1);
    rbt.insert(2);
    rbt.insert(5);

    assert_eq!(rbt.ceil(&6), None);
    assert_eq!(rbt.ceil(&5), Some(&5));
    assert_eq!(rbt.ceil(&4), Some(&5));
    assert_eq!(rbt.ceil(&3), Some(&5));
    assert_eq!(rbt.ceil(&2), Some(&2));
    assert_eq!(rbt.ceil(&1), Some(&1));
    assert_eq!(rbt.ceil(&0), Some(&1));
}

#[test]
fn mod_floor_in_empty_tree() {
    let rbt = RedBlackTree::<i32>::new();
    assert_eq!(rbt.floor(&0), None);
}

#[test]
fn floor_basic() {
    let mut rbt = RedBlackTree::<i32>::new();
    rbt.insert(1);
    rbt.insert(2);
    rbt.insert(5);

    assert_eq!(rbt.floor(&6), Some(&5));
    assert_eq!(rbt.floor(&5), Some(&5));
    assert_eq!(rbt.floor(&4), Some(&2));
    assert_eq!(rbt.floor(&3), Some(&2));
    assert_eq!(rbt.floor(&2), Some(&2));
    assert_eq!(rbt.floor(&1), Some(&1));
    assert_eq!(rbt.floor(&0), None);
}

#[test]
fn sequential_insert_maintains_balance() {
    let mut rbt = RedBlackTree::new();

    // Insert in ascending order (would create degenerate BST)
    for i in 1..=20 {
        rbt.insert(i);
    }

    assert!(rbt.is_valid_red_black_tree());
    assert!(rbt.is_valid_bst());
    // Height should be logarithmic
    assert!(rbt.height() <= 10);
}

#[test]
fn reverse_sequential_insert_maintains_balance() {
    let mut rbt = RedBlackTree::new();

    // Insert in descending order
    for i in (1..=20).rev() {
        rbt.insert(i);
    }

    assert!(rbt.is_valid_red_black_tree());
    assert!(rbt.is_valid_bst());
    assert!(rbt.height() <= 10);
}
