use data_forest::avl_tree::AVLTree;

#[test]
fn avl_operations_is_and_isnt_empty_tree() {
    let avl_1 = AVLTree::<i32>::new();
    assert!(avl_1.is_empty());

    let mut avl_2 = AVLTree::<i32>::new();
    avl_2.insert(42);
    assert!(!avl_2.is_empty());
}

#[test]
fn avl_operations_contains_in_empty_tree() {
    let avl = AVLTree::<i32>::new();

    assert!(!avl.contains(&42));
}

#[test]
fn avl_operations_contains_in_single_node_tree() {
    let mut avl = AVLTree::new();
    avl.insert(1);

    assert!(avl.contains(&1));
}

#[test]
fn avl_operations_contains_in_degenerate_trees() {
    let mut avl_degenerate_right = AVLTree::new();
    let mut avl_degenerate_left = AVLTree::new();

    for i in 0..=10 {
        avl_degenerate_right.insert(i);
    }
    for i in (0..=10).rev() {
        avl_degenerate_left.insert(i);
    }

    for i in 0..=10 {
        assert!(avl_degenerate_right.contains(&i));
        assert!(avl_degenerate_left.contains(&i));
    }
}

#[test]
fn avl_operations_contains_basic() {
    let mut avl_diff_heights_null = AVLTree::new();
    let mut avl_diff_heights_one = AVLTree::new();
    let mut avl_diff_heights_two = AVLTree::new();

    let values_1 = vec![5, 3, 7, 2, 4, 6, 8];
    let values_2 = vec![4, 2, 6, 1, 3, 5];
    let values_3 = vec![8, 4, 12, 2, 6, 10, 1, 7];
    for value in &values_1 {
        avl_diff_heights_null.insert(value);
    }
    for value in &values_2 {
        avl_diff_heights_one.insert(value);
    }
    for value in &values_3 {
        avl_diff_heights_two.insert(value);
    }

    for value in &values_1 {
        assert!(avl_diff_heights_null.contains(&value));
    }
    for value in &values_2 {
        assert!(avl_diff_heights_one.contains(&value));
    }
    for value in &values_3 {
        assert!(avl_diff_heights_two.contains(&value));
    }
}

#[test]
fn avl_operations_remove_from_empty_tree() {
    let mut avl = AVLTree::<i32>::new();

    avl.remove(&42);

    assert!(!avl.contains(&42));
    assert_eq!(avl.min(), None);
    assert_eq!(avl.max(), None);
}

#[test]
fn avl_operations_remove_from_single_node_tree_check_min_max_updating() {
    let mut avl = AVLTree::new();
    assert!(avl.max() == avl.min() && avl.max() == None);

    avl.insert(1);
    assert!(avl.max() == avl.min() && avl.max() == Some(&1));
    assert!(avl.contains(&1));

    avl.remove(&1);
    assert!(avl.max() == avl.min() && avl.max() == None);
    assert!(!avl.contains(&1));
}

#[test]
fn avl_operations_remove_from_degenerate_trees_check_min_max_updating() {
    let mut avl_degenerate_right = AVLTree::new();
    let mut avl_degenerate_left = AVLTree::new();

    for i in 0..=10 {
        avl_degenerate_right.insert(i);
        assert_eq!(avl_degenerate_right.min(), Some(&0));
        assert_eq!(avl_degenerate_right.max(), Some(&i));
    }
    for i in (0..=10).rev() {
        avl_degenerate_left.insert(i);
        assert_eq!(avl_degenerate_left.min(), Some(&i));
        assert_eq!(avl_degenerate_left.max(), Some(&10));
    }

    for i in 0..=10 {
        avl_degenerate_right.remove(&i);
        assert!(!avl_degenerate_right.contains(&i));

        avl_degenerate_left.remove(&i);
        assert!(!avl_degenerate_left.contains(&i));

        if i < 10 {
            assert_eq!(avl_degenerate_right.min(), Some(&(i + 1)));
            assert_eq!(avl_degenerate_right.max(), Some(&10));

            assert_eq!(avl_degenerate_left.min(), Some(&(i + 1)));
            assert_eq!(avl_degenerate_left.max(), Some(&10));
        } else {
            assert_eq!(avl_degenerate_right.min(), None);
            assert_eq!(avl_degenerate_right.max(), None);

            assert_eq!(avl_degenerate_left.min(), None);
            assert_eq!(avl_degenerate_left.max(), None);
        }
    }
}

#[test]
fn avl_operations_remove_basic_check_min_max_updating() {
    let mut avl1 = AVLTree::new();
    let mut avl2 = AVLTree::new();
    let mut avl3 = AVLTree::new();

    let values1 = vec![5, 3, 7, 2, 4, 6, 8];
    let values2 = vec![4, 2, 6, 1, 3, 5];
    let values3 = vec![8, 4, 12, 2, 6, 10, 1, 7];

    for &v in &values1 {
        avl1.insert(v);
    }
    for &v in &values2 {
        avl2.insert(v);
    }
    for &v in &values3 {
        avl3.insert(v);
    }

    let mut remaining1 = values1.clone();
    let mut remaining2 = values2.clone();
    let mut remaining3 = values3.clone();

    for &v in &values1 {
        avl1.remove(&v);
        remaining1.retain(|&x| x != v);

        assert!(!avl1.contains(&v));
        assert_eq!(avl1.min(), remaining1.iter().min());
        assert_eq!(avl1.max(), remaining1.iter().max());
    }

    for &v in &values2 {
        avl2.remove(&v);
        remaining2.retain(|&x| x != v);

        assert!(!avl2.contains(&v));
        assert_eq!(avl2.min(), remaining2.iter().min());
        assert_eq!(avl2.max(), remaining2.iter().max());
    }

    for &v in &values3 {
        avl3.remove(&v);
        remaining3.retain(|&x| x != v);

        assert!(!avl3.contains(&v));
        assert_eq!(avl3.min(), remaining3.iter().min());
        assert_eq!(avl3.max(), remaining3.iter().max());
    }
}

#[test]
fn avl_operations_min_in_empty_tree() {
    let avl = AVLTree::<i32>::new();

    assert_eq!(avl.min(), None);
}

#[test]
fn avl_operations_min_in_degenerate_trees_check_updating() {
    let mut avl_degenerate_right = AVLTree::new();
    let mut avl_degenerate_left = AVLTree::new();

    for i in 0..=10 {
        avl_degenerate_right.insert(i);
        assert_eq!(avl_degenerate_right.min(), Some(&0));
    }
    for i in (0..=10).rev() {
        avl_degenerate_left.insert(i);
        assert_eq!(avl_degenerate_left.min(), Some(&i));
    }
}

#[test]
fn avl_operations_min_basic_check_updating() {
    let mut avl_diff_heights_null = AVLTree::new();
    let mut avl_diff_heights_one = AVLTree::new();
    let mut avl_diff_heights_two = AVLTree::new();

    let values_1 = vec![5, 3, 7, 2, 4, 6, 8];
    let values_2 = vec![4, 2, 6, 1, 3, 5];
    let values_3 = vec![8, 4, 12, 2, 6, 10, 1, 7];

    let mut current_min_1 = None;
    let mut current_min_2 = None;
    let mut current_min_3 = None;

    for value in &values_1 {
        avl_diff_heights_null.insert(*value);
        current_min_1 = Some(*value)
            .filter(|&x| current_min_1.map_or(true, |min| x < min))
            .or(current_min_1);
        assert_eq!(avl_diff_heights_null.min(), current_min_1.as_ref());
    }

    for value in &values_2 {
        avl_diff_heights_one.insert(*value);
        current_min_2 = Some(*value)
            .filter(|&x| current_min_2.map_or(true, |min| x < min))
            .or(current_min_2);
        assert_eq!(avl_diff_heights_one.min(), current_min_2.as_ref());
    }

    for value in &values_3 {
        avl_diff_heights_two.insert(*value);
        current_min_3 = Some(*value)
            .filter(|&x| current_min_3.map_or(true, |min| x < min))
            .or(current_min_3);
        assert_eq!(avl_diff_heights_two.min(), current_min_3.as_ref());
    }
}

#[test]
fn avl_operations_max_in_empty_tree() {
    let avl = AVLTree::<i32>::new();

    assert_eq!(avl.max(), None);
}

#[test]
fn avl_operations_max_in_degenerate_trees_check_updating() {
    let mut avl_degenerate_right = AVLTree::new();
    let mut avl_degenerate_left = AVLTree::new();

    for i in 0..=10 {
        avl_degenerate_right.insert(i);
        assert_eq!(avl_degenerate_right.max(), Some(&i));
    }
    for i in (0..=10).rev() {
        avl_degenerate_left.insert(i);
        assert_eq!(avl_degenerate_left.max(), Some(&10));
    }
}

#[test]
fn avl_operations_max_basic_check_updating() {
    let mut avl_diff_heights_null = AVLTree::new();
    let mut avl_diff_heights_one = AVLTree::new();
    let mut avl_diff_heights_two = AVLTree::new();

    let values_1 = vec![5, 3, 7, 2, 4, 6, 8];
    let values_2 = vec![4, 2, 6, 1, 3, 5];
    let values_3 = vec![8, 4, 12, 2, 6, 10, 1, 7];

    let mut current_max_1 = None;
    let mut current_max_2 = None;
    let mut current_max_3 = None;

    for value in &values_1 {
        avl_diff_heights_null.insert(*value);
        current_max_1 = Some(*value)
            .filter(|&x| current_max_1.map_or(true, |max| x > max))
            .or(current_max_1);
        assert_eq!(avl_diff_heights_null.max(), current_max_1.as_ref());
    }

    for value in &values_2 {
        avl_diff_heights_one.insert(*value);
        current_max_2 = Some(*value)
            .filter(|&x| current_max_2.map_or(true, |max| x > max))
            .or(current_max_2);
        assert_eq!(avl_diff_heights_one.max(), current_max_2.as_ref());
    }

    for value in &values_3 {
        avl_diff_heights_two.insert(*value);
        current_max_3 = Some(*value)
            .filter(|&x| current_max_3.map_or(true, |max| x > max))
            .or(current_max_3);
        assert_eq!(avl_diff_heights_two.max(), current_max_3.as_ref());
    }
}

#[test]
fn avl_operations_max_min_are_similar_for_single_element_tree() {
    let mut avl = AVLTree::new();
    avl.insert(1);

    assert!(avl.min() == avl.max() && avl.min() == Some(&1));
}

#[test]
fn avl_operations_height_in_empty_tree() {
    let avl = AVLTree::<i32>::new();

    assert_eq!(avl.height(), 0);
}

#[test]
fn avl_operations_height_basic() {
    let mut avl_diff_heights_null = AVLTree::new();
    let mut avl_diff_heights_one = AVLTree::new();
    let mut avl_diff_heights_two = AVLTree::new();

    let values_1 = vec![5, 3, 7, 2, 4, 6, 8];
    let values_2 = vec![4, 2, 6, 1, 3, 5];
    let values_3 = vec![8, 4, 12, 2, 6, 10, 1, 7];
    for value in &values_1 {
        avl_diff_heights_null.insert(value);
    }
    for value in &values_2 {
        avl_diff_heights_one.insert(value);
    }
    for value in &values_3 {
        avl_diff_heights_two.insert(value);
    }

    assert_eq!(avl_diff_heights_null.height(), 2);
    assert_eq!(avl_diff_heights_one.height(), 2);
    assert_eq!(avl_diff_heights_two.height(), 3);
}

#[test]
fn avl_operations_number_of_elements_in_empty_tree() {
    let avl = AVLTree::<i32>::new();

    assert_eq!(avl.number_of_elements(), 0);
}

#[test]
fn avl_operations_number_of_elements_in_degenerate_trees() {
    let mut avl_degenerate_right = AVLTree::new();
    let mut avl_degenerate_left = AVLTree::new();

    for i in 0..=10 {
        avl_degenerate_right.insert(i);
    }
    for i in (0..=10).rev() {
        avl_degenerate_left.insert(i);
    }

    assert_eq!(avl_degenerate_right.number_of_elements(), 10 + 1);
    assert_eq!(avl_degenerate_left.number_of_elements(), 10 + 1);
}

#[test]
fn avl_operations_number_of_elements_basic() {
    let mut avl_diff_heights_null = AVLTree::new();
    let mut avl_diff_heights_one = AVLTree::new();
    let mut avl_diff_heights_two = AVLTree::new();

    let values_1 = vec![5, 3, 7, 2, 4, 6, 8];
    let values_2 = vec![4, 2, 6, 1, 3, 5];
    let values_3 = vec![8, 4, 12, 2, 6, 10, 1, 7];
    for value in &values_1 {
        avl_diff_heights_null.insert(value);
    }
    for value in &values_2 {
        avl_diff_heights_one.insert(value);
    }
    for value in &values_3 {
        avl_diff_heights_two.insert(value);
    }

    assert_eq!(avl_diff_heights_null.number_of_elements(), values_1.len());
    assert_eq!(avl_diff_heights_one.number_of_elements(), values_2.len());
    assert_eq!(avl_diff_heights_two.number_of_elements(), values_3.len());
}

#[test]
fn avl_operations_ceil_in_empty_tree() {
    let avl = AVLTree::<i32>::new();

    assert_eq!(avl.ceil(&0), None);
}

#[test]
fn avl_operations_ceil_in_degenerate_trees() {
    let mut avl_degenerate_right = AVLTree::new();
    let mut avl_degenerate_left = AVLTree::new();

    for i in 0..=10 {
        let val = i * 10;
        avl_degenerate_right.insert(val);
    }

    for i in (0..=10).rev() {
        let val = i * 10;
        avl_degenerate_left.insert(val);
    }

    assert_eq!(avl_degenerate_right.ceil(&0), Some(&0));
    assert_eq!(avl_degenerate_left.ceil(&0), Some(&0));

    assert_eq!(avl_degenerate_right.ceil(&(3)), Some(&10));
    assert_eq!(avl_degenerate_left.ceil(&(3)), Some(&10));
    assert_eq!(avl_degenerate_right.ceil(&(7)), Some(&10));
    assert_eq!(avl_degenerate_left.ceil(&(7)), Some(&10));

    assert_eq!(avl_degenerate_right.ceil(&110), None);
    assert_eq!(avl_degenerate_left.ceil(&110), None);
}

#[test]
fn avl_operations_floor_in_empty_tree() {
    let avl = AVLTree::<i32>::new();

    assert_eq!(avl.floor(&0), None);
}

#[test]
fn avl_operations_floor_in_degenerate_trees() {
    let mut avl_degenerate_right = AVLTree::new();
    let mut avl_degenerate_left = AVLTree::new();

    for i in 0..=10 {
        let val = i * 10;
        avl_degenerate_right.insert(val);
    }

    for i in (0..=10).rev() {
        let val = i * 10;
        avl_degenerate_left.insert(val);
    }

    assert_eq!(avl_degenerate_right.floor(&0), Some(&0));
    assert_eq!(avl_degenerate_left.floor(&0), Some(&0));

    assert_eq!(avl_degenerate_right.floor(&(3)), Some(&0));
    assert_eq!(avl_degenerate_left.floor(&(3)), Some(&0));
    assert_eq!(avl_degenerate_right.floor(&(7)), Some(&0));
    assert_eq!(avl_degenerate_left.floor(&(7)), Some(&0));

    assert_eq!(avl_degenerate_right.floor(&(-90)), None);
    assert_eq!(avl_degenerate_left.floor(&(-90)), None);
}
