use rudac::tree::RedBlack;

fn is_rank_consistent<K: std::cmp::Ord, V>(rb_tree: &RedBlack<K, V>) -> bool {
    for i in 0..rb_tree.size() {
        if i != rb_tree.rank(rb_tree.select(i).unwrap().0) {
            return false;
        }
    }
    for key in rb_tree.keys() {
        if *rb_tree.select(rb_tree.rank(key)).unwrap().0 != *key {
            return false;
        }
    }
    true
}

#[test]
fn tree_rb_init() {
    let rb_tree = RedBlack::<usize, usize>::init();

    assert!(rb_tree.is_23());
    assert!(rb_tree.is_bst());
    assert!(rb_tree.is_size_consistent());
    assert!(is_rank_consistent(&rb_tree));
}

#[test]
fn tree_rb_insert_1() {
    let mut rb_tree = RedBlack::<usize, usize>::init();

    rb_tree.insert(1, 1);

    assert!(rb_tree.is_23());
    assert!(rb_tree.is_bst());
    assert!(rb_tree.is_size_consistent());
    assert!(is_rank_consistent(&rb_tree));
}

#[test]
fn tree_rb_insert_2() {
    let mut rb_tree = RedBlack::<usize, usize>::init();

    rb_tree.insert(4, 1);
    rb_tree.insert(3, 1);
    rb_tree.insert(2, 1);
    rb_tree.insert(1, 1);

    assert!(rb_tree.is_23());
    assert!(rb_tree.is_bst());
    assert!(rb_tree.is_size_consistent());
    assert!(is_rank_consistent(&rb_tree));
}

#[test]
fn tree_rb_insert_3() {
    let mut rb_tree = RedBlack::<usize, usize>::init();

    for i in (0..100).rev() {
        rb_tree.insert(i, i);
    }

    assert!(rb_tree.is_23());
    assert!(rb_tree.is_bst());
    assert!(rb_tree.is_size_consistent());
    assert!(is_rank_consistent(&rb_tree));
}

#[test]
fn tree_rb_delete_1() {
    let mut rb_tree = RedBlack::<usize, usize>::init();

    rb_tree.delete(&1);

    assert!(rb_tree.is_23());
    assert!(rb_tree.is_bst());
    assert!(rb_tree.is_size_consistent());
    assert!(is_rank_consistent(&rb_tree));
}

#[test]
fn tree_rb_delete_2() {
    let mut rb_tree = RedBlack::<usize, usize>::init();

    rb_tree.insert(4, 1);
    rb_tree.insert(3, 1);
    rb_tree.insert(2, 1);
    rb_tree.insert(1, 1);

    rb_tree.delete(&1);
    assert_eq!(rb_tree.get(&1), None);

    rb_tree.delete(&3);
    assert_eq!(rb_tree.get(&3), None);

    rb_tree.delete(&2);
    assert_eq!(rb_tree.get(&2), None);

    rb_tree.delete(&4);
    assert_eq!(rb_tree.get(&4), None);

    assert!(rb_tree.is_23());
    assert!(rb_tree.is_bst());
    assert!(rb_tree.is_size_consistent());
    assert!(is_rank_consistent(&rb_tree));
}

#[test]
fn tree_rb_is_empty() {
    let mut rb_tree = RedBlack::<usize, usize>::init();

    assert!(rb_tree.is_empty());

    rb_tree.insert(1, 1);

    assert!(!rb_tree.is_empty());
}

#[test]
fn tree_rb_size_1() {
    let mut rb_tree = RedBlack::<usize, usize>::init();
    assert_eq!(rb_tree.size(), 0);

    rb_tree.insert(1, 1);
    assert_eq!(rb_tree.size(), 1);

    rb_tree.insert(2, 1);
    assert_eq!(rb_tree.size(), 2);

    rb_tree.insert(3, 1);
    assert_eq!(rb_tree.size(), 3);

    rb_tree.insert(4, 1);
    assert_eq!(rb_tree.size(), 4);
}

#[test]
fn tree_rb_contains_1() {
    let mut rb_tree = RedBlack::<usize, usize>::init();
    assert!(!rb_tree.contains(&1));

    rb_tree.insert(1, 2);
    assert!(rb_tree.contains(&1));

    rb_tree.insert(1, 3);
    assert!(rb_tree.contains(&1));
}

#[test]
fn tree_rb_get_1() {
    let mut rb_tree = RedBlack::<usize, usize>::init();
    assert_eq!(rb_tree.get(&1), None);

    rb_tree.insert(1, 2);
    assert_eq!(*rb_tree.get(&1).unwrap(), 2);

    assert!(rb_tree.is_23());
    assert!(rb_tree.is_bst());
    assert!(rb_tree.is_size_consistent());
    assert!(is_rank_consistent(&rb_tree));
}

#[test]
fn tree_rb_get_2() {
    let mut rb_tree = RedBlack::<usize, usize>::init();

    for i in (0..100).rev() {
        rb_tree.insert(i, i);
    }

    for i in (0..100).rev() {
        assert_eq!(*rb_tree.get(&i).unwrap(), i);
    }

    assert!(rb_tree.is_23());
    assert!(rb_tree.is_bst());
    assert!(rb_tree.is_size_consistent());
    assert!(is_rank_consistent(&rb_tree));
}

#[test]
fn tree_rb_get_3() {
    let mut rb_tree = RedBlack::<usize, usize>::init();

    for i in (0..100).rev() {
        rb_tree.insert(i, i);
    }

    for i in (0..100).rev() {
        assert_eq!(*rb_tree.get(&i).unwrap(), i);
    }

    for i in (0..100).rev() {
        rb_tree.insert(i, i + 1);
    }

    for i in (0..100).rev() {
        assert_eq!(*rb_tree.get(&i).unwrap(), i + 1);
    }

    assert!(rb_tree.is_23());
    assert!(rb_tree.is_bst());
    assert!(rb_tree.is_size_consistent());
    assert!(is_rank_consistent(&rb_tree));
}

#[test]
fn tree_rb_delete_min_1() {
    let mut rb_tree = RedBlack::<usize, usize>::init();

    rb_tree.delete_min();

    assert!(rb_tree.is_23());
    assert!(rb_tree.is_bst());
    assert!(rb_tree.is_size_consistent());
    assert!(is_rank_consistent(&rb_tree));
}

#[test]
fn tree_rb_delete_min_2() {
    let mut rb_tree = RedBlack::<usize, usize>::init();

    for i in (0..100).rev() {
        rb_tree.insert(i, i);
    }

    for i in 0..100 {
        rb_tree.delete_min();
        assert_eq!(rb_tree.get(&i), None);
    }

    assert!(rb_tree.is_23());
    assert!(rb_tree.is_bst());
    assert!(rb_tree.is_size_consistent());
    assert!(is_rank_consistent(&rb_tree));
}

#[test]
fn tree_rb_delete_max_1() {
    let mut rb_tree = RedBlack::<usize, usize>::init();

    rb_tree.delete_max();

    assert!(rb_tree.is_23());
    assert!(rb_tree.is_bst());
    assert!(rb_tree.is_size_consistent());
    assert!(is_rank_consistent(&rb_tree));
}

#[test]
fn tree_rb_delete_max_2() {
    let mut rb_tree = RedBlack::<usize, usize>::init();

    for i in (0..100).rev() {
        rb_tree.insert(i, i);
    }

    for i in (0..100).rev() {
        rb_tree.delete_max();
        assert_eq!(rb_tree.get(&i), None);
    }

    assert!(rb_tree.is_23());
    assert!(rb_tree.is_bst());
    assert!(rb_tree.is_size_consistent());
    assert!(is_rank_consistent(&rb_tree));
}

#[test]
fn tree_rb_floor_1() {
    let mut rb_tree = RedBlack::<usize, usize>::init();

    for i in (0..100).step_by(2) {
        rb_tree.insert(i, i);
    }

    for i in (1..100).step_by(2) {
        assert_eq!(*rb_tree.floor(&i).unwrap(), i - 1);
    }

    assert!(rb_tree.is_23());
    assert!(rb_tree.is_bst());
    assert!(rb_tree.is_size_consistent());
    assert!(is_rank_consistent(&rb_tree));
}

#[test]
fn tree_rb_ceiling_1() {
    let mut rb_tree = RedBlack::<usize, usize>::init();

    for i in (0..100).step_by(2) {
        rb_tree.insert(i, i);
    }

    for i in (1..99).step_by(2) {
        assert_eq!(*rb_tree.ceiling(&i).unwrap(), i + 1);
    }

    assert!(rb_tree.is_23());
    assert!(rb_tree.is_bst());
    assert!(rb_tree.is_size_consistent());
    assert!(is_rank_consistent(&rb_tree));
}

#[test]
fn tree_rb_select_1() {
    let mut rb_tree = RedBlack::<usize, usize>::init();

    for i in (0..100).rev() {
        rb_tree.insert(i, i);
    }

    for i in 0..100 {
        let result = rb_tree.select(i).unwrap();
        assert_eq!((*result.0, *result.1), (i, i));
    }

    assert!(rb_tree.is_23());
    assert!(rb_tree.is_bst());
    assert!(rb_tree.is_size_consistent());
    assert!(is_rank_consistent(&rb_tree));
}

#[test]
fn tree_rb_rank_1() {
    let mut rb_tree = RedBlack::<usize, usize>::init();

    for i in (1..100).rev() {
        rb_tree.insert(i, i);
    }

    for i in 1..100 {
        assert_eq!(rb_tree.rank(&i), i - 1);
    }

    assert!(rb_tree.is_23());
    assert!(rb_tree.is_bst());
    assert!(rb_tree.is_size_consistent());
    assert!(is_rank_consistent(&rb_tree));
}

#[test]
fn tree_rb_keys_1() {
    let mut rb_tree = RedBlack::<usize, usize>::init();

    for i in (1..100).rev() {
        rb_tree.insert(i, i);
    }

    let mut i = 1;
    for key in rb_tree.keys() {
        assert!(*key == i);
        i += 1;
    }

    assert!(rb_tree.is_23());
    assert!(rb_tree.is_bst());
    assert!(rb_tree.is_size_consistent());
    assert!(is_rank_consistent(&rb_tree));
}

#[test]
fn tree_rb_keys_between_1() {
    let mut rb_tree = RedBlack::<usize, usize>::init();

    for i in (1..100).rev() {
        rb_tree.insert(i, i);
    }

    for i in 1..100 {
        assert_eq!(rb_tree.keys_between(&i, &99).len(), 99 - i);
    }

    assert!(rb_tree.is_23());
    assert!(rb_tree.is_bst());
    assert!(rb_tree.is_size_consistent());
    assert!(is_rank_consistent(&rb_tree));
}

#[test]
fn tree_rb_size_between_1() {
    let mut rb_tree = RedBlack::<usize, usize>::init();

    for i in (1..100).rev() {
        rb_tree.insert(i, i);
    }

    for i in 1..100 {
        assert_eq!(rb_tree.size_between(&i, &100), 100 - i);
    }

    assert!(rb_tree.is_23());
    assert!(rb_tree.is_bst());
    assert!(rb_tree.is_size_consistent());
    assert!(is_rank_consistent(&rb_tree));
}

