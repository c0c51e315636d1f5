use rudac::tree::avl::Node;
use rudac::tree::AVL;

fn is_rank_consistent<K: std::cmp::Ord, V>(avl_tree: &AVL<K, V>) -> bool {
    for i in 0..avl_tree.size() {
        if i != avl_tree.rank(avl_tree.select(i).unwrap().0) {
            return false;
        }
    }
    for key in avl_tree.keys() {
        if *avl_tree.select(avl_tree.rank(key)).unwrap().0 != *key {
            return false;
        }
    }
    true
}

#[test]
fn tree_avl_node_max_height() {
    assert_eq!(Node::<usize, usize>::_max_height(&None, &None), -1);
    assert_eq!(
        Node::<usize, usize>::_max_height(&Some(Box::new(Node::init(1, 1, 0, 0))), &None),
        0
    );
    assert_eq!(
        Node::<usize, usize>::_max_height(
            &Some(Box::new(Node::init(1, 1, 1, 0))),
            &Some(Box::new(Node::init(1, 1, 2, 0)))
        ),
        2
    );
}

#[test]
fn tree_avl_node_update_height() {
    let mut root = Node::init(1, 1, 10, 0);
    let mut left = Node::init(1, 1, 20, 0);
    let mut right = Node::init(1, 1, 30, 0);

    left.update_height();
    right.update_height();

    root.set_left_child(Some(Box::new(left)));
    root.set_right_child(Some(Box::new(right)));

    root.update_height();

    assert_eq!(root.cached_height(), 1);
    assert_eq!(root.left_child().as_ref().unwrap().cached_height(), 0);
    assert_eq!(root.right_child().as_ref().unwrap().cached_height(), 0);
}

#[test]
fn tree_avl_init() {
    let avl_tree = AVL::<usize, usize>::init();

    assert!(avl_tree.is_avl());
    assert!(avl_tree.is_bst());
    assert!(avl_tree.is_size_consistent());
    assert!(is_rank_consistent(&avl_tree));
}

#[test]
fn tree_avl_insert_1() {
    let mut avl_tree = AVL::<usize, usize>::init();

    avl_tree.insert(1, 1);

    assert!(avl_tree.is_avl());
    assert!(avl_tree.is_bst());
    assert!(avl_tree.is_size_consistent());
    assert!(is_rank_consistent(&avl_tree));
}

#[test]
fn tree_avl_insert_2() {
    let mut avl_tree = AVL::<usize, usize>::init();

    avl_tree.insert(4, 1);
    avl_tree.insert(3, 1);
    avl_tree.insert(2, 1);
    avl_tree.insert(1, 1);

    assert!(avl_tree.is_avl());
    assert!(avl_tree.is_bst());
    assert!(avl_tree.is_size_consistent());
    assert!(is_rank_consistent(&avl_tree));
}

#[test]
fn tree_avl_insert_3() {
    let mut avl_tree = AVL::<usize, usize>::init();

    for i in (0..100).rev() {
        avl_tree.insert(i, i);
    }

    assert!(avl_tree.is_avl());
    assert!(avl_tree.is_bst());
    assert!(avl_tree.is_size_consistent());
    assert!(is_rank_consistent(&avl_tree));
}

#[test]
fn tree_avl_delete_1() {
    let mut avl_tree = AVL::<usize, usize>::init();

    avl_tree.delete(&1);

    assert!(avl_tree.is_avl());
    assert!(avl_tree.is_bst());
    assert!(avl_tree.is_size_consistent());
    assert!(is_rank_consistent(&avl_tree));
}

#[test]
fn tree_avl_delete_2() {
    let mut avl_tree = AVL::<usize, usize>::init();

    avl_tree.insert(4, 1);
    avl_tree.insert(3, 1);
    avl_tree.insert(2, 1);
    avl_tree.insert(1, 1);

    avl_tree.delete(&1);
    assert_eq!(avl_tree.get(&1), None);

    avl_tree.delete(&3);
    assert_eq!(avl_tree.get(&3), None);

    avl_tree.delete(&2);
    assert_eq!(avl_tree.get(&2), None);

    avl_tree.delete(&4);
    assert_eq!(avl_tree.get(&4), None);

    assert!(avl_tree.is_avl());
    assert!(avl_tree.is_bst());
    assert!(avl_tree.is_size_consistent());
    assert!(is_rank_consistent(&avl_tree));
}

#[test]
fn tree_avl_is_empty() {
    let mut avl_tree = AVL::<usize, usize>::init();

    assert!(avl_tree.is_empty());

    avl_tree.insert(1, 1);

    assert!(!avl_tree.is_empty());
}

#[test]
fn tree_avl_size_1() {
    let mut avl_tree = AVL::<usize, usize>::init();
    assert_eq!(avl_tree.size(), 0);

    avl_tree.insert(1, 1);
    assert_eq!(avl_tree.size(), 1);

    avl_tree.insert(2, 1);
    assert_eq!(avl_tree.size(), 2);

    avl_tree.insert(3, 1);
    assert_eq!(avl_tree.size(), 3);

    avl_tree.insert(4, 1);
    assert_eq!(avl_tree.size(), 4);
}

#[test]
fn tree_avl_contains_1() {
    let mut avl_tree = AVL::<usize, usize>::init();
    assert!(!avl_tree.contains(&1));

    avl_tree.insert(1, 2);
    assert!(avl_tree.contains(&1));

    avl_tree.insert(1, 3);
    assert!(avl_tree.contains(&1));
}

#[test]
fn tree_avl_get_1() {
    let mut avl_tree = AVL::<usize, usize>::init();
    assert_eq!(avl_tree.get(&1), None);

    avl_tree.insert(1, 2);
    assert_eq!(*avl_tree.get(&1).unwrap(), 2);

    assert!(avl_tree.is_avl());
    assert!(avl_tree.is_bst());
    assert!(avl_tree.is_size_consistent());
    assert!(is_rank_consistent(&avl_tree));
}

#[test]
fn tree_avl_get_2() {
    let mut avl_tree = AVL::<usize, usize>::init();

    for i in (0..100).rev() {
        avl_tree.insert(i, i);
    }

    for i in (0..100).rev() {
        assert_eq!(*avl_tree.get(&i).unwrap(), i);
    }

    assert!(avl_tree.is_avl());
    assert!(avl_tree.is_bst());
    assert!(avl_tree.is_size_consistent());
    assert!(is_rank_consistent(&avl_tree));
}

#[test]
fn tree_avl_get_3() {
    let mut avl_tree = AVL::<usize, usize>::init();

    for i in (0..100).rev() {
        avl_tree.insert(i, i);
    }

    for i in (0..100).rev() {
        assert_eq!(*avl_tree.get(&i).unwrap(), i);
    }

    for i in (0..100).rev() {
        avl_tree.insert(i, i + 1);
    }

    for i in (0..100).rev() {
        assert_eq!(*avl_tree.get(&i).unwrap(), i + 1);
    }

    assert!(avl_tree.is_avl());
    assert!(avl_tree.is_bst());
    assert!(avl_tree.is_size_consistent());
    assert!(is_rank_consistent(&avl_tree));
}

#[test]
fn tree_avl_delete_min_1() {
    let mut avl_tree = AVL::<usize, usize>::init();

    avl_tree.delete_min();

    assert!(avl_tree.is_avl());
    assert!(avl_tree.is_bst());
    assert!(avl_tree.is_size_consistent());
    assert!(is_rank_consistent(&avl_tree));
}

#[test]
fn tree_avl_delete_min_2() {
    let mut avl_tree = AVL::<usize, usize>::init();

    for i in (0..100).rev() {
        avl_tree.insert(i, i);
    }

    for i in 0..100 {
        avl_tree.delete_min();
        assert_eq!(avl_tree.get(&i), None);
    }

    assert!(avl_tree.is_avl());
    assert!(avl_tree.is_bst());
    assert!(avl_tree.is_size_consistent());
    assert!(is_rank_consistent(&avl_tree));
}

#[test]
fn tree_avl_delete_max_1() {
    let mut avl_tree = AVL::<usize, usize>::init();

    avl_tree.delete_max();

    assert!(avl_tree.is_avl());
    assert!(avl_tree.is_bst());
    assert!(avl_tree.is_size_consistent());
    assert!(is_rank_consistent(&avl_tree));
}

#[test]
fn tree_avl_delete_max_2() {
    let mut avl_tree = AVL::<usize, usize>::init();

    for i in (0..100).rev() {
        avl_tree.insert(i, i);
    }

    for i in (0..100).rev() {
        avl_tree.delete_max();
        assert_eq!(avl_tree.get(&i), None);
    }

    assert!(avl_tree.is_avl());
    assert!(avl_tree.is_bst());
    assert!(avl_tree.is_size_consistent());
    assert!(is_rank_consistent(&avl_tree));
}

#[test]
fn tree_avl_floor_1() {
    let mut avl_tree = AVL::<usize, usize>::init();

    for i in (0..100).step_by(2) {
        avl_tree.insert(i, i);
    }

    for i in (1..100).step_by(2) {
        assert_eq!(*avl_tree.floor(&i).unwrap(), i - 1);
    }

    assert!(avl_tree.is_avl());
    assert!(avl_tree.is_bst());
    assert!(avl_tree.is_size_consistent());
    assert!(is_rank_consistent(&avl_tree));
}

#[test]
fn tree_avl_ceiling_1() {
    let mut avl_tree = AVL::<usize, usize>::init();

    for i in (0..100).step_by(2) {
        avl_tree.insert(i, i);
    }

    for i in (1..99).step_by(2) {
        assert_eq!(*avl_tree.ceiling(&i).unwrap(), i + 1);
    }

    assert!(avl_tree.is_avl());
    assert!(avl_tree.is_bst());
    assert!(avl_tree.is_size_consistent());
    assert!(is_rank_consistent(&avl_tree));
}

#[test]
fn tree_avl_select_1() {
    let mut avl_tree = AVL::<usize, usize>::init();

    for i in (0..100).rev() {
        avl_tree.insert(i, i);
    }

    for i in 0..100 {
        let result = avl_tree.select(i).unwrap();
        assert_eq!((*result.0, *result.1), (i, i));
    }

    assert!(avl_tree.is_avl());
    assert!(avl_tree.is_bst());
    assert!(avl_tree.is_size_consistent());
    assert!(is_rank_consistent(&avl_tree));
}

#[test]
fn tree_avl_rank_1() {
    let mut avl_tree = AVL::<usize, usize>::init();

    for i in (1..100).rev() {
        avl_tree.insert(i, i);
    }

    for i in 1..100 {
        assert_eq!(avl_tree.rank(&i), i - 1);
    }

    assert!(avl_tree.is_avl());
    assert!(avl_tree.is_bst());
    assert!(avl_tree.is_size_consistent());
    assert!(is_rank_consistent(&avl_tree));
}

#[test]
fn tree_avl_keys_1() {
    let mut avl_tree = AVL::<usize, usize>::init();

    for i in (1..100).rev() {
        avl_tree.insert(i, i);
    }

    let mut i = 1;
    for key in avl_tree.keys() {
        assert!(*key == i);
        i += 1;
    }

    assert!(avl_tree.is_avl());
    assert!(avl_tree.is_bst());
    assert!(avl_tree.is_size_consistent());
    assert!(is_rank_consistent(&avl_tree));
}

#[test]
fn tree_avl_keys_between_1() {
    let mut avl_tree = AVL::<usize, usize>::init();

    for i in (1..100).rev() {
        avl_tree.insert(i, i);
    }

    for i in 1..100 {
        assert_eq!(avl_tree.keys_between(&i, &99).len(), 99 - i);
    }

    assert!(avl_tree.is_avl());
    assert!(avl_tree.is_bst());
    assert!(avl_tree.is_size_consistent());
    assert!(is_rank_consistent(&avl_tree));
}

#[test]
fn tree_avl_size_between_1() {
    let mut avl_tree = AVL::<usize, usize>::init();

    for i in (1..100).rev() {
        avl_tree.insert(i, i);
    }

    for i in 1..100 {
        assert_eq!(avl_tree.size_between(&i, &100), 100 - i);
    }

    assert!(avl_tree.is_avl());
    assert!(avl_tree.is_bst());
    assert!(avl_tree.is_size_consistent());
    assert!(is_rank_consistent(&avl_tree));
}

