use rudac::heap::FibonacciHeap;
use rudac::heap::InternalTree;

#[test]
fn heap_fibonacci_internal_tree_init() {
    let it = InternalTree::init(1, true);

    assert_eq!(it.degree(), 0);
    assert_eq!(*it.peek_payload(), 1);
}

#[test]
fn heap_fibonacci_internal_tree_is_smaller() {
    let it1 = InternalTree::init(0, true);
    let it2 = InternalTree::init(1, true);
    let it3 = InternalTree::init(0, true);

    assert_eq!(InternalTree::is_smaller_or_equal(&it1, &it2), true);
    assert_eq!(InternalTree::is_smaller_or_equal(&it1, &it3), true);
    assert_eq!(InternalTree::is_smaller_or_equal(&it2, &it1), false);
}

#[test]
fn heap_fibonacci_internal_tree_add_child_1() {
    let mut it1 = InternalTree::init(0, true);
    let it2 = InternalTree::init(1, true);

    it1.add_child(it2);

    assert_eq!(it1.degree(), 1);
    assert_eq!(
        *it1.children_list().back().unwrap().peek_payload(),
        1
    );
}

#[test]
fn heap_fibonacci_internal_tree_add_child_2() {
    let it1 = InternalTree::init(0, true);
    let mut it2 = InternalTree::init(1, true);

    it2.add_child(it1);

    assert_eq!(it2.degree(), 1);
    assert_eq!(
        *it2.children_list().back().unwrap().peek_payload(),
        0
    );
}

#[test]
fn heap_fibonacci_internal_tree_merge_1() {
    let it1 = InternalTree::init(0, true);
    let it2 = InternalTree::init(1, true);

    let mut merged_tree = InternalTree::merge(it1, it2);

    assert_eq!(merged_tree.degree(), 1);
    assert_eq!(
        *merged_tree.children_list().back().unwrap().peek_payload(),
        1
    );
}

#[test]
fn heap_fibonacci_internal_tree_merge_2() {
    let it1 = InternalTree::init(0, true);
    let it2 = InternalTree::init(1, true);

    let mut merged_tree = InternalTree::merge(it2, it1);

    assert_eq!(merged_tree.degree(), 1);
    assert_eq!(
        *merged_tree.children_list().back().unwrap().peek_payload(),
        1
    );
}

#[test]
fn heap_fibonacci_internal_tree_merge_3() {
    let it1 = InternalTree::init(0, true);
    let it2 = InternalTree::init(1, true);
    let merged_tree_1 = InternalTree::merge(it2, it1);
    let it3 = InternalTree::init(2, true);
    let it4 = InternalTree::init(3, true);
    let merged_tree_2 = InternalTree::merge(it3, it4);

    let merged_tree = InternalTree::merge(merged_tree_1, merged_tree_2);

    assert_eq!(merged_tree.degree(), 2);
    assert_eq!(
        InternalTree::preorder(&merged_tree),
        String::from("0 1 2 3")
    );
}

#[test]
fn heap_fibonacci_init() {
    let fh: FibonacciHeap<usize> = FibonacciHeap::init_min();

    assert!(fh.priority_pointer().is_none());
    assert_eq!(fh.size(), 0);
    assert_eq!(fh.children_list().len(), 0);
}

#[test]
fn heap_fibonacci_push_1() {
    let mut fh: FibonacciHeap<usize> = FibonacciHeap::init_min();

    fh.push(0);
    fh.push(1);
    fh.push(3);

    assert_eq!(fh.children_list().len(), 2);
    assert_eq!(
        *fh.priority_pointer()
            .as_ref()
            .unwrap()
            .peek_payload(),
        0
    );

    assert_eq!(
        FibonacciHeap::preorder(&fh),
        String::from("Priority: 0\nTree 1: 1\nTree 2: 3\n")
    )
}

#[test]
fn heap_fibonacci_push_2() {
    let mut fh: FibonacciHeap<usize> = FibonacciHeap::init_min();

    fh.push(3);
    fh.push(1);
    fh.push(0);

    assert_eq!(fh.children_list().len(), 2);
    assert_eq!(
        *fh.priority_pointer()
            .as_ref()
            .unwrap()
            .peek_payload(),
        0
    );

    assert_eq!(
        FibonacciHeap::preorder(&fh),
        String::from("Priority: 0\nTree 1: 3\nTree 2: 1\n")
    )
}

#[test]
fn heap_fibonacci_merge_1() {
    let mut fh1: FibonacciHeap<usize> = FibonacciHeap::init_min();
    fh1.push(0);

    let mut fh2: FibonacciHeap<usize> = FibonacciHeap::init_min();
    fh2.push(1);

    let merged_heap = FibonacciHeap::merge(fh1, fh2);

    assert_eq!(merged_heap.size(), 2);
    assert_eq!(
        *merged_heap
            .priority_pointer()
            .as_ref()
            .unwrap()
            .peek_payload(),
        0
    );
    assert_eq!(
        FibonacciHeap::preorder(&merged_heap),
        String::from("Priority: 0\nTree 1: 1\n")
    );
}

#[test]
fn heap_fibonacci_merge_2() {
    let mut fh1: FibonacciHeap<usize> = FibonacciHeap::init_min();
    fh1.push(0);
    fh1.push(2);

    let mut fh2: FibonacciHeap<usize> = FibonacciHeap::init_min();
    fh2.push(1);
    fh2.push(3);

    let merged_heap = FibonacciHeap::merge(fh2, fh1);

    assert_eq!(merged_heap.size(), 4);
    assert_eq!(
        *merged_heap
            .priority_pointer()
            .as_ref()
            .unwrap()
            .peek_payload(),
        0
    );
    assert_eq!(
        FibonacciHeap::preorder(&merged_heap),
        String::from("Priority: 0\nTree 1: 3\nTree 2: 2\nTree 3: 1\n")
    );
}

#[test]
fn heap_fibonacci_merge_3() {
    let mut fh1: FibonacciHeap<usize> = FibonacciHeap::init_min();
    fh1.push(0);
    fh1.push(2);

    let fh2: FibonacciHeap<usize> = FibonacciHeap::init_min();

    let merged_heap = FibonacciHeap::merge(fh2, fh1);

    assert_eq!(merged_heap.size(), 2);
    assert_eq!(
        *merged_heap
            .priority_pointer()
            .as_ref()
            .unwrap()
            .peek_payload(),
        0
    );
    assert_eq!(
        FibonacciHeap::preorder(&merged_heap),
        String::from("Priority: 0\nTree 1: 2\n")
    );
}

#[test]
fn heap_fibonacci_merge_after_consolidate() {
    let mut fh1: FibonacciHeap<usize> = FibonacciHeap::init_min();
    for i in 0..14 {
        fh1.push(i)
    }

    fh1.consolidate();

    let mut fh2: FibonacciHeap<usize> = FibonacciHeap::init_min();
    for i in 14..20 {
        fh2.push(i)
    }

    fh2.consolidate();

    let merged_heap = FibonacciHeap::merge(fh1, fh2);
    assert_eq!(merged_heap.size(), 20);
    assert_eq!(FibonacciHeap::preorder(&merged_heap),String::from("Priority: 0 1 2 3 4 5 6 7\nTree 1: 12 13\nTree 2: 8 9 10 11\nTree 3: 18 19\nTree 4: 14 15 16 17\n"));
}

#[test]
fn heap_fibonacci_consolidate_1() {
    let mut fh: FibonacciHeap<usize> = FibonacciHeap::init_min();
    fh.push(0);

    fh.consolidate();

    assert_eq!(FibonacciHeap::preorder(&fh), String::from("Priority: 0\n"));
}

#[test]
fn heap_fibonacci_consolidate_2() {
    let mut fh: FibonacciHeap<usize> = FibonacciHeap::init_min();
    fh.push(1);
    fh.push(0);

    fh.consolidate();

    assert_eq!(
        FibonacciHeap::preorder(&fh),
        String::from("Priority: 0 1\n")
    );
}

#[test]
fn heap_fibonacci_consolidate_3() {
    let mut fh: FibonacciHeap<usize> = FibonacciHeap::init_min();
    fh.push(1);
    fh.push(0);
    fh.push(2);

    fh.consolidate();

    assert_eq!(
        FibonacciHeap::preorder(&fh),
        String::from("Priority: 0 1\nTree 1: 2\n")
    );
}

#[test]
fn heap_fibonacci_consolidate_4() {
    let mut fh: FibonacciHeap<usize> = FibonacciHeap::init_min();
    fh.push(1);
    fh.push(0);
    fh.push(2);
    fh.push(3);

    fh.consolidate();

    assert_eq!(
        FibonacciHeap::preorder(&fh),
        String::from("Priority: 0 1 2 3\n")
    );
}

#[test]
fn heap_fibonacci_consolidate_5() {
    let mut fh: FibonacciHeap<usize> = FibonacciHeap::init_min();
    fh.push(1);
    fh.push(0);
    fh.push(3);
    fh.push(2);
    fh.push(4);

    fh.consolidate();

    assert_eq!(
        FibonacciHeap::preorder(&fh),
        String::from("Priority: 0 1 2 3\nTree 1: 4\n")
    );
}

#[test]
fn heap_fibonacci_consolidate_6() {
    let mut fh: FibonacciHeap<usize> = FibonacciHeap::init_min();
    for i in 0..14 {
        fh.push(i)
    }

    fh.consolidate();

    assert_eq!(
        FibonacciHeap::preorder(&fh),
        String::from("Priority: 0 1 2 3 4 5 6 7\nTree 1: 12 13\nTree 2: 8 9 10 11\n")
    );
}

#[test]
fn heap_fibonacci_pop_1() {
    let mut fh: FibonacciHeap<usize> = FibonacciHeap::init_min();
    fh.push(0);

    assert_eq!(fh.pop(), Some(0));

    assert_eq!(FibonacciHeap::preorder(&fh), String::from(""));
}

#[test]
fn heap_fibonacci_pop_2() {
    let mut fh: FibonacciHeap<usize> = FibonacciHeap::init_min();
    fh.push(0);
    fh.push(1);

    assert_eq!(fh.pop(), Some(0));
    assert_eq!(fh.size(), 1);
    assert_eq!(FibonacciHeap::preorder(&fh), String::from("Priority: 1\n"));
}

#[test]
fn heap_fibonacci_pop_3() {
    let mut fh: FibonacciHeap<usize> = FibonacciHeap::init_min();
    fh.push(2);
    fh.push(0);
    fh.push(1);

    assert_eq!(fh.pop(), Some(0));
    assert_eq!(fh.size(), 2);
    assert_eq!(
        FibonacciHeap::preorder(&fh),
        String::from("Priority: 1 2\n")
    );
}

#[test]
fn heap_fibonacci_pop_4() {
    let mut fh: FibonacciHeap<usize> = FibonacciHeap::init_min();
    fh.push(2);
    fh.push(3);
    fh.push(0);
    fh.push(1);

    assert_eq!(fh.pop(), Some(0));
    assert_eq!(fh.size(), 3);
    assert_eq!(
        FibonacciHeap::preorder(&fh),
        String::from("Priority: 1\nTree 1: 2 3\n")
    );
}

#[test]
fn heap_fibonacci_pop_multi_1() {
    let mut fh: FibonacciHeap<usize> = FibonacciHeap::init_min();
    fh.push(2);
    fh.push(3);
    fh.push(0);
    fh.push(1);

    assert_eq!(fh.pop(), Some(0));
    assert_eq!(fh.size(), 3);

    assert_eq!(fh.pop(), Some(1));
    assert_eq!(fh.size(), 2);
    assert_eq!(
        FibonacciHeap::preorder(&fh),
        String::from("Priority: 2 3\n")
    );

    assert_eq!(fh.pop(), Some(2));
    assert_eq!(fh.size(), 1);
    assert_eq!(FibonacciHeap::preorder(&fh), String::from("Priority: 3\n"));

    assert_eq!(fh.pop(), Some(3));
    assert_eq!(fh.size(), 0);
    assert_eq!(FibonacciHeap::preorder(&fh), String::from(""));

    assert_eq!(fh.pop(), None);
    assert_eq!(fh.size(), 0);
    assert_eq!(FibonacciHeap::preorder(&fh), String::from(""));
}

#[test]
fn heap_fibonacci_pop_multi_2() {
    let mut fh: FibonacciHeap<usize> = FibonacciHeap::init_min();
    for i in 0..5 {
        fh.push(i)
    }
    assert_eq!(fh.pop(), Some(0));
    assert_eq!(fh.size(), 4);
    assert_eq!(
        FibonacciHeap::preorder(&fh),
        String::from("Priority: 1 2 3 4\n")
    );

    assert_eq!(fh.pop(), Some(1));
    assert_eq!(fh.size(), 3);
    assert_eq!(
        FibonacciHeap::preorder(&fh),
        String::from("Priority: 2\nTree 1: 3 4\n")
    );

    assert_eq!(fh.pop(), Some(2));
    assert_eq!(fh.size(), 2);
    assert_eq!(
        FibonacciHeap::preorder(&fh),
        String::from("Priority: 3 4\n")
    );

    assert_eq!(fh.pop(), Some(3));
    assert_eq!(fh.size(), 1);
    assert_eq!(FibonacciHeap::preorder(&fh), String::from("Priority: 4\n"));

    assert_eq!(fh.pop(), Some(4));
    assert_eq!(fh.size(), 0);
    assert_eq!(FibonacciHeap::preorder(&fh), String::from(""));
}

