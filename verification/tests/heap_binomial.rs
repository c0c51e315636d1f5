use rudac::heap::BinomialHeap;

#[test]
fn heap_binomial_init_min() {
    let bh = BinomialHeap::init_min(0);

    assert_eq!(BinomialHeap::preorder(&bh), format!("Rank 0: 0\n"));
    assert_eq!(bh.is_min(), true);
    assert_eq!(bh.is_max(), false);
}

#[test]
fn heap_binomial_init_max() {
    let bh = BinomialHeap::init_max(0);

    assert_eq!(BinomialHeap::preorder(&bh), format!("Rank 0: 0\n"));
    assert_eq!(bh.is_min(), false);
    assert_eq!(bh.is_max(), true);
}

#[test]
fn heap_binomial_push_min_1() {
    let mut bh = BinomialHeap::init_min(0);

    bh.push(1);

    assert_eq!(
        BinomialHeap::preorder(&bh),
        format!("Rank 0: \nRank 1: 0 1\n")
    );
}

#[test]
fn heap_binomial_push_max_1() {
    let mut bh = BinomialHeap::init_max(0);

    bh.push(1);

    assert_eq!(
        BinomialHeap::preorder(&bh),
        format!("Rank 0: \nRank 1: 1 0\n")
    );
}

#[test]
fn heap_binomial_push_min_2() {
    let mut bh = BinomialHeap::init_min(0);

    bh.push(1);
    bh.push(2);

    assert_eq!(
        BinomialHeap::preorder(&bh),
        format!("Rank 0: 2\nRank 1: 0 1\n")
    );
}

#[test]
fn heap_binomial_push_max_2() {
    let mut bh = BinomialHeap::init_max(0);

    bh.push(1);
    bh.push(2);

    assert_eq!(
        BinomialHeap::preorder(&bh),
        format!("Rank 0: 2\nRank 1: 1 0\n")
    );
}

#[test]
fn heap_binomial_push_min_3() {
    let mut bh = BinomialHeap::init_min(0);

    bh.push(1);
    bh.push(2);
    bh.push(3);

    assert_eq!(
        BinomialHeap::preorder(&bh),
        format!("Rank 0: \nRank 1: \nRank 2: 0 1 2 3\n")
    );
}

#[test]
fn heap_binomial_push_max_3() {
    let mut bh = BinomialHeap::init_max(0);

    bh.push(1);
    bh.push(2);
    bh.push(3);

    assert_eq!(
        BinomialHeap::preorder(&bh),
        format!("Rank 0: \nRank 1: \nRank 2: 3 2 1 0\n")
    );
}

#[test]
fn heap_binomial_pop_min_1() {
    let mut bh = BinomialHeap::init_min(0);

    bh.push(1);
    bh.push(2);
    bh.push(3);

    let value = bh.pop();

    assert_eq!(
        BinomialHeap::preorder(&bh),
        format!("Rank 0: 1\nRank 1: 2 3\nRank 2: \n")
    );
    assert_eq!(value, Some(0))
}

#[test]
fn heap_binomial_pop_max_1() {
    let mut bh = BinomialHeap::init_max(0);

    bh.push(1);
    bh.push(2);
    bh.push(3);

    let value = bh.pop();

    assert_eq!(
        BinomialHeap::preorder(&bh),
        format!("Rank 0: 2\nRank 1: 1 0\nRank 2: \n")
    );
    assert_eq!(value, Some(3))
}

#[test]
fn heap_binomial_pop_min_2() {
    let mut bh = BinomialHeap::init_min(0);

    bh.push(1);
    bh.push(2);
    bh.push(3);

    bh.push(8);
    bh.push(9);

    bh.push(7);

    let mut value = bh.pop();

    assert_eq!(
        BinomialHeap::preorder(&bh),
        format!("Rank 0: \nRank 1: 2 3\nRank 2: 1 7 8 9\n")
    );
    assert_eq!(value, Some(0));

    value = bh.pop();
    assert_eq!(
        BinomialHeap::preorder(&bh),
        format!("Rank 0: 7\nRank 1: \nRank 2: 2 3 8 9\n")
    );
    assert_eq!(value, Some(1));

    value = bh.pop();
    assert_eq!(
        BinomialHeap::preorder(&bh),
        format!("Rank 0: \nRank 1: \nRank 2: 3 7 8 9\n")
    );
    assert_eq!(value, Some(2));

    value = bh.pop();
    assert_eq!(
        BinomialHeap::preorder(&bh),
        format!("Rank 0: 7\nRank 1: 8 9\nRank 2: \n")
    );
    assert_eq!(value, Some(3));

    value = bh.pop();
    assert_eq!(
        BinomialHeap::preorder(&bh),
        format!("Rank 0: \nRank 1: 8 9\nRank 2: \n")
    );
    assert_eq!(value, Some(7));

    value = bh.pop();
    assert_eq!(
        BinomialHeap::preorder(&bh),
        format!("Rank 0: 9\nRank 1: \nRank 2: \n")
    );
    assert_eq!(value, Some(8));

    value = bh.pop();
    assert_eq!(
        BinomialHeap::preorder(&bh),
        format!("Rank 0: \nRank 1: \nRank 2: \n")
    );
    assert_eq!(value, Some(9));

    value = bh.pop();
    assert_eq!(
        BinomialHeap::preorder(&bh),
        format!("Rank 0: \nRank 1: \nRank 2: \n")
    );
    assert_eq!(value, None);
}

#[test]
fn heap_binomial_pop_max_2() {
    let mut bh = BinomialHeap::init_max(0);

    bh.push(1);
    bh.push(2);
    bh.push(3);
    bh.push(8);
    bh.push(9);
    bh.push(7);

    let mut value = bh.pop();

    assert_eq!(
        BinomialHeap::preorder(&bh),
        format!("Rank 0: \nRank 1: 8 7\nRank 2: 3 2 1 0\n")
    );
    assert_eq!(value, Some(9));

    value = bh.pop();
    assert_eq!(
        BinomialHeap::preorder(&bh),
        format!("Rank 0: 7\nRank 1: \nRank 2: 3 2 1 0\n")
    );
    assert_eq!(value, Some(8));

    value = bh.pop();
    assert_eq!(
        BinomialHeap::preorder(&bh),
        format!("Rank 0: \nRank 1: \nRank 2: 3 2 1 0\n")
    );
    assert_eq!(value, Some(7));

    value = bh.pop();
    assert_eq!(
        BinomialHeap::preorder(&bh),
        format!("Rank 0: 2\nRank 1: 1 0\nRank 2: \n")
    );
    assert_eq!(value, Some(3));

    value = bh.pop();
    assert_eq!(
        BinomialHeap::preorder(&bh),
        format!("Rank 0: \nRank 1: 1 0\nRank 2: \n")
    );
    assert_eq!(value, Some(2));

    value = bh.pop();
    assert_eq!(
        BinomialHeap::preorder(&bh),
        format!("Rank 0: 0\nRank 1: \nRank 2: \n")
    );
    assert_eq!(value, Some(1));

    value = bh.pop();
    assert_eq!(
        BinomialHeap::preorder(&bh),
        format!("Rank 0: \nRank 1: \nRank 2: \n")
    );
    assert_eq!(value, Some(0));

    value = bh.pop();
    assert_eq!(
        BinomialHeap::preorder(&bh),
        format!("Rank 0: \nRank 1: \nRank 2: \n")
    );
    assert_eq!(value, None);
}

#[test]
fn heap_binomial_merge_min_1() {
    let bh1 = BinomialHeap::init_min(0);
    let bh2 = BinomialHeap::init_min(1);

    let merged_heap = BinomialHeap::merge(bh1, bh2);

    assert_eq!(
        BinomialHeap::preorder(&merged_heap),
        format!("Rank 0: \nRank 1: 0 1\n")
    );
}

#[test]
fn heap_binomial_merge_max_1() {
    let bh1 = BinomialHeap::init_max(0);
    let bh2 = BinomialHeap::init_max(1);

    let merged_heap = BinomialHeap::merge(bh1, bh2);

    assert_eq!(
        BinomialHeap::preorder(&merged_heap),
        format!("Rank 0: \nRank 1: 1 0\n")
    );
}

#[test]
fn heap_binomial_merge_min_2() {
    let bh1 = BinomialHeap::init_min(0);
    let bh2 = BinomialHeap::init_min(1);
    let merged_heap_1 = BinomialHeap::merge(bh1, bh2);

    let bh3 = BinomialHeap::init_min(2);
    let bh4 = BinomialHeap::init_min(3);
    let merged_heap_2 = BinomialHeap::merge(bh3, bh4);

    let merged_heap = BinomialHeap::merge(merged_heap_1, merged_heap_2);

    assert_eq!(
        BinomialHeap::preorder(&merged_heap),
        format!("Rank 0: \nRank 1: \nRank 2: 0 1 2 3\n")
    );
}

#[test]
fn heap_binomial_merge_max_2() {
    let bh1 = BinomialHeap::init_max(0);
    let bh2 = BinomialHeap::init_max(1);
    let merged_heap_1 = BinomialHeap::merge(bh1, bh2);

    let bh3 = BinomialHeap::init_max(2);
    let bh4 = BinomialHeap::init_max(3);
    let merged_heap_2 = BinomialHeap::merge(bh3, bh4);

    let merged_heap = BinomialHeap::merge(merged_heap_1, merged_heap_2);

    assert_eq!(
        BinomialHeap::preorder(&merged_heap),
        format!("Rank 0: \nRank 1: \nRank 2: 3 2 1 0\n")
    );
}

#[test]
fn heap_binomial_peek_min_1() {
    let bh1 = BinomialHeap::init_min(0);

    assert_eq!(*bh1.peek(), Some(0));
    assert_eq!(BinomialHeap::preorder(&bh1), format!("Rank 0: 0\n"));
}

#[test]
fn heap_binomial_peek_min_2() {
    let bh1 = BinomialHeap::init_min(0);
    let bh2 = BinomialHeap::init_min(1);

    let merged_heap = BinomialHeap::merge(bh1, bh2);

    assert_eq!(*merged_heap.peek(), Some(0));
    assert_eq!(
        BinomialHeap::preorder(&merged_heap),
        format!("Rank 0: \nRank 1: 0 1\n")
    );
}

#[test]
fn heap_binomial_peek_min_empty_heap() {
    let bh1 = BinomialHeap::init_min(0);
    let bh2 = BinomialHeap::init_min(1);

    let mut merged_heap = BinomialHeap::merge(bh1, bh2);

    merged_heap.pop();
    merged_heap.pop();
    assert_eq!(*merged_heap.peek(), None);
    assert_eq!(
        BinomialHeap::preorder(&merged_heap),
        format!("Rank 0: \nRank 1: \n")
    );
}

#[test]
fn heap_binomial_peek_max_1() {
    let bh1 = BinomialHeap::init_max(0);

    assert_eq!(*bh1.peek(), Some(0));
    assert_eq!(BinomialHeap::preorder(&bh1), format!("Rank 0: 0\n"));
}

#[test]
fn heap_binomial_peek_max_2() {
    let bh1 = BinomialHeap::init_max(0);
    let bh2 = BinomialHeap::init_max(1);

    let merged_heap = BinomialHeap::merge(bh1, bh2);

    assert_eq!(*merged_heap.peek(), Some(1));
    assert_eq!(
        BinomialHeap::preorder(&merged_heap),
        format!("Rank 0: \nRank 1: 1 0\n")
    );
}

#[test]
fn heap_binomial_peek_max_empty_heap() {
    let bh1 = BinomialHeap::init_max(0);
    let bh2 = BinomialHeap::init_max(1);

    let mut merged_heap = BinomialHeap::merge(bh1, bh2);

    merged_heap.pop();
    merged_heap.pop();
    assert_eq!(*merged_heap.peek(), None);
    assert_eq!(
        BinomialHeap::preorder(&merged_heap),
        format!("Rank 0: \nRank 1: \n")
    );
}

