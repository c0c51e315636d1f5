use rudac::heap::binomial::BinomialHeap;
use rudac::heap::fibonacci::FibonacciHeap;
use rudac::heap::fibonacci::InternalTree;
use rudac::tree::BinomialTree;
use rudac::tree::RedBlack;

fn next(seed: &mut u64) -> u64 {
    *seed = seed.wrapping_mul(6364136223846793005).wrapping_add(1442695040888963407);
    *seed >> 33
}

#[test]
fn red_black_map_gets_puts_and_removes() {
    let mut map = RedBlack::<u32, &str>::init();
    map.insert(5, "five");
    map.insert(2, "two");
    map.insert(8, "eight");
    map.insert(5, "cinq");
    assert_eq!(map.size(), 3);
    assert_eq!(map.get(&5), Some(&"cinq"));
    assert_eq!(map.get(&3), None);
    assert!(map.contains(&8));
    assert_eq!(map.floor(&4), Some(&2));
    assert_eq!(map.floor(&1), None);
    assert_eq!(map.ceiling(&6), Some(&8));
    assert_eq!(map.ceiling(&9), None);
    assert_eq!(map.min(), Some((&2, &"two")));
    assert_eq!(map.max(), Some((&8, &"eight")));
    assert_eq!(map.select(1), Some((&5, &"cinq")));
    assert_eq!(map.select(3), None);
    assert_eq!(map.rank(&8), 2);
    assert_eq!(map.keys(), vec![&2, &5, &8]);
    assert_eq!(map.keys_between(&2, &8), vec![&2, &5]);
    assert_eq!(map.size_between(&2, &9), 3);
    assert_eq!(map.size_between(&9, &2), 0);
    assert_eq!(map.height(), 1);
    assert_eq!(map.keys_in_level_order(), vec![&5, &2, &8]);
    map.delete(&5);
    assert_eq!(map.keys(), vec![&2, &8]);
    map.delete(&7);
    assert_eq!(map.size(), 2);
    map.delete_min();
    map.delete_max();
    assert!(map.is_empty());
    map.delete_min();
    map.delete_max();
    map.delete(&1);
    assert_eq!(map.height(), -1);
    assert_eq!(map.min(), None);
    assert_eq!(map.max(), None);
}

#[test]
fn red_black_map_against_a_sorted_list() {
    let mut seed = 99u64;
    let mut map = RedBlack::<u64, u64>::init();
    let mut model: Vec<(u64, u64)> = Vec::new();
    for step in 0..3000 {
        let key = next(&mut seed) % 50;
        match next(&mut seed) % 5 {
            0 | 1 => {
                map.insert(key, step);
                model.retain(|e| e.0 != key);
                model.push((key, step));
                model.sort();
            }
            2 => {
                map.delete(&key);
                model.retain(|e| e.0 != key);
            }
            3 => {
                map.delete_min();
                if !model.is_empty() {
                    model.remove(0);
                }
            }
            _ => {
                map.delete_max();
                model.pop();
            }
        }
        assert_eq!(map.size(), model.len());
        assert!(map.is_bst());
        assert!(map.is_size_consistent());
        let keys: Vec<u64> = map.keys().into_iter().copied().collect();
        let expected: Vec<u64> = model.iter().map(|e| e.0).collect();
        assert_eq!(keys, expected);
        for (i, e) in model.iter().enumerate() {
            assert_eq!(map.get(&e.0), Some(&e.1));
            assert_eq!(map.select(i), Some((&e.0, &e.1)));
            assert_eq!(map.rank(&e.0), i);
        }
    }
}

#[test]
fn binomial_heap_hands_out_in_order() {
    let mut seed = 5u64;
    let mut heap = BinomialHeap::init_min(50u64);
    let mut model = vec![50u64];
    for _ in 0..400 {
        if next(&mut seed) % 3 != 0 {
            let v = next(&mut seed) % 30;
            heap.push(v);
            model.push(v);
        } else {
            model.sort();
            let expect = if model.is_empty() { None } else { Some(model.remove(0)) };
            assert_eq!(heap.pop(), expect);
        }
        model.sort();
        assert_eq!(heap.size(), model.len());
        assert_eq!(heap.is_empty(), model.is_empty());
        assert_eq!(heap.peek().as_ref(), model.first());
    }
    heap.clear();
    assert!(heap.is_empty());
    assert_eq!(heap.pop(), None);
    heap.push(3);
    heap.push(1);
    assert_eq!(heap.pop(), Some(1));
    let mut larger = BinomialHeap::init_max(1u64);
    larger.push(9);
    larger.push(4);
    let other = BinomialHeap::init_max(7u64);
    let mut merged = BinomialHeap::merge(larger, other);
    assert!(merged.is_max());
    assert!(!merged.is_min());
    assert_eq!(merged.pop(), Some(9));
    assert_eq!(merged.pop(), Some(7));
    assert_eq!(merged.pop(), Some(4));
    assert_eq!(merged.pop(), Some(1));
    assert_eq!(merged.pop(), None);
}

#[test]
fn binomial_tree_keeps_kind_and_payload() {
    let mut small = BinomialTree::init_min(3);
    assert!(small.is_min());
    assert_eq!(small.rank(), 0);
    assert!(BinomialTree::is_smaller_or_equall(&small, &BinomialTree::init_min(3)));
    assert!(BinomialTree::is_greater_or_equall(&small, &BinomialTree::init_min(2)));
    assert!(!BinomialTree::is_smaller_or_equall(&small, &BinomialTree::init_min(2)));
    assert_eq!(small.get_payload(), 3);
    assert_eq!(*small.peek_payload(), None);
    let mut tree = BinomialTree::merge(BinomialTree::init_max(1), BinomialTree::init_max(2));
    assert_eq!(*tree.peek_payload(), Some(2));
    assert_eq!(tree.children().len(), 1);
    let child = tree.children_mut()[0].take().unwrap();
    assert_eq!(*child.peek_payload(), Some(1));
    assert_eq!(BinomialTree::preorder(&tree), "2");
    let plain = BinomialTree::init(4, true);
    assert!(plain.is_min());
}

#[test]
fn fibonacci_heap_hands_out_in_order() {
    let mut seed = 17u64;
    let mut heap: FibonacciHeap<u64> = FibonacciHeap::init_max();
    let mut model: Vec<u64> = Vec::new();
    for _ in 0..400 {
        if next(&mut seed) % 3 != 0 {
            let v = next(&mut seed) % 30;
            heap.push(v);
            model.push(v);
        } else {
            model.sort();
            assert_eq!(heap.pop(), model.pop());
        }
        model.sort();
        assert_eq!(heap.size(), model.len());
        assert_eq!(heap.is_empty(), model.is_empty());
        assert_eq!(heap.peek(), model.last());
    }
    assert!(heap.is_max());
    assert!(!heap.is_min());
    heap.clear();
    assert!(heap.is_empty());
    assert_eq!(heap.pop(), None);
    assert_eq!(heap.peek(), None);
    heap.consolidate();
    assert!(heap.is_empty());
}

#[test]
fn fibonacci_trees_compare_by_payload() {
    let one = InternalTree::init(1, true);
    let two = InternalTree::init(2, true);
    assert!(InternalTree::is_greater_or_equal(&two, &one));
    assert!(!InternalTree::is_greater_or_equal(&one, &two));
    assert!(InternalTree::has_higher_priority(&one, &two, true));
    assert!(!InternalTree::has_higher_priority(&one, &two, false));
    assert!(InternalTree::has_higher_priority(&one, &InternalTree::init(1, true), false));
    assert!(one.is_min());
    assert_eq!(one.children_list().len(), 0);
    assert_eq!(InternalTree::_preorder(&None::<&InternalTree<i32>>), "");
    assert_eq!(InternalTree::_preorder(&Some(&two)), "2 ");
}
