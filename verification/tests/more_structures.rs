use rudac::heap::MinMax;
use rudac::queue::Circular;
use rudac::tree::AVL;

#[test]
fn queue_keeps_the_newest_elements() {
    let mut queue: Circular<usize> = Circular::new(3);
    for i in 0..10 {
        queue.enqueue(i);
        assert!(queue.size() <= 3);
    }
    assert!(queue.full());
    assert_eq!(*queue.get(0), 7);
    assert_eq!(queue[1], 8);
    assert_eq!(queue[2], 9);
    assert_eq!(queue.dequeue(), Some(&7));
    assert_eq!(queue.dequeue(), Some(&8));
    assert_eq!(queue.dequeue(), Some(&9));
    assert_eq!(queue.dequeue(), None);
    assert!(queue.empty());
}

#[test]
fn queue_walk_visits_in_order() {
    let mut queue: Circular<usize> = Circular::new(4);
    for i in 0..6 {
        queue.enqueue(i);
    }
    let mut walk = queue.iter();
    let mut seen = Vec::new();
    while let Some(item) = walk.next() {
        seen.push(*item);
    }
    assert_eq!(seen, vec![2, 3, 4, 5]);
    queue.set(1, 30);
    assert_eq!(queue[1], 30);
    queue.map_closure(|x: &usize| -> usize { x * 2 });
    assert_eq!(queue[0], 4);
    assert_eq!(queue[1], 60);
    assert_eq!(queue[3], 10);
}

#[test]
fn map_gets_puts_and_removes() {
    let mut map = AVL::<u32, &str>::init();
    map.insert(5, "five");
    map.insert(2, "two");
    map.insert(8, "eight");
    map.insert(5, "cinq");
    assert_eq!(map.size(), 3);
    assert_eq!(map.get(&5), Some(&"cinq"));
    assert_eq!(map.get(&2), Some(&"two"));
    assert_eq!(map.get(&3), None);
    assert_eq!(map.floor(&4), Some(&2));
    assert_eq!(map.floor(&1), None);
    assert_eq!(map.floor(&9), Some(&8));
    assert_eq!(map.ceiling(&6), Some(&8));
    assert_eq!(map.ceiling(&9), None);
    assert_eq!(map.ceiling(&5), Some(&5));
    assert_eq!(map.min(), Some((&2, &"two")));
    assert_eq!(map.max(), Some((&8, &"eight")));
    assert_eq!(map.keys(), vec![&2, &5, &8]);
    assert_eq!(map.keys_between(&2, &8), vec![&2, &5]);
    assert_eq!(map.size_between(&2, &8), 2);
    map.delete(&5);
    assert_eq!(map.get(&5), None);
    assert_eq!(map.keys(), vec![&2, &8]);
    assert!(map.is_avl());
    assert!(map.is_bst());
    assert!(map.is_size_consistent());
    map.delete_min();
    map.delete_max();
    assert!(map.is_empty());
    assert_eq!(map.min(), None);
    assert_eq!(map.max(), None);
    assert_eq!(map.height(), -1);
}

#[test]
fn map_lists_keys_by_level() {
    let mut map = AVL::<u32, u32>::init();
    for key in 1..8 {
        map.insert(key, key * 10);
    }
    assert_eq!(map.keys_in_level_order(), vec![&4, &2, &6, &1, &3, &5, &7]);
    assert_eq!(map.height(), 2);
    assert_eq!(map.select(3), Some((&4, &40)));
    assert_eq!(map.select(7), None);
    assert_eq!(map.rank(&4), 3);
}

#[test]
fn heap_hands_out_both_ends() {
    let mut heap = MinMax::build_heap(vec![5, 1, 9, 3, 7, 2, 8]);
    assert_eq!(heap.peek_min(), Some(&1));
    assert_eq!(heap.peek_max(), Some(&9));
    assert_eq!(heap.pop_min(), Some(1));
    assert_eq!(heap.pop_max(), Some(9));
    assert_eq!(heap.pop_max(), Some(8));
    assert_eq!(heap.pop_min(), Some(2));
    assert_eq!(heap.size(), 3);
    assert_eq!(heap.push_pop_min(0), Some(0));
    assert_eq!(heap.push_pop_min(4), Some(3));
    assert_eq!(heap.push_pop_max(10), Some(10));
    assert_eq!(heap.push_pop_max(6), Some(7));
    assert_eq!(heap.replace_min(1), Some(4));
    assert_eq!(heap.replace_max(2), Some(6));
    let mut rest = heap.into_vec();
    rest.sort();
    assert_eq!(rest, vec![1, 2, 5]);
}

#[test]
fn heap_of_three_gives_up_its_largest() {
    let mut heap = MinMax::build_heap(vec![2, 3, 1]);
    assert_eq!(heap.pop_max(), Some(3));
    assert_eq!(heap.pop_max(), Some(2));
    assert_eq!(heap.pop_max(), Some(1));
    assert_eq!(heap.pop_max(), None);
    let mut heap = MinMax::build_heap(vec![1, 1, 1]);
    assert_eq!(heap.pop_max(), Some(1));
    assert_eq!(heap.size(), 2);
}

#[test]
fn heap_room_is_kept() {
    let mut heap: MinMax<u8> = MinMax::with_capacity(4);
    heap.push(3);
    heap.reserve(10);
    assert!(heap.capacity() >= 11);
    heap.reserve_exact(20);
    assert!(heap.capacity() >= 21);
    heap.shrink_to_fit();
    assert!(heap.capacity() >= 1);
    assert_eq!(heap.items(), &vec![3]);
    heap.clear();
    assert!(heap.is_empty());
}

#[test]
fn queue_element_is_changed_in_place() {
    let mut queue: Circular<String> = Circular::new(2);
    queue.enqueue(String::from("a"));
    queue.enqueue(String::from("b"));
    queue.enqueue(String::from("c"));
    queue.get_mut(0).push_str("!");
    assert_eq!(queue[0], "b!");
    assert_eq!(queue[1], "c");
    assert_eq!(queue.capacity(), 3);
    queue.clear();
    assert!(queue.empty());
    assert!(queue.push_enabled());
    assert_eq!(queue.front_index(), 0);
    assert_eq!(queue.rear_index(), 0);
}
