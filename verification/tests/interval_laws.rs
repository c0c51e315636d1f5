use rudac::tree::IntervalTree;
use rudac::util::bound::compare_as_high;
use rudac::util::bound::compare_as_low;
use rudac::util::bound::ge_as_high;
use rudac::util::bound::max_as_high;
use rudac::util::Bound;
use rudac::util::Bound::Excluded;
use rudac::util::Bound::Included;
use rudac::util::Bound::Unbounded;
use rudac::util::Interval;
use std::cmp::Ordering;
use std::rc::Rc;

fn all_bounds() -> Vec<Bound<i32>> {
    let mut bounds = vec![Unbounded];
    for v in 0..4 {
        bounds.push(Included(v));
        bounds.push(Excluded(v));
    }
    bounds
}

fn copy_bound(b: &Bound<i32>) -> Bound<i32> {
    match b {
        Included(v) => Included(*v),
        Excluded(v) => Excluded(*v),
        Unbounded => Unbounded,
    }
}

fn all_intervals() -> Vec<Interval<i32>> {
    let mut intervals = Vec::new();
    for low in all_bounds().iter() {
        for high in all_bounds().iter() {
            if let Ok(interval) = Interval::new(copy_bound(low), copy_bound(high)) {
                intervals.push(interval);
            }
        }
    }
    intervals
}

fn closed(low: usize, high: usize) -> Interval<usize> {
    Interval::new(Included(low), Included(high)).unwrap()
}

fn ten_intervals() -> IntervalTree<usize> {
    let mut tree = IntervalTree::<usize>::init();
    let ends = [
        (0, 3),
        (5, 8),
        (6, 10),
        (8, 9),
        (15, 23),
        (16, 21),
        (17, 19),
        (19, 20),
        (25, 30),
        (26, 26),
    ];
    for (low, high) in ends.iter() {
        tree.insert(closed(*low, *high));
    }
    tree
}

#[test]
fn new_accepts_exactly_the_valid_pairs() {
    assert!(Interval::new(Included(2), Included(2)).is_ok());
    assert!(Interval::new(Included(2), Included(3)).is_ok());
    assert!(Interval::new(Excluded(2), Excluded(3)).is_ok());
    assert!(Interval::<i32>::new(Unbounded, Unbounded).is_ok());
    assert!(Interval::new(Unbounded, Excluded(0)).is_ok());
    assert!(Interval::new(Excluded(0), Unbounded).is_ok());

    assert!(Interval::new(Included(2), Included(1)).is_err());
    assert!(Interval::new(Excluded(2), Included(1)).is_err());
    assert!(Interval::new(Included(2), Excluded(1)).is_err());
    assert!(Interval::new(Excluded(2), Excluded(1)).is_err());
    assert!(Interval::new(Included(2), Excluded(2)).is_err());
    assert!(Interval::new(Excluded(2), Included(2)).is_err());
    assert!(Interval::new(Excluded(2), Excluded(2)).is_err());
}

#[test]
fn new_keeps_the_endpoints() {
    let interval = Interval::new(Excluded(1), Included(7)).unwrap();
    assert!(matches!(interval.low(), Excluded(1)));
    assert!(matches!(interval.high(), Included(7)));
    assert!(matches!(*interval.get_low(), Excluded(1)));
    assert!(matches!(*interval.get_high(), Included(7)));
    assert_eq!(interval.to_string(), String::from("(1,7]"));
}

#[test]
fn point_is_closed_on_both_sides() {
    let point = Interval::point(4);
    assert_eq!(point.to_string(), String::from("[4,4]"));
    assert!(point == Interval::new(Included(4), Included(4)).unwrap());
}

#[test]
fn duplicate_is_the_same_interval() {
    let interval = Interval::new(Included(2), Unbounded).unwrap();
    let duplicate = interval.duplicate();
    assert!(interval == duplicate);
    assert_eq!(duplicate.to_string(), String::from("[2,_)"));
}

#[test]
fn text_of_each_kind_of_endpoint() {
    assert_eq!(Interval::<i32>::new(Unbounded, Unbounded).unwrap().to_string(), "(_,_)");
    assert_eq!(Interval::new(Unbounded, Excluded(3)).unwrap().to_string(), "(_,3)");
    assert_eq!(Interval::new(Included(-1), Unbounded).unwrap().to_string(), "[-1,_)");
    assert_eq!(Interval::new(Excluded(1), Excluded(3)).unwrap().to_string(), "(1,3)");
    assert_eq!(Interval::point(9).write_text("nine", "neuf"), "[nine,neuf]");
}

#[test]
fn lower_endpoints_in_order() {
    assert_eq!(compare_as_low(&Unbounded, &Included(0)), Ordering::Less);
    assert_eq!(compare_as_low(&Included(0), &Unbounded), Ordering::Greater);
    assert_eq!(compare_as_low::<i32>(&Unbounded, &Unbounded), Ordering::Equal);
    assert_eq!(compare_as_low(&Included(1), &Excluded(1)), Ordering::Less);
    assert_eq!(compare_as_low(&Excluded(1), &Included(1)), Ordering::Greater);
    assert_eq!(compare_as_low(&Excluded(1), &Included(2)), Ordering::Less);
    assert_eq!(compare_as_low(&Excluded(1), &Excluded(1)), Ordering::Equal);
}

#[test]
fn upper_endpoints_in_order() {
    assert_eq!(compare_as_high(&Unbounded, &Included(0)), Ordering::Greater);
    assert_eq!(compare_as_high(&Included(0), &Unbounded), Ordering::Less);
    assert_eq!(compare_as_high::<i32>(&Unbounded, &Unbounded), Ordering::Equal);
    assert_eq!(compare_as_high(&Excluded(1), &Included(1)), Ordering::Less);
    assert_eq!(compare_as_high(&Included(1), &Excluded(1)), Ordering::Greater);
    assert_eq!(compare_as_high(&Included(1), &Excluded(2)), Ordering::Less);
    assert_eq!(compare_as_high(&Included(1), &Included(1)), Ordering::Equal);
}

#[test]
fn larger_upper_endpoint() {
    assert!(matches!(*max_as_high(Rc::new(Included(3)), Rc::new(Excluded(3))), Included(3)));
    assert!(matches!(*max_as_high(Rc::new(Excluded(3)), Rc::new(Included(3))), Included(3)));
    assert!(matches!(*max_as_high(Rc::new(Excluded(4)), Rc::new(Included(3))), Excluded(4)));
    assert!(matches!(*max_as_high(Rc::new(Unbounded), Rc::new(Included(3))), Unbounded));
    assert!(matches!(*max_as_high(Rc::new(Included(3)), Rc::new(Unbounded)), Unbounded));
    let first = Rc::new(Included(5));
    let second = Rc::new(Included(5));
    let kept = max_as_high(Rc::clone(&first), Rc::clone(&second));
    assert!(Rc::ptr_eq(&kept, &first));
}

#[test]
fn upper_endpoint_reaches_lower_endpoint() {
    assert!(ge_as_high(&Included(3), &Included(3)));
    assert!(!ge_as_high(&Included(3), &Excluded(3)));
    assert!(!ge_as_high(&Excluded(3), &Included(3)));
    assert!(!ge_as_high(&Excluded(3), &Excluded(3)));
    assert!(ge_as_high(&Excluded(4), &Excluded(3)));
    assert!(!ge_as_high(&Included(2), &Included(3)));
    assert!(ge_as_high(&Unbounded, &Included(3)));
    assert!(ge_as_high(&Included(3), &Unbounded));
    assert!(ge_as_high::<i32>(&Unbounded, &Unbounded));
}

#[test]
fn overlap_is_symmetric() {
    let intervals = all_intervals();
    for a in intervals.iter() {
        for b in intervals.iter() {
            assert_eq!(Interval::overlaps(a, b), Interval::overlaps(b, a));
        }
    }
}

#[test]
fn contained_intervals_overlap() {
    let intervals = all_intervals();
    for a in intervals.iter() {
        assert!(Interval::contains(a, a));
        for b in intervals.iter() {
            if Interval::contains(a, b) {
                assert!(Interval::overlaps(a, b));
            }
        }
    }
}

#[test]
fn shared_part_lies_within_both() {
    let intervals = all_intervals();
    for a in intervals.iter() {
        for b in intervals.iter() {
            match Interval::get_overlap(a, b) {
                None => assert!(!Interval::overlaps(a, b)),
                Some(c) => {
                    assert!(Interval::overlaps(a, b));
                    assert!(Interval::valid(&c));
                    assert!(Interval::contains(a, &c));
                    assert!(Interval::contains(b, &c));
                }
            }
        }
    }
}

#[test]
fn order_of_intervals_is_total() {
    let intervals = all_intervals();
    for a in intervals.iter() {
        for b in intervals.iter() {
            let before = a < b;
            let after = a > b;
            let same = a == b;
            assert_eq!(before as usize + after as usize + same as usize, 1);
            assert_eq!(before, a.before(b));
            assert_eq!(same, a.same(b));
            assert_eq!(a.partial_cmp(b).map(|o| o.reverse()), b.partial_cmp(a));
        }
    }
}

#[test]
fn ten_intervals_single_overlap() {
    let tree = ten_intervals();
    assert_eq!(tree.find_overlap(&closed(1, 2)).unwrap().to_string(), "[0,3]");
    assert_eq!(tree.find_overlap(&closed(4, 5)).unwrap().to_string(), "[5,8]");
    assert_eq!(tree.find_overlap(&closed(10, 14)).unwrap().to_string(), "[6,10]");
    assert!(tree.find_overlap(&closed(31, 36)).is_none());
    assert!(tree.find_overlap(&closed(12, 12)).is_none());
    assert!(tree.overlaps(&closed(1, 2)));
    assert!(!tree.overlaps(&closed(12, 12)));
}

#[test]
fn ten_intervals_select_and_size() {
    let tree = ten_intervals();
    assert_eq!(tree.select(0).unwrap().to_string(), "[0,3]");
    assert_eq!(tree.size(), 10);
    assert_eq!(tree.min().unwrap().to_string(), "[0,3]");
    assert_eq!(tree.max().unwrap().to_string(), "[26,26]");
    assert!(tree.select(10).is_none());
    assert!(tree.select(11).is_none());
}

#[test]
fn ten_intervals_delete_found_overlap() {
    let mut tree = ten_intervals();
    let found = tree.find_overlap(&closed(1, 2)).unwrap();
    tree.delete(&found);
    assert!(tree.find_overlap(&closed(1, 2)).is_none());
    assert_eq!(tree.size(), 9);
}

#[test]
fn empty_tree_answers_nothing() {
    let mut tree = IntervalTree::<usize>::init();
    assert!(tree.is_empty());
    assert_eq!(tree.size(), 0);
    assert_eq!(tree.height(), -1);
    assert!(tree.min().is_none());
    assert!(tree.max().is_none());
    assert!(tree.select(0).is_none());
    assert!(tree.find_overlap(&closed(0, 9)).is_none());
    assert!(tree.find_overlaps(&closed(0, 9)).is_empty());
    assert!(tree.intervals_between(&closed(0, 0), &closed(9, 9)).is_empty());
    assert_eq!(tree.size_between(&closed(0, 0), &closed(9, 9)), 0);
    assert_eq!(tree.rank(&closed(3, 4)), 0);
    tree.delete(&closed(3, 4));
    tree.delete_min();
    tree.delete_max();
    assert!(tree.is_empty());
}

#[test]
fn insert_of_a_stored_interval_changes_nothing() {
    let mut tree = ten_intervals();
    tree.insert(closed(6, 10));
    tree.insert(closed(0, 3));
    assert_eq!(tree.size(), 10);
    tree.insert(Interval::new(Included(6), Excluded(10)).unwrap());
    assert_eq!(tree.size(), 11);
}

#[test]
fn delete_of_an_absent_interval_changes_nothing() {
    let mut tree = ten_intervals();
    tree.delete(&closed(6, 11));
    tree.delete(&Interval::new(Excluded(6), Included(10)).unwrap());
    assert_eq!(tree.size(), 10);
    tree.delete(&closed(6, 10));
    assert_eq!(tree.size(), 9);
}

fn height_fits_size(height: i64, size: usize) -> bool {
    // the least number of nodes of a balanced tree: 0, 1, 2, 4, 7, 12, ...
    let mut least = vec![1usize, 2usize];
    while (least.len() as i64) <= height {
        let n = least.len();
        least.push(1 + least[n - 1] + least[n - 2]);
    }
    height == -1 && size == 0 || height >= 0 && least[height as usize] <= size
}

fn in_order(tree: &IntervalTree<usize>) -> bool {
    let size = tree.size();
    for i in 1..size {
        if !(tree.select(i - 1).unwrap() < tree.select(i).unwrap()) {
            return false;
        }
    }
    true
}

#[test]
fn tree_stays_balanced_and_ordered() {
    let mut tree = IntervalTree::<usize>::init();
    for i in 0..200 {
        let low = (i * 37) % 101;
        tree.insert(closed(low, low + i % 7));
        assert!(height_fits_size(tree.height(), tree.size()));
        assert!(in_order(&tree));
    }
    let size = tree.size();
    assert!(size > 100);
    for i in 0..200 {
        let low = (i * 53) % 101;
        tree.delete(&closed(low, low + i % 7));
        assert!(height_fits_size(tree.height(), tree.size()));
    }
    assert!(in_order(&tree));
    assert!(tree.size() < size);
    while !tree.is_empty() {
        let before = tree.size();
        tree.delete_min();
        assert_eq!(tree.size(), before - 1);
        if !tree.is_empty() {
            tree.delete_max();
        }
        assert!(height_fits_size(tree.height(), tree.size()));
        assert!(in_order(&tree));
    }
}

fn consistent(tree: &IntervalTree<usize>) -> bool {
    tree.is_avl() && tree.is_bst() && tree.is_size_consistent() && tree.is_max_consistent()
}

#[test]
fn every_node_stays_consistent() {
    let mut tree = IntervalTree::<usize>::init();
    assert!(consistent(&tree));
    for i in 0..150 {
        let low = (i * 29) % 97;
        tree.insert(closed(low, low + (i * 5) % 11));
        assert!(consistent(&tree));
    }
    for i in 0..150 {
        let low = (i * 31) % 97;
        tree.delete(&closed(low, low + (i * 5) % 11));
        assert!(consistent(&tree));
    }
    while !tree.is_empty() {
        tree.delete_max();
        assert!(consistent(&tree));
        tree.delete_min();
        assert!(consistent(&tree));
    }
}

#[test]
fn rank_and_select_are_inverse() {
    let tree = ten_intervals();
    for i in 0..tree.size() {
        let at = tree.select(i).unwrap();
        assert_eq!(tree.rank(&at), i);
        assert!(tree.select(tree.rank(&at)).unwrap() == at);
    }
    assert_eq!(tree.rank(&closed(0, 0)), 0);
    assert_eq!(tree.rank(&closed(7, 7)), 3);
    assert_eq!(tree.rank(&closed(100, 100)), 10);
}

#[test]
fn all_overlaps_are_found_once() {
    let mut tree = IntervalTree::<i32>::init();
    let stored = all_intervals();
    for interval in stored.iter() {
        tree.insert(interval.duplicate());
    }
    assert_eq!(tree.size(), stored.len());
    for query in stored.iter() {
        let found = tree.find_overlaps(query);
        let expected = stored.iter().filter(|s| Interval::overlaps(s, query)).count();
        assert_eq!(found.len(), expected);
        for (i, a) in found.iter().enumerate() {
            assert!(Interval::overlaps(a, query));
            for b in found.iter().skip(i + 1) {
                assert!(a != b);
            }
        }
        assert_eq!(tree.find_overlap(query).is_some(), expected > 0);
        assert_eq!(tree.overlaps(query), expected > 0);
    }
}

#[test]
fn overlap_search_after_deletions() {
    let mut tree = IntervalTree::<i32>::init();
    let stored = all_intervals();
    for interval in stored.iter() {
        tree.insert(interval.duplicate());
    }
    let mut kept = Vec::new();
    for (i, interval) in stored.iter().enumerate() {
        if i % 3 == 0 {
            tree.delete(interval);
        } else {
            kept.push(interval.duplicate());
        }
    }
    tree.delete_min();
    tree.delete_max();
    kept.sort_by(|a, b| a.partial_cmp(b).unwrap());
    kept.remove(0);
    kept.pop();
    assert_eq!(tree.size(), kept.len());
    for query in stored.iter() {
        let expected = kept.iter().filter(|s| Interval::overlaps(s, query)).count();
        assert_eq!(tree.find_overlaps(query).len(), expected);
        assert_eq!(tree.find_overlap(query).is_some(), expected > 0);
    }
}

#[test]
fn range_is_half_open() {
    let tree = ten_intervals();
    let between = tree.intervals_between(&closed(5, 8), &closed(16, 21));
    let mut text = String::new();
    for interval in between.iter() {
        text.push_str(&interval.to_string());
    }
    assert_eq!(text, "[5,8][6,10][8,9][15,23]");
    assert_eq!(tree.size_between(&closed(5, 8), &closed(16, 21)), 4);
    assert_eq!(tree.size_between(&closed(16, 21), &closed(5, 8)), 0);
    assert!(tree.intervals_between(&closed(16, 21), &closed(5, 8)).is_empty());
    assert_eq!(tree.size_between(&closed(5, 8), &closed(5, 8)), 0);
    assert_eq!(tree.size_between(&closed(0, 0), &closed(99, 99)), 10);
}

#[test]
fn heights_of_small_trees() {
    let mut tree = IntervalTree::<usize>::init();
    tree.insert(closed(1, 1));
    assert_eq!(tree.height(), 0);
    tree.insert(closed(2, 2));
    assert_eq!(tree.height(), 1);
    tree.insert(closed(3, 3));
    assert_eq!(tree.height(), 1);
    tree.insert(closed(4, 4));
    assert_eq!(tree.height(), 2);
    assert_eq!(tree.select(0).unwrap().to_string(), "[1,1]");
    assert_eq!(tree.select(3).unwrap().to_string(), "[4,4]");
}
