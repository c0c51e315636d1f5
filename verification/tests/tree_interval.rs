use rudac::tree::IntervalTree;
use rudac::util::Bound::Excluded;
use rudac::util::Bound::Included;
use rudac::util::Bound::Unbounded;
use rudac::util::Interval;

#[test]
fn tree_interval_init() {
    let interval_tree = IntervalTree::<usize>::init();

    assert_eq!(interval_tree.is_empty(), true);
    assert_eq!(interval_tree.size(), 0);
}

#[test]
fn tree_interval_insert() {
    let mut interval_tree = IntervalTree::<usize>::init();

    interval_tree.insert(Interval::new(Included(0), Included(3)).unwrap());
    interval_tree.insert(Interval::new(Included(5), Included(8)).unwrap());
    interval_tree.insert(Interval::new(Included(6), Included(10)).unwrap());
    interval_tree.insert(Interval::new(Included(8), Included(9)).unwrap());
    interval_tree.insert(Interval::new(Included(15), Included(23)).unwrap());
    interval_tree.insert(Interval::new(Included(16), Included(21)).unwrap());
    interval_tree.insert(Interval::new(Included(17), Included(19)).unwrap());
    interval_tree.insert(Interval::new(Included(19), Included(20)).unwrap());
    interval_tree.insert(Interval::new(Included(25), Included(30)).unwrap());
    interval_tree.insert(Interval::new(Included(26), Included(26)).unwrap());

    assert_eq!(interval_tree.size(), 10);
}

#[test]
fn tree_interval_find_overlap_1() {
    let mut interval_tree = IntervalTree::<usize>::init();

    interval_tree.insert(Interval::new(Included(0), Included(3)).unwrap());
    interval_tree.insert(Interval::new(Included(5), Included(8)).unwrap());
    interval_tree.insert(Interval::new(Included(6), Included(10)).unwrap());
    interval_tree.insert(Interval::new(Included(8), Included(9)).unwrap());
    interval_tree.insert(Interval::new(Included(15), Included(23)).unwrap());
    interval_tree.insert(Interval::new(Included(16), Included(21)).unwrap());
    interval_tree.insert(Interval::new(Included(17), Included(19)).unwrap());
    interval_tree.insert(Interval::new(Included(19), Included(20)).unwrap());
    interval_tree.insert(Interval::new(Included(25), Included(30)).unwrap());
    interval_tree.insert(Interval::new(Included(26), Included(26)).unwrap());

    assert!(
        interval_tree
                .find_overlap(&Interval::new(Included(1), Included(2)).unwrap())
                .unwrap().to_string() == String::from("[0,3]")
    );

    assert!(
        interval_tree
                .find_overlap(&Interval::new(Included(4), Included(5)).unwrap())
                .unwrap().to_string() == String::from("[5,8]")
    );

    assert!(
        interval_tree
                .find_overlap(&Interval::new(Included(10), Included(14)).unwrap())
                .unwrap().to_string() == String::from("[6,10]")
    );

    assert!(
        interval_tree
                .find_overlap(&Interval::new(Included(14), Included(15)).unwrap())
                .unwrap().to_string() == String::from("[15,23]")
    );

    assert!(
        interval_tree
                .find_overlap(&Interval::new(Included(15), Included(18)).unwrap())
                .unwrap().to_string() == String::from("[16,21]")
    );

    assert!(
        interval_tree
                .find_overlap(&Interval::new(Included(19), Included(19)).unwrap())
                .unwrap().to_string() == String::from("[19,20]")
    );

    assert!(
        interval_tree
                .find_overlap(&Interval::new(Included(23), Included(23)).unwrap())
                .unwrap().to_string() == String::from("[15,23]")
    );

    assert!(
        interval_tree
                .find_overlap(&Interval::new(Included(24), Included(26)).unwrap())
                .unwrap().to_string() == String::from("[25,30]")
    );

    assert!(
        interval_tree
                .find_overlap(&Interval::new(Included(26), Included(36)).unwrap())
                .unwrap().to_string() == String::from("[25,30]")
    );

    assert!(interval_tree
        .find_overlap(&Interval::new(Included(31), Included(36)).unwrap())
        .is_none());
    assert!(interval_tree
        .find_overlap(&Interval::new(Included(12), Included(12)).unwrap())
        .is_none());
    assert!(interval_tree
        .find_overlap(&Interval::new(Included(13), Included(13)).unwrap())
        .is_none());
    assert!(interval_tree
        .find_overlap(&Interval::new(Included(12), Included(14)).unwrap())
        .is_none());
}

#[test]
fn tree_interval_find_overlap_2() {
    let mut interval_tree = IntervalTree::<usize>::init();

    interval_tree.insert(Interval::new(Included(0), Excluded(3)).unwrap());
    interval_tree.insert(Interval::new(Excluded(5), Included(8)).unwrap());
    interval_tree.insert(Interval::new(Included(6), Included(10)).unwrap());
    interval_tree.insert(Interval::new(Excluded(8), Included(9)).unwrap());
    interval_tree.insert(Interval::new(Excluded(15), Excluded(23)).unwrap());
    interval_tree.insert(Interval::new(Included(16), Excluded(21)).unwrap());
    interval_tree.insert(Interval::new(Included(17), Excluded(19)).unwrap());
    interval_tree.insert(Interval::new(Excluded(19), Included(20)).unwrap());
    interval_tree.insert(Interval::new(Excluded(25), Included(30)).unwrap());
    interval_tree.insert(Interval::new(Included(26), Included(26)).unwrap());

    assert!(
        interval_tree
                .find_overlap(&Interval::new(Included(1), Included(2)).unwrap())
                .unwrap().to_string() == String::from("[0,3)")
    );

    assert!(interval_tree
        .find_overlap(&Interval::new(Included(4), Included(5)).unwrap())
        .is_none());

    assert!(
        interval_tree
                .find_overlap(&Interval::new(Included(10), Included(14)).unwrap())
                .unwrap().to_string() == String::from("[6,10]")
    );

    assert!(interval_tree
        .find_overlap(&Interval::new(Included(14), Included(15)).unwrap())
        .is_none());

    assert!(
        interval_tree
                .find_overlap(&Interval::new(Included(15), Included(18)).unwrap())
                .unwrap().to_string() == String::from("[16,21)")
    );

    assert!(
        interval_tree
                .find_overlap(&Interval::new(Included(19), Included(19)).unwrap())
                .unwrap().to_string() == String::from("[16,21)")
    );

    assert!(
        interval_tree
                .find_overlap(&Interval::new(Excluded(23), Included(26)).unwrap())
                .unwrap().to_string() == String::from("(25,30]")
    );

    assert!(interval_tree
        .find_overlap(&Interval::new(Excluded(10), Excluded(15)).unwrap())
        .is_none());

    assert!(
        interval_tree
                .find_overlap(&Interval::new(Excluded(21), Included(23)).unwrap())
                .unwrap().to_string() == String::from("(15,23)")
    );

    assert!(interval_tree
        .find_overlap(&Interval::new(Included(31), Included(36)).unwrap())
        .is_none());
    assert!(interval_tree
        .find_overlap(&Interval::new(Included(12), Included(12)).unwrap())
        .is_none());
    assert!(interval_tree
        .find_overlap(&Interval::new(Included(13), Included(13)).unwrap())
        .is_none());
    assert!(interval_tree
        .find_overlap(&Interval::new(Included(12), Included(14)).unwrap())
        .is_none());
}

#[test]
fn tree_interval_find_overlap_3() {
    let mut interval_tree = IntervalTree::<usize>::init();

    interval_tree.insert(Interval::new(Unbounded, Excluded(3)).unwrap());
    interval_tree.insert(Interval::new(Excluded(5), Included(8)).unwrap());
    interval_tree.insert(Interval::new(Included(6), Included(10)).unwrap());
    interval_tree.insert(Interval::new(Unbounded, Included(9)).unwrap());
    interval_tree.insert(Interval::new(Excluded(15), Excluded(23)).unwrap());
    interval_tree.insert(Interval::new(Unbounded, Excluded(21)).unwrap());
    interval_tree.insert(Interval::new(Included(17), Excluded(19)).unwrap());
    interval_tree.insert(Interval::new(Excluded(19), Unbounded).unwrap());
    interval_tree.insert(Interval::new(Unbounded, Included(30)).unwrap());
    interval_tree.insert(Interval::new(Included(26), Unbounded).unwrap());

    assert!(
        interval_tree
                .find_overlap(&Interval::new(Included(1), Included(2)).unwrap())
                .unwrap().to_string() == String::from("(_,9]")
    );

    assert!(
        interval_tree
                .find_overlap(&Interval::new(Included(4), Included(5)).unwrap())
                .unwrap().to_string() == String::from("(_,9]")
    );

    assert!(
        interval_tree
                .find_overlap(&Interval::new(Included(10), Included(14)).unwrap())
                .unwrap().to_string() == String::from("(_,21)")
    );

    assert!(
        interval_tree
                .find_overlap(&Interval::new(Included(14), Included(15)).unwrap())
                .unwrap().to_string() == String::from("(_,21)")
    );

    assert!(
        interval_tree
                .find_overlap(&Interval::new(Included(15), Included(18)).unwrap())
                .unwrap().to_string() == String::from("(_,21)")
    );

    assert!(
        interval_tree
                .find_overlap(&Interval::new(Included(19), Included(19)).unwrap())
                .unwrap().to_string() == String::from("(_,21)")
    );

    assert!(
        interval_tree
                .find_overlap(&Interval::new(Excluded(23), Included(26)).unwrap())
                .unwrap().to_string() == String::from("(_,30]")
    );

    assert!(
        interval_tree
                .find_overlap(&Interval::new(Excluded(21), Included(23)).unwrap())
                .unwrap().to_string() == String::from("(_,30]")
    );

    assert!(
        interval_tree
                .find_overlap(&Interval::new(Unbounded, Included(0)).unwrap())
                .unwrap().to_string() == String::from("(_,9]")
    );
}

#[test]
fn tree_interval_delete_1() {
    let mut interval_tree = IntervalTree::<usize>::init();

    interval_tree.insert(Interval::new(Included(0), Excluded(3)).unwrap());
    interval_tree.insert(Interval::new(Excluded(5), Included(8)).unwrap());
    interval_tree.insert(Interval::new(Included(6), Included(10)).unwrap());
    interval_tree.insert(Interval::new(Excluded(8), Included(9)).unwrap());
    interval_tree.insert(Interval::new(Excluded(15), Excluded(23)).unwrap());
    interval_tree.insert(Interval::new(Included(16), Excluded(21)).unwrap());
    interval_tree.insert(Interval::new(Included(17), Excluded(19)).unwrap());
    interval_tree.insert(Interval::new(Excluded(19), Included(20)).unwrap());
    interval_tree.insert(Interval::new(Excluded(25), Included(30)).unwrap());
    interval_tree.insert(Interval::new(Included(26), Included(26)).unwrap());
    let mut interval = Interval::new(Included(1), Included(2)).unwrap();
    let mut overlapped_interval = interval_tree.find_overlap(&interval).unwrap();
    interval_tree.delete(&overlapped_interval);
    assert!(interval_tree.find_overlap(&interval).is_none());

    interval = Interval::new(Included(15), Included(18)).unwrap();
    overlapped_interval = interval_tree.find_overlap(&interval).unwrap();
    interval_tree.delete(&overlapped_interval);
    overlapped_interval = interval_tree.find_overlap(&interval).unwrap();
    interval_tree.delete(&overlapped_interval);
    overlapped_interval = interval_tree.find_overlap(&interval).unwrap();
    interval_tree.delete(&overlapped_interval);
    assert!(interval_tree.find_overlap(&interval).is_none());
}

#[test]
fn tree_interval_delete_max_1() {
    let mut interval_tree = IntervalTree::<usize>::init();

    interval_tree.insert(Interval::new(Included(0), Excluded(3)).unwrap());
    interval_tree.insert(Interval::new(Excluded(5), Included(8)).unwrap());
    interval_tree.insert(Interval::new(Included(6), Included(10)).unwrap());
    interval_tree.insert(Interval::new(Excluded(8), Included(9)).unwrap());
    interval_tree.insert(Interval::new(Excluded(15), Excluded(23)).unwrap());
    interval_tree.insert(Interval::new(Included(16), Excluded(21)).unwrap());
    interval_tree.insert(Interval::new(Included(17), Excluded(19)).unwrap());
    interval_tree.insert(Interval::new(Excluded(19), Included(20)).unwrap());
    interval_tree.insert(Interval::new(Excluded(25), Included(30)).unwrap());
    interval_tree.insert(Interval::new(Included(26), Included(26)).unwrap());
    interval_tree.delete_max();
    interval_tree.delete_max();

    assert!(interval_tree
        .find_overlap(&Interval::new(Included(23), Included(23)).unwrap())
        .is_none());
}

#[test]
fn tree_interval_delete_min_1() {
    let mut interval_tree = IntervalTree::<usize>::init();

    interval_tree.insert(Interval::new(Included(0), Excluded(3)).unwrap());
    interval_tree.insert(Interval::new(Excluded(5), Included(8)).unwrap());
    interval_tree.insert(Interval::new(Included(6), Included(10)).unwrap());
    interval_tree.insert(Interval::new(Excluded(8), Included(9)).unwrap());
    interval_tree.insert(Interval::new(Excluded(15), Excluded(23)).unwrap());
    interval_tree.insert(Interval::new(Included(16), Excluded(21)).unwrap());
    interval_tree.insert(Interval::new(Included(17), Excluded(19)).unwrap());
    interval_tree.insert(Interval::new(Excluded(19), Included(20)).unwrap());
    interval_tree.insert(Interval::new(Excluded(25), Included(30)).unwrap());
    interval_tree.insert(Interval::new(Included(26), Included(26)).unwrap());
    interval_tree.delete_min();
    interval_tree.delete_min();

    assert!(interval_tree
        .find_overlap(&Interval::new(Included(1), Excluded(6)).unwrap())
        .is_none());
}

#[test]
fn tree_interval_select_1() {
    let mut interval_tree = IntervalTree::<usize>::init();

    interval_tree.insert(Interval::new(Excluded(0), Included(1)).unwrap());
    interval_tree.insert(Interval::new(Included(0), Excluded(3)).unwrap());
    interval_tree.insert(Interval::new(Included(6), Included(10)).unwrap());
    interval_tree.insert(Interval::new(Excluded(8), Included(9)).unwrap());
    interval_tree.insert(Interval::new(Excluded(15), Excluded(23)).unwrap());
    interval_tree.insert(Interval::new(Included(16), Excluded(21)).unwrap());
    interval_tree.insert(Interval::new(Included(17), Excluded(19)).unwrap());
    interval_tree.insert(Interval::new(Excluded(19), Included(20)).unwrap());
    interval_tree.insert(Interval::new(Excluded(25), Included(30)).unwrap());
    interval_tree.insert(Interval::new(Included(26), Included(26)).unwrap());
    assert!(interval_tree.select(0).unwrap().to_string() == String::from("[0,3)"));
    assert!(interval_tree.select(1).unwrap().to_string() == String::from("(0,1]"));
    assert!(interval_tree.select(2).unwrap().to_string() == String::from("[6,10]"));
    assert!(interval_tree.select(3).unwrap().to_string() == String::from("(8,9]"));
    assert!(interval_tree.select(4).unwrap().to_string() == String::from("(15,23)"));
    assert!(interval_tree.select(5).unwrap().to_string() == String::from("[16,21)"));
    assert!(interval_tree.select(6).unwrap().to_string() == String::from("[17,19)"));
    assert!(interval_tree.select(7).unwrap().to_string() == String::from("(19,20]"));
    assert!(interval_tree.select(8).unwrap().to_string() == String::from("(25,30]"));
    assert!(interval_tree.select(9).unwrap().to_string() == String::from("[26,26]"));
}

#[test]
fn tree_interval_intervals_between_1() {
    let mut interval_tree = IntervalTree::<usize>::init();

    interval_tree.insert(Interval::new(Excluded(0), Included(1)).unwrap());
    interval_tree.insert(Interval::new(Included(0), Excluded(3)).unwrap());
    interval_tree.insert(Interval::new(Included(6), Included(10)).unwrap());
    interval_tree.insert(Interval::new(Excluded(8), Included(9)).unwrap());
    interval_tree.insert(Interval::new(Excluded(15), Excluded(23)).unwrap());
    interval_tree.insert(Interval::new(Included(16), Excluded(21)).unwrap());
    interval_tree.insert(Interval::new(Included(17), Excluded(19)).unwrap());
    interval_tree.insert(Interval::new(Excluded(19), Included(20)).unwrap());
    interval_tree.insert(Interval::new(Excluded(25), Included(30)).unwrap());
    interval_tree.insert(Interval::new(Included(26), Included(26)).unwrap());

    let low = Interval::new(Included(14), Included(14)).unwrap();
    let high = Interval::new(Included(24), Included(24)).unwrap();
    let intervals = interval_tree.intervals_between(&low, &high);

    let accept = String::from("(15,23)[16,21)[17,19)(19,20]");

    let mut result = String::from("");
    for interval in intervals {
        result.push_str(&interval.to_string())
    }

    assert_eq!(result, accept);
}

#[test]
fn tree_interval_find_overlaps_1() {
    let mut interval_tree = IntervalTree::<usize>::init();

    interval_tree.insert(Interval::new(Excluded(0), Included(1)).unwrap());
    interval_tree.insert(Interval::new(Included(0), Excluded(3)).unwrap());
    interval_tree.insert(Interval::new(Included(6), Included(10)).unwrap());
    interval_tree.insert(Interval::new(Excluded(8), Included(9)).unwrap());
    interval_tree.insert(Interval::new(Excluded(15), Excluded(23)).unwrap());
    interval_tree.insert(Interval::new(Included(16), Excluded(21)).unwrap());
    interval_tree.insert(Interval::new(Included(17), Excluded(19)).unwrap());
    interval_tree.insert(Interval::new(Excluded(19), Included(20)).unwrap());
    interval_tree.insert(Interval::new(Excluded(25), Included(30)).unwrap());
    interval_tree.insert(Interval::new(Included(26), Included(26)).unwrap());

    let interval = Interval::new(Included(8), Included(26)).unwrap();
    let intervals = interval_tree.find_overlaps(&interval);

    let accept = String::from("(8,9][6,10](19,20][16,21)(15,23)[17,19)(25,30][26,26]");

    let mut result = String::from("");
    for interval in intervals {
        result.push_str(&interval.to_string())
    }

    assert_eq!(result, accept);
}

