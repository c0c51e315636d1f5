use rudac::util::Bound::Excluded;
use rudac::util::Bound::Included;
use rudac::util::Bound::Unbounded;
use rudac::util::Interval;

#[test]
fn util_interval_valid_1() {
    assert!(Interval::valid(&Interval::new(Included(2), Included(2)).unwrap()));
    assert!(Interval::valid(&Interval::new(Excluded(2), Included(3)).unwrap()));
    assert!(Interval::valid(&Interval::new(Included(2), Excluded(3)).unwrap()));
    assert!(Interval::valid(&Interval::new(Excluded(2), Excluded(3)).unwrap()));

    assert!(Interval::valid(&Interval::new(Unbounded, Included(1)).unwrap()));
    assert!(Interval::valid(&Interval::new(Excluded(2), Unbounded).unwrap()));
    assert!(Interval::<usize>::valid(&Interval::new(
        Unbounded, Unbounded
    ).unwrap()));
}

#[test]
fn util_interval_compare_1() {
    let interval1 = Interval::new(Included(2), Included(3)).unwrap();
    let interval2 = Interval::new(Included(2), Excluded(3)).unwrap();
    let interval3 = Interval::new(Excluded(2), Included(3)).unwrap();
    let interval4 = Interval::new(Excluded(2), Excluded(3)).unwrap();

    let interval5 = Interval::new(Unbounded, Excluded(3)).unwrap();
    let interval6 = Interval::new(Excluded(2), Unbounded).unwrap();
    let interval7 = Interval::new(Unbounded, Excluded(3)).unwrap();
    let interval8 = Interval::<usize>::new(Unbounded, Unbounded).unwrap();

    assert!(interval1 == interval1);
    assert!(interval1 > interval2);
    assert!(interval2 < interval1);
    assert!(interval2 < interval3);
    assert!(interval3 > interval4);
    assert!(interval5 < interval6);
    assert!(interval7 < interval6);
    assert!(interval5 < interval8);
    assert!(interval6 > interval8);
}

#[test]
fn util_interval_overlaps_1() {
    let interval1 = Interval::new(Included(1), Included(3)).unwrap();
    let interval2 = Interval::new(Included(2), Included(4)).unwrap();

    assert!(Interval::overlaps(&interval1, &interval2));
}

#[test]
fn util_interval_overlaps_2() {
    let interval1 = Interval::new(Included(1), Included(3)).unwrap();
    let interval2 = Interval::new(Included(2), Excluded(3)).unwrap();

    assert!(Interval::overlaps(&interval1, &interval2));
}

#[test]
fn util_interval_overlaps_3() {
    let interval1 = Interval::new(Included(1), Included(3)).unwrap();
    let interval2 = Interval::new(Excluded(1), Excluded(3)).unwrap();

    assert!(Interval::overlaps(&interval1, &interval2));
}

#[test]
fn util_interval_overlaps_4() {
    let interval1 = Interval::new(Included(1), Included(3)).unwrap();
    let interval2 = Interval::new(Excluded(3), Excluded(4)).unwrap();

    assert!(!Interval::overlaps(&interval1, &interval2));
}

#[test]
fn util_interval_overlaps_5() {
    let interval1 = Interval::new(Included(1), Included(3)).unwrap();
    let interval2 = Interval::new(Excluded(0), Excluded(1)).unwrap();

    assert!(!Interval::overlaps(&interval1, &interval2));
}

#[test]
fn util_interval_overlaps_6() {
    let interval1 = Interval::new(Included(1), Included(3)).unwrap();
    let interval2 = Interval::new(Excluded(4), Excluded(5)).unwrap();

    assert!(!Interval::overlaps(&interval1, &interval2));
}

#[test]
fn util_interval_overlaps_7() {
    let interval1 = Interval::new(Unbounded, Included(3)).unwrap();
    let interval2 = Interval::new(Excluded(1), Excluded(5)).unwrap();

    assert!(Interval::overlaps(&interval1, &interval2));
}

#[test]
fn util_interval_overlaps_8() {
    let interval1 = Interval::new(Included(1), Included(3)).unwrap();
    let interval2 = Interval::new(Excluded(4), Unbounded).unwrap();

    assert!(!Interval::overlaps(&interval1, &interval2));
}

#[test]
fn until_interval_get_overlap_1() {
    let interval1 = Interval::new(Included(1), Included(3)).unwrap();
    let interval2 = Interval::new(Included(2), Included(4)).unwrap();

    assert!(
        Interval::get_overlap(&interval1, &interval2).unwrap()
            == Interval::new(Included(2), Included(3)).unwrap()
    );
}

#[test]
fn until_interval_get_overlap_2() {
    let interval1 = Interval::new(Included(1), Excluded(3)).unwrap();
    let interval2 = Interval::new(Included(2), Included(4)).unwrap();

    assert!(
        Interval::get_overlap(&interval1, &interval2).unwrap()
            == Interval::new(Included(2), Excluded(3)).unwrap()
    );
}

#[test]
fn until_interval_get_overlap_3() {
    let interval1 = Interval::new(Included(1), Excluded(3)).unwrap();
    let interval2 = Interval::new(Included(2), Included(3)).unwrap();

    assert!(
        Interval::get_overlap(&interval1, &interval2).unwrap()
            == Interval::new(Included(2), Excluded(3)).unwrap()
    );
}

#[test]
fn until_interval_get_overlap_4() {
    let interval1 = Interval::new(Excluded(1), Excluded(3)).unwrap();
    let interval2 = Interval::new(Included(1), Included(4)).unwrap();

    assert!(
        Interval::get_overlap(&interval1, &interval2).unwrap()
            == Interval::new(Excluded(1), Excluded(3)).unwrap()
    );
}

#[test]
fn until_interval_get_overlap_5() {
    let interval1 = Interval::new(Unbounded, Excluded(3)).unwrap();
    let interval2 = Interval::new(Included(1), Included(2)).unwrap();

    assert!(
        Interval::get_overlap(&interval1, &interval2).unwrap()
            == Interval::new(Included(1), Included(2)).unwrap()
    );
}

#[test]
fn until_interval_get_overlap_6() {
    let interval1 = Interval::new(Unbounded, Excluded(3)).unwrap();
    let interval2 = Interval::new(Unbounded, Included(2)).unwrap();

    assert!(
        Interval::get_overlap(&interval1, &interval2).unwrap()
            == Interval::new(Unbounded, Included(2)).unwrap()
    );
}

#[test]
fn until_interval_get_overlap_7() {
    let interval1 = Interval::new(Excluded(2), Excluded(3)).unwrap();
    let interval2 = Interval::new(Unbounded, Included(3)).unwrap();

    assert!(
        Interval::get_overlap(&interval1, &interval2).unwrap()
            == Interval::new(Excluded(2), Excluded(3)).unwrap()
    );
}

#[test]
fn until_interval_get_overlap_8() {
    let interval1 = Interval::new(Excluded(2), Unbounded).unwrap();
    let interval2 = Interval::new(Unbounded, Unbounded).unwrap();

    assert!(
        Interval::get_overlap(&interval1, &interval2).unwrap()
            == Interval::new(Excluded(2), Unbounded).unwrap()
    );
}

#[test]
fn until_interval_get_overlap_9() {
    let interval1 = Interval::new(Excluded(2), Included(3)).unwrap();
    let interval2 = Interval::new(Excluded(3), Included(4)).unwrap();

    assert!(Interval::get_overlap(&interval1, &interval2).is_none());
}

#[test]
fn until_interval_get_overlap_10() {
    let interval1 = Interval::new(Excluded(2), Included(3)).unwrap();
    let interval2 = Interval::new(Included(4), Included(4)).unwrap();

    assert!(Interval::get_overlap(&interval1, &interval2).is_none());
}

#[test]
fn until_interval_get_overlap_11() {
    let interval1 = Interval::new(Included(3), Included(4)).unwrap();
    let interval2 = Interval::new(Included(2), Included(3)).unwrap();

    assert!(
        Interval::get_overlap(&interval1, &interval2).unwrap()
            == Interval::new(Included(3), Included(3)).unwrap()
    );
}

#[test]
fn until_interval_contains_1() {
    let interval1 = Interval::new(Included(1), Included(4)).unwrap();
    let interval2 = Interval::new(Included(2), Included(3)).unwrap();

    assert!(Interval::contains(&interval1, &interval2));
}

#[test]
fn until_interval_contains_2() {
    let interval1 = Interval::new(Included(1), Included(4)).unwrap();
    let interval2 = Interval::new(Excluded(1), Included(3)).unwrap();

    assert!(Interval::contains(&interval1, &interval2));
}

#[test]
fn until_interval_contains_3() {
    let interval1 = Interval::new(Included(1), Included(4)).unwrap();
    let interval2 = Interval::new(Included(1), Included(3)).unwrap();

    assert!(Interval::contains(&interval1, &interval2));
}

#[test]
fn until_interval_contains_4() {
    let interval1 = Interval::new(Included(1), Included(4)).unwrap();
    let interval2 = Interval::new(Included(2), Excluded(4)).unwrap();

    assert!(Interval::contains(&interval1, &interval2));
}

#[test]
fn until_interval_contains_5() {
    let interval1 = Interval::new(Included(1), Included(4)).unwrap();
    let interval2 = Interval::new(Included(2), Included(4)).unwrap();

    assert!(Interval::contains(&interval1, &interval2));
}

