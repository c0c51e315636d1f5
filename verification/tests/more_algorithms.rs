use rudac::algo::compare::ask;
use rudac::algo::compare::order_of;
use rudac::algo::find::kth::set_median_with;
use rudac::algo::find::kth_with;
use rudac::algo::find::max;
use rudac::algo::find::max_with;
use rudac::algo::find::median;
use rudac::algo::find::median_with;
use rudac::algo::find::min;
use rudac::algo::find::min_with;
use rudac::algo::search::binary_search;
use rudac::algo::search::binary_search_with;
use rudac::algo::search::exponential_search;
use rudac::algo::search::exponential_search_with;
use rudac::algo::search::fibonacci_search;
use rudac::algo::search::fibonacci_search_with;
use rudac::algo::search::linear_search;
use rudac::algo::search::linear_search_with;
use rudac::algo::sort::merge::merge_with;
use rudac::algo::sort::merge_sort;
use rudac::algo::sort::merge_sort_with;
use rudac::algo::sort::quick_sort;
use rudac::algo::sort::quick_sort_with;
use rudac::algo::transform::partition;
use rudac::algo::transform::partition_with;
use rudac::util::order::is_eq;
use rudac::util::order::is_le;
use rudac::util::order::is_lt;
use std::cmp::Ordering;

fn downwards(a: &i32, b: &i32) -> Ordering {
    b.cmp(a)
}

fn by_tens(a: &i32, b: &i32) -> Ordering {
    (a / 10).cmp(&(b / 10))
}

fn scrambled(n: i32) -> Vec<i32> {
    let mut v = Vec::new();
    let mut x = 7;
    for _ in 0..n {
        x = (x * 37 + 11) % 101;
        v.push(x);
    }
    v
}

#[test]
fn comparisons_of_the_order() {
    assert!(is_lt(&1, &2));
    assert!(!is_lt(&2, &2));
    assert!(!is_lt(&3, &2));
    assert!(is_le(&2, &2));
    assert!(is_le(&1, &2));
    assert!(!is_le(&3, &2));
    assert!(is_eq(&2, &2));
    assert!(!is_eq(&1, &2));
    assert_eq!(order_of(&1, &2), Ordering::Less);
    assert_eq!(order_of(&2, &2), Ordering::Equal);
    assert_eq!(order_of(&3, &2), Ordering::Greater);
    assert_eq!(ask(&downwards, &1, &2), Ordering::Greater);
}

#[test]
fn linear_search_finds_the_first() {
    let v = vec![4, 7, 7, 1, 7];
    assert_eq!(linear_search(&v, &7), Some(1));
    assert_eq!(linear_search(&v, &4), Some(0));
    assert_eq!(linear_search(&v, &9), None);
    assert_eq!(linear_search::<i32>(&[], &9), None);
    assert_eq!(linear_search_with(&[31, 12, 17, 25], &19, &by_tens), Some(1));
    assert_eq!(linear_search_with(&[31, 12, 17, 25], &49, &by_tens), None);
}

#[test]
fn searches_in_sorted_slices_agree() {
    for n in 1..40 {
        let mut v: Vec<i32> = (0..n).map(|i| 3 * i).collect();
        v.sort();
        for item in -2..(3 * n + 2) {
            let present = item >= 0 && item < 3 * n && item % 3 == 0;
            for found in [
                binary_search(&v, &item),
                exponential_search(&v, &item),
                fibonacci_search(&v, &item),
            ] {
                match found {
                    Some(i) => {
                        assert!(present);
                        assert_eq!(v[i], item);
                    }
                    None => assert!(!present),
                }
            }
        }
    }
}

#[test]
fn searches_with_a_comparison() {
    let v = vec![90, 71, 55, 40, 22, 8];
    for item in [90, 71, 55, 40, 22, 8] {
        let at = v.iter().position(|x| *x == item).unwrap();
        assert_eq!(binary_search_with(&v, &item, &downwards), Some(at));
        assert_eq!(exponential_search_with(&v, &item, &downwards), Some(at));
        assert_eq!(fibonacci_search_with(&v, &item, &downwards), Some(at));
    }
    for item in [100, 60, 0] {
        assert_eq!(binary_search_with(&v, &item, &downwards), None);
        assert_eq!(exponential_search_with(&v, &item, &downwards), None);
        assert_eq!(fibonacci_search_with(&v, &item, &downwards), None);
    }
    let tens = vec![3, 14, 15, 27, 39];
    let found = binary_search_with(&tens, &19, &by_tens).unwrap();
    assert!(found == 1 || found == 2);
}

#[test]
fn sorts_sort() {
    for n in 0..60 {
        let v = scrambled(n);
        let mut expected = v.clone();
        expected.sort();
        let mut a = v.clone();
        quick_sort(&mut a);
        assert_eq!(a, expected);
        let mut b = v.clone();
        merge_sort(&mut b);
        assert_eq!(b, expected);
        expected.reverse();
        let mut c = v.clone();
        quick_sort_with(&mut c, &downwards);
        assert_eq!(c, expected);
        let mut d = v.clone();
        merge_sort_with(&mut d, &downwards);
        assert_eq!(d, expected);
    }
}

#[test]
fn merge_sort_keeps_equal_elements_in_turn() {
    let mut v = vec![31, 12, 35, 17, 10, 39, 21];
    merge_sort_with(&mut v, &by_tens);
    assert_eq!(v, vec![10, 17, 12, 21, 39, 35, 31]);
}

#[test]
fn merge_takes_from_both() {
    let left = [1, 4, 9];
    let right = [2, 3, 10, 11];
    let mut out = [0; 7];
    merge_with(&left, &right, &mut out, &|a: &i32, b: &i32| a.cmp(b));
    assert_eq!(out, [1, 2, 3, 4, 9, 10, 11]);
    let mut one = [0; 3];
    merge_with(&left, &[], &mut one, &|a: &i32, b: &i32| a.cmp(b));
    assert_eq!(one, [1, 4, 9]);
}

#[test]
fn partition_parts_around_the_pivot() {
    let mut v = vec![5, 9, 1, 7, 3, 8, 2];
    let at = partition(&mut v, 0);
    assert_eq!(v[at], 5);
    assert_eq!(at, 3);
    for i in 0..at {
        assert!(v[i] < 5);
    }
    for i in at + 1..v.len() {
        assert!(v[i] >= 5);
    }
    assert_eq!(v, vec![2, 1, 3, 5, 9, 8, 7]);
    let mut w = vec![5, 9, 1, 7, 3, 8, 2];
    let at = partition_with(&mut w, 3, &downwards);
    assert_eq!(w[at], 7);
    assert_eq!(at, 2);
    let mut single = vec![4];
    assert_eq!(partition(&mut single, 0), 0);
}

#[test]
fn selection_puts_the_element_in_place() {
    for n in 1..40 {
        let v = scrambled(n);
        let mut sorted = v.clone();
        sorted.sort();
        for k in 0..v.len() {
            let mut a = v.clone();
            let at = rudac::algo::find::kth(&mut a, k);
            assert_eq!(at, k);
            assert_eq!(a[at], sorted[k]);
            let mut b = v.clone();
            let at = kth_with(&mut b, k, &downwards);
            assert_eq!(b[at], sorted[v.len() - 1 - k]);
        }
        let mut a = v.clone();
        let at = min(&mut a);
        assert_eq!(a[at], sorted[0]);
        let mut a = v.clone();
        let at = max(&mut a);
        assert_eq!(a[at], sorted[v.len() - 1]);
        let mut a = v.clone();
        let at = median(&mut a);
        assert_eq!(a[at], sorted[v.len() / 2]);
        let mut a = v.clone();
        let at = min_with(&mut a, &downwards);
        assert_eq!(a[at], sorted[v.len() - 1]);
        let mut a = v.clone();
        let at = max_with(&mut a, &downwards);
        assert_eq!(a[at], sorted[0]);
        let mut a = v.clone();
        let at = median_with(&mut a, &downwards);
        assert_eq!(a[at], sorted[v.len() - 1 - v.len() / 2]);
    }
}

#[test]
fn median_of_a_group_comes_first() {
    let mut v = vec![9, 2, 7, 4, 5];
    set_median_with(&mut v, &|a: &i32, b: &i32| a.cmp(b));
    assert_eq!(v, vec![5, 4, 2, 7, 9]);
    let mut w = vec![9, 2, 7, 4];
    set_median_with(&mut w, &downwards);
    assert_eq!(w, vec![4, 7, 9, 2]);
}
