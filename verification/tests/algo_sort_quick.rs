use rudac::algo::sort::quick_sort;

#[test]
fn algo_sort_quick_1() {
    let mut vec = Vec::with_capacity(100);

    for i in (0..100).rev() {
        vec.push(i);
    }

    quick_sort(&mut vec);

    for i in 0..100 {
        assert_eq!(vec[i], i);
    }
}

