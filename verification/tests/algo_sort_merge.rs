use rudac::algo::sort::merge_sort;

#[test]
fn algo_sort_merge_1() {
    let mut vec = Vec::with_capacity(100);

    for left_index in (0..100).rev() {
        vec.push(left_index);
    }

    merge_sort(&mut vec);

    for left_index in 0..100 {
        assert_eq!(vec[left_index], left_index);
    }
}

