use rudac::algo::find::kth;
use rudac::algo::find::kth::set_median_with;

#[test]
fn algo_find_set_median_1() {
    let mut vec1 = vec![1];
    let mut vec2 = vec![2, 1];
    let mut vec3 = vec![2, 3, 1];
    let mut vec4 = vec![4, 3, 1, 2];
    let mut vec5 = vec![3, 4, 2, 1, 5];
    let mut vec10 = vec![10, 6, 1, 4, 2, 3, 7, 9, 8, 5];

    set_median_with(&mut vec1, &|x1: &usize, x2: &usize| x1.cmp(x2));
    set_median_with(&mut vec2, &|x1: &usize, x2: &usize| x1.cmp(x2));
    set_median_with(&mut vec3, &|x1: &usize, x2: &usize| x1.cmp(x2));
    set_median_with(&mut vec4, &|x1: &usize, x2: &usize| x1.cmp(x2));
    set_median_with(&mut vec5, &|x1: &usize, x2: &usize| x1.cmp(x2));
    set_median_with(&mut vec10, &|x1: &usize, x2: &usize| x1.cmp(x2));

    assert_eq!(vec1, vec![1]);
    assert_eq!(vec2, vec![2, 1]);
    assert_eq!(vec3, vec![2, 1, 3]);
    assert_eq!(vec4, vec![3, 2, 1, 4]);
    assert_eq!(vec5, vec![3, 2, 1, 4, 5]);
    assert_eq!(vec10, vec![6, 2, 3, 4, 5, 1, 7, 8, 9, 10]);
}

#[test]
fn algo_find_kth_1() {
    let mut vec = vec![10, 6, 1, 4, 2, 3, 7, 9, 8, 5];

    for i in 0..vec.len() {
        let index = kth(&mut vec, i);
        assert_eq!(vec[index], i + 1);
    }
}

#[test]
fn algo_find_kth_2() {
    let mut vec = Vec::<usize>::with_capacity(100);

    for i in (0..vec.capacity()).rev() {
        vec.push(i);
    }

    for i in 0..vec.len() {
        let index = kth(&mut vec, i);
        assert_eq!(vec[index], i);
    }
}

#[test]
fn algo_find_kth_3() {
    let mut vec = vec![1, 1, 3, 4, 5, 5];

    let index = kth(&mut vec, 0);
    assert_eq!(vec[index], 1);

    let index = kth(&mut vec, 1);
    assert_eq!(vec[index], 1);

    let index = kth(&mut vec, 2);
    assert_eq!(vec[index], 3);

    let index = kth(&mut vec, 3);
    assert_eq!(vec[index], 4);

    let index = kth(&mut vec, 4);
    assert_eq!(vec[index], 5);

    let index = kth(&mut vec, 5);
    assert_eq!(vec[index], 5);
}

