use rudac::algo::search::linear_search;

#[test]
fn algo_search_linear_search() {
    let mut vec = Vec::with_capacity(100);

    for i in 50..100 {
        vec.push(i);
    }

    for i in 50..100 {
        assert_eq!(vec[linear_search(&vec, &i).unwrap()], i);
    }

    for i in 0..50 {
        assert_eq!(linear_search(&vec, &i), None);
    }
    for i in 100..150 {
        assert_eq!(linear_search(&vec, &i), None);
    }
}

