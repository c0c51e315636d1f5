use rudac::algo::search::fibonacci_search;

#[test]
fn algo_search_fibonacci_search() {
    let mut vec = Vec::with_capacity(100);

    for i in 50..100 {
        vec.push(i);
    }

    for i in 50..100 {
        assert_eq!(vec[fibonacci_search(&vec, &i).unwrap()], i);
    }

    for i in 0..50 {
        assert_eq!(fibonacci_search(&vec, &i), None);
    }
    for i in 100..150 {
        assert_eq!(fibonacci_search(&vec, &i), None);
    }
}

