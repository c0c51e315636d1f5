use rudac::queue::Circular;

fn all_caps(text: &String) -> String {
    return text.to_uppercase();
}

fn plus_one(num: &usize) -> usize {
    return num + 1;
}

#[test]
fn create_circular_queue_1() {
    let vc: Circular<String> = Circular::new(0);

    assert_eq!(vc.capacity(), 1);
    assert_eq!(vc.push_enabled(), true);
    assert_eq!(vc.front_index(), 0);
    assert_eq!(vc.rear_index(), 0);
    assert_eq!(vc.size(), 0);
}

#[test]
fn create_circular_queue_2() {
    let vc: Circular<String> = Circular::new(1);

    assert_eq!(vc.capacity(), 2);
    assert_eq!(vc.push_enabled(), true);
    assert_eq!(vc.front_index(), 0);
    assert_eq!(vc.rear_index(), 0);
    assert_eq!(vc.size(), 0);
}

#[test]
fn enqueue_on_capacity_zero() {
    let mut vc: Circular<String> = Circular::new(0);

    vc.enqueue(String::from("element1"));

    assert_eq!(vc.push_enabled(), true);
    assert_eq!(vc.front_index(), 0);
    assert_eq!(vc.rear_index(), 0);
    assert_eq!(vc.size(), 0);
}

#[test]
fn enqueue_on_capacity_big() {
    let mut vc: Circular<String> = Circular::new(10);

    vc.enqueue(String::from("element1"));
    assert_eq!(vc.push_enabled(), true);
    assert_eq!(vc.front_index(), 0);
    assert_eq!(vc.rear_index(), 1);
    assert_eq!(vc.size(), 1);

    vc.enqueue(String::from("element2"));
    assert_eq!(vc.push_enabled(), true);
    assert_eq!(vc.front_index(), 0);
    assert_eq!(vc.rear_index(), 2);
    assert_eq!(vc.size(), 2);

    vc.enqueue(String::from("element3"));
    assert_eq!(vc.push_enabled(), true);
    assert_eq!(vc.front_index(), 0);
    assert_eq!(vc.rear_index(), 3);
    assert_eq!(vc.size(), 3);
}

#[test]
fn enqueue_on_full_queue() {
    let mut vc: Circular<String> = Circular::new(3);

    vc.enqueue(String::from("element1"));

    assert_eq!(vc.push_enabled(), true);
    assert_eq!(vc.front_index(), 0);
    assert_eq!(vc.rear_index(), 1);
    assert_eq!(vc.size(), 1);

    vc.enqueue(String::from("element2"));
    assert_eq!(vc.push_enabled(), true);
    assert_eq!(vc.front_index(), 0);
    assert_eq!(vc.rear_index(), 2);
    assert_eq!(vc.size(), 2);

    vc.enqueue(String::from("element3"));
    assert_eq!(vc.push_enabled(), true);
    assert_eq!(vc.front_index(), 0);
    assert_eq!(vc.rear_index(), 3);
    assert_eq!(vc.size(), 3);

    // now queue is full
    vc.enqueue(String::from("element4"));
    assert_eq!(vc.push_enabled(), false);
    assert_eq!(vc.front_index(), 1);
    assert_eq!(vc.rear_index(), 0);
    assert_eq!(vc.size(), 3);

    vc.enqueue(String::from("element5"));
    assert_eq!(vc.push_enabled(), false);
    assert_eq!(vc.front_index(), 2);
    assert_eq!(vc.rear_index(), 1);
    assert_eq!(vc.size(), 3);

    vc.enqueue(String::from("element6"));
    assert_eq!(vc.push_enabled(), false);
    assert_eq!(vc.front_index(), 3);
    assert_eq!(vc.rear_index(), 2);
    assert_eq!(vc.size(), 3);

    vc.enqueue(String::from("element7"));
    assert_eq!(vc.push_enabled(), false);
    assert_eq!(vc.front_index(), 0);
    assert_eq!(vc.rear_index(), 3);
    assert_eq!(vc.size(), 3);
}

#[test]
fn dequeue_on_queue_capacity_zero() {
    let mut vc: Circular<String> = Circular::new(0);

    assert_eq!(None, vc.dequeue());
}

#[test]
fn dequeue_one_element() {
    let mut vc: Circular<String> = Circular::new(1);

    vc.enqueue(String::from("element1"));

    match vc.dequeue() {
        Some(elem) => assert_eq!(*elem, String::from("element1")),
        None => panic!("Element should not be None!"),
    }

    assert_eq!(vc.push_enabled(), true);
    assert_eq!(vc.front_index(), 1);
    assert_eq!(vc.rear_index(), 1);
    assert_eq!(vc.size(), 0);
}

#[test]
fn dequeue_multiple_elements() {
    let mut vc: Circular<String> = Circular::new(5);

    vc.enqueue(String::from("element1"));
    vc.enqueue(String::from("element2"));
    vc.enqueue(String::from("element3"));
    vc.enqueue(String::from("element4"));
    vc.enqueue(String::from("element5"));

    match vc.dequeue() {
        Some(elem) => assert_eq!(*elem, String::from("element1")),
        None => panic!("Element should not be None!"),
    }
    assert_eq!(vc.push_enabled(), true);
    assert_eq!(vc.front_index(), 1);
    assert_eq!(vc.rear_index(), 5);
    assert_eq!(vc.size(), 4);

    match vc.dequeue() {
        Some(elem) => assert_eq!(*elem, String::from("element2")),
        None => panic!("Element should not be None!"),
    }
    assert_eq!(vc.push_enabled(), true);
    assert_eq!(vc.front_index(), 2);
    assert_eq!(vc.rear_index(), 5);
    assert_eq!(vc.size(), 3);

    match vc.dequeue() {
        Some(elem) => assert_eq!(*elem, String::from("element3")),
        None => panic!("Element should not be None!"),
    }
    assert_eq!(vc.push_enabled(), true);
    assert_eq!(vc.front_index(), 3);
    assert_eq!(vc.rear_index(), 5);
    assert_eq!(vc.size(), 2);

    match vc.dequeue() {
        Some(elem) => assert_eq!(*elem, String::from("element4")),
        None => panic!("Element should not be None!"),
    }
    assert_eq!(vc.push_enabled(), true);
    assert_eq!(vc.front_index(), 4);
    assert_eq!(vc.rear_index(), 5);
    assert_eq!(vc.size(), 1);

    match vc.dequeue() {
        Some(elem) => assert_eq!(*elem, String::from("element5")),
        None => panic!("Element should not be None!"),
    }
    assert_eq!(vc.push_enabled(), true);
    assert_eq!(vc.front_index(), 5);
    assert_eq!(vc.rear_index(), 5);
    assert_eq!(vc.size(), 0);
}

#[test]
fn dequeue_when_rear_smaller_than_front_index() {
    let mut vc: Circular<String> = Circular::new(2);

    vc.enqueue(String::from("element1"));
    vc.enqueue(String::from("element2"));
    vc.enqueue(String::from("element3"));
    vc.enqueue(String::from("element4"));

    match vc.dequeue() {
        Some(elem) => assert_eq!(*elem, String::from("element3")),
        None => panic!("Element should not be None!"),
    }
    assert_eq!(vc.push_enabled(), false);
    assert_eq!(vc.front_index(), 0);
    assert_eq!(vc.rear_index(), 1);
    assert_eq!(vc.size(), 1);

    match vc.dequeue() {
        Some(elem) => assert_eq!(*elem, String::from("element4")),
        None => panic!("Element should not be None!"),
    }
    assert_eq!(vc.push_enabled(), false);
    assert_eq!(vc.front_index(), 1);
    assert_eq!(vc.rear_index(), 1);
    assert_eq!(vc.size(), 0);
}

#[test]
fn enqueue_dequeue_of_primitive_data() {
    let mut vc: Circular<i32> = Circular::new(2);

    vc.enqueue(1);
    vc.enqueue(2);

    match vc.dequeue() {
        Some(elem) => assert_eq!(*elem, 1),
        None => panic!("Element should not be None!"),
    }

    match vc.dequeue() {
        Some(elem) => assert_eq!(*elem, 2),
        None => panic!("Element should not be None!"),
    }
}

#[test]
fn clear_circular_queue() {
    let mut vc: Circular<String> = Circular::new(5);

    vc.clear();
    assert_eq!(vc.capacity(), 6);
    assert_eq!(vc.push_enabled(), true);
    assert_eq!(vc.front_index(), 0);
    assert_eq!(vc.rear_index(), 0);
    assert_eq!(vc.size(), 0);
}

#[test]
fn clear_queue_with_capacity_zero() {
    let mut vc: Circular<String> = Circular::new(0);

    vc.clear();
    assert_eq!(vc.capacity(), 1);
    assert_eq!(vc.push_enabled(), true);
    assert_eq!(vc.front_index(), 0);
    assert_eq!(vc.rear_index(), 0);
    assert_eq!(vc.size(), 0);
}

#[test]
fn index_trait() {
    let mut vc: Circular<String> = Circular::new(2);

    vc.enqueue(String::from("element1"));
    vc.enqueue(String::from("element2"));

    assert_eq!(*vc[0], String::from("element1"));
    assert_eq!(*vc[1], String::from("element2"));
}

#[test]
fn index_trait_rear_before_front() {
    let mut vc: Circular<String> = Circular::new(2);

    vc.enqueue(String::from("element1"));
    vc.enqueue(String::from("element2"));
    vc.enqueue(String::from("element3"));
    vc.enqueue(String::from("element4"));

    assert_eq!(*vc[0], String::from("element3"));
    assert_eq!(*vc[1], String::from("element4"));
}

#[test]
fn mut_index_trait() {
    let mut vc: Circular<String> = Circular::new(2);

    vc.enqueue(String::from("element1"));
    vc.enqueue(String::from("element2"));

    vc.set(0, String::from("element3"));
    vc.set(1, String::from("element4"));

    assert_eq!(*vc[0], String::from("element3"));
    assert_eq!(*vc[1], String::from("element4"));
}

#[test]
fn mut_index_trait_dequeue() {
    let mut vc: Circular<String> = Circular::new(2);

    vc.enqueue(String::from("element1"));
    vc.enqueue(String::from("element2"));

    vc.set(0, String::from("element3"));
    vc.set(1, String::from("element4"));

    match vc.dequeue() {
        Some(elem) => assert_eq!(*elem, String::from("element3")),
        None => panic!("Element should not be None!"),
    }

    match vc.dequeue() {
        Some(elem) => assert_eq!(*elem, String::from("element4")),
        None => panic!("Element should not be None!"),
    }
}

#[test]
fn iterator_trait() {
    let mut vc: Circular<String> = Circular::new(2);

    let template = vec!["element1", "element2"];
    let mut index = 0;

    vc.enqueue(String::from("element1"));
    vc.enqueue(String::from("element2"));

    let mut walk = vc.iter();
    while let Some(item) = walk.next() {
        assert_eq!(item, template[index]);
        index += 1;
    }
}

#[test]
fn iterator_trait_on_empty_queue() {
    let vc: Circular<String> = Circular::new(2);

    let mut walk = vc.iter();
    while let Some(_) = walk.next() {
        panic!("Loop should not get executed");
    }
}

#[test]
fn apply_map() {
    let mut vc: Circular<String> = Circular::new(2);

    vc.enqueue(String::from("element1"));
    vc.enqueue(String::from("element2"));

    vc.map(all_caps);

    match vc.dequeue() {
        Some(data) => assert_eq!(*data, String::from("ELEMENT1")),
        None => panic!("Data must not be None"),
    }

    match vc.dequeue() {
        Some(data) => assert_eq!(*data, String::from("ELEMENT2")),
        None => panic!("Data must not be None"),
    }
}

#[test]
fn apply_map_primitive_data() {
    let mut vc: Circular<usize> = Circular::new(2);
    vc.enqueue(1);
    vc.enqueue(2);

    vc.map(plus_one);

    match vc.dequeue() {
        Some(data) => assert_eq!(*data, 2),
        None => panic!("Data must not be None"),
    }

    match vc.dequeue() {
        Some(data) => assert_eq!(*data, 3),
        None => panic!("Data must not be None"),
    }
}

#[test]
fn apply_map_closure() {
    let mut vc: Circular<String> = Circular::new(2);

    vc.enqueue(String::from("element1"));
    vc.enqueue(String::from("element2"));

    vc.map_closure(|text: &String| -> String { text.to_uppercase() });

    match vc.dequeue() {
        Some(data) => assert_eq!(*data, String::from("ELEMENT1")),
        None => panic!("Data must not be None"),
    }

    match vc.dequeue() {
        Some(data) => assert_eq!(*data, String::from("ELEMENT2")),
        None => panic!("Data must not be None"),
    }
}

#[test]
fn apply_map_closure_primitive_data() {
    let mut vc: Circular<usize> = Circular::new(2);
    vc.enqueue(1);
    vc.enqueue(2);

    vc.map_closure(|num: &usize| -> usize { num + 1 });

    match vc.dequeue() {
        Some(data) => assert_eq!(*data, 2),
        None => panic!("Data must not be None"),
    }

    match vc.dequeue() {
        Some(data) => assert_eq!(*data, 3),
        None => panic!("Data must not be None"),
    }
}

