use containers::vec::Vec;

#[derive(Debug, Copy, Clone)]
struct Unit;

#[test]
fn vec_vec_test_push1() {
    println!(">>Test Start vec_test_push1");
    let mut vec = Vec::new();
    println!("Vec>> {:?}", vec);
    for i in 0..10000 {
        vec.push(i)
    }
    println!("Vec>> {:?}", vec);
    let mut expected = 0;
    let mut line = String::new();
    let mut it = vec.into_iter();
    while let Some(i) = it.next() {
        assert_eq!(i, expected);
        expected += 1;
        if i % 10 == 9 {
            println!("{}{}", line, i);
            line.clear();
        } else {
            line.push_str(&format!("{} ", i));
        }
    }
    assert_eq!(expected, 10000);
    println!(">>Test End vec_test_push1");
}

#[test]
fn vec_vec_test_drain() {
    println!(">>Test Start vec_test_drain");
    let mut vec = Vec::new();
    println!("Vec>> {:?}", vec);
    for i in 0..10000 {
        vec.push(i)
    }
    println!("Vec>> {:?}", vec);
    let mut expected = 0;
    let mut line = String::new();
    let mut drain = vec.drain();
    while let Some(i) = drain.next() {
        assert_eq!(i, expected);
        expected += 1;
        if i % 10 == 9 {
            println!("{}{}", line, i);
            line.clear();
        } else {
            line.push_str(&format!("{} ", i));
        }
    }
    assert_eq!(expected, 10000);
    println!(">>Test End vec_test_drain");
}

#[test]
fn vec_vec_test_reverse() {
    println!(">>Test Start vec_test_reverse");
    let mut vec = Vec::new();
    println!("Vec>> {:?}", vec);
    for i in 0..10000 {
        vec.push(i)
    }
    println!("Vec>> {:?}", vec);
    let mut expected = 10000;
    let mut line = String::new();
    let mut it = vec.into_iter();
    while let Some(i) = it.next_back() {
        expected -= 1;
        assert_eq!(i, expected);
        if i % 10 == 9 {
            println!("{}{}", line, i);
            line.clear();
        } else {
            line.push_str(&format!("{} ", i));
        }
    }
    assert_eq!(expected, 0);
    println!(">>Test End vec_test_reverse");
}

#[test]
fn vec_vec_test_index() {
    println!(">>Test Start vec_test_index");
    let mut vec = Vec::new();
    println!("Vec>> {:?}", vec);
    for i in 0..10000 {
        vec.push(i)
    }
    println!("Vec>> {:?}", vec);
    let mut line = String::new();
    for i in 0..10000 {
        let t = vec[i];
        assert_eq!(t, i);
        if t % 10 == 9 {
            println!("{}{}", line, t);
            line.clear();
        } else {
            line.push_str(&format!("{} ", t));
        }
    }
    println!(">>Test End vec_test_index");
}

#[test]
fn vec_vec_test_zst() {
    println!(">>Test Start vec_test_zst");
    let mut vec = Vec::new();

    println!("Vec>> {:?}", vec);
    for _ in 0..10000 {
        vec.push(Unit)
    }
    println!("Vec>> {:?}", vec);

    let mut line = String::new();
    for i in 0..10000 {
        let t = vec[i];
        if i % 10 == 9 {
            println!("{}{:?}", line, t);
            line.clear();
        } else {
            line.push_str(&format!("{:?} ", t));
        }
    }
    println!(">>Test End vec_test_zst");
}
