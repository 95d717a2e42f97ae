use containers::collection::raw::raw_vec::RawVec;
use containers::collection::vec::Vec;
use std::cell::Cell;
use std::rc::Rc;

#[derive(Debug, Copy, Clone)]
struct ZeroSized;

struct Counted {
    drops: Rc<Cell<usize>>,
}

impl Drop for Counted {
    fn drop(&mut self) {
        self.drops.set(self.drops.get() + 1);
    }
}

fn collect(v: &Vec<i32>) -> std::vec::Vec<i32> {
    let mut out = std::vec::Vec::new();
    for i in 0..v.len() {
        out.push(v[i]);
    }
    out
}

#[test]
fn vec_test_push1() {
    println!(">>Test Start vec_test_push1");
    let mut vec = Vec::new();
    println!("Vec>> {:?}", vec);
    for i in 0..10000 {
        vec.push(i)
    }
    println!("Vec>> {:?}", vec);
    let mut expected = 0;
    let mut line = String::new();
    let mut it = vec.into_iter();
    while let Some(i) = it.next() {
        assert_eq!(i, expected);
        expected += 1;
        if i % 10 == 9 {
            println!("{}{}", line, i);
            line.clear();
        } else {
            line.push_str(&format!("{} ", i));
        }
    }
    assert_eq!(expected, 10000);
    println!(">>Test End vec_test_push1");
}

#[test]
fn vec_test_drain() {
    println!(">>Test Start vec_test_drain");
    let mut vec = Vec::new();
    println!("Vec>> {:?}", vec);
    for i in 0..10000 {
        vec.push(i)
    }
    println!("Vec>> {:?}", vec);
    let mut expected = 0;
    let mut line = String::new();
    let mut drain = vec.drain();
    while let Some(i) = drain.next() {
        assert_eq!(i, expected);
        expected += 1;
        if i % 10 == 9 {
            println!("{}{}", line, i);
            line.clear();
        } else {
            line.push_str(&format!("{} ", i));
        }
    }
    assert_eq!(expected, 10000);
    assert_eq!(vec.len(), 0);
    println!(">>Test End vec_test_drain");
}

#[test]
fn vec_test_reverse() {
    println!(">>Test Start vec_test_reverse");
    let mut vec = Vec::new();
    println!("Vec>> {:?}", vec);
    for i in 0..10000 {
        vec.push(i)
    }
    println!("Vec>> {:?}", vec);
    let mut expected = 10000;
    let mut line = String::new();
    let mut it = vec.into_iter();
    while let Some(i) = it.next_back() {
        expected -= 1;
        assert_eq!(i, expected);
        if i % 10 == 9 {
            println!("{}{}", line, i);
            line.clear();
        } else {
            line.push_str(&format!("{} ", i));
        }
    }
    assert_eq!(expected, 0);
    println!(">>Test End vec_test_reverse");
}

#[test]
fn vec_test_index() {
    println!(">>Test Start vec_test_index");
    let mut vec = Vec::new();
    println!("Vec>> {:?}", vec);
    for i in 0..10000 {
        vec.push(i)
    }
    println!("Vec>> {:?}", vec);
    let mut line = String::new();
    for i in 0..10000 {
        let t = vec[i];
        assert_eq!(t, i);
        if t % 10 == 9 {
            println!("{}{}", line, t);
            line.clear();
        } else {
            line.push_str(&format!("{} ", t));
        }
    }
    println!(">>Test End vec_test_index");
}

#[test]
fn vec_test_zst() {
    println!(">>Test Start vec_test_zst");
    let mut vec = Vec::new();

    println!("Vec>> {:?}", vec);
    for _ in 0..10000 {
        vec.push(ZeroSized)
    }
    println!("Vec>> {:?}", vec);
    assert_eq!(vec.len(), 10000);

    let mut line = String::new();
    for i in 0..10000 {
        let t = vec[i];
        if i % 10 == 9 {
            println!("{}{:?}", line, t);
            line.clear();
        } else {
            line.push_str(&format!("{:?} ", t));
        }
    }
    println!(">>Test End vec_test_zst");
}

#[test]
fn pops_return_pushes_in_reverse() {
    let mut vec = Vec::new();
    for i in [7, 3, 9, 1] {
        vec.push(i);
    }
    assert_eq!(vec.pop(), Some(1));
    assert_eq!(vec.pop(), Some(9));
    assert_eq!(vec.pop(), Some(3));
    assert_eq!(vec.pop(), Some(7));
    assert_eq!(vec.pop(), None);
    assert_eq!(vec.pop(), None);
    assert!(vec.is_empty());
}

#[test]
fn insert_and_remove_shift_the_tail() {
    let mut vec = Vec::new();
    vec.push(10);
    vec.push(20);
    vec.push(30);
    vec.insert(1, 99);
    assert_eq!(collect(&vec), vec![10, 99, 20, 30]);
    assert_eq!(vec.remove(2), 20);
    assert_eq!(collect(&vec), vec![10, 99, 30]);
}

#[test]
fn insert_at_both_ends() {
    let mut vec = Vec::new();
    vec.insert(0, 2);
    vec.insert(0, 1);
    vec.insert(2, 3);
    assert_eq!(collect(&vec), vec![1, 2, 3]);
    assert_eq!(vec.remove(0), 1);
    assert_eq!(vec.remove(1), 3);
    assert_eq!(collect(&vec), vec![2]);
}

#[test]
fn capacity_is_the_smallest_power_of_two() {
    let mut vec = Vec::new();
    assert_eq!(vec.cap(), 0);
    let expected = [1, 2, 4, 4, 8, 8, 8, 8, 16, 16, 16, 16, 16, 16, 16, 16, 32];
    for (n, cap) in expected.iter().enumerate() {
        vec.push(n);
        assert_eq!(vec.cap(), *cap);
    }
}

#[test]
fn pop_keeps_the_capacity() {
    let mut vec = Vec::new();
    for i in 0..5 {
        vec.push(i);
    }
    assert_eq!(vec.cap(), 8);
    vec.pop();
    vec.pop();
    assert_eq!(vec.cap(), 8);
    assert_eq!(vec.len(), 3);
}

#[test]
fn with_capacity_rounds_up() {
    assert_eq!(Vec::<u8>::with_capacity(0).cap(), 1);
    assert_eq!(Vec::<u8>::with_capacity(1).cap(), 1);
    assert_eq!(Vec::<u8>::with_capacity(5).cap(), 8);
    assert_eq!(Vec::<u8>::with_capacity(8).cap(), 8);
    assert_eq!(Vec::<u8>::with_capacity(9).cap(), 16);
}

#[test]
fn zero_sized_elements_need_no_capacity() {
    let mut vec = Vec::new();
    assert_eq!(vec.cap(), usize::MAX);
    vec.push(ZeroSized);
    assert_eq!(vec.cap(), usize::MAX);
    assert_eq!(Vec::<ZeroSized>::with_capacity(3).cap(), usize::MAX);
    assert!(vec.pop().is_some());
    assert!(vec.pop().is_none());
}

#[test]
fn drain_empties_at_once_and_keeps_the_storage() {
    let mut vec = Vec::new();
    for i in 0..5 {
        vec.push(i);
    }
    let mut drain = vec.drain();
    assert_eq!(vec.len(), 0);
    assert_eq!(vec.cap(), 8);
    assert_eq!(drain.size_hint(), (5, Some(5)));
    assert_eq!(drain.next(), Some(0));
    assert_eq!(drain.next_back(), Some(4));
    assert_eq!(drain.size_hint(), (3, Some(3)));
    vec.push(42);
    assert_eq!(collect(&vec), vec![42]);
    assert_eq!(drain.next(), Some(1));
    assert_eq!(drain.next(), Some(2));
    assert_eq!(drain.next(), Some(3));
    assert_eq!(drain.next(), None);
    assert_eq!(drain.next_back(), None);
}

#[test]
fn into_iter_meets_in_the_middle() {
    let mut vec = Vec::new();
    for i in 0..4 {
        vec.push(i);
    }
    let mut it = vec.into_iter();
    assert_eq!(it.size_hint(), (4, Some(4)));
    assert_eq!(it.next(), Some(0));
    assert_eq!(it.next_back(), Some(3));
    assert_eq!(it.next_back(), Some(2));
    assert_eq!(it.next(), Some(1));
    assert_eq!(it.next(), None);
    assert_eq!(it.next_back(), None);
    assert_eq!(it.size_hint(), (0, Some(0)));
}

#[test]
fn dropping_an_array_drops_each_element_once() {
    let drops = Rc::new(Cell::new(0));
    let mut vec = Vec::new();
    for _ in 0..5 {
        vec.push(Counted { drops: drops.clone() });
    }
    drop(vec.pop());
    assert_eq!(drops.get(), 1);
    drop(vec);
    assert_eq!(drops.get(), 5);
}

#[test]
fn abandoned_iteration_drops_the_rest() {
    let drops = Rc::new(Cell::new(0));
    let mut vec = Vec::new();
    for _ in 0..4 {
        vec.push(Counted { drops: drops.clone() });
    }
    let mut it = vec.into_iter();
    drop(it.next());
    assert_eq!(drops.get(), 1);
    drop(it);
    assert_eq!(drops.get(), 4);

    let drops = Rc::new(Cell::new(0));
    let mut vec = Vec::new();
    for _ in 0..4 {
        vec.push(Counted { drops: drops.clone() });
    }
    let mut drain = vec.drain();
    drop(drain.next_back());
    drop(drain);
    assert_eq!(drops.get(), 4);
    drop(vec);
    assert_eq!(drops.get(), 4);
}

#[test]
fn raw_block_grows_by_doubling() {
    let mut raw = RawVec::<u32>::new();
    assert_eq!(raw.cap(), 0);
    raw.grow();
    assert_eq!(raw.cap(), 1);
    raw.write(0, 7);
    raw.grow();
    assert_eq!(raw.cap(), 2);
    raw.grow();
    assert_eq!(raw.cap(), 4);
    assert_eq!(*raw.get(0), 7);
    assert_eq!(raw.read(0), 7);
}

#[test]
fn raw_block_relocates_overlapping_runs() {
    let mut raw = RawVec::<u32>::with_capacity(6);
    assert_eq!(raw.cap(), 8);
    for i in 0..4 {
        raw.write(i, i as u32 + 10);
    }
    raw.copy(0, 2, 4);
    assert_eq!(*raw.get(2), 10);
    assert_eq!(*raw.get(3), 11);
    assert_eq!(*raw.get(4), 12);
    assert_eq!(*raw.get(5), 13);
    raw.copy(2, 1, 4);
    assert_eq!(*raw.get(1), 10);
    assert_eq!(*raw.get(2), 11);
    assert_eq!(*raw.get(3), 12);
    assert_eq!(*raw.get(4), 13);
    raw.move_slot(4, 0);
    assert_eq!(*raw.get(0), 13);
    let taken = raw.detach();
    assert_eq!(raw.cap(), 8);
    assert_eq!(taken.cap(), 8);
    assert_eq!(*taken.get(1), 10);
}

#[test]
fn raw_block_of_zero_sized_elements() {
    let mut raw = RawVec::<ZeroSized>::new();
    assert_eq!(raw.cap(), usize::MAX);
    raw.write(3, ZeroSized);
    let _ = raw.read(3);
    raw.write(usize::MAX - 1, ZeroSized);
    raw.write(usize::MAX - 4, ZeroSized);
    raw.move_slot(usize::MAX - 4, 7);
    let _ = raw.get(7);
    let _ = raw.read(usize::MAX - 1);
    raw.copy(7, usize::MAX - 9, 1);
    let _ = raw.read(usize::MAX - 9);
    assert_eq!(RawVec::<ZeroSized>::with_capacity(10).cap(), usize::MAX);
}
