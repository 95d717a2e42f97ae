use containers::collection::heap::Heap;
use std::cell::Cell;
use std::rc::Rc;

struct Counted {
    key: u32,
    drops: Rc<Cell<usize>>,
}

impl PartialEq for Counted {
    fn eq(&self, other: &Self) -> bool {
        self.key == other.key
    }
}

impl PartialOrd for Counted {
    fn partial_cmp(&self, other: &Self) -> Option<std::cmp::Ordering> {
        self.key.partial_cmp(&other.key)
    }
}

impl Drop for Counted {
    fn drop(&mut self) {
        self.drops.set(self.drops.get() + 1);
    }
}

#[test]
fn heap_test_new_push() {
    let mut hp = Heap::new();
    hp.push(3);
    hp.push(4);
    hp.push(1);
    hp.push(2);
    hp.push(5);

    println!("{:?}", hp);

    let mut popped = Vec::new();
    for _ in 0..5 {
        let top = hp.pop();
        println!("{:?}", top);
        popped.push(top);

        println!("{:?}", hp);
    }
    assert_eq!(popped, vec![Some(5), Some(4), Some(3), Some(2), Some(1)]);
}

#[test]
fn pops_come_in_descending_order() {
    let mut hp = Heap::new();
    for i in 1..=5 {
        hp.push(i);
    }
    assert_eq!(hp.len(), 5);
    assert_eq!(hp.pop(), Some(5));
    assert_eq!(hp.pop(), Some(4));
    assert_eq!(hp.pop(), Some(3));
    assert_eq!(hp.pop(), Some(2));
    assert_eq!(hp.pop(), Some(1));
    assert_eq!(hp.pop(), None);
    assert!(hp.is_empty());
}

#[test]
fn peek_shows_the_greatest_and_keeps_it() {
    let mut hp = Heap::new();
    assert_eq!(hp.peek(), None);
    hp.push(2);
    assert_eq!(hp.peek(), Some(2));
    hp.push(9);
    hp.push(4);
    assert_eq!(hp.peek(), Some(9));
    assert_eq!(hp.len(), 3);
    assert_eq!(hp.pop(), Some(9));
    assert_eq!(hp.peek(), Some(4));
}

#[test]
fn empty_heap_has_nothing_to_give() {
    let mut hp: Heap<i64> = Heap::new();
    assert!(hp.is_empty());
    assert_eq!(hp.len(), 0);
    assert_eq!(hp.pop(), None);
    assert_eq!(hp.peek(), None);
    let mut hp: Heap<i64> = Heap::with_capacity(10);
    assert!(hp.is_empty());
    assert_eq!(hp.pop(), None);
    hp.push(1);
    assert_eq!(hp.pop(), Some(1));
}

#[test]
fn repeated_pop_returns_the_multiset_sorted() {
    let mut hp = Heap::new();
    let mut pushed = Vec::new();
    let mut seed: u32 = 2024;
    for _ in 0..500 {
        seed = seed.wrapping_mul(1103515245).wrapping_add(12345);
        let value = (seed >> 16) % 50;
        hp.push(value);
        pushed.push(value);
    }
    let mut popped = Vec::new();
    while let Some(top) = hp.pop() {
        popped.push(top);
    }
    pushed.sort();
    pushed.reverse();
    assert_eq!(popped, pushed);
}

#[test]
fn pushes_and_pops_may_alternate() {
    let mut hp = Heap::new();
    hp.push(5);
    hp.push(1);
    assert_eq!(hp.pop(), Some(5));
    hp.push(3);
    hp.push(7);
    hp.push(3);
    assert_eq!(hp.pop(), Some(7));
    assert_eq!(hp.pop(), Some(3));
    assert_eq!(hp.pop(), Some(3));
    assert_eq!(hp.pop(), Some(1));
    assert_eq!(hp.pop(), None);
}

#[test]
fn dropping_a_heap_drops_each_element_once() {
    let drops = Rc::new(Cell::new(0));
    let mut hp = Heap::new();
    for key in [4, 8, 1, 9, 3, 7, 2] {
        hp.push(Counted { key, drops: drops.clone() });
    }
    assert_eq!(drops.get(), 0);
    let top = hp.pop();
    assert_eq!(top.as_ref().map(|c| c.key), Some(9));
    drop(top);
    assert_eq!(drops.get(), 1);
    let top = hp.pop();
    assert_eq!(top.as_ref().map(|c| c.key), Some(8));
    drop(top);
    assert_eq!(drops.get(), 2);
    drop(hp);
    assert_eq!(drops.get(), 7);
}
