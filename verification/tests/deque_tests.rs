use containers::collection::deque::{wrap_idx, Deque};
use std::cell::Cell;
use std::collections::VecDeque;
use std::rc::Rc;

struct Counted {
    drops: Rc<Cell<usize>>,
}

impl Drop for Counted {
    fn drop(&mut self) {
        self.drops.set(self.drops.get() + 1);
    }
}

fn contents(dq: &Deque<i32>) -> Vec<i32> {
    let (a, b) = dq.as_slice();
    let mut out = Vec::new();
    for x in a {
        out.push(*x);
    }
    for x in b {
        out.push(*x);
    }
    out
}

fn span_lengths(dq: &Deque<i32>) -> (usize, usize) {
    let (a, b) = dq.as_slice();
    (a.len(), b.len())
}

#[test]
fn test_deque_push_front() {
    let mut dq = Deque::new();
    println!("{:?}", dq);
    for i in 1..10 {
        dq.push_front(i);
        println!("{:?}", dq);
    }

    let mut seen = Vec::new();
    let mut it = dq.iter();
    while let Some(x) = it.next() {
        println!("{x}");
        seen.push(*x);
    }
    assert_eq!(seen, vec![9, 8, 7, 6, 5, 4, 3, 2, 1]);
}

#[test]
fn test_deque_push_back() {
    let mut dq = Deque::new();
    println!("{:?}", dq);
    for i in 1..10 {
        dq.push_back(i);
        println!("{:?}", dq);
    }

    let mut seen = Vec::new();
    let mut it = dq.iter();
    while let Some(x) = it.next() {
        println!("{x}");
        seen.push(*x);
    }
    assert_eq!(seen, vec![1, 2, 3, 4, 5, 6, 7, 8, 9]);
}

#[test]
fn wrap_idx_folds_once() {
    assert_eq!(wrap_idx(0, 0), 0);
    assert_eq!(wrap_idx(0, 4), 0);
    assert_eq!(wrap_idx(3, 4), 3);
    assert_eq!(wrap_idx(4, 4), 0);
    assert_eq!(wrap_idx(5, 4), 1);
    assert_eq!(wrap_idx(7, 4), 3);
    assert_eq!(wrap_idx(usize::MAX, usize::MAX), 0);
    assert_eq!(wrap_idx(usize::MAX - 1, usize::MAX), usize::MAX - 1);
}

#[test]
fn both_ends_scenario() {
    let mut dq = Deque::new();
    dq.push_back(1);
    dq.push_back(2);
    dq.push_front(0);
    assert_eq!(contents(&dq), vec![0, 1, 2]);
    assert_eq!(dq.pop_front(), Some(0));
    assert_eq!(dq.pop_back(), Some(2));
    assert_eq!(contents(&dq), vec![1]);
    assert_eq!(dq.len(), 1);
}

#[test]
fn pops_on_an_empty_queue_return_nothing() {
    let mut dq: Deque<i32> = Deque::new();
    assert!(dq.is_empty());
    assert_eq!(dq.pop_front(), None);
    assert_eq!(dq.pop_back(), None);
    assert_eq!(dq.slice_range(), (0..0, 0..0));
    dq.push_back(5);
    assert_eq!(dq.pop_back(), Some(5));
    assert_eq!(dq.pop_front(), None);
    assert_eq!(contents(&dq), Vec::<i32>::new());
}

#[test]
fn growth_without_wrap_moves_nothing() {
    let mut dq = Deque::new();
    for i in 1..=4 {
        dq.push_back(i);
    }
    assert_eq!(dq.cap(), 4);
    assert_eq!(dq.slice_range(), (0..4, 0..0));
    dq.push_back(5);
    assert_eq!(dq.cap(), 8);
    assert_eq!(dq.slice_range(), (0..5, 0..0));
    assert_eq!(contents(&dq), vec![1, 2, 3, 4, 5]);
}

#[test]
fn growth_moves_a_short_wrapped_front_behind_the_old_end() {
    let mut dq = Deque::new();
    for i in 1..=4 {
        dq.push_back(i);
    }
    assert_eq!(dq.pop_front(), Some(1));
    dq.push_back(5);
    assert_eq!(dq.cap(), 4);
    assert_eq!(dq.slice_range(), (1..4, 0..1));
    assert_eq!(span_lengths(&dq), (3, 1));
    assert_eq!(contents(&dq), vec![2, 3, 4, 5]);
    dq.push_back(6);
    assert_eq!(dq.cap(), 8);
    assert_eq!(dq.slice_range(), (1..6, 0..0));
    assert_eq!(contents(&dq), vec![2, 3, 4, 5, 6]);
}

#[test]
fn growth_moves_a_short_head_run_to_the_new_end() {
    let mut dq = Deque::new();
    for i in 1..=4 {
        dq.push_back(i);
    }
    for i in 1..=3 {
        assert_eq!(dq.pop_front(), Some(i));
    }
    for i in 5..=7 {
        dq.push_back(i);
    }
    assert_eq!(dq.cap(), 4);
    assert_eq!(dq.slice_range(), (3..4, 0..3));
    assert_eq!(contents(&dq), vec![4, 5, 6, 7]);
    dq.push_back(8);
    assert_eq!(dq.cap(), 8);
    assert_eq!(dq.slice_range(), (7..8, 0..4));
    assert_eq!(span_lengths(&dq), (1, 4));
    assert_eq!(contents(&dq), vec![4, 5, 6, 7, 8]);
}

#[test]
fn growth_with_equal_runs_moves_the_head_run() {
    let mut dq = Deque::new();
    for i in 1..=4 {
        dq.push_back(i);
    }
    assert_eq!(dq.pop_front(), Some(1));
    assert_eq!(dq.pop_front(), Some(2));
    dq.push_back(5);
    dq.push_back(6);
    assert_eq!(dq.slice_range(), (2..4, 0..2));
    dq.push_front(0);
    assert_eq!(dq.cap(), 8);
    assert_eq!(dq.slice_range(), (5..8, 0..2));
    assert_eq!(contents(&dq), vec![0, 3, 4, 5, 6]);
}

#[test]
fn push_front_wraps_the_head() {
    let mut dq = Deque::new();
    dq.push_back(1);
    dq.push_back(2);
    dq.push_back(3);
    assert_eq!(dq.cap(), 4);
    dq.push_front(0);
    assert_eq!(dq.slice_range(), (3..4, 0..3));
    assert_eq!(contents(&dq), vec![0, 1, 2, 3]);
    dq.push_front(-1);
    assert_eq!(dq.cap(), 8);
    assert_eq!(contents(&dq), vec![-1, 0, 1, 2, 3]);
}

#[test]
fn capacity_doubles_from_nothing() {
    let mut dq = Deque::new();
    assert_eq!(dq.cap(), 0);
    let expected = [1, 2, 4, 4, 8, 8, 8, 8, 16];
    for (n, cap) in expected.iter().enumerate() {
        if n % 2 == 0 {
            dq.push_front(n);
        } else {
            dq.push_back(n);
        }
        assert_eq!(dq.cap(), *cap);
    }
}

#[test]
fn agrees_with_a_reference_queue() {
    let mut dq = Deque::new();
    let mut model = VecDeque::new();
    let mut seed: u32 = 12345;
    for step in 0..4000 {
        seed = seed.wrapping_mul(1664525).wrapping_add(1013904223);
        let choice = (seed >> 16) % 7;
        if choice < 2 {
            dq.push_front(step);
            model.push_front(step);
        } else if choice < 4 {
            dq.push_back(step);
            model.push_back(step);
        } else if choice < 5 {
            assert_eq!(dq.pop_front(), model.pop_front());
        } else if choice < 6 {
            assert_eq!(dq.pop_back(), model.pop_back());
        } else {
            let expected: Vec<i32> = model.iter().copied().collect();
            assert_eq!(contents(&dq), expected);
        }
        assert_eq!(dq.len(), model.len());
    }
    let expected: Vec<i32> = model.iter().copied().collect();
    assert_eq!(contents(&dq), expected);
}

#[test]
fn iter_walks_both_runs() {
    let mut dq = Deque::new();
    for i in 1..=4 {
        dq.push_back(i);
    }
    dq.pop_front();
    dq.pop_front();
    dq.push_back(5);
    let mut it = dq.iter();
    assert_eq!(it.len(), 3);
    assert_eq!(it.size_hint(), (3, Some(3)));
    assert_eq!(it.next(), Some(&3));
    assert_eq!(it.next(), Some(&4));
    assert_eq!(it.len(), 1);
    assert_eq!(it.next(), Some(&5));
    assert_eq!(it.next(), None);
    assert_eq!(it.next(), None);
}

#[test]
fn into_iter_hands_out_from_the_front() {
    let mut dq = Deque::new();
    dq.push_back(2);
    dq.push_front(1);
    dq.push_back(3);
    let mut it = dq.into_iter();
    assert_eq!(it.size_hint(), (3, Some(3)));
    assert_eq!(it.next(), Some(1));
    assert_eq!(it.next(), Some(2));
    assert_eq!(it.size_hint(), (1, Some(1)));
    assert_eq!(it.next(), Some(3));
    assert_eq!(it.next(), None);
}

#[test]
fn dropping_a_queue_drops_each_element_once() {
    let drops = Rc::new(Cell::new(0));
    let mut dq = Deque::new();
    for i in 0..6 {
        if i % 2 == 0 {
            dq.push_front(Counted { drops: drops.clone() });
        } else {
            dq.push_back(Counted { drops: drops.clone() });
        }
    }
    drop(dq.pop_front());
    assert_eq!(drops.get(), 1);
    drop(dq);
    assert_eq!(drops.get(), 6);
}

#[derive(Debug, Copy, Clone, PartialEq)]
struct Unit;

#[test]
fn zero_sized_elements_go_round_an_unbounded_ring() {
    let mut dq = Deque::new();
    assert_eq!(dq.cap(), usize::MAX);
    dq.push_front(Unit);
    dq.push_front(Unit);
    dq.push_back(Unit);
    assert_eq!(dq.cap(), usize::MAX);
    assert_eq!(dq.len(), 3);
    assert_eq!(dq.slice_range(), (usize::MAX - 2..usize::MAX, 0..1));
    let (a, b) = dq.as_slice();
    assert_eq!((a.len(), b.len()), (2, 1));
    assert_eq!(dq.pop_back(), Some(Unit));
    assert_eq!(dq.pop_front(), Some(Unit));
    assert_eq!(dq.pop_front(), Some(Unit));
    assert_eq!(dq.pop_front(), None);
    for _ in 0..1000 {
        dq.push_back(Unit);
    }
    assert_eq!(dq.len(), 1000);
    assert_eq!(dq.slice_range(), (0..1000, 0..0));
}

#[test]
fn growing_keeps_the_contents() {
    let mut dq = Deque::new();
    for i in 1..=4 {
        dq.push_back(i);
    }
    dq.pop_front();
    dq.pop_front();
    dq.push_back(5);
    assert_eq!(dq.slice_range(), (2..4, 0..1));
    dq.grow();
    assert_eq!(dq.cap(), 8);
    assert_eq!(dq.len(), 3);
    assert_eq!(dq.slice_range(), (2..5, 0..0));
    assert_eq!(contents(&dq), vec![3, 4, 5]);
    dq.grow();
    assert_eq!(dq.cap(), 16);
    assert_eq!(dq.slice_range(), (2..5, 0..0));
    assert_eq!(contents(&dq), vec![3, 4, 5]);

    let mut empty: Deque<i32> = Deque::new();
    empty.grow();
    assert_eq!(empty.cap(), 1);
    empty.grow();
    assert_eq!(empty.cap(), 2);
    assert_eq!(contents(&empty), Vec::<i32>::new());
}
