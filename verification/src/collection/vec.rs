//! A growable array: elements kept in one run of slots, appended in
//! amortised constant time.

use super::raw::raw_vec::{
    capacity_after, capacity_after_push, grown, lemma_capacity_step, rounded_up,
    smallest_power_of_two_from, RawVec,
};
use crate::iter::RawIter;
use vstd::prelude::*;

verus! {

/// A contiguous growable sequence.
///
/// The first `len` slots of the buffer hold the elements in order; every
/// slot after them is vacant. The view is the sequence of elements.
#[derive(Debug)]
pub struct Vec<T> {
    buf: RawVec<T>,
    len: usize,
}

impl<T> Vec<T> {
    /// The elements in order.
    pub closed spec fn view(&self) -> Seq<T> {
        Seq::new(self.len as nat, |i: int| self.buf@[i]->0)
    }

    /// Number of slots the buffer has.
    pub closed spec fn capacity(&self) -> nat {
        self.buf@.len()
    }

    /// What holds of the buffer whether or not an element is lifted out:
    /// the length fits and nothing lives past it.
    pub closed spec fn framed(&self) -> bool {
        &&& self.buf.wf()
        &&& self.len <= self.buf@.len()
        &&& forall|i: int| self.len <= i < self.buf@.len() ==> self.buf@[i] is None
    }

    /// The representation invariant: every index below the length holds an
    /// element.
    pub closed spec fn wf(&self) -> bool {
        &&& self.framed()
        &&& forall|i: int| 0 <= i < self.len ==> self.buf@[i] is Some
    }

    /// The state in which exactly the element at `hole` is lifted out of the
    /// array: its slot is vacant, every other index below the length holds
    /// its element.
    pub closed spec fn wf_with_hole(&self, hole: int) -> bool {
        &&& self.framed()
        &&& 0 <= hole < self.len
        &&& self.buf@[hole] is None
        &&& forall|i: int| 0 <= i < self.len && i != hole ==> self.buf@[i] is Some
    }

    /// What the invariant says of an array: the elements fit in the buffer,
    /// whose capacity is a `usize`.
    pub proof fn lemma_wf(&self)
        requires
            self.wf(),
        ensures
            self@.len() <= self.capacity() <= usize::MAX,
    {
        self.buf.lemma_capacity_fits();
    }

    /// An open place lies below the length.
    pub proof fn lemma_hole_in_bounds(&self, hole: int)
        requires
            self.wf_with_hole(hole),
        ensures
            0 <= hole < self@.len(),
    {
    }

    /// Whether one more element can be stored: a slot is free, or elements
    /// have a size and the doubled buffer is at most `isize::MAX` bytes.
    pub open spec fn can_push(&self) -> bool {
        self@.len() < self.capacity() || (!RawVec::<T>::zero_sized() && RawVec::<T>::allocatable(
            grown(self.capacity()),
        ))
    }

    /// Number of slots the buffer has.
    pub fn cap(&self) -> (c: usize)
        ensures
            c == self.capacity(),
    {
        self.buf.cap()
    }

    pub fn new() -> (v: Self)
        ensures
            v.wf(),
            v@ == Seq::<T>::empty(),
            v.capacity() == (if RawVec::<T>::zero_sized() {
                usize::MAX as nat
            } else {
                0
            }),
            !RawVec::<T>::zero_sized() ==> v.capacity() == capacity_after(v@.len()),
    {
        let v = Vec { buf: RawVec::new(), len: 0 };
        assert(v@ =~= Seq::<T>::empty());
        v
    }

    /// An empty array whose buffer already has the smallest power-of-two
    /// capacity that holds `cap` elements.
    pub fn with_capacity(cap: usize) -> (v: Self)
        requires
            RawVec::<T>::zero_sized() || RawVec::<T>::allocatable(rounded_up(cap as nat)),
        ensures
            v.wf(),
            v@ == Seq::<T>::empty(),
            v.capacity() == (if RawVec::<T>::zero_sized() {
                usize::MAX as nat
            } else {
                rounded_up(cap as nat)
            }),
    {
        let v = Vec { buf: RawVec::with_capacity(cap), len: 0 };
        assert(v@ =~= Seq::<T>::empty());
        v
    }

    pub fn len(&self) -> (n: usize)
        ensures
            n == self@.len(),
    {
        self.len
    }

    pub fn is_empty(&self) -> (b: bool)
        ensures
            b == (self@.len() == 0),
    {
        self.len == 0
    }

    fn grow(&mut self)
        requires
            old(self).framed(),
            !RawVec::<T>::zero_sized(),
            RawVec::<T>::allocatable(grown(old(self).capacity())),
        ensures
            final(self).framed(),
            final(self).len == old(self).len,
            final(self).capacity() == grown(old(self).capacity()),
            forall|i: int| 0 <= i < old(self).capacity() ==> final(self).buf@[i] == old(self).buf@[i],
    {
        self.buf.grow();
    }

    /// Appends `el`.
    pub fn push(&mut self, el: T)
        requires
            old(self).wf(),
            old(self).can_push(),
        ensures
            final(self).wf(),
            final(self)@ == old(self)@.push(el),
            final(self).capacity() == capacity_after_push(
                old(self)@.len(),
                old(self).capacity(),
            ),
            old(self).capacity() == capacity_after(old(self)@.len()) ==> {
                &&& final(self).capacity() == capacity_after(final(self)@.len())
                &&& smallest_power_of_two_from(final(self).capacity(), final(self)@.len())
            },
    {
        if self.len == self.cap() {
            self.grow();
        }
        proof {
            self.buf.lemma_capacity_fits();
        }
        self.buf.write(self.len, el);
        self.len = self.len + 1;
        assert(self@ =~= old(self)@.push(el));
        proof {
            lemma_capacity_step(old(self)@.len());
        }
    }

    /// Removes the last element and returns it; `None` when there is none.
    pub fn pop(&mut self) -> (r: Option<T>)
        requires
            old(self).wf(),
        ensures
            final(self).wf(),
            final(self).capacity() == old(self).capacity(),
            match r {
                Some(el) => old(self)@.len() > 0 && el == old(self)@.last() && final(self)@ == old(
                    self,
                )@.drop_last(),
                None => old(self)@.len() == 0 && final(self)@ == old(self)@,
            },
    {
        if self.len == 0 {
            None
        } else {
            self.len = self.len - 1;
            let el = self.buf.read(self.len);
            assert(self@ =~= old(self)@.drop_last());
            Some(el)
        }
    }

    /// Puts `el` at `index`; the elements from `index` on move one place up.
    pub fn insert(&mut self, index: usize, el: T)
        requires
            old(self).wf(),
            index <= old(self)@.len(),
            old(self).can_push(),
        ensures
            final(self).wf(),
            final(self)@ == old(self)@.insert(index as int, el),
            final(self).capacity() == capacity_after_push(
                old(self)@.len(),
                old(self).capacity(),
            ),
            old(self).capacity() == capacity_after(old(self)@.len()) ==> {
                &&& final(self).capacity() == capacity_after(final(self)@.len())
                &&& smallest_power_of_two_from(final(self).capacity(), final(self)@.len())
            },
    {
        if self.cap() == self.len {
            self.grow();
        }
        proof {
            self.buf.lemma_capacity_fits();
        }
        self.buf.copy(index, index + 1, self.len - index);
        self.buf.write(index, el);
        self.len = self.len + 1;
        assert(self@ =~= old(self)@.insert(index as int, el));
        proof {
            lemma_capacity_step(old(self)@.len());
        }
    }

    /// Takes the element at `index` out; the elements after it move one
    /// place down.
    pub fn remove(&mut self, index: usize) -> (el: T)
        requires
            old(self).wf(),
            index < old(self)@.len(),
        ensures
            final(self).wf(),
            el == old(self)@[index as int],
            final(self)@ == old(self)@.remove(index as int),
            final(self).capacity() == old(self).capacity(),
    {
        self.len = self.len - 1;
        let el = self.buf.read(index);
        self.buf.copy(index + 1, index, self.len - index);
        assert(self@ =~= old(self)@.remove(index as int));
        el
    }

    /// Borrows the element at `index`.
    pub fn get(&self, index: usize) -> (el: &T)
        requires
            self.wf(),
            index < self@.len(),
        ensures
            *el == self@[index as int],
    {
        self.buf.get(index)
    }
    /// Lifts the element at `index` out of the array and leaves its place
    /// open. Until the place is filled again the array is in the state
    /// `wf_with_hole(index)`.
    pub fn lift(&mut self, index: usize) -> (el: T)
        requires
            old(self).wf(),
            index < old(self)@.len(),
        ensures
            final(self).wf_with_hole(index as int),
            el == old(self)@[index as int],
            final(self)@.len() == old(self)@.len(),
            final(self).capacity() == old(self).capacity(),
            forall|i: int|
                0 <= i < old(self)@.len() && i != index ==> final(self)@[i] == old(self)@[i],
    {
        self.buf.read(index)
    }

    /// Borrows the element at `index` while the place `hole` is open.
    pub fn get_beside(&self, hole: usize, index: usize) -> (el: &T)
        requires
            self.wf_with_hole(hole as int),
            index < self@.len(),
            index != hole,
        ensures
            *el == self@[index as int],
    {
        self.buf.get(index)
    }

    /// Moves the element at `from` into the open place `hole`; afterwards
    /// the open place is `from`.
    pub fn shift(&mut self, hole: usize, from: usize)
        requires
            old(self).wf_with_hole(hole as int),
            from < old(self)@.len(),
            from != hole,
        ensures
            final(self).wf_with_hole(from as int),
            final(self)@.len() == old(self)@.len(),
            final(self).capacity() == old(self).capacity(),
            final(self)@[hole as int] == old(self)@[from as int],
            forall|i: int|
                0 <= i < old(self)@.len() && i != hole && i != from ==> final(self)@[i] == old(
                    self,
                )@[i],
    {
        self.buf.move_slot(from, hole);
    }

    /// Puts `el` into the open place `hole`; the array is whole again.
    pub fn fill(&mut self, hole: usize, el: T)
        requires
            old(self).wf_with_hole(hole as int),
        ensures
            final(self).wf(),
            final(self)@ == old(self)@.update(hole as int, el),
            final(self).capacity() == old(self).capacity(),
    {
        self.buf.write(hole, el);
        assert(self@ =~= old(self)@.update(hole as int, el));
    }

    /// Turns the array into an iterator that owns the elements and hands
    /// them out from either end.
    pub fn into_iter(self) -> (it: _IntoIter<T>)
        requires
            self.wf(),
        ensures
            it.wf(),
            it@ == self@,
    {
        let ghost elements = self@;
        let Vec { buf, len } = self;
        let iter = RawIter::new(buf, len);
        assert(iter@ =~= elements);
        _IntoIter { iter }
    }

    /// Detaches every element into an iterator. The array is empty at once
    /// and keeps its capacity.
    pub fn drain(&mut self) -> (d: _Drain<T>)
        requires
            old(self).wf(),
        ensures
            final(self).wf(),
            final(self)@ == Seq::<T>::empty(),
            final(self).capacity() == old(self).capacity(),
            d.wf(),
            d@ == old(self)@,
    {
        let taken = self.buf.detach();
        let iter = RawIter::new(taken, self.len);
        self.len = 0;
        assert(iter@ =~= old(self)@);
        assert(self@ =~= Seq::<T>::empty());
        _Drain { iter }
    }
}

impl<T> vstd::std_specs::core::IndexSpecImpl<usize> for Vec<T> {
    open spec fn index_req(&self, index: &usize) -> bool {
        self.wf() && *index < self@.len()
    }
}

impl<T> core::ops::Index<usize> for Vec<T> {
    type Output = T;

    fn index(&self, index: usize) -> (el: &T)
        ensures
            *el == self@[index as int],
    {
        self.get(index)
    }
}

/// Owns the elements of an array and hands them out from either end.
pub struct _IntoIter<T> {
    iter: RawIter<T>,
}

impl<T> _IntoIter<T> {
    /// The elements not handed out yet, front to back.
    pub closed spec fn view(&self) -> Seq<T> {
        self.iter@
    }

    pub closed spec fn wf(&self) -> bool {
        self.iter.wf()
    }

    /// The next element from the front; `None` when all are handed out.
    pub fn next(&mut self) -> (r: Option<T>)
        requires
            old(self).wf(),
        ensures
            final(self).wf(),
            match r {
                Some(el) => old(self)@.len() > 0 && el == old(self)@[0] && final(self)@ == old(
                    self,
                )@.subrange(1, old(self)@.len() as int),
                None => old(self)@.len() == 0 && final(self)@ == old(self)@,
            },
    {
        self.iter.next()
    }

    /// Lower and upper bound of the number of elements left: both exact.
    pub fn size_hint(&self) -> (r: (usize, Option<usize>))
        requires
            self.wf(),
        ensures
            r.0 == self@.len(),
            r.1 == Some(r.0),
    {
        self.iter.size_hint()
    }

    /// The next element from the back; `None` when all are handed out.
    pub fn next_back(&mut self) -> (r: Option<T>)
        requires
            old(self).wf(),
        ensures
            final(self).wf(),
            match r {
                Some(el) => old(self)@.len() > 0 && el == old(self)@.last() && final(self)@ == old(
                    self,
                )@.drop_last(),
                None => old(self)@.len() == 0 && final(self)@ == old(self)@,
            },
    {
        self.iter.next_back()
    }
}

/// Holds the elements detached from an array and hands them out from either
/// end.
pub struct _Drain<T> {
    iter: RawIter<T>,
}

impl<T> _Drain<T> {
    /// The elements not handed out yet, front to back.
    pub closed spec fn view(&self) -> Seq<T> {
        self.iter@
    }

    pub closed spec fn wf(&self) -> bool {
        self.iter.wf()
    }

    /// The next element from the front; `None` when all are handed out.
    pub fn next(&mut self) -> (r: Option<T>)
        requires
            old(self).wf(),
        ensures
            final(self).wf(),
            match r {
                Some(el) => old(self)@.len() > 0 && el == old(self)@[0] && final(self)@ == old(
                    self,
                )@.subrange(1, old(self)@.len() as int),
                None => old(self)@.len() == 0 && final(self)@ == old(self)@,
            },
    {
        self.iter.next()
    }

    /// Lower and upper bound of the number of elements left: both exact.
    pub fn size_hint(&self) -> (r: (usize, Option<usize>))
        requires
            self.wf(),
        ensures
            r.0 == self@.len(),
            r.1 == Some(r.0),
    {
        self.iter.size_hint()
    }

    /// The next element from the back; `None` when all are handed out.
    pub fn next_back(&mut self) -> (r: Option<T>)
        requires
            old(self).wf(),
        ensures
            final(self).wf(),
            match r {
                Some(el) => old(self)@.len() > 0 && el == old(self)@.last() && final(self)@ == old(
                    self,
                )@.drop_last(),
                None => old(self)@.len() == 0 && final(self)@ == old(self)@,
            },
    {
        self.iter.next_back()
    }
}

/// The array after the elements of `items` have been pushed onto `base` one
/// by one.
pub open spec fn pushed_all<T>(base: Seq<T>, items: Seq<T>) -> Seq<T>
    decreases items.len(),
{
    if items.len() == 0 {
        base
    } else {
        pushed_all(base.push(items.first()), items.drop_first())
    }
}

/// What `k` pops in a row return from an array that holds `s`, the first
/// pop first.
pub open spec fn popped<T>(s: Seq<T>, k: nat) -> Seq<T>
    decreases k,
{
    if k == 0 || s.len() == 0 {
        Seq::empty()
    } else {
        seq![s.last()] + popped(s.drop_last(), (k - 1) as nat)
    }
}

/// Pushing one by one appends.
pub proof fn lemma_pushed_all<T>(base: Seq<T>, items: Seq<T>)
    ensures
        pushed_all(base, items) == base + items,
    decreases items.len(),
{
    if items.len() == 0 {
        assert(base + items =~= base);
    } else {
        lemma_pushed_all(base.push(items.first()), items.drop_first());
        assert(base.push(items.first()) + items.drop_first() =~= base + items);
    }
}

/// Popping a whole array returns its elements back to front.
pub proof fn lemma_popped_all<T>(s: Seq<T>)
    ensures
        popped(s, s.len()) == s.reverse(),
    decreases s.len(),
{
    if s.len() == 0 {
        assert(popped(s, s.len()) =~= s.reverse());
    } else {
        lemma_popped_all(s.drop_last());
        assert(seq![s.last()] + s.drop_last().reverse() =~= s.reverse());
    }
}

/// Stack order: after any sequence of pushes onto an empty array, as many
/// pops return the pushed elements in the exact reverse of the order in
/// which they went in.
pub proof fn lemma_pops_reverse_pushes<T>(items: Seq<T>)
    ensures
        popped(pushed_all(Seq::empty(), items), items.len()) == items.reverse(),
{
    lemma_pushed_all(Seq::<T>::empty(), items);
    assert(Seq::<T>::empty() + items =~= items);
    lemma_popped_all(items);
}

} // verus!
