//! A double-ended queue kept in a ring of slots.

use super::raw::raw_vec::{
    capacity_after, capacity_after_push, grown, lemma_capacity_step, smallest_power_of_two_from,
    RawVec,
};
use core::ops::Range;
use vstd::prelude::*;

verus! {

/// Where index `idx` falls in a ring of `cap` slots, for an index that has
/// run past the end of the ring at most once.
pub open spec fn wrapped(idx: int, cap: int) -> int {
    if idx >= cap {
        idx - cap
    } else {
        idx
    }
}

/// On the indices a ring produces, wrapping is the remainder by the
/// capacity.
pub proof fn lemma_wrapped_is_remainder(idx: int, cap: int)
    requires
        0 <= idx < 2 * cap,
    ensures
        wrapped(idx, cap) == idx % cap,
{
    if idx >= cap {
        vstd::arithmetic::div_mod::lemma_fundamental_div_mod_converse(idx, cap, 1, idx - cap);
    } else {
        vstd::arithmetic::div_mod::lemma_small_mod(idx as nat, cap as nat);
    }
}

/// Folds an index that may have run past the end of a ring of `cap` slots
/// back into the ring.
pub fn wrap_idx(logical_idx: usize, cap: usize) -> (r: usize)
    requires
        (logical_idx == 0 && cap == 0) || logical_idx < cap || logical_idx - cap < cap,
    ensures
        r == wrapped(logical_idx as int, cap as int),
        cap > 0 ==> r == logical_idx % cap,
{
    proof {
        if cap > 0 {
            lemma_wrapped_is_remainder(logical_idx as int, cap as int);
        }
    }
    if logical_idx >= cap {
        logical_idx - cap
    } else {
        logical_idx
    }
}

/// A double-ended queue.
///
/// The elements sit in a ring of slots: the element at logical index `i` is
/// in the physical slot `(head + i) mod capacity`. Every other slot is
/// vacant. The view is the sequence of elements in logical order.
#[derive(Debug)]
pub struct Deque<T> {
    head: usize,
    len: usize,
    buf: RawVec<T>,
}

impl<T> Deque<T> {
    /// The slots in physical order.
    pub closed spec fn slots(&self) -> Seq<Option<T>> {
        self.buf@
    }

    /// Physical index of the first element.
    pub closed spec fn head_index(&self) -> int {
        self.head as int
    }

    /// Number of slots in the ring.
    pub open spec fn capacity(&self) -> nat {
        self.slots().len()
    }

    /// How far slot `p` lies after `head`, going round a ring of `ring` slots.
    pub open spec fn offset(p: int, head: int, ring: int) -> int {
        if p >= head {
            p - head
        } else {
            p - head + ring
        }
    }

    /// The elements are laid out as a ring over the first `ring` slots of the
    /// buffer: a slot holds an element exactly if it lies less than `len`
    /// places after the head within that ring.
    pub closed spec fn laid_out_in(&self, ring: int) -> bool {
        &&& self.buf.wf()
        &&& 0 <= ring <= self.buf@.len()
        &&& self.len <= ring
        &&& (self.head < ring || (ring == 0 && self.head == 0))
        &&& forall|p: int|
            0 <= p < self.buf@.len() ==> ((#[trigger] self.buf@[p]) is Some <==> (p < ring
                && Self::offset(p, self.head as int, ring) < self.len))
    }

    /// The elements in logical order, read from a ring over the first `ring`
    /// slots.
    pub closed spec fn contents_in(&self, ring: int) -> Seq<T> {
        Seq::new(self.len as nat, |i: int| self.buf@[wrapped(self.head + i, ring)]->0)
    }

    /// The representation invariant: the ring spans the whole buffer.
    pub closed spec fn wf(&self) -> bool {
        self.laid_out_in(self.buf@.len() as int)
    }

    /// The elements in logical order.
    pub closed spec fn view(&self) -> Seq<T> {
        self.contents_in(self.buf@.len() as int)
    }

    /// Where the head is after the buffer has grown from `old_cap` to
    /// `new_cap` slots around `len` elements. It stays where it is unless
    /// the elements wrap round the old end and the run from the head is the
    /// one that moves; that run then ends at the new end of the buffer.
    pub open spec fn head_after_growth(head: int, len: int, old_cap: int, new_cap: int) -> int {
        if head <= old_cap - len {
            head
        } else {
            let head_len = old_cap - head;
            let tail_len = len - head_len;
            if head_len > tail_len && new_cap - old_cap >= tail_len {
                head
            } else {
                new_cap - head_len
            }
        }
    }

    /// Where the head is once there is room for one more element: where it
    /// was while a slot is free, otherwise where growth puts it.
    pub open spec fn head_with_room(head: int, len: int, cap: int) -> int {
        if len == cap {
            Self::head_after_growth(head, len, cap, grown(cap as nat) as int)
        } else {
            head
        }
    }

    /// Whether the buffer can grow: elements have a size and the grown
    /// buffer is at most `isize::MAX` bytes.
    pub open spec fn can_grow(&self) -> bool {
        !RawVec::<T>::zero_sized() && RawVec::<T>::allocatable(grown(self.capacity()))
    }

    /// Whether one more element can be stored: a slot is free, or the
    /// buffer can grow.
    pub open spec fn can_push(&self) -> bool {
        self@.len() < self.capacity() || self.can_grow()
    }

    /// The slots after the ring of `len` elements from `head`, laid out over
    /// the first `old_cap` of `slots`, has been restored over all of them.
    /// Nothing moves unless the elements wrap round slot `old_cap - 1`. Then
    /// either the wrapped run, from slot 0 on, moves to slot `old_cap` and
    /// behind it, or the run from the head moves to the end of the slots.
    pub open spec fn slots_after_growth(
        slots: Seq<Option<T>>,
        head: int,
        len: int,
        old_cap: int,
    ) -> Seq<Option<T>> {
        if head <= old_cap - len {
            slots
        } else {
            let head_len = old_cap - head;
            let tail_len = len - head_len;
            if head_len > tail_len && slots.len() - old_cap >= tail_len {
                RawVec::<T>::range_moved(slots, 0, old_cap, tail_len)
            } else {
                RawVec::<T>::range_moved(slots, head, slots.len() - head_len, head_len)
            }
        }
    }

    /// The elements of the run `r` of `slots`, in order.
    pub open spec fn run(slots: Seq<Option<T>>, r: Range<usize>) -> Seq<T> {
        Seq::new((r.end - r.start) as nat, |i: int| slots[r.start + i]->0)
    }

    /// What an observer of the storage sees: the elements of the run from
    /// the head, followed by those of the run that wrapped round.
    pub open spec fn two_runs(&self) -> Seq<T> {
        let s = Self::spans(self.head_index(), self@.len() as int, self.capacity() as int);
        Self::run(self.slots(), s.0) + Self::run(self.slots(), s.1)
    }

    /// What the invariant says of a queue: the elements fit in the ring, the
    /// head lies in it, the element at logical index `i` sits in slot
    /// `(head + i) mod capacity`, and no other slot holds anything.
    pub proof fn lemma_wf(&self)
        requires
            self.wf(),
        ensures
            self@.len() <= self.capacity() <= usize::MAX,
            0 <= self.head_index(),
            self.head_index() < self.capacity() || (self.capacity() == 0 && self.head_index()
                == 0),
            forall|i: int|
                0 <= i < self@.len() ==> Some(#[trigger] self@[i]) == self.slots()[wrapped(
                    self.head_index() + i,
                    self.capacity() as int,
                )],
            forall|p: int|
                0 <= p < self.capacity() ==> ((#[trigger] self.slots()[p]) is Some <==> Self::offset(
                    p,
                    self.head_index(),
                    self.capacity() as int,
                ) < self@.len()),
    {
        self.buf.lemma_capacity_fits();
        assert forall|i: int| 0 <= i < self@.len() implies Some(#[trigger] self@[i])
            == self.slots()[wrapped(self.head_index() + i, self.capacity() as int)] by {
            let p = wrapped(self.head_index() + i, self.capacity() as int);
            assert(self.buf@[p] is Some);
        }
    }

    /// The two runs of the storage, read one after the other, are the queue
    /// in logical order.
    pub proof fn lemma_two_runs_are_the_view(&self)
        requires
            self.wf(),
        ensures
            self.two_runs() == self@,
    {
        self.lemma_wf();
        assert(self.two_runs() =~= self@);
    }

    pub fn new() -> (d: Self)
        ensures
            d.wf(),
            d@ == Seq::<T>::empty(),
            d.head_index() == 0,
            forall|p: int| 0 <= p < d.slots().len() ==> d.slots()[p] is None,
            !RawVec::<T>::zero_sized() ==> d.capacity() == capacity_after(d@.len()),
            d.capacity() == (if RawVec::<T>::zero_sized() {
                usize::MAX as nat
            } else {
                0
            }),
    {
        let d = Deque { head: 0, len: 0, buf: RawVec::new() };
        assert(d@ =~= Seq::<T>::empty());
        d
    }

    pub fn cap(&self) -> (c: usize)
        ensures
            c == self.capacity(),
    {
        self.buf.cap()
    }

    pub fn len(&self) -> (n: usize)
        requires
            self.wf(),
        ensures
            n == self@.len(),
    {
        self.len
    }

    fn is_full(&self) -> (b: bool)
        ensures
            b == (self.len == self.buf@.len()),
    {
        self.len == self.cap()
    }

    pub fn is_empty(&self) -> (b: bool)
        requires
            self.wf(),
        ensures
            b == (self@.len() == 0),
    {
        self.len == 0
    }

    /// `idx - sub`, going round the ring.
    fn wrap_sub(&self, idx: usize, sub: usize) -> (r: usize)
        requires
            idx < self.buf@.len() || (idx == 0 && self.buf@.len() == 0),
            sub <= self.buf@.len(),
        ensures
            r == wrapped(idx - sub + self.buf@.len(), self.buf@.len() as int),
    {
        let cap = self.cap();
        let base: usize = cap - sub;
        if idx <= usize::MAX - base {
            wrap_idx(base + idx, cap)
        } else {
            idx - sub
        }
    }

    /// `idx + add`, going round the ring.
    fn wrap_add(&self, idx: usize, add: usize) -> (r: usize)
        requires
            idx < self.buf@.len() || (idx == 0 && self.buf@.len() == 0),
            add <= self.buf@.len(),
        ensures
            r == wrapped(idx + add, self.buf@.len() as int),
    {
        let cap = self.cap();
        if add <= usize::MAX - idx {
            wrap_idx(idx + add, cap)
        } else {
            add - (cap - idx)
        }
    }

    /// Physical index of the slot for logical index `idx`.
    fn to_physical_idx(&self, idx: usize) -> (r: usize)
        requires
            self.head < self.buf@.len() || (self.head == 0 && self.buf@.len() == 0),
            idx <= self.buf@.len(),
        ensures
            r == wrapped(self.head + idx, self.buf@.len() as int),
    {
        self.wrap_add(self.head, idx)
    }

    /// Relocates `len` consecutive slots from `src` to `dst`; the runs may
    /// overlap.
    fn copy(&mut self, src: usize, dst: usize, len: usize)
        requires
            old(self).buf.wf(),
            src + len <= old(self).buf@.len(),
            dst + len <= old(self).buf@.len(),
        ensures
            final(self).buf.wf(),
            final(self).head == old(self).head,
            final(self).len == old(self).len,
            final(self).buf@ == RawVec::<T>::range_moved(
                old(self).buf@,
                src as int,
                dst as int,
                len as int,
            ),
    {
        self.buf.copy(src, dst, len);
    }

    /// Relocates `len` consecutive slots from `src` to `dst`, for runs that
    /// do not overlap.
    fn copy_nooverlap(&mut self, src: usize, dst: usize, len: usize)
        requires
            old(self).buf.wf(),
            src + len <= old(self).buf@.len(),
            dst + len <= old(self).buf@.len(),
            src + len <= dst || dst + len <= src,
        ensures
            final(self).buf.wf(),
            final(self).head == old(self).head,
            final(self).len == old(self).len,
            final(self).buf@ == RawVec::<T>::range_moved(
                old(self).buf@,
                src as int,
                dst as int,
                len as int,
            ),
    {
        self.buf.copy(src, dst, len);
    }

    fn buffer_read(&mut self, off: usize) -> (value: T)
        requires
            old(self).buf.wf(),
            off < old(self).buf@.len(),
            old(self).buf@[off as int] is Some,
        ensures
            final(self).buf.wf(),
            final(self).head == old(self).head,
            final(self).len == old(self).len,
            Some(value) == old(self).buf@[off as int],
            final(self).buf@ == old(self).buf@.update(off as int, None),
    {
        self.buf.read(off)
    }

    fn buffer_write(&mut self, off: usize, value: T)
        requires
            old(self).buf.wf(),
            off < old(self).buf@.len(),
        ensures
            final(self).buf.wf(),
            final(self).head == old(self).head,
            final(self).len == old(self).len,
            final(self).buf@ == old(self).buf@.update(off as int, Some(value)),
    {
        self.buf.write(off, value);
    }

    /// Restores the ring after the buffer has grown from `old_cap` slots.
    ///
    /// The elements still lie as a ring over the first `old_cap` slots. If
    /// they do not wrap round its end, nothing moves. Otherwise the shorter
    /// of the two runs moves: the wrapped run at the front goes into the new
    /// space right after slot `old_cap - 1` when it is the shorter one and
    /// fits there, else the run from the head goes to the very end of the
    /// buffer and the head with it.
    fn handle_grow(&mut self, old_cap: usize)
        requires
            old(self).laid_out_in(old_cap as int),
        ensures
            final(self).wf(),
            final(self)@ == old(self).contents_in(old_cap as int),
            final(self).len == old(self).len,
            final(self).capacity() == old(self).capacity(),
            final(self).head == Self::head_after_growth(
                old(self).head as int,
                old(self).len as int,
                old_cap as int,
                old(self).capacity() as int,
            ),
            final(self).buf@ == Self::slots_after_growth(
                old(self).buf@,
                old(self).head as int,
                old(self).len as int,
                old_cap as int,
            ),
    {
        if self.head <= old_cap - self.len {
            assert(self@ =~= old(self).contents_in(old_cap as int));
        } else {
            let new_cap = self.cap();
            let head_len = old_cap - self.head;
            let tail_len = self.len - head_len;
            if head_len > tail_len && new_cap - old_cap >= tail_len {
                self.copy_nooverlap(0, old_cap, tail_len);
                assert(self@ =~= old(self).contents_in(old_cap as int));
            } else {
                let new_head = new_cap - head_len;
                self.copy(self.head, new_head, head_len);
                self.head = new_head;
                assert(self@ =~= old(self).contents_in(old_cap as int));
            }
        }
    }

    /// Doubles the buffer (from no slots to one) and restores the ring in
    /// it. The queue holds the same elements in the same order as before.
    pub fn grow(&mut self)
        requires
            old(self).wf(),
            old(self).can_grow(),
        ensures
            final(self).wf(),
            final(self)@ == old(self)@,
            final(self).two_runs() == old(self).two_runs(),
            final(self).capacity() == grown(old(self).capacity()),
            final(self).head_index() == Self::head_after_growth(
                old(self).head_index(),
                old(self)@.len() as int,
                old(self).capacity() as int,
                grown(old(self).capacity()) as int,
            ),
            final(self).slots() == Self::slots_after_growth(
                old(self).slots() + Seq::new(
                    (grown(old(self).capacity()) - old(self).capacity()) as nat,
                    |i: int| None,
                ),
                old(self).head_index(),
                old(self)@.len() as int,
                old(self).capacity() as int,
            ),
    {
        let old_cap = self.cap();
        self.buf.grow();
        proof {
            assert(self.buf@ =~= old(self).slots() + Seq::new(
                (grown(old(self).capacity()) - old(self).capacity()) as nat,
                |i: int| None,
            ));
        }
        self.handle_grow(old_cap);
        proof {
            old(self).lemma_two_runs_are_the_view();
            self.lemma_two_runs_are_the_view();
        }
    }

    /// The one or two runs of physical slots that hold the elements, in
    /// logical order: the run from the head, then the run that wrapped round
    /// to the front of the buffer (empty when nothing wraps).
    pub fn slice_range(&self) -> (r: (Range<usize>, Range<usize>))
        requires
            self.wf(),
        ensures
            r == Self::spans(self.head_index(), self@.len() as int, self.capacity() as int),
            r.0.start <= r.0.end <= self.capacity(),
            r.1.start <= r.1.end <= self.capacity(),
            (r.0.end - r.0.start) + (r.1.end - r.1.start) == self@.len(),
            forall|i: int|
                0 <= i < self@.len() ==> Some(#[trigger] self@[i]) == self.slots()[if i < r.0.end
                    - r.0.start {
                    r.0.start + i
                } else {
                    r.1.start + i - (r.0.end - r.0.start)
                }],
    {
        let len = self.len;
        if len == 0 {
            (0..0, 0..0)
        } else {
            let wrap_start = self.to_physical_idx(0);
            let head_len = self.cap() - wrap_start;
            if head_len >= len {
                (wrap_start..wrap_start + len, 0..0)
            } else {
                let tail_len = len - head_len;
                (wrap_start..self.cap(), 0..tail_len)
            }
        }
    }

    /// The two runs of a ring of `cap` slots that holds `len` elements from
    /// slot `head` on.
    pub open spec fn spans(head: int, len: int, cap: int) -> (Range<usize>, Range<usize>) {
        if len == 0 {
            (0usize..0usize, 0usize..0usize)
        } else if cap - head >= len {
            (head as usize..(head + len) as usize, 0usize..0usize)
        } else {
            (head as usize..cap as usize, 0usize..(len - (cap - head)) as usize)
        }
    }

    /// Borrows the elements of a run of occupied slots, in order.
    fn buffer_range(&self, range: Range<usize>) -> (r: Vec<&T>)
        requires
            self.buf.wf(),
            range.start <= range.end <= self.buf@.len(),
            forall|p: int| range.start <= p < range.end ==> self.buf@[p] is Some,
        ensures
            r@.len() == range.end - range.start,
            forall|i: int| 0 <= i < r@.len() ==> Some(*r@[i]) == self.buf@[range.start + i],
    {
        let mut out: Vec<&T> = Vec::new();
        let mut p: usize = range.start;
        while p < range.end
            invariant
                self.buf.wf(),
                range.start <= p <= range.end <= self.buf@.len(),
                forall|q: int| range.start <= q < range.end ==> self.buf@[q] is Some,
                out@.len() == p - range.start,
                forall|i: int| 0 <= i < out@.len() ==> Some(*out@[i]) == self.buf@[range.start + i],
            decreases range.end - p,
        {
            out.push(self.buf.get(p));
            p = p + 1;
        }
        out
    }

    /// The elements as one or two contiguous runs whose concatenation is the
    /// queue in logical order. The second run is empty unless the elements
    /// wrap round the end of the buffer.
    pub fn as_slice(&self) -> (r: (Vec<&T>, Vec<&T>))
        requires
            self.wf(),
        ensures
            Self::deref_all(r.0@) + Self::deref_all(r.1@) == self@,
            Self::deref_all(r.0@) + Self::deref_all(r.1@) == self.two_runs(),
            ({
                let s = Self::spans(self.head_index(), self@.len() as int, self.capacity() as int);
                &&& Self::deref_all(r.0@) == Self::run(self.slots(), s.0)
                &&& Self::deref_all(r.1@) == Self::run(self.slots(), s.1)
            }),
    {
        let (r_a, r_b) = self.slice_range();
        let a = self.buffer_range(r_a);
        let b = self.buffer_range(r_b);
        proof {
            assert(Self::deref_all(a@) =~= Self::run(self.slots(), r_a));
            assert(Self::deref_all(b@) =~= Self::run(self.slots(), r_b));
            self.lemma_two_runs_are_the_view();
        }
        (a, b)
    }

    /// The elements that a run of borrows points to.
    pub open spec fn deref_all(run: Seq<&T>) -> Seq<T> {
        Seq::new(run.len(), |i: int| *run[i])
    }

    /// An iterator over the elements in logical order.
    pub fn iter(&self) -> (it: Iter<'_, T>)
        requires
            self.wf(),
        ensures
            it.wf(),
            it@ == self@,
    {
        let (a, b) = self.as_slice();
        let it = Iter { i1: a, pos1: 0, i2: b, pos2: 0 };
        assert(it@ =~= Self::deref_all(a@) + Self::deref_all(b@));
        it
    }

    /// Puts `value` in front of the first element.
    pub fn push_front(&mut self, value: T)
        requires
            old(self).wf(),
            old(self).can_push(),
        ensures
            final(self).wf(),
            final(self)@ == seq![value] + old(self)@,
            final(self).two_runs() == seq![value] + old(self).two_runs(),
            final(self).capacity() == capacity_after_push(
                old(self)@.len(),
                old(self).capacity(),
            ),
            old(self).capacity() == capacity_after(old(self)@.len()) ==> {
                &&& final(self).capacity() == capacity_after(final(self)@.len())
                &&& smallest_power_of_two_from(final(self).capacity(), final(self)@.len())
            },
            final(self).head_index() == wrapped(
                Self::head_with_room(
                    old(self).head_index(),
                    old(self)@.len() as int,
                    old(self).capacity() as int,
                ) - 1 + final(self).capacity(),
                final(self).capacity() as int,
            ),
    {
        if self.is_full() {
            self.grow();
        }
        let ghost grown = *self;
        proof {
            self.buf.lemma_capacity_fits();
        }
        self.head = self.wrap_sub(self.head, 1);
        self.len = self.len + 1;
        self.buffer_write(self.head, value);
        assert(self@ =~= seq![value] + grown@);
        proof {
            old(self).lemma_two_runs_are_the_view();
            self.lemma_two_runs_are_the_view();
            lemma_capacity_step(old(self)@.len());
        }
    }

    /// Puts `value` behind the last element.
    pub fn push_back(&mut self, value: T)
        requires
            old(self).wf(),
            old(self).can_push(),
        ensures
            final(self).wf(),
            final(self)@ == old(self)@.push(value),
            final(self).two_runs() == old(self).two_runs().push(value),
            final(self).capacity() == capacity_after_push(
                old(self)@.len(),
                old(self).capacity(),
            ),
            old(self).capacity() == capacity_after(old(self)@.len()) ==> {
                &&& final(self).capacity() == capacity_after(final(self)@.len())
                &&& smallest_power_of_two_from(final(self).capacity(), final(self)@.len())
            },
            final(self).head_index() == Self::head_with_room(
                old(self).head_index(),
                old(self)@.len() as int,
                old(self).capacity() as int,
            ),
    {
        if self.is_full() {
            self.grow();
        }
        let ghost grown = *self;
        proof {
            self.buf.lemma_capacity_fits();
        }
        let at = self.to_physical_idx(self.len);
        self.buffer_write(at, value);
        self.len = self.len + 1;
        assert(self@ =~= grown@.push(value));
        proof {
            old(self).lemma_two_runs_are_the_view();
            self.lemma_two_runs_are_the_view();
            lemma_capacity_step(old(self)@.len());
        }
    }

    /// Removes the first element and returns it; `None` when there is none.
    pub fn pop_front(&mut self) -> (r: Option<T>)
        requires
            old(self).wf(),
        ensures
            final(self).wf(),
            final(self).capacity() == old(self).capacity(),
            match r {
                Some(el) => {
                    &&& old(self)@.len() > 0
                    &&& el == old(self)@[0]
                    &&& final(self)@ == old(self)@.subrange(1, old(self)@.len() as int)
                    &&& final(self).two_runs() == old(self).two_runs().subrange(
                        1,
                        old(self)@.len() as int,
                    )
                    &&& final(self).head_index() == wrapped(
                        old(self).head_index() + 1,
                        old(self).capacity() as int,
                    )
                },
                None => {
                    &&& old(self)@.len() == 0
                    &&& final(self)@ == old(self)@
                    &&& final(self).head_index() == old(self).head_index()
                },
            },
    {
        if self.is_empty() {
            None
        } else {
            let old_head = self.head;
            self.head = self.to_physical_idx(1);
            self.len = self.len - 1;
            let el = self.buffer_read(old_head);
            assert(self@ =~= old(self)@.subrange(1, old(self)@.len() as int));
            proof {
                old(self).lemma_two_runs_are_the_view();
                self.lemma_two_runs_are_the_view();
            }
            Some(el)
        }
    }

    /// Removes the last element and returns it; `None` when there is none.
    pub fn pop_back(&mut self) -> (r: Option<T>)
        requires
            old(self).wf(),
        ensures
            final(self).wf(),
            final(self).capacity() == old(self).capacity(),
            final(self).head_index() == old(self).head_index(),
            match r {
                Some(el) => {
                    &&& old(self)@.len() > 0
                    &&& el == old(self)@.last()
                    &&& final(self)@ == old(self)@.drop_last()
                    &&& final(self).two_runs() == old(self).two_runs().drop_last()
                },
                None => old(self)@.len() == 0 && final(self)@ == old(self)@,
            },
    {
        if self.is_empty() {
            None
        } else {
            self.len = self.len - 1;
            let at = self.to_physical_idx(self.len);
            let el = self.buffer_read(at);
            assert(self@ =~= old(self)@.drop_last());
            proof {
                old(self).lemma_two_runs_are_the_view();
                self.lemma_two_runs_are_the_view();
            }
            Some(el)
        }
    }

    /// Turns the queue into an iterator that hands its elements out from
    /// the front.
    pub fn into_iter(self) -> (it: IntoIter<T>)
        requires
            self.wf(),
        ensures
            it.wf(),
            it@ == self@,
    {
        IntoIter::new(self)
    }
}

/// An iterator that owns a queue and hands its elements out from the front.
pub struct IntoIter<T> {
    inner: Deque<T>,
}

impl<T> IntoIter<T> {
    /// The elements not handed out yet, in order.
    pub closed spec fn view(&self) -> Seq<T> {
        self.inner@
    }

    pub closed spec fn wf(&self) -> bool {
        self.inner.wf()
    }

    fn new(inner: Deque<T>) -> (it: Self)
        ensures
            it.inner == inner,
    {
        Self { inner }
    }

    /// The next element from the front; `None` when all are handed out.
    pub fn next(&mut self) -> (r: Option<T>)
        requires
            old(self).wf(),
        ensures
            final(self).wf(),
            match r {
                Some(el) => old(self)@.len() > 0 && el == old(self)@[0] && final(self)@ == old(
                    self,
                )@.subrange(1, old(self)@.len() as int),
                None => old(self)@.len() == 0 && final(self)@ == old(self)@,
            },
    {
        self.inner.pop_front()
    }

    /// Lower and upper bound of the number of elements left: both exact.
    pub fn size_hint(&self) -> (r: (usize, Option<usize>))
        requires
            self.wf(),
        ensures
            r.0 == self@.len(),
            r.1 == Some(r.0),
    {
        let len = self.inner.len;
        (len, Some(len))
    }
}

/// A borrowing iterator over a queue: the run from the head first, then the
/// run that wrapped round.
pub struct Iter<'a, T: 'a> {
    i1: Vec<&'a T>,
    pos1: usize,
    i2: Vec<&'a T>,
    pos2: usize,
}

impl<'a, T> Iter<'a, T> {
    /// The elements not handed out yet, in order.
    pub closed spec fn view(&self) -> Seq<T> {
        Seq::new(
            (self.i1@.len() - self.pos1 + self.i2@.len() - self.pos2) as nat,
            |k: int|
                if k < self.i1@.len() - self.pos1 {
                    *self.i1@[self.pos1 + k]
                } else {
                    *self.i2@[self.pos2 + k - (self.i1@.len() - self.pos1)]
                },
        )
    }

    pub closed spec fn wf(&self) -> bool {
        &&& self.pos1 <= self.i1@.len()
        &&& self.pos2 <= self.i2@.len()
        &&& self.i1@.len() + self.i2@.len() <= usize::MAX
    }

    /// Number of elements left.
    pub fn len(&self) -> (n: usize)
        requires
            self.wf(),
        ensures
            n == self@.len(),
    {
        (self.i1.len() - self.pos1) + (self.i2.len() - self.pos2)
    }

    /// The next element; `None` when all are handed out.
    pub fn next(&mut self) -> (r: Option<&'a T>)
        requires
            old(self).wf(),
        ensures
            final(self).wf(),
            match r {
                Some(el) => old(self)@.len() > 0 && *el == old(self)@[0] && final(self)@ == old(
                    self,
                )@.subrange(1, old(self)@.len() as int),
                None => old(self)@.len() == 0 && final(self)@ == old(self)@,
            },
    {
        if self.pos1 >= self.i1.len() {
            core::mem::swap(&mut self.i1, &mut self.i2);
            core::mem::swap(&mut self.pos1, &mut self.pos2);
            assert(self@ =~= old(self)@);
        }
        if self.pos1 < self.i1.len() {
            let el: &'a T = self.i1[self.pos1];
            self.pos1 = self.pos1 + 1;
            assert(self@ =~= old(self)@.subrange(1, old(self)@.len() as int));
            Some(el)
        } else {
            None
        }
    }

    /// Lower and upper bound of the number of elements left: both exact.
    pub fn size_hint(&self) -> (r: (usize, Option<usize>))
        requires
            self.wf(),
        ensures
            r.0 == self@.len(),
            r.1 == Some(r.0),
    {
        let len = self.len();
        (len, Some(len))
    }
}

} // verus!
