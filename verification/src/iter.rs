//! A double-ended cursor over the occupied run of a block of slots.

use crate::collection::raw::raw_vec::RawVec;
use vstd::prelude::*;

verus! {

/// Hands out, from either end, the elements of a block whose occupied slots
/// form one run. The block belongs to the iterator; `start` and `end` bound
/// the slots not handed out yet. The view is the sequence of those elements.
pub struct RawIter<T> {
    buf: RawVec<T>,
    start: usize,
    end: usize,
}

impl<T> RawIter<T> {
    /// The elements not handed out yet, front to back.
    pub closed spec fn view(&self) -> Seq<T> {
        Seq::new((self.end - self.start) as nat, |i: int| self.buf@[self.start + i]->0)
    }

    /// The representation invariant: exactly the slots between the two
    /// cursors are occupied.
    pub closed spec fn wf(&self) -> bool {
        &&& self.buf.wf()
        &&& self.start <= self.end <= self.buf@.len()
        &&& forall|p: int|
            0 <= p < self.buf@.len() ==> ((#[trigger] self.buf@[p]) is Some <==> self.start <= p
                < self.end)
    }

    /// Whether the first `len` slots of a block, and no others, hold an
    /// element.
    pub open spec fn leading_run(slots: Seq<Option<T>>, len: int) -> bool {
        &&& 0 <= len <= slots.len()
        &&& forall|p: int| 0 <= p < slots.len() ==> ((#[trigger] slots[p]) is Some <==> p < len)
    }

    /// The elements of the first `len` slots, in order.
    pub open spec fn leading_elements(slots: Seq<Option<T>>, len: int) -> Seq<T> {
        Seq::new(len as nat, |i: int| slots[i]->0)
    }

    /// An iterator over the `len` elements at the start of `buf`.
    pub fn new(buf: RawVec<T>, len: usize) -> (it: Self)
        requires
            buf.wf(),
            Self::leading_run(buf@, len as int),
        ensures
            it.wf(),
            it@ == Self::leading_elements(buf@, len as int),
    {
        let it = RawIter { buf, start: 0, end: len };
        assert(it@ =~= Self::leading_elements(buf@, len as int));
        it
    }

    /// The next element from the front; `None` when all are handed out.
    pub fn next(&mut self) -> (r: Option<T>)
        requires
            old(self).wf(),
        ensures
            final(self).wf(),
            match r {
                Some(el) => old(self)@.len() > 0 && el == old(self)@[0] && final(self)@ == old(
                    self,
                )@.subrange(1, old(self)@.len() as int),
                None => old(self)@.len() == 0 && final(self)@ == old(self)@,
            },
    {
        if self.start == self.end {
            None
        } else {
            let at = self.start;
            self.start = self.start + 1;
            let el = self.buf.read(at);
            assert(self@ =~= old(self)@.subrange(1, old(self)@.len() as int));
            Some(el)
        }
    }

    /// Lower and upper bound of the number of elements left: both exact.
    pub fn size_hint(&self) -> (r: (usize, Option<usize>))
        requires
            self.wf(),
        ensures
            r.0 == self@.len(),
            r.1 == Some(r.0),
    {
        let len = self.end - self.start;
        (len, Some(len))
    }

    /// The next element from the back; `None` when all are handed out.
    pub fn next_back(&mut self) -> (r: Option<T>)
        requires
            old(self).wf(),
        ensures
            final(self).wf(),
            match r {
                Some(el) => old(self)@.len() > 0 && el == old(self)@.last() && final(self)@ == old(
                    self,
                )@.drop_last(),
                None => old(self)@.len() == 0 && final(self)@ == old(self)@,
            },
    {
        if self.start == self.end {
            None
        } else {
            self.end = self.end - 1;
            let el = self.buf.read(self.end);
            assert(self@ =~= old(self)@.drop_last());
            Some(el)
        }
    }
}

} // verus!
