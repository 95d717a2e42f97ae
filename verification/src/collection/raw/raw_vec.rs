//! The block of slots every container in this crate stores its elements in.

use vstd::arithmetic::power2::{lemma2_to64, lemma_pow2_pos, lemma_pow2_unfold, pow2};
use vstd::prelude::*;

verus! {

/// The capacity a block of `cap` slots grows to: 1 from 0, otherwise double.
pub open spec fn grown(cap: nat) -> nat {
    if cap == 0 {
        1
    } else {
        2 * cap
    }
}

/// The capacity after storing one more element in a container of `len`
/// elements and `cap` slots: unchanged while a slot is free, otherwise grown.
pub open spec fn capacity_after_push(len: nat, cap: nat) -> nat {
    if len == cap {
        grown(cap)
    } else {
        cap
    }
}

/// The capacity of a container that started with no slots and has stored
/// `n` elements one by one, with nothing removed in between.
pub open spec fn capacity_after(n: nat) -> nat
    decreases n,
{
    if n == 0 {
        0
    } else {
        capacity_after_push((n - 1) as nat, capacity_after((n - 1) as nat))
    }
}

/// `from` doubled until it is at least `n`.
pub open spec fn doubled_until(from: nat, n: nat) -> nat
    decreases
        (if from < n {
            n - from
        } else {
            0
        }),
{
    if 0 < from && from < n {
        doubled_until(2 * from, n)
    } else {
        from
    }
}

/// 1 doubled until it is at least `n`: the smallest power of two that is at
/// least `n`.
pub open spec fn rounded_up(n: nat) -> nat {
    doubled_until(1, n)
}

/// Whether `c` is the smallest power of two that is at least `n`.
pub open spec fn smallest_power_of_two_from(c: nat, n: nat) -> bool {
    &&& exists|e: nat| c == pow2(e)
    &&& n <= c
    &&& c == 1 || c < 2 * n
}

/// Doubling from a power of two that is not yet too large ends at the
/// smallest power of two that is at least `n`.
pub proof fn lemma_doubled_until(from: nat, n: nat)
    requires
        exists|e: nat| from == pow2(e),
        from == 1 || from < 2 * n,
    ensures
        smallest_power_of_two_from(doubled_until(from, n), n),
    decreases
        (if from < n {
            n - from
        } else {
            0
        }),
{
    let e = choose|e: nat| from == pow2(e);
    lemma_pow2_pos(e);
    if from < n {
        lemma_pow2_unfold(e + 1);
        assert(2 * from == pow2(e + 1));
        lemma_doubled_until(2 * from, n);
    }
}

/// `rounded_up(n)` is the smallest power of two that is at least `n`.
pub proof fn lemma_rounded_up(n: nat)
    ensures
        smallest_power_of_two_from(rounded_up(n), n),
{
    lemma2_to64();
    assert(1 == pow2(0));
    lemma_doubled_until(1, n);
}

/// Storing `n >= 1` elements one by one in a container that started with
/// no slots, with nothing removed in between, leaves it with the smallest
/// power of two that is at least `n` as its capacity: the capacities passed
/// through are 0, 1, 2, 4, 8 and so on.
pub proof fn lemma_capacity_after(n: nat)
    requires
        n >= 1,
    ensures
        smallest_power_of_two_from(capacity_after(n), n),
        capacity_after(n) < 2 * n,
    decreases n,
{
    lemma2_to64();
    if n == 1 {
        assert(capacity_after(0) == 0);
        assert(capacity_after(1) == 1);
        assert(1 == pow2(0));
    } else {
        let m = (n - 1) as nat;
        lemma_capacity_after(m);
        let c = capacity_after(m);
        if c == m {
            let e = choose|e: nat| c == pow2(e);
            lemma_pow2_unfold(e + 1);
            assert(capacity_after(n) == 2 * c);
            assert(2 * c == pow2(e + 1));
        } else {
            assert(capacity_after(n) == c);
        }
    }
}

/// One more store keeps a capacity that follows the growth sequence on it:
/// where `n` stores from no slots have left `capacity_after(n)` slots, the
/// next store leaves `capacity_after(n + 1)`, which is the smallest power of
/// two that is at least `n + 1`.
pub proof fn lemma_capacity_step(n: nat)
    ensures
        capacity_after_push(n, capacity_after(n)) == capacity_after(n + 1),
        smallest_power_of_two_from(capacity_after(n + 1), n + 1),
{
    lemma_capacity_after(n + 1);
}

/// Owner of one block of `cap` element slots.
///
/// A slot is either vacant or holds one element. The view is the sequence of
/// slots in physical order; its length is the capacity. A new block has no
/// slots and owns no memory. For an element type of size zero the capacity
/// is `usize::MAX` from the start and never changes; such a block cannot
/// grow, and it keeps a record only of the slots near either end that were
/// written to: `slots` counts up from slot 0, `back` counts down from the
/// last slot, and every slot between the two is vacant.
#[derive(Debug)]
pub struct RawVec<T> {
    slots: Vec<Option<T>>,
    back: Vec<Option<T>>,
    cap: usize,
}

impl<T> RawVec<T> {
    /// Whether elements of this block occupy no storage.
    pub open spec fn zero_sized() -> bool {
        vstd::layout::size_of::<T>() == 0
    }

    /// The slots in physical order; `None` marks a vacant slot.
    pub closed spec fn view(&self) -> Seq<Option<T>> {
        Seq::new(
            self.cap as nat,
            |i: int|
                if i < self.slots@.len() {
                    self.slots@[i]
                } else if self.cap - i <= self.back@.len() {
                    self.back@[self.cap - 1 - i]
                } else {
                    None
                },
        )
    }

    /// The representation invariant.
    pub closed spec fn wf(&self) -> bool {
        &&& self.slots@.len() + self.back@.len() <= self.cap
        &&& if Self::zero_sized() {
            self.cap == usize::MAX
        } else {
            self.slots@.len() == self.cap
        }
    }

    /// Whether a block of `cap` slots can be had at all: its size in bytes is
    /// at most `isize::MAX`.
    pub open spec fn allocatable(cap: nat) -> bool {
        cap * vstd::layout::size_of::<T>() <= isize::MAX
    }

    /// Whether `grow` can enlarge this block: elements have a size and the
    /// enlarged block can be had.
    pub open spec fn can_grow(&self) -> bool {
        !Self::zero_sized() && Self::allocatable(grown(self@.len()))
    }

    /// A block of sized elements that can be had has a capacity of at most
    /// `isize::MAX`.
    pub proof fn lemma_allocatable(cap: nat)
        requires
            !Self::zero_sized(),
            Self::allocatable(cap),
        ensures
            cap <= isize::MAX,
    {
        let size = vstd::layout::size_of::<T>();
        assert(cap <= cap * size) by (nonlinear_arith)
            requires
                size >= 1,
        ;
    }

    pub fn new() -> (r: Self)
        ensures
            r.wf(),
            r@.len() == (if Self::zero_sized() {
                usize::MAX as nat
            } else {
                0
            }),
            forall|i: int| 0 <= i < r@.len() ==> r@[i] is None,
    {
        let cap: usize = if core::mem::size_of::<T>() == 0 {
            usize::MAX
        } else {
            0
        };
        RawVec { slots: Vec::new(), back: Vec::new(), cap }
    }

    /// A block of the smallest power-of-two capacity that holds `cap` slots,
    /// all of them vacant. Elements of size zero need no storage, so for
    /// them the block is the same as a new one.
    pub fn with_capacity(cap: usize) -> (r: Self)
        requires
            Self::zero_sized() || Self::allocatable(rounded_up(cap as nat)),
        ensures
            r.wf(),
            r@.len() == (if Self::zero_sized() {
                usize::MAX as nat
            } else {
                rounded_up(cap as nat)
            }),
            forall|i: int| 0 <= i < r@.len() ==> r@[i] is None,
    {
        if core::mem::size_of::<T>() == 0 {
            return Self::new();
        }
        proof {
            lemma_rounded_up(cap as nat);
            Self::lemma_allocatable(rounded_up(cap as nat));
        }
        let mut real_cap: usize = 1;
        while real_cap < cap
            invariant
                1 <= real_cap,
                cap <= usize::MAX / 2 + 1,
                doubled_until(real_cap as nat, cap as nat) == rounded_up(cap as nat),
            decreases
                (if real_cap < cap {
                    cap - real_cap
                } else {
                    0
                }),
        {
            real_cap = 2 * real_cap;
        }
        let mut slots: Vec<Option<T>> = Vec::new();
        while slots.len() < real_cap
            invariant
                slots@.len() <= real_cap,
                forall|i: int| 0 <= i < slots@.len() ==> slots@[i] is None,
            decreases real_cap - slots@.len(),
        {
            slots.push(None);
        }
        RawVec { slots, back: Vec::new(), cap: real_cap }
    }

    /// Doubles the capacity (from 0 it becomes 1). The slots already there
    /// keep their contents and their positions; the added slots are vacant.
    pub fn grow(&mut self)
        requires
            old(self).wf(),
            old(self).can_grow(),
        ensures
            final(self).wf(),
            final(self)@.len() == grown(old(self)@.len()),
            forall|i: int| 0 <= i < old(self)@.len() ==> final(self)@[i] == old(self)@[i],
            forall|i: int| old(self)@.len() <= i < final(self)@.len() ==> final(self)@[i] is None,
    {
        proof {
            Self::lemma_allocatable(grown(self@.len()));
        }
        let new_cap: usize = if self.cap == 0 {
            1
        } else {
            2 * self.cap
        };
        while self.slots.len() < new_cap
            invariant
                self.cap == old(self).cap,
                self.back@.len() == 0,
                old(self).wf(),
                !Self::zero_sized(),
                old(self).cap <= self.slots@.len() <= new_cap,
                forall|i: int| 0 <= i < old(self).cap ==> self.slots@[i] == old(self).slots@[i],
                forall|i: int| old(self).cap <= i < self.slots@.len() ==> self.slots@[i] is None,
            decreases new_cap - self.slots@.len(),
        {
            self.slots.push(None);
        }
        self.cap = new_cap;
    }

    /// The capacity of a well-formed block is a `usize`.
    pub proof fn lemma_capacity_fits(&self)
        requires
            self.wf(),
        ensures
            self@.len() <= usize::MAX,
    {
    }

    /// Number of slots.
    pub fn cap(&self) -> (c: usize)
        ensures
            c == self@.len(),
    {
        self.cap
    }

    /// Takes out whatever slot `idx` holds and leaves the slot vacant.
    fn take_slot(&mut self, idx: usize) -> (taken: Option<T>)
        requires
            old(self).wf(),
            idx < old(self)@.len(),
        ensures
            final(self).wf(),
            taken == old(self)@[idx as int],
            final(self)@ == old(self)@.update(idx as int, None),
    {
        let taken = if idx < self.slots.len() {
            self.slots[idx].take()
        } else if self.cap - idx <= self.back.len() {
            let at = self.cap - 1 - idx;
            self.back[at].take()
        } else {
            None
        };
        assert(self@ =~= old(self)@.update(idx as int, None));
        taken
    }

    /// Makes slot `idx` hold `content`, replacing what the slot held.
    fn put_slot(&mut self, idx: usize, content: Option<T>)
        requires
            old(self).wf(),
            idx < old(self)@.len(),
        ensures
            final(self).wf(),
            final(self)@ == old(self)@.update(idx as int, content),
    {
        if idx < self.slots.len() {
            self.slots.set(idx, content);
        } else if self.cap - idx <= self.back.len() {
            let at = self.cap - 1 - idx;
            self.back.set(at, content);
        } else if content.is_some() {
            let from_front = idx - self.slots.len();
            let from_back = self.cap - 1 - idx - self.back.len();
            if from_front <= from_back {
                while self.slots.len() < idx
                    invariant
                        self.wf(),
                        self@ == old(self)@,
                        self.slots@.len() <= idx < self.cap - self.back@.len(),
                    decreases idx - self.slots@.len(),
                {
                    self.slots.push(None);
                    assert(self@ =~= old(self)@);
                }
                self.slots.push(content);
            } else {
                let at = self.cap - 1 - idx;
                while self.back.len() < at
                    invariant
                        self.wf(),
                        self@ == old(self)@,
                        at == self.cap - 1 - idx,
                        self.slots@.len() <= idx < self.cap - self.back@.len(),
                    decreases at - self.back@.len(),
                {
                    self.back.push(None);
                    assert(self@ =~= old(self)@);
                }
                self.back.push(content);
            }
        }
        assert(self@ =~= old(self)@.update(idx as int, content));
    }

    /// Puts `value` into slot `idx`, replacing what the slot held.
    pub fn write(&mut self, idx: usize, value: T)
        requires
            old(self).wf(),
            idx < old(self)@.len(),
        ensures
            final(self).wf(),
            final(self)@ == old(self)@.update(idx as int, Some(value)),
    {
        self.put_slot(idx, Some(value));
    }

    /// Takes the element out of slot `idx`, leaving the slot vacant.
    pub fn read(&mut self, idx: usize) -> (value: T)
        requires
            old(self).wf(),
            idx < old(self)@.len(),
            old(self)@[idx as int] is Some,
        ensures
            final(self).wf(),
            Some(value) == old(self)@[idx as int],
            final(self)@ == old(self)@.update(idx as int, None),
    {
        self.take_slot(idx).unwrap()
    }

    /// Borrows the element in slot `idx`.
    pub fn get(&self, idx: usize) -> (value: &T)
        requires
            self.wf(),
            idx < self@.len(),
            self@[idx as int] is Some,
        ensures
            Some(*value) == self@[idx as int],
    {
        if idx < self.slots.len() {
            self.slots[idx].as_ref().unwrap()
        } else {
            self.back[self.cap - 1 - idx].as_ref().unwrap()
        }
    }

    /// Hands the contents over to a new block of the same capacity and
    /// leaves this one with every slot vacant.
    pub fn detach(&mut self) -> (taken: Self)
        requires
            old(self).wf(),
        ensures
            final(self).wf(),
            taken.wf(),
            taken@ == old(self)@,
            final(self)@.len() == old(self)@.len(),
            forall|i: int| 0 <= i < final(self)@.len() ==> final(self)@[i] is None,
    {
        let mut slots: Vec<Option<T>> = Vec::new();
        let mut back: Vec<Option<T>> = Vec::new();
        core::mem::swap(&mut self.slots, &mut slots);
        core::mem::swap(&mut self.back, &mut back);
        let taken = RawVec { slots, back, cap: self.cap };
        assert(taken@ =~= old(self)@);
        if core::mem::size_of::<T>() != 0 {
            while self.slots.len() < self.cap
                invariant
                    self.cap == old(self).cap,
                    self.back@.len() == 0,
                    self.slots@.len() <= self.cap,
                    forall|i: int| 0 <= i < self.slots@.len() ==> self.slots@[i] is None,
                decreases self.cap - self.slots@.len(),
            {
                self.slots.push(None);
            }
        }
        taken
    }

    /// Moves the contents of slot `from` into slot `to` and leaves `from`
    /// vacant. With `from == to` nothing changes.
    pub fn move_slot(&mut self, from: usize, to: usize)
        requires
            old(self).wf(),
            from < old(self)@.len(),
            to < old(self)@.len(),
        ensures
            final(self).wf(),
            final(self)@ == Self::slot_moved(old(self)@, from as int, to as int),
    {
        if from != to {
            let taken = self.take_slot(from);
            self.put_slot(to, taken);
        }
    }

    /// What `move_slot` makes of the slots.
    pub open spec fn slot_moved(slots: Seq<Option<T>>, from: int, to: int) -> Seq<Option<T>> {
        if from == to {
            slots
        } else {
            slots.update(from, None).update(to, slots[from])
        }
    }

    /// What `copy` makes of the slots: the `count` slots from `dst` on hold
    /// what the `count` slots from `src` on held, in the same order; a source
    /// slot outside the destination is vacant; every other slot is as before.
    pub open spec fn range_moved(slots: Seq<Option<T>>, src: int, dst: int, count: int) -> Seq<
        Option<T>,
    > {
        Seq::new(
            slots.len(),
            |k: int|
                if dst <= k < dst + count {
                    slots[k - dst + src]
                } else if src <= k < src + count {
                    None
                } else {
                    slots[k]
                },
        )
    }

    /// Relocates `count` consecutive slots from `src` to `dst`. The two runs
    /// may overlap.
    pub fn copy(&mut self, src: usize, dst: usize, count: usize)
        requires
            old(self).wf(),
            src + count <= old(self)@.len(),
            dst + count <= old(self)@.len(),
        ensures
            final(self).wf(),
            final(self)@ == Self::range_moved(old(self)@, src as int, dst as int, count as int),
    {
        if dst <= src {
            let mut i: usize = 0;
            while i < count
                invariant
                    self.wf(),
                    i <= count,
                    dst <= src,
                    self@.len() == old(self)@.len(),
                    src + count <= self@.len(),
                    self@ == Self::range_moved(old(self)@, src as int, dst as int, i as int),
                decreases count - i,
            {
                self.move_slot(src + i, dst + i);
                i = i + 1;
                assert(self@ =~= Self::range_moved(old(self)@, src as int, dst as int, i as int));
            }
        } else {
            let mut j: usize = count;
            while j > 0
                invariant
                    self.wf(),
                    j <= count,
                    src < dst,
                    self@.len() == old(self)@.len(),
                    dst + count <= self@.len(),
                    self@ == Self::range_tail_moved(
                        old(self)@,
                        src as int,
                        dst as int,
                        j as int,
                        count as int,
                    ),
                decreases j,
            {
                j = j - 1;
                self.move_slot(src + j, dst + j);
                assert(self@ =~= Self::range_tail_moved(
                    old(self)@,
                    src as int,
                    dst as int,
                    j as int,
                    count as int,
                ));
            }
        }
        assert(self@ =~= Self::range_moved(old(self)@, src as int, dst as int, count as int));
    }

    /// The slots when only the part `[from, count)` of a relocation has been made.
    pub open spec fn range_tail_moved(
        slots: Seq<Option<T>>,
        src: int,
        dst: int,
        from: int,
        count: int,
    ) -> Seq<Option<T>> {
        Seq::new(
            slots.len(),
            |k: int|
                if dst + from <= k < dst + count {
                    slots[k - dst + src]
                } else if src + from <= k < src + count {
                    None
                } else {
                    slots[k]
                },
        )
    }
}

} // verus!
