//! A binary max-heap kept in a growable array.

use super::raw::raw_vec::{
    capacity_after, capacity_after_push, grown, rounded_up, smallest_power_of_two_from, RawVec,
};
use super::vec::Vec;
use core::cmp::Ordering;
use vstd::multiset::Multiset;
use vstd::prelude::*;
use vstd::std_specs::cmp::PartialOrdSpec;

verus! {

/// `a` is strictly below `b` in the element order.
pub open spec fn lt<T: PartialOrd>(a: T, b: T) -> bool {
    a.partial_cmp_spec(&b) == Some(Ordering::Less)
}

/// The comparison operators of `T` compute the element order.
pub open spec fn comparison_is_spec<T: PartialOrd>() -> bool {
    T::obeys_partial_cmp_spec()
}

/// The element order ranks the values: nothing is below something that is
/// below it, and "not below" carries over a middle value. Values that are
/// neither below nor above one another count as ties.
pub open spec fn orders_weakly<T: PartialOrd>() -> bool {
    &&& comparison_is_spec::<T>()
    &&& forall|a: T, b: T| #[trigger] lt(a, b) ==> !lt(b, a)
    &&& forall|a: T, b: T, c: T| !(#[trigger] lt(a, b)) && !(#[trigger] lt(b, c)) ==> !lt(a, c)
}

/// Index of the parent of the node at index `i > 0`.
pub open spec fn parent(i: int) -> int {
    (i - 1) / 2
}

/// The heap property: no element is below one of its children.
pub open spec fn heap_ordered<T: PartialOrd>(a: Seq<T>) -> bool {
    forall|i: int| 0 < i < a.len() ==> !lt(a[parent(i)], #[trigger] a[i])
}

/// The heap property but for the element at `h`, which may be above its
/// parent; the children of `h` are not above the parent of `h`.
pub open spec fn ordered_except_up<T: PartialOrd>(a: Seq<T>, h: int) -> bool {
    &&& forall|i: int| 0 < i < a.len() && i != h ==> !lt(a[parent(i)], #[trigger] a[i])
    &&& forall|c: int|
        0 < c < a.len() && parent(c) == h && h > 0 ==> !lt(a[parent(h)], #[trigger] a[c])
}

/// Index `i` lies in the subtree rooted at index `root`: it is `root` or a
/// descendant of it.
pub open spec fn below(i: int, root: int) -> bool
    decreases i,
{
    i == root || (i > root && i > 0 && below(parent(i), root))
}

/// Index `i` lies on the path from index `n` up to the root: it is `n` or
/// an ancestor of it.
pub open spec fn on_path(i: int, n: int) -> bool
    decreases n,
{
    i == n || (n > 0 && on_path(i, parent(n)))
}

/// The heap property within the subtree rooted at `root`: no element of the
/// subtree is below one of its children.
pub open spec fn subtree_ordered<T: PartialOrd>(a: Seq<T>, root: int) -> bool {
    forall|i: int|
        0 < i < a.len() && below(parent(i), root) ==> !lt(a[parent(i)], #[trigger] a[i])
}

/// The heap property within the subtree rooted at `root` but for the element
/// at `h`, which may be below its children; where `h` is not `root` itself,
/// the children of `h` are not above the parent of `h`.
pub open spec fn subtree_ordered_except<T: PartialOrd>(a: Seq<T>, root: int, h: int) -> bool {
    &&& forall|i: int|
        0 < i < a.len() && below(parent(i), root) && parent(i) != h ==> !lt(
            a[parent(i)],
            #[trigger] a[i],
        )
    &&& forall|c: int|
        0 < c < a.len() && parent(c) == h && h != root ==> !lt(a[parent(h)], #[trigger] a[c])
}

/// Every index lies in the subtree of the root.
pub proof fn lemma_below_root(i: int)
    requires
        0 <= i,
    ensures
        below(i, 0),
    decreases i,
{
    if i > 0 {
        lemma_below_root(parent(i));
    }
}

/// The parent of an index on the path from `n` to the root is on that path
/// too.
pub proof fn lemma_on_path_parent(h: int, n: int)
    requires
        0 < h,
        on_path(h, n),
    ensures
        on_path(parent(h), n),
    decreases n,
{
    if h != n {
        lemma_on_path_parent(h, parent(n));
    } else {
        assert(on_path(parent(n), parent(n)));
    }
}

/// An array whose whole tree is ordered as a subtree is heap-ordered.
pub proof fn lemma_whole_tree_ordered<T: PartialOrd>(a: Seq<T>)
    requires
        subtree_ordered(a, 0),
    ensures
        heap_ordered(a),
{
    assert forall|i: int| 0 < i < a.len() implies !lt(a[parent(i)], #[trigger] a[i]) by {
        lemma_below_root(parent(i));
    }
}

/// `a` with the elements at `i` and `j` exchanged.
pub open spec fn swapped<T>(a: Seq<T>, i: int, j: int) -> Seq<T> {
    a.update(i, a[j]).update(j, a[i])
}

/// Exchanging two elements keeps the multiset.
pub proof fn lemma_swapped_multiset<T>(a: Seq<T>, i: int, j: int)
    requires
        0 <= i < a.len(),
        0 <= j < a.len(),
    ensures
        swapped(a, i, j).to_multiset() == a.to_multiset(),
{
    vstd::seq_lib::to_multiset_update(a, i, a[j]);
    vstd::seq_lib::to_multiset_update(a.update(i, a[j]), j, a[i]);
    vstd::seq_lib::to_multiset_contains(a, a[i]);
    vstd::seq_lib::to_multiset_contains(a, a[j]);
    assert(a.contains(a[i]));
    assert(a.contains(a[j]));
    assert(swapped(a, i, j).to_multiset() =~= a.to_multiset());
}

/// In a heap-ordered array no element is above the root.
pub proof fn lemma_root_is_greatest<T: PartialOrd>(a: Seq<T>, i: int)
    requires
        orders_weakly::<T>(),
        heap_ordered(a),
        0 <= i < a.len(),
    ensures
        !lt(a[0], a[i]),
    decreases i,
{
    if i > 0 {
        lemma_root_is_greatest(a, parent(i));
        assert(!lt(a[parent(i)], a[i]));
    } else {
        if lt(a[0], a[0]) {
            assert(!lt(a[0], a[0]));
        }
    }
}

/// `el` occurs in `m` and, where the element order ranks the values, nothing
/// in `m` is above it.
pub open spec fn greatest_in<T: PartialOrd>(m: Multiset<T>, el: T) -> bool {
    &&& m.count(el) > 0
    &&& orders_weakly::<T>() ==> forall|x: T| m.count(x) > 0 ==> !lt(el, x)
}

/// What one `pop` does to the multiset of elements: it takes out one
/// occurrence of a greatest element `el`.
pub open spec fn pop_step<T: PartialOrd>(before: Multiset<T>, el: T, after: Multiset<T>) -> bool {
    &&& greatest_in(before, el)
    &&& after == before.remove(el)
}

/// What is still in the heap after some pops was in it before them.
pub proof fn lemma_pops_only_remove<T: PartialOrd>(
    states: Seq<Multiset<T>>,
    out: Seq<T>,
    j: int,
    k: int,
    x: T,
)
    requires
        states.len() == out.len() + 1,
        forall|i: int|
            0 <= i < out.len() ==> pop_step(states[i], #[trigger] out[i], states[i + 1]),
        0 <= j <= k <= out.len(),
        states[k].count(x) > 0,
    ensures
        states[j].count(x) > 0,
    decreases k - j,
{
    if j < k {
        assert(pop_step(states[k - 1], out[k - 1], states[k]));
        lemma_pops_only_remove(states, out, j, k - 1, x);
    }
}

/// The pops that empty a heap return exactly what it held from position
/// `k` of the pops on.
pub proof fn lemma_pops_return_contents<T: PartialOrd>(
    states: Seq<Multiset<T>>,
    out: Seq<T>,
    k: int,
)
    requires
        states.len() == out.len() + 1,
        forall|i: int|
            0 <= i < out.len() ==> pop_step(states[i], #[trigger] out[i], states[i + 1]),
        states.last().len() == 0,
        0 <= k <= out.len(),
    ensures
        out.subrange(k, out.len() as int).to_multiset() == states[k],
    decreases out.len() - k,
{
    let n = out.len() as int;
    let rest = out.subrange(k, n);
    if k == n {
        vstd::seq_lib::to_multiset_len(rest);
        assert(rest.to_multiset() =~= states[k]);
    } else {
        lemma_pops_return_contents(states, out, k + 1);
        let later = out.subrange(k + 1, n);
        assert(pop_step(states[k], out[k], states[k + 1]));
        vstd::seq_lib::to_multiset_insert(later, 0, out[k]);
        assert(later.insert(0, out[k]) =~= rest);
        assert(states[k + 1].insert(out[k]) =~= states[k]);
    }
}

/// Heap order of removal: push any elements `items` onto an empty heap,
/// then pop until it is empty. The pops return the multiset of `items`, each
/// element as often as it was pushed, and no pop returns an element that is
/// below one returned later.
///
/// `states[k]` is the multiset the heap holds before pop `k`, `out[k]` what
/// that pop returns.
pub proof fn lemma_pops_come_sorted<T: PartialOrd>(
    items: Seq<T>,
    states: Seq<Multiset<T>>,
    out: Seq<T>,
)
    requires
        orders_weakly::<T>(),
        states.len() == out.len() + 1,
        states[0] == items.to_multiset(),
        forall|i: int|
            0 <= i < out.len() ==> pop_step(states[i], #[trigger] out[i], states[i + 1]),
        states.last().len() == 0,
    ensures
        out.to_multiset() == items.to_multiset(),
        forall|j: int, k: int| 0 <= j <= k < out.len() ==> !lt(out[j], out[k]),
{
    lemma_pops_return_contents(states, out, 0);
    assert(out.subrange(0, out.len() as int) =~= out);
    assert forall|j: int, k: int| 0 <= j <= k < out.len() implies !lt(out[j], out[k]) by {
        assert(pop_step(states[k], out[k], states[k + 1]));
        lemma_pops_only_remove(states, out, j, k, out[k]);
        assert(pop_step(states[j], out[j], states[j + 1]));
    }
}

/// Whether `a` is below `b`, by the comparison of `T`.
fn less<T: PartialOrd>(a: &T, b: &T) -> (r: bool)
    ensures
        comparison_is_spec::<T>() ==> r == lt(*a, *b),
{
    *a < *b
}

/// The place of an element lifted out of the array while it travels through
/// the heap. The element is held here and its place in the array is open;
/// `fill` puts it back at the place the hole has reached.
struct Hole<T> {
    el: T,
    idx: usize,
}

impl<T> Hole<T> {
    /// The array with the held element put back into the open place.
    spec fn filled(&self, a: Seq<T>) -> Seq<T> {
        a.update(self.idx as int, self.el)
    }

    /// Lifts the element at `idx` out of `data`.
    fn new(data: &mut Vec<T>, idx: usize) -> (hole: Self)
        requires
            old(data).wf(),
            idx < old(data)@.len(),
        ensures
            hole.idx == idx,
            final(data).wf_with_hole(idx as int),
            final(data)@.len() == old(data)@.len(),
            final(data).capacity() == old(data).capacity(),
            hole.filled(final(data)@) == old(data)@,
    {
        let el = data.lift(idx);
        let hole = Hole { el, idx };
        assert(hole.filled(data@) =~= old(data)@);
        hole
    }

    /// The element lifted out.
    fn el(&self) -> (r: &T)
        ensures
            *r == self.el,
    {
        &self.el
    }

    /// The open place.
    fn idx(&self) -> (r: usize)
        ensures
            r == self.idx,
    {
        self.idx
    }

    /// The element of `data` at `idx`, which is not the open place.
    fn get<'a>(&self, data: &'a Vec<T>, idx: usize) -> (r: &'a T)
        requires
            data.wf_with_hole(self.idx as int),
            idx < data@.len(),
            idx != self.idx,
        ensures
            *r == data@[idx as int],
            *r == self.filled(data@)[idx as int],
    {
        proof {
            data.lemma_hole_in_bounds(self.idx as int);
        }
        data.get_beside(self.idx, idx)
    }

    /// Moves the element at `idx` into the open place; the open place is
    /// then `idx`.
    fn move_to(&mut self, data: &mut Vec<T>, idx: usize)
        requires
            old(data).wf_with_hole(old(self).idx as int),
            idx < old(data)@.len(),
            idx != old(self).idx,
        ensures
            final(self).idx == idx,
            final(self).el == old(self).el,
            final(data).wf_with_hole(idx as int),
            final(data)@.len() == old(data)@.len(),
            final(data).capacity() == old(data).capacity(),
            final(self).filled(final(data)@) == swapped(
                old(self).filled(old(data)@),
                old(self).idx as int,
                idx as int,
            ),
    {
        proof {
            data.lemma_hole_in_bounds(self.idx as int);
        }
        data.shift(self.idx, idx);
        self.idx = idx;
        assert(self.filled(data@) =~= swapped(
            old(self).filled(old(data)@),
            old(self).idx as int,
            idx as int,
        ));
    }

    /// Puts the held element back into the open place.
    fn fill(self, data: &mut Vec<T>)
        requires
            old(data).wf_with_hole(self.idx as int),
        ensures
            final(data).wf(),
            final(data)@ == self.filled(old(data)@),
            final(data).capacity() == old(data).capacity(),
    {
        let Hole { el, idx } = self;
        data.fill(idx, el);
    }
}

/// A max-heap.
///
/// The elements sit in an array in heap order. Where the element order ranks
/// the values (`orders_weakly`), no element is below one of its children, so
/// that none is above the root. The view is the multiset of elements.
#[derive(Debug)]
pub struct Heap<T> {
    data: Vec<T>,
}

impl<T: PartialOrd + Copy> Heap<T> {
    /// A copy of a greatest element; `None` when the heap is empty.
    pub fn peek(&self) -> (r: Option<T>)
        requires
            self.wf(),
        ensures
            match r {
                Some(el) => self.array().len() > 0 && el == self.array()[0] && self.is_greatest(
                    el,
                ),
                None => self.array().len() == 0,
            },
    {
        if !self.is_empty() {
            let el = *self.data.get(0);
            proof {
                self.lemma_root_greatest();
            }
            Some(el)
        } else {
            None
        }
    }
}

impl<T: PartialOrd> Heap<T> {
    /// The elements in the order the array holds them.
    pub closed spec fn array(&self) -> Seq<T> {
        self.data@
    }

    /// The multiset of elements.
    pub open spec fn view(&self) -> Multiset<T> {
        self.array().to_multiset()
    }

    /// Number of slots the array has.
    pub closed spec fn capacity(&self) -> nat {
        self.data.capacity()
    }

    /// The array itself is well formed.
    pub closed spec fn storage_wf(&self) -> bool {
        self.data.wf()
    }

    /// The representation invariant: where the element order ranks the
    /// values, the array is heap-ordered.
    pub open spec fn wf(&self) -> bool {
        &&& self.storage_wf()
        &&& orders_weakly::<T>() ==> heap_ordered(self.array())
    }

    /// `el` is in the heap and, where the element order ranks the values,
    /// no element of the heap is above it.
    pub open spec fn is_greatest(&self, el: T) -> bool {
        greatest_in(self@, el)
    }

    /// Whether one more element can be stored: a slot is free, or elements
    /// have a size and the doubled array is at most `isize::MAX` bytes.
    pub open spec fn can_push(&self) -> bool {
        self.array().len() < self.capacity() || (!RawVec::<T>::zero_sized() && RawVec::<T>::allocatable(
            grown(self.capacity()),
        ))
    }

    /// What the invariant says of the storage: the elements fit in the
    /// array, whose capacity is a `usize`.
    pub proof fn lemma_wf(&self)
        requires
            self.wf(),
        ensures
            self.array().len() <= self.capacity() <= usize::MAX,
            self@.len() == self.array().len(),
    {
        self.data.lemma_wf();
        vstd::seq_lib::to_multiset_len(self.array());
    }

    /// The root of a well-formed, non-empty heap is a greatest element.
    pub proof fn lemma_root_greatest(&self)
        requires
            self.wf(),
            self.array().len() > 0,
        ensures
            self.is_greatest(self.array()[0]),
    {
        let a = self.array();
        vstd::seq_lib::to_multiset_contains(a, a[0]);
        assert(a.contains(a[0]));
        if orders_weakly::<T>() {
            assert forall|x: T| self@.count(x) > 0 implies !lt(a[0], x) by {
                vstd::seq_lib::to_multiset_contains(a, x);
                let i = choose|i: int| 0 <= i < a.len() && a[i] == x;
                lemma_root_is_greatest(a, i);
            }
        }
    }

    pub fn new() -> (h: Self)
        ensures
            h.wf(),
            h.array() == Seq::<T>::empty(),
            h@ == Multiset::<T>::empty(),
            h.capacity() == (if RawVec::<T>::zero_sized() {
                usize::MAX as nat
            } else {
                0
            }),
            !RawVec::<T>::zero_sized() ==> h.capacity() == capacity_after(h.array().len()),
    {
        let h = Heap { data: Vec::new() };
        assert(h@ =~= Multiset::<T>::empty()) by {
            vstd::seq_lib::to_multiset_len(h.array());
        }
        h
    }

    /// An empty heap whose array already has the smallest power-of-two
    /// capacity that holds `cap` elements.
    pub fn with_capacity(cap: usize) -> (h: Self)
        requires
            RawVec::<T>::zero_sized() || RawVec::<T>::allocatable(rounded_up(cap as nat)),
        ensures
            h.wf(),
            h.array() == Seq::<T>::empty(),
            h@ == Multiset::<T>::empty(),
            h.capacity() == (if RawVec::<T>::zero_sized() {
                usize::MAX as nat
            } else {
                rounded_up(cap as nat)
            }),
    {
        let h = Heap { data: Vec::with_capacity(cap) };
        assert(h@ =~= Multiset::<T>::empty()) by {
            vstd::seq_lib::to_multiset_len(h.array());
        }
        h
    }

    pub fn len(&self) -> (n: usize)
        ensures
            n == self.array().len(),
            n == self@.len(),
    {
        proof {
            vstd::seq_lib::to_multiset_len(self.array());
        }
        self.data.len()
    }

    pub fn is_empty(&self) -> (b: bool)
        ensures
            b == (self.array().len() == 0),
            b == (self@.len() == 0),
    {
        proof {
            vstd::seq_lib::to_multiset_len(self.array());
        }
        self.data.len() == 0
    }

    /// Adds `value`.
    pub fn push(&mut self, value: T)
        requires
            old(self).wf(),
            old(self).can_push(),
        ensures
            final(self).wf(),
            final(self)@ == old(self)@.insert(value),
            final(self).array().len() == old(self).array().len() + 1,
            final(self).capacity() == capacity_after_push(
                old(self).array().len(),
                old(self).capacity(),
            ),
            old(self).capacity() == capacity_after(old(self).array().len()) ==> {
                &&& final(self).capacity() == capacity_after(final(self).array().len())
                &&& smallest_power_of_two_from(final(self).capacity(), final(self).array().len())
            },
            forall|i: int|
                0 <= i < old(self).array().len() && !on_path(i, old(self).array().len() as int)
                    ==> final(self).array()[i] == old(self).array()[i],
    {
        let old_len = self.data.len();
        self.data.push(value);
        proof {
            vstd::seq_lib::to_multiset_build(old(self).data@, value);
            if orders_weakly::<T>() {
                assert(ordered_except_up(self.data@, old_len as int));
            }
        }
        self.sift_up(0, old_len);
    }

    /// Removes a greatest element and returns it; `None` when the heap is
    /// empty.
    pub fn pop(&mut self) -> (r: Option<T>)
        requires
            old(self).wf(),
        ensures
            final(self).wf(),
            final(self).capacity() == old(self).capacity(),
            match r {
                Some(el) => {
                    &&& old(self).array().len() > 0
                    &&& el == old(self).array()[0]
                    &&& pop_step(old(self)@, el, final(self)@)
                    &&& final(self).array().len() == old(self).array().len() - 1
                },
                None => old(self).array().len() == 0 && final(self).array() == old(self).array(),
            },
    {
        match self.data.pop() {
            None => None,
            Some(last) => {
                let ghost before = old(self).data@;
                let ghost rest = before.drop_last();
                proof {
                    old(self).lemma_root_greatest();
                    assert(rest.push(last) =~= before);
                    vstd::seq_lib::to_multiset_build(rest, last);
                }
                if !self.is_empty() {
                    let root = self.data.lift(0);
                    self.data.fill(0, last);
                    proof {
                        vstd::seq_lib::to_multiset_update(rest, 0, last);
                        assert(self.data@ =~= rest.update(0, last));
                        assert(self.data@.to_multiset() =~= before.to_multiset().remove(root));
                        if orders_weakly::<T>() {
                            assert forall|i: int|
                                0 < i < self.data@.len() && parent(i) != 0 implies !lt(
                                self.data@[parent(i)],
                                #[trigger] self.data@[i],
                            ) by {
                                assert(!lt(before[parent(i)], before[i]));
                            }
                        }
                    }
                    self.sift_down(0);
                    proof {
                        if orders_weakly::<T>() {
                            lemma_whole_tree_ordered(self.data@);
                        }
                    }
                    Some(root)
                } else {
                    proof {
                        assert(self.data@.to_multiset() =~= before.to_multiset().remove(last));
                    }
                    Some(last)
                }
            },
        }
    }

    /// Lets the element at `idx` rise while its parent is below it, but not
    /// above index `start`. Returns the index it comes to rest at.
    fn sift_up(&mut self, start: usize, idx: usize) -> (pos: usize)
        requires
            old(self).data.wf(),
            idx < old(self).data@.len(),
            orders_weakly::<T>() ==> ordered_except_up(old(self).data@, idx as int),
        ensures
            final(self).data.wf(),
            final(self).data@.len() == old(self).data@.len(),
            final(self).data.capacity() == old(self).data.capacity(),
            final(self).data@.to_multiset() == old(self).data@.to_multiset(),
            pos <= idx,
            on_path(pos as int, idx as int),
            final(self).data@[pos as int] == old(self).data@[idx as int],
            forall|i: int|
                0 <= i < old(self).data@.len() && !on_path(i, idx as int) ==> final(self).data@[i]
                    == old(self).data@[i],
            orders_weakly::<T>() && start == 0 ==> heap_ordered(final(self).data@),
    {
        let mut hole = Hole::new(&mut self.data, idx);
        let ghost mut whole = old(self).data@;
        let mut settled = false;
        while !settled && hole.idx() > start
            invariant
                self.data.wf_with_hole(hole.idx as int),
                hole.idx < self.data@.len(),
                hole.idx <= idx,
                on_path(hole.idx as int, idx as int),
                forall|i: int|
                    0 <= i < whole.len() && !on_path(i, idx as int) ==> whole[i] == old(
                        self,
                    ).data@[i],
                self.data@.len() == old(self).data@.len(),
                self.data.capacity() == old(self).data.capacity(),
                whole == hole.filled(self.data@),
                whole.to_multiset() == old(self).data@.to_multiset(),
                hole.el == old(self).data@[idx as int],
                orders_weakly::<T>() ==> ordered_except_up(whole, hole.idx as int),
                orders_weakly::<T>() && settled && hole.idx > 0 ==> !lt(
                    whole[parent(hole.idx as int)],
                    whole[hole.idx as int],
                ),
            decreases hole.idx + (if settled { 0int } else { 1int }),
        {
            let up = (hole.idx() - 1) / 2;
            if less(hole.get(&self.data, up), hole.el()) {
                let ghost h = hole.idx as int;
                let ghost p = up as int;
                hole.move_to(&mut self.data, up);
                proof {
                    let after = swapped(whole, h, p);
                    lemma_swapped_multiset(whole, h, p);
                    lemma_on_path_parent(h, idx as int);
                    if orders_weakly::<T>() {
                        lemma_rise_keeps_order(whole, h);
                    }
                    whole = after;
                }
            } else {
                settled = true;
            }
        }
        let pos = hole.idx();
        hole.fill(&mut self.data);
        proof {
            assert(self.data@ =~= whole);
        }
        pos
    }

    /// Lets the element at `idx` sink within its subtree: while one of its
    /// children is above it, it changes places with the greater child.
    /// Nothing outside the subtree of `idx` is touched.
    fn sift_down(&mut self, idx: usize)
        requires
            old(self).data.wf(),
            idx < old(self).data@.len(),
            orders_weakly::<T>() ==> forall|i: int|
                0 < i < old(self).data@.len() && below(parent(i), idx as int) && parent(i) != idx
                    ==> !lt(old(self).data@[parent(i)], #[trigger] old(self).data@[i]),
        ensures
            final(self).data.wf(),
            final(self).data@.len() == old(self).data@.len(),
            final(self).data.capacity() == old(self).data.capacity(),
            final(self).data@.to_multiset() == old(self).data@.to_multiset(),
            forall|i: int|
                0 <= i < old(self).data@.len() && !below(i, idx as int) ==> final(self).data@[i]
                    == old(self).data@[i],
            orders_weakly::<T>() ==> forall|i: int|
                0 < i < final(self).data@.len() && below(parent(i), idx as int) ==> !lt(
                    final(self).data@[parent(i)],
                    #[trigger] final(self).data@[i],
                ),
    {
        let end = self.data.len();
        let mut hole = Hole::new(&mut self.data, idx);
        let ghost mut whole = old(self).data@;
        let mut settled = false;
        while !settled && hole.idx() < end / 2
            invariant
                end == self.data@.len(),
                self.data.wf_with_hole(hole.idx as int),
                idx <= hole.idx < self.data@.len(),
                self.data@.len() == old(self).data@.len(),
                self.data.capacity() == old(self).data.capacity(),
                whole == hole.filled(self.data@),
                whole.to_multiset() == old(self).data@.to_multiset(),
                below(hole.idx as int, idx as int),
                forall|i: int|
                    0 <= i < whole.len() && !below(i, idx as int) ==> whole[i] == old(
                        self,
                    ).data@[i],
                orders_weakly::<T>() ==> subtree_ordered_except(
                    whole,
                    idx as int,
                    hole.idx as int,
                ),
                orders_weakly::<T>() && settled ==> subtree_ordered(whole, idx as int),
            decreases end - hole.idx + (if settled { 0int } else { 1int }),
        {
            let mut child = 2 * hole.idx() + 1;
            if child + 1 < end && less(
                hole.get(&self.data, child),
                hole.get(&self.data, child + 1),
            ) {
                child = child + 1;
            }
            let ghost h = hole.idx as int;
            let ghost c = child as int;
            proof {
                if orders_weakly::<T>() {
                    lemma_greater_child(whole, h, c);
                }
            }
            if less(hole.el(), hole.get(&self.data, child)) {
                hole.move_to(&mut self.data, child);
                proof {
                    let after = swapped(whole, h, c);
                    lemma_swapped_multiset(whole, h, c);
                    assert(below(c, idx as int));
                    if orders_weakly::<T>() {
                        lemma_sink_keeps_order(whole, idx as int, h, c);
                    }
                    whole = after;
                }
            } else {
                proof {
                    if orders_weakly::<T>() {
                        lemma_settled_is_ordered(whole, idx as int, h, c);
                    }
                }
                settled = true;
            }
        }
        proof {
            if orders_weakly::<T>() && !settled {
                assert(subtree_ordered(whole, idx as int)) by {
                    assert forall|i: int|
                        0 < i < whole.len() && below(parent(i), idx as int) implies !lt(
                        whole[parent(i)],
                        #[trigger] whole[i],
                    ) by {
                        assert(parent(i) != hole.idx);
                    }
                }
            }
        }
        hole.fill(&mut self.data);
        proof {
            assert(self.data@ =~= whole);
        }
    }
}

/// When the element at `h` is above its parent, exchanging the two leaves
/// only the link from the parent's place upward open.
proof fn lemma_rise_keeps_order<T: PartialOrd>(a: Seq<T>, h: int)
    requires
        orders_weakly::<T>(),
        0 < h < a.len(),
        ordered_except_up(a, h),
        lt(a[parent(h)], a[h]),
    ensures
        ordered_except_up(swapped(a, h, parent(h)), parent(h)),
{
    let p = parent(h);
    let b = swapped(a, h, p);
    assert forall|i: int| 0 < i < b.len() && i != p implies !lt(b[parent(i)], #[trigger] b[i]) by {
        if i == h {
        } else if parent(i) == p {
            assert(!lt(a[p], a[i]));
        } else if parent(i) == h {
            assert(!lt(a[p], a[i]));
        } else {
            assert(!lt(a[parent(i)], a[i]));
        }
    }
    assert forall|c: int| 0 < c < b.len() && parent(c) == p && p > 0 implies !lt(
        b[parent(p)],
        #[trigger] b[c],
    ) by {
        assert(!lt(a[parent(p)], a[p]));
        if c != h {
            assert(!lt(a[p], a[c]));
        }
    }
}

/// Whether no child of the element at `h` is above its child at `c`.
spec fn greatest_child<T: PartialOrd>(a: Seq<T>, h: int, c: int) -> bool {
    forall|s: int| 0 < s < a.len() && parent(s) == h ==> !lt(a[c], #[trigger] a[s])
}

/// The child picked by comparing the two children is a greatest child: the
/// right one where the left is below it, otherwise the left one.
proof fn lemma_greater_child<T: PartialOrd>(a: Seq<T>, h: int, c: int)
    requires
        orders_weakly::<T>(),
        0 <= h,
        c < a.len(),
        c == 2 * h + 1 || c == 2 * h + 2,
        c == 2 * h + 2 ==> lt(a[2 * h + 1], a[2 * h + 2]),
        c == 2 * h + 1 && 2 * h + 2 < a.len() ==> !lt(a[2 * h + 1], a[2 * h + 2]),
    ensures
        greatest_child(a, h, c),
{
    assert forall|s: int| 0 < s < a.len() && parent(s) == h implies !lt(a[c], #[trigger] a[s]) by {
        assert(s == 2 * h + 1 || s == 2 * h + 2);
        if lt(a[c], a[c]) {
            assert(!lt(a[c], a[c]));
        }
    }
}

/// When the greater child `c` of the element at `h` is above it, exchanging
/// the two leaves only the links from `c` downward open.
proof fn lemma_sink_keeps_order<T: PartialOrd>(a: Seq<T>, root: int, h: int, c: int)
    requires
        orders_weakly::<T>(),
        0 <= root <= h < c < a.len(),
        parent(c) == h,
        below(h, root),
        subtree_ordered_except(a, root, h),
        lt(a[h], a[c]),
        greatest_child(a, h, c),
    ensures
        subtree_ordered_except(swapped(a, h, c), root, c),
{
    let b = swapped(a, h, c);
    assert(below(c, root));
    assert forall|i: int|
        0 < i < b.len() && below(parent(i), root) && parent(i) != c implies !lt(
        b[parent(i)],
        #[trigger] b[i],
    ) by {
        if i == c {
        } else if parent(i) == h {
            assert(!lt(a[c], a[i]));
        } else if i == h {
            assert(h != root);
            assert(!lt(a[parent(h)], a[c]));
        } else {
            assert(!lt(a[parent(i)], a[i]));
        }
    }
    assert forall|d: int| 0 < d < b.len() && parent(d) == c && c != root implies !lt(
        b[parent(c)],
        #[trigger] b[d],
    ) by {
        assert(!lt(a[c], a[d]));
    }
}

/// When the greater child `c` of the element at `h` is not above it, the
/// subtree is heap-ordered.
proof fn lemma_settled_is_ordered<T: PartialOrd>(a: Seq<T>, root: int, h: int, c: int)
    requires
        orders_weakly::<T>(),
        0 <= root <= h < c < a.len(),
        parent(c) == h,
        subtree_ordered_except(a, root, h),
        !lt(a[h], a[c]),
        greatest_child(a, h, c),
    ensures
        subtree_ordered(a, root),
{
    assert forall|i: int| 0 < i < a.len() && below(parent(i), root) implies !lt(
        a[parent(i)],
        #[trigger] a[i],
    ) by {
        if parent(i) == h {
            assert(!lt(a[c], a[i]));
        }
    }
}

} // verus!
