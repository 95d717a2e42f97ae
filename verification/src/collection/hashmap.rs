//! A hash map with a fixed number of buckets and a chain of nodes in each.

use core::hash::{Hash, Hasher};
use std::collections::hash_map::DefaultHasher;
use vstd::pervasive::cloned;
use vstd::prelude::*;
use vstd::std_specs::cmp::PartialEqSpec;
use vstd::std_specs::hash::DefaultHasherAdditionalSpecFns;

verus! {

/// Number of buckets of every map.
pub const HASHMAP_ARRAY_MAX_SIZE: usize = 64;

/// One entry of a chain, with the rest of the chain behind it.
#[derive(Debug)]
pub struct HashNode<K, V> {
    key: K,
    value: V,
    next: Option<Box<HashNode<K, V>>>,
}

/// A map from keys to values.
///
/// A key belongs to the bucket its hash selects. Each bucket holds a chain
/// of entries in the order in which their keys first came in.
#[derive(Debug)]
pub struct HashMap<K, V> {
    len: usize,
    arr: Vec<Option<HashNode<K, V>>>,
}

/// The comparison `==` of `K` computes `eq_spec`.
pub open spec fn equality_is_spec<K: PartialEq>() -> bool {
    K::obeys_eq_spec()
}

/// Index of the first entry of `chain` whose key equals `key`; the length
/// of the chain when there is none.
pub open spec fn position<K: PartialEq, V>(chain: Seq<(K, V)>, key: K) -> int
    decreases chain.len(),
{
    if chain.len() == 0 {
        0
    } else if chain[0].0.eq_spec(&key) {
        0
    } else {
        1 + position(chain.drop_first(), key)
    }
}

/// The position of a key lies within the chain or just behind it.
pub proof fn lemma_position_bounds<K: PartialEq, V>(chain: Seq<(K, V)>, key: K)
    ensures
        0 <= position(chain, key) <= chain.len(),
    decreases chain.len(),
{
    if chain.len() > 0 && !chain[0].0.eq_spec(&key) {
        lemma_position_bounds(chain.drop_first(), key);
    }
}

/// Total number of entries in the chains `buckets`.
pub open spec fn total<K, V>(buckets: Seq<Seq<(K, V)>>) -> nat
    decreases buckets.len(),
{
    if buckets.len() == 0 {
        0
    } else {
        total(buckets.drop_last()) + buckets.last().len()
    }
}

/// What a lookup of `key` in `chain` returns: a copy of the value of the
/// first entry with that key, or nothing when no entry has it.
pub open spec fn looked_up<K: PartialEq, V: Clone>(chain: Seq<(K, V)>, key: K, r: Option<V>) -> bool {
    let at = position(chain, key);
    if at < chain.len() {
        r is Some && cloned(chain[at].1, r->0)
    } else {
        r is None
    }
}

/// What storing `value` under `key` makes of `chain`, and what it returns.
///
/// Where an entry has the key, the first such entry takes the new value and
/// the chain keeps its length. The call then returns a copy of a value the
/// chain held before: that of the entry itself when it is the first of the
/// chain, otherwise that of the entry in front of it. Where no entry has the
/// key, a new entry goes to the end of the chain and nothing is returned.
pub open spec fn put_result<K: PartialEq, V: Clone>(
    chain: Seq<(K, V)>,
    key: K,
    value: V,
    after: Seq<(K, V)>,
    r: Option<V>,
) -> bool {
    let at = position(chain, key);
    if at < chain.len() {
        &&& after == chain.update(at, (chain[at].0, value))
        &&& r is Some
        &&& cloned(
            chain[if at == 0 {
                0
            } else {
                at - 1
            }].1,
            r->0,
        )
    } else {
        &&& after == chain.push((key, value))
        &&& r is None
    }
}

/// What removing `key` makes of `chain`, and what it returns: the first
/// entry with the key leaves the chain and a copy of its value is returned;
/// where no entry has the key, nothing changes and nothing is returned.
pub open spec fn remove_result<K: PartialEq, V: Clone>(
    chain: Seq<(K, V)>,
    key: K,
    after: Seq<(K, V)>,
    r: Option<V>,
) -> bool {
    let at = position(chain, key);
    if at < chain.len() {
        &&& after == chain.remove(at)
        &&& r is Some
        &&& cloned(chain[at].1, r->0)
    } else {
        &&& after == chain
        &&& r is None
    }
}

/// Feeds `key` into `hasher` as `Hash::hash` of `K` does; nothing is claimed of the hasher's state.
#[verifier::external_body]
fn feed<K: Hash>(key: &K, hasher: &mut DefaultHasher) {
    key.hash(hasher);
}

/// The bucket selected by the hash a new `DefaultHasher` finishes with once `key` is fed into it.
pub fn __hash_key<K: Hash>(key: K) -> (idx: usize)
    ensures
        idx < HASHMAP_ARRAY_MAX_SIZE,
        exists|fed: Seq<Seq<u8>>| idx == bucket_of(#[trigger] DefaultHasher::spec_finish(fed)),
{
    let mut hasher = DefaultHasher::new();
    feed(&key, &mut hasher);
    let hash: u64 = hasher.finish();
    proof {
        assert(hash == DefaultHasher::spec_finish(hasher@));
    }
    bucket_of_hash(hash)
}

/// The bucket a hash selects: its remainder by the number of buckets.
pub open spec fn bucket_of(hash: u64) -> int {
    hash as int % HASHMAP_ARRAY_MAX_SIZE as int
}

/// The bucket that `hash` selects.
pub fn bucket_of_hash(hash: u64) -> (idx: usize)
    ensures
        idx == bucket_of(hash),
        idx < HASHMAP_ARRAY_MAX_SIZE,
{
    (hash % (HASHMAP_ARRAY_MAX_SIZE as u64)) as usize
}

impl<K, V> HashNode<K, V> {
    /// The entries from this node on, in order.
    pub closed spec fn chain(&self) -> Seq<(K, V)>
        decreases self,
    {
        seq![(self.key, self.value)] + (match self.next {
            Some(next) => next.chain(),
            None => Seq::empty(),
        })
    }

    /// The chain is its first entry followed by the rest.
    proof fn lemma_chain(&self)
        ensures
            self.chain().len() > 0,
            self.chain()[0] == (self.key, self.value),
            self.chain().drop_first() == (match self.next {
                Some(next) => next.chain(),
                None => Seq::empty(),
            }),
    {
        let rest = match self.next {
            Some(next) => next.chain(),
            None => Seq::empty(),
        };
        assert(self.chain().drop_first() =~= rest);
    }

    /// A chain of one entry.
    pub fn new(key: K, value: V) -> (node: HashNode<K, V>)
        ensures
            node.chain() == seq![(key, value)],
    {
        let node = HashNode { key, value, next: None };
        assert(node.chain() =~= seq![(key, value)]);
        node
    }
}

impl<K: PartialEq, V: Clone> HashNode<K, V> {
    /// Stores `value` under `key` in the chain behind this node, whose own
    /// key is another.
    fn update_behind(&mut self, key: K, value: V) -> (r: Option<V>)
        ensures
            equality_is_spec::<K>() && !old(self).chain()[0].0.eq_spec(&key) ==> put_result(
                old(self).chain(),
                key,
                value,
                final(self).chain(),
                r,
            ),
            final(self).chain().len() == old(self).chain().len() + (if r is None {
                1int
            } else {
                0int
            }),
        decreases old(self).chain().len(),
    {
        proof {
            self.lemma_chain();
        }
        let ghost before = self.chain();
        match &mut self.next {
            None => {
                let new_node = HashNode::new(key, value);
                self.next = Some(Box::new(new_node));
                proof {
                    self.lemma_chain();
                    assert(self.chain() =~= before.push((key, value)));
                    assert(position(before.drop_first(), key) == 0);
                    assert(equality_is_spec::<K>() && !before[0].0.eq_spec(&key) ==> put_result(
                        before,
                        key,
                        value,
                        self.chain(),
                        None,
                    ));
                }
                None
            },
            Some(next_node) => {
                proof {
                    next_node.lemma_chain();
                }
                if next_node.key == key {
                    let old_val = self.value.clone();
                    next_node.value = value;
                    proof {
                        next_node.lemma_chain();
                        self.lemma_chain();
                        assert(self.chain() =~= before.update(1, (before[1].0, value)));
                        assert(equality_is_spec::<K>() ==> position(before.drop_first(), key) == 0);
                        assert(equality_is_spec::<K>() && !before[0].0.eq_spec(&key) ==> put_result(
                            before,
                            key,
                            value,
                            self.chain(),
                            Some(old_val),
                        ));
                    }
                    Some(old_val)
                } else {
                    let ghost rest = next_node.chain();
                    let r = next_node.update_behind(key, value);
                    proof {
                        self.lemma_chain();
                        let rest_after = next_node.chain();
                        lemma_position_bounds(rest, key);
                        assert(before =~= seq![before[0]] + rest);
                        assert(self.chain() =~= seq![before[0]] + rest_after);
                        if equality_is_spec::<K>() && !before[0].0.eq_spec(&key) {
                            let at = position(rest, key);
                            assert(!rest[0].0.eq_spec(&key));
                            assert(put_result(rest, key, value, rest_after, r));
                            lemma_position_bounds(rest.drop_first(), key);
                            assert(at >= 1);
                            if at < rest.len() {
                                assert(rest[at - 1] == before[at]);
                                assert(self.chain() =~= before.update(
                                    at + 1,
                                    (before[at + 1].0, value),
                                ));
                            } else {
                                assert(self.chain() =~= before.push((key, value)));
                            }
                            assert(position(before, key) == 1 + at);
                            assert(put_result(before, key, value, self.chain(), r));
                        }
                    }
                    r
                }
            },
        }
    }
}

impl<K: PartialEq, V: Clone> HashNode<K, V> {
    /// Removes `key` from the chain behind this node, whose own key is
    /// another.
    fn remove_behind(&mut self, key: K) -> (r: Option<V>)
        ensures
            equality_is_spec::<K>() && !old(self).chain()[0].0.eq_spec(&key) ==> remove_result(
                old(self).chain(),
                key,
                final(self).chain(),
                r,
            ),
            final(self).chain().len() == old(self).chain().len() - (if r is Some {
                1int
            } else {
                0int
            }),
        decreases old(self).chain().len(),
    {
        proof {
            self.lemma_chain();
        }
        let ghost before = self.chain();
        match &mut self.next {
            None => {
                proof {
                    assert(position(before.drop_first(), key) == 0);
                }
                None
            },
            Some(next_node) => {
                proof {
                    next_node.lemma_chain();
                }
                let ghost rest = next_node.chain();
                if next_node.key == key {
                    let value = next_node.value.clone();
                    let behind = next_node.next.take();
                    self.next = behind;
                    proof {
                        self.lemma_chain();
                        assert(before =~= seq![before[0]] + rest);
                        assert(self.chain() =~= before.remove(1));
                        assert(equality_is_spec::<K>() ==> position(rest, key) == 0);
                    }
                    Some(value)
                } else {
                    let r = next_node.remove_behind(key);
                    proof {
                        self.lemma_chain();
                        let rest_after = next_node.chain();
                        lemma_position_bounds(rest, key);
                        lemma_position_bounds(rest.drop_first(), key);
                        assert(before =~= seq![before[0]] + rest);
                        assert(self.chain() =~= seq![before[0]] + rest_after);
                        if equality_is_spec::<K>() && !before[0].0.eq_spec(&key) {
                            let at = position(rest, key);
                            assert(!rest[0].0.eq_spec(&key));
                            assert(remove_result(rest, key, rest_after, r));
                            assert(position(before, key) == 1 + at);
                            if at < rest.len() {
                                assert(self.chain() =~= before.remove(at + 1));
                            } else {
                                assert(self.chain() =~= before);
                            }
                        }
                    }
                    r
                }
            },
        }
    }
}

impl<K, V> HashMap<K, V> where K: Hash + PartialEq + Clone, V: Clone {
    /// The chain of each bucket.
    pub closed spec fn buckets(&self) -> Seq<Seq<(K, V)>> {
        Seq::new(
            self.arr@.len(),
            |i: int|
                match self.arr@[i] {
                    Some(node) => node.chain(),
                    None => Seq::empty(),
                },
        )
    }

    /// Number of entries.
    pub closed spec fn count(&self) -> nat {
        self.len as nat
    }

    /// The representation invariant: the number of buckets is fixed and the
    /// recorded length is the number of entries.
    pub closed spec fn wf(&self) -> bool {
        &&& self.arr@.len() == HASHMAP_ARRAY_MAX_SIZE
        &&& self.len == total(self.buckets())
    }

    /// What the invariant says of a map: there is one chain for each of the
    /// buckets, and the count is the total length of the chains.
    pub proof fn lemma_wf(&self)
        requires
            self.wf(),
        ensures
            self.buckets().len() == HASHMAP_ARRAY_MAX_SIZE,
            self.count() == total(self.buckets()),
            self.count() <= usize::MAX,
    {
    }

    pub fn new() -> (m: Self)
        ensures
            m.wf(),
            m.count() == 0,
            m.buckets() == Seq::new(
                HASHMAP_ARRAY_MAX_SIZE as nat,
                |i: int| Seq::<(K, V)>::empty(),
            ),
    {
        let mut arr: Vec<Option<HashNode<K, V>>> = Vec::new();
        while arr.len() < HASHMAP_ARRAY_MAX_SIZE
            invariant
                arr@.len() <= HASHMAP_ARRAY_MAX_SIZE,
                forall|i: int| 0 <= i < arr@.len() ==> arr@[i] is None,
            decreases HASHMAP_ARRAY_MAX_SIZE - arr@.len(),
        {
            arr.push(None);
        }
        let m = HashMap { len: 0, arr };
        proof {
            assert(m.buckets() =~= Seq::new(
                HASHMAP_ARRAY_MAX_SIZE as nat,
                |i: int| Seq::<(K, V)>::empty(),
            ));
            lemma_total_of_empty::<K, V>(m.buckets());
        }
        m
    }

    /// Looks `key` up in the non-empty bucket `idx`.
    fn search(&self, key: K, idx: usize) -> (r: Option<V>)
        requires
            self.wf(),
            idx < HASHMAP_ARRAY_MAX_SIZE,
            self.buckets()[idx as int].len() > 0,
        ensures
            equality_is_spec::<K>() ==> looked_up(self.buckets()[idx as int], key, r),
    {
        let mut cur_node: &HashNode<K, V> = self.arr[idx].as_ref().unwrap();
        let ghost whole = self.buckets()[idx as int];
        let ghost mut skipped: int = 0;
        loop
            invariant
                self.wf(),
                idx < HASHMAP_ARRAY_MAX_SIZE,
                whole == self.buckets()[idx as int],
                0 <= skipped < whole.len(),
                cur_node.chain() == whole.subrange(skipped, whole.len() as int),
                equality_is_spec::<K>() ==> position(whole, key) == skipped + position(
                    cur_node.chain(),
                    key,
                ),
            decreases whole.len() - skipped,
        {
            proof {
                cur_node.lemma_chain();
            }
            if cur_node.key == key {
                return Some(cur_node.value.clone());
            }
            match cur_node.next.as_ref() {
                Some(next_node) => {
                    proof {
                        assert(next_node.chain() =~= whole.subrange(
                            skipped + 1,
                            whole.len() as int,
                        ));
                        next_node.lemma_chain();
                        skipped = skipped + 1;
                    }
                    cur_node = next_node;
                },
                None => {
                    proof {
                        let rest = cur_node.chain().drop_first();
                        assert(rest.len() == 0);
                        assert(cur_node.chain().len() == 1);
                        assert(position(rest, key) == 0);
                        assert(equality_is_spec::<K>() ==> position(cur_node.chain(), key) == 1);
                    }
                    return None;
                },
            }
        }
    }

    /// Looks `key` up in bucket `idx`.
    pub fn get_in(&self, idx: usize, key: K) -> (r: Option<V>)
        requires
            self.wf(),
            idx < HASHMAP_ARRAY_MAX_SIZE,
        ensures
            equality_is_spec::<K>() ==> looked_up(self.buckets()[idx as int], key, r),
    {
        match &self.arr[idx] {
            Some(_) => {
                proof {
                    self.arr@[idx as int]->0.lemma_chain();
                }
                self.search(key, idx)
            },
            None => None,
        }
    }

    /// A copy of the value stored under `key`, if there is one. The bucket
    /// searched is the one the hash of `key` selects.
    pub fn get(&self, key: K) -> (r: Option<V>)
        requires
            self.wf(),
        ensures
            equality_is_spec::<K>() ==> exists|idx: int|
                0 <= idx < HASHMAP_ARRAY_MAX_SIZE && looked_up(#[trigger] self.buckets()[idx], key, r),
    {
        let idx = __hash_key(key.clone());
        self.get_in(idx, key)
    }

    /// What storing `value` under `key` in bucket `idx` makes of the
    /// buckets: the chain of that bucket changes as `put_result` says, where
    /// `==` on keys computes `eq_spec`; every other chain stays as it is.
    pub open spec fn stored_in(
        before: Seq<Seq<(K, V)>>,
        idx: int,
        key: K,
        value: V,
        after: Seq<Seq<(K, V)>>,
        r: Option<V>,
    ) -> bool {
        &&& 0 <= idx < HASHMAP_ARRAY_MAX_SIZE
        &&& after.len() == before.len()
        &&& forall|j: int| 0 <= j < before.len() && j != idx ==> after[j] == before[j]
        &&& after[idx].len() == before[idx].len() + (if r is None {
            1int
        } else {
            0int
        })
        &&& equality_is_spec::<K>() ==> put_result(before[idx], key, value, after[idx], r)
    }

    /// What removing `key` from bucket `idx` makes of the buckets: the chain
    /// of that bucket changes as `remove_result` says, where `==` on keys
    /// computes `eq_spec`; every other chain stays as it is.
    pub open spec fn removed_from(
        before: Seq<Seq<(K, V)>>,
        idx: int,
        key: K,
        after: Seq<Seq<(K, V)>>,
        r: Option<V>,
    ) -> bool {
        &&& 0 <= idx < HASHMAP_ARRAY_MAX_SIZE
        &&& after.len() == before.len()
        &&& forall|j: int| 0 <= j < before.len() && j != idx ==> after[j] == before[j]
        &&& after[idx].len() == before[idx].len() - (if r is Some {
            1int
        } else {
            0int
        })
        &&& equality_is_spec::<K>() ==> remove_result(before[idx], key, after[idx], r)
    }

    /// Starts the chain of the empty bucket `idx` with a new entry.
    fn insert_new_node(&mut self, key: K, value: V, idx: usize) -> (r: Option<V>)
        requires
            old(self).wf(),
            idx < HASHMAP_ARRAY_MAX_SIZE,
            old(self).buckets()[idx as int].len() == 0,
            old(self).count() < usize::MAX,
        ensures
            final(self).wf(),
            r is None,
            final(self).count() == old(self).count() + 1,
            Self::stored_in(old(self).buckets(), idx as int, key, value, final(self).buckets(), r),
    {
        let new_node = HashNode::new(key, value);
        self.arr.set(idx, Some(new_node));
        proof {
            assert(self.buckets() =~= old(self).buckets().update(idx as int, seq![(key, value)]));
            lemma_total_update(old(self).buckets(), idx as int, seq![(key, value)]);
            assert(old(self).buckets()[idx as int].push((key, value)) =~= seq![(key, value)]);
        }
        self.len = self.len + 1;
        None
    }

    /// Stores `value` under `key` in the non-empty bucket `idx`.
    fn update_node(&mut self, key: K, value: V, idx: usize) -> (r: Option<V>)
        requires
            old(self).wf(),
            idx < HASHMAP_ARRAY_MAX_SIZE,
            old(self).buckets()[idx as int].len() > 0,
            old(self).count() < usize::MAX,
        ensures
            final(self).wf(),
            final(self).count() == old(self).count() + (if r is None {
                1int
            } else {
                0int
            }),
            Self::stored_in(old(self).buckets(), idx as int, key, value, final(self).buckets(), r),
    {
        let mut old_node = self.arr[idx].take().unwrap();
        let ghost chain = old_node.chain();
        proof {
            old_node.lemma_chain();
        }
        let r = if old_node.key == key {
            let old_val = old_node.value.clone();
            old_node.value = value;
            proof {
                old_node.lemma_chain();
                assert(old_node.chain() =~= chain.update(0, (chain[0].0, value)));
            }
            Some(old_val)
        } else {
            old_node.update_behind(key, value)
        };
        let ghost chain_after = old_node.chain();
        self.arr.set(idx, Some(old_node));
        proof {
            assert(self.buckets() =~= old(self).buckets().update(idx as int, chain_after));
            lemma_total_update(old(self).buckets(), idx as int, chain_after);
        }
        if r.is_none() {
            self.len = self.len + 1;
        }
        r
    }

    /// Stores `value` under `key` in bucket `idx`.
    pub fn put_in(&mut self, idx: usize, key: K, value: V) -> (r: Option<V>)
        requires
            old(self).wf(),
            idx < HASHMAP_ARRAY_MAX_SIZE,
            old(self).count() < usize::MAX,
        ensures
            final(self).wf(),
            final(self).count() == old(self).count() + (if r is None {
                1int
            } else {
                0int
            }),
            Self::stored_in(old(self).buckets(), idx as int, key, value, final(self).buckets(), r),
    {
        match &self.arr[idx] {
            Some(_) => {
                proof {
                    self.arr@[idx as int]->0.lemma_chain();
                }
                self.update_node(key, value, idx)
            },
            None => self.insert_new_node(key, value, idx),
        }
    }

    /// Stores `value` under `key`, in the bucket the hash of `key` selects.
    pub fn put(&mut self, key: K, value: V) -> (r: Option<V>)
        requires
            old(self).wf(),
            old(self).count() < usize::MAX,
        ensures
            final(self).wf(),
            final(self).count() == old(self).count() + (if r is None {
                1int
            } else {
                0int
            }),
            exists|idx: int|
                Self::stored_in(old(self).buckets(), idx, key, value, final(self).buckets(), r),
    {
        let idx = __hash_key(key.clone());
        let r = self.put_in(idx, key, value);
        proof {
            assert(Self::stored_in(
                old(self).buckets(),
                idx as int,
                key,
                value,
                self.buckets(),
                r,
            ));
        }
        r
    }

    /// Removes `key` from the non-empty bucket `idx`.
    fn search_and_remove(&mut self, key: K, idx: usize) -> (r: Option<V>)
        requires
            old(self).wf(),
            idx < HASHMAP_ARRAY_MAX_SIZE,
            old(self).buckets()[idx as int].len() > 0,
        ensures
            final(self).wf(),
            final(self).count() == old(self).count() - (if r is Some {
                1int
            } else {
                0int
            }),
            Self::removed_from(old(self).buckets(), idx as int, key, final(self).buckets(), r),
    {
        let mut cur_node = self.arr[idx].take().unwrap();
        let ghost chain = cur_node.chain();
        proof {
            cur_node.lemma_chain();
        }
        if cur_node.key == key {
            let value = cur_node.value.clone();
            match cur_node.next.take() {
                Some(next_node) => {
                    let ghost rest = next_node.chain();
                    self.arr.set(idx, Some(*next_node));
                    proof {
                        assert(rest =~= chain.remove(0));
                        assert(self.buckets() =~= old(self).buckets().update(idx as int, rest));
                        lemma_total_update(old(self).buckets(), idx as int, rest);
                    }
                },
                None => {
                    proof {
                        assert(Seq::<(K, V)>::empty() =~= chain.remove(0));
                        assert(self.buckets() =~= old(self).buckets().update(
                            idx as int,
                            Seq::empty(),
                        ));
                        lemma_total_update(old(self).buckets(), idx as int, Seq::empty());
                    }
                },
            }
            self.len = self.len - 1;
            Some(value)
        } else {
            let r = cur_node.remove_behind(key);
            let ghost chain_after = cur_node.chain();
            self.arr.set(idx, Some(cur_node));
            proof {
                assert(self.buckets() =~= old(self).buckets().update(idx as int, chain_after));
                lemma_total_update(old(self).buckets(), idx as int, chain_after);
            }
            if r.is_some() {
                self.len = self.len - 1;
            }
            r
        }
    }

    /// Removes `key` from bucket `idx`.
    pub fn remove_in(&mut self, idx: usize, key: K) -> (r: Option<V>)
        requires
            old(self).wf(),
            idx < HASHMAP_ARRAY_MAX_SIZE,
        ensures
            final(self).wf(),
            final(self).count() == old(self).count() - (if r is Some {
                1int
            } else {
                0int
            }),
            Self::removed_from(old(self).buckets(), idx as int, key, final(self).buckets(), r),
    {
        match &self.arr[idx] {
            Some(_) => {
                proof {
                    self.arr@[idx as int]->0.lemma_chain();
                }
                self.search_and_remove(key, idx)
            },
            None => {
                proof {
                    assert(self.buckets()[idx as int].len() == 0);
                }
                None
            },
        }
    }

    /// Removes `key`, from the bucket the hash of `key` selects, and returns
    /// a copy of the value it had.
    pub fn remove(&mut self, key: K) -> (r: Option<V>)
        requires
            old(self).wf(),
        ensures
            final(self).wf(),
            final(self).count() == old(self).count() - (if r is Some {
                1int
            } else {
                0int
            }),
            exists|idx: int|
                Self::removed_from(old(self).buckets(), idx, key, final(self).buckets(), r),
    {
        let idx = __hash_key(key.clone());
        let r = self.remove_in(idx, key);
        proof {
            assert(Self::removed_from(old(self).buckets(), idx as int, key, self.buckets(), r));
        }
        r
    }

    /// Number of entries.
    pub fn len(&self) -> (n: usize)
        ensures
            n == self.count(),
    {
        self.len
    }
}

/// Replacing one chain changes the total by the difference of the lengths.
pub proof fn lemma_total_update<K, V>(buckets: Seq<Seq<(K, V)>>, idx: int, chain: Seq<(K, V)>)
    requires
        0 <= idx < buckets.len(),
    ensures
        total(buckets.update(idx, chain)) == total(buckets) - buckets[idx].len() + chain.len(),
        total(buckets) >= buckets[idx].len(),
    decreases buckets.len(),
{
    let after = buckets.update(idx, chain);
    if idx == buckets.len() - 1 {
        assert(after.drop_last() =~= buckets.drop_last());
    } else {
        lemma_total_update(buckets.drop_last(), idx, chain);
        assert(after.drop_last() =~= buckets.drop_last().update(idx, chain));
    }
}

/// Chains that are all empty hold no entry.
pub proof fn lemma_total_of_empty<K, V>(buckets: Seq<Seq<(K, V)>>)
    requires
        forall|i: int| 0 <= i < buckets.len() ==> buckets[i].len() == 0,
    ensures
        total(buckets) == 0,
    decreases buckets.len(),
{
    if buckets.len() > 0 {
        lemma_total_of_empty(buckets.drop_last());
    }
}

} // verus!
