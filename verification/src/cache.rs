//! In-memory copies of table clusters.
//!
//! A [`VecCache`] is one cluster of table entries with a dirty bit. A
//! [`CacheMap`] is a bounded map from table index to such blocks; when it is
//! full, inserting a block evicts the one that has been in the map longest and
//! hands it back, so that the caller can write it out.

use vstd::prelude::*;
use std::collections::HashMap;

verus! {

broadcast use vstd::std_specs::hash::group_hash_axioms;

/// A cluster of table entries, with a bit that tells whether they differ
/// from what the file holds.
#[derive(Debug)]
pub struct VecCache<T> {
    vec: Vec<T>,
    dirty: bool,
}

impl<T: Copy> VecCache<T> {
    /// The entries of the block.
    pub closed spec fn values(&self) -> Seq<T> {
        self.vec@
    }

    /// Whether the block was changed since it was read or last written.
    pub closed spec fn is_dirty(&self) -> bool {
        self.dirty
    }

    /// A clean block that holds `addrs`.
    pub fn from_vec(addrs: Vec<T>) -> (r: VecCache<T>)
        ensures
            r.values() == addrs@,
            !r.is_dirty(),
    {
        VecCache { vec: addrs, dirty: false }
    }

    /// The entry at `index`.
    pub fn get(&self, index: usize) -> (r: T)
        requires
            index < self.values().len(),
        ensures
            r == self.values()[index as int],
    {
        self.vec[index]
    }

    /// Sets the entry at `index` and marks the block dirty.
    pub fn set(&mut self, index: usize, val: T)
        requires
            index < old(self).values().len(),
        ensures
            final(self).values() == old(self).values().update(index as int, val),
            final(self).is_dirty(),
    {
        self.vec[index] = val;
        self.dirty = true;
    }

    /// The entries of the block.
    pub fn get_values(&self) -> (r: &Vec<T>)
        ensures
            r@ == self.values(),
    {
        &self.vec
    }

    /// The number of entries.
    pub fn len(&self) -> (r: usize)
        ensures
            r == self.values().len(),
    {
        self.vec.len()
    }

    /// Whether the block was changed since it was read or last written.
    pub fn dirty(&self) -> (r: bool)
        ensures
            r == self.is_dirty(),
    {
        self.dirty
    }

    /// Records that the file holds the block as it is.
    pub fn mark_clean(&mut self)
        ensures
            final(self).values() == old(self).values(),
            !final(self).is_dirty(),
    {
        self.dirty = false;
    }
}

impl VecCache<u64> {
    /// A block of `count` zero entries. The file does not hold it yet, so it
    /// is dirty.
    pub fn new(count: usize) -> (r: VecCache<u64>)
        ensures
            r.values() == Seq::new(count as nat, |i: int| 0u64),
            r.is_dirty(),
    {
        let v: Vec<u64> = vec![0u64; count];
        assert(v@ =~= Seq::new(count as nat, |i: int| 0u64));
        VecCache { vec: v, dirty: true }
    }
}

impl VecCache<u16> {
    /// A block of `count` zero entries. The file does not hold it yet, so it
    /// is dirty.
    pub fn new(count: usize) -> (r: VecCache<u16>)
        ensures
            r.values() == Seq::new(count as nat, |i: int| 0u16),
            r.is_dirty(),
    {
        let v: Vec<u16> = vec![0u16; count];
        assert(v@ =~= Seq::new(count as nat, |i: int| 0u16));
        VecCache { vec: v, dirty: true }
    }
}

/// There are `n` table indices below `n`.
pub proof fn lemma_indices_below(n: nat)
    requires
        n <= usize::MAX,
    ensures
        Set::new(|k: usize| k < n).finite(),
        Set::new(|k: usize| k < n).len() == n,
    decreases n,
{
    let below = Set::new(|k: usize| k < n);
    if n == 0 {
        assert(below =~= Set::<usize>::empty());
    } else {
        let less = Set::new(|k: usize| k < (n - 1) as nat);
        lemma_indices_below((n - 1) as nat);
        assert(below =~= less.insert((n - 1) as usize));
    }
}

/// A bounded map from table index to cached block.
pub struct CacheMap<T> {
    capacity: usize,
    map: HashMap<usize, VecCache<T>>,
    // The indices in the map, oldest first.
    order: Vec<usize>,
}

impl<T: Copy> CacheMap<T> {
    /// The blocks in the cache: for each index its entries and its dirty
    /// bit.
    pub closed spec fn view(&self) -> Map<usize, (Seq<T>, bool)> {
        Map::new(
            |k: usize| self.map@.contains_key(k),
            |k: usize| (self.map@[k].values(), self.map@[k].is_dirty()),
        )
    }

    /// The number of blocks that the cache holds at most; a capacity of zero
    /// counts as one.
    pub closed spec fn limit(&self) -> nat {
        if self.capacity == 0 {
            1
        } else {
            self.capacity as nat
        }
    }

    /// The index that the next eviction removes, if the cache is not empty.
    pub closed spec fn oldest(&self) -> usize {
        self.order@[0]
    }

    /// The invariant of the cache: it is within its capacity, and knows the
    /// age of each of its blocks.
    pub closed spec fn wf(&self) -> bool {
        &&& self.order@.no_duplicates()
        &&& self.order@.len() <= self.limit()
        &&& forall|k: usize| self.map@.contains_key(k) <==> self.order@.contains(k)
    }

    /// A cache holds a finite number of blocks, which is within its limit,
    /// and its oldest block is one of them.
    pub proof fn lemma_size(&self)
        requires
            self.wf(),
        ensures
            self@.dom().finite(),
            self@.len() <= self.limit(),
            self@.len() > 0 ==> self@.contains_key(self.oldest()),
    {
        let s = self.order@;
        assert(self@.dom() =~= s.to_set()) by {
            assert forall|k: usize| self@.dom().contains(k) <==> s.to_set().contains(k) by {
                assert(self.map@.contains_key(k) <==> s.contains(k));
            }
        }
        s.unique_seq_to_set();
        if s.len() > 0 {
            assert(s.contains(s[0]));
        }
    }

    /// An empty cache for at most `capacity` blocks.
    pub fn new(capacity: usize) -> (r: CacheMap<T>)
        ensures
            r.wf(),
            r@ == Map::<usize, (Seq<T>, bool)>::empty(),
            r.limit() == if capacity == 0 {
                1
            } else {
                capacity as nat
            },
    {
        let r = CacheMap { capacity, map: HashMap::new(), order: Vec::new() };
        assert(r@ =~= Map::<usize, (Seq<T>, bool)>::empty());
        r
    }

    /// Whether the block of table index `index` is in the cache.
    pub fn contains(&self, index: usize) -> (r: bool)
        ensures
            r == self@.contains_key(index),
    {
        self.map.contains_key(&index)
    }

    /// The block of table index `index`, if it is in the cache.
    pub fn get(&self, index: usize) -> (r: Option<&VecCache<T>>)
        ensures
            match r {
                Some(b) => self@.contains_key(index) && self@[index] == (b.values(), b.is_dirty()),
                None => !self@.contains_key(index),
            },
    {
        self.map.get(&index)
    }

    /// The number of blocks in the cache.
    pub fn len(&self) -> (r: usize)
        requires
            self.wf(),
        ensures
            r == self@.len(),
    {
        proof {
            self.lemma_size();
            let s = self.order@;
            assert(self@.dom() =~= s.to_set());
            s.unique_seq_to_set();
        }
        self.order.len()
    }

    /// Sets entry `at` of the block of table index `index`, and marks the
    /// block dirty.
    pub fn set(&mut self, index: usize, at: usize, val: T)
        requires
            old(self).wf(),
            old(self)@.contains_key(index),
            at < old(self)@[index].0.len(),
        ensures
            final(self).wf(),
            final(self).limit() == old(self).limit(),
            final(self)@ == old(self)@.insert(
                index,
                (old(self)@[index].0.update(at as int, val), true),
            ),
    {
        let removed = self.map.remove(&index);
        match removed {
            Some(mut block) => {
                block.set(at, val);
                self.map.insert(index, block);
            },
            None => {},
        }
        assert(self@ =~= old(self)@.insert(
            index,
            (old(self)@[index].0.update(at as int, val), true),
        ));
    }

    /// Records that the file holds the block of table index `index` as it
    /// is.
    pub fn mark_clean(&mut self, index: usize)
        requires
            old(self).wf(),
        ensures
            final(self).wf(),
            final(self).limit() == old(self).limit(),
            final(self)@ == if old(self)@.contains_key(index) {
                old(self)@.insert(index, (old(self)@[index].0, false))
            } else {
                old(self)@
            },
    {
        let removed = self.map.remove(&index);
        match removed {
            Some(mut block) => {
                block.mark_clean();
                self.map.insert(index, block);
                assert(self@ =~= old(self)@.insert(index, (old(self)@[index].0, false)));
            },
            None => {
                assert(self@ =~= old(self)@);
            },
        }
    }

    /// Makes room for one more block: if the cache is full, its oldest block
    /// leaves the cache and is returned with its index.
    pub fn evict_if_full(&mut self) -> (evicted: Option<(usize, VecCache<T>)>)
        requires
            old(self).wf(),
        ensures
            final(self).wf(),
            final(self).limit() == old(self).limit(),
            final(self)@.len() < final(self).limit(),
            old(self)@.len() < old(self).limit() ==> evicted is None && final(self)@ == old(self)@,
            old(self)@.len() >= old(self).limit() ==> (evicted matches Some((victim, b))
                && victim == old(self).oldest() && old(self)@.contains_key(victim) && old(
                self,
            )@[victim] == (b.values(), b.is_dirty()) && final(self)@ == old(self)@.remove(victim)),
    {
        proof {
            self.lemma_size();
            let s = self.order@;
            assert(self@.dom() =~= s.to_set());
            s.unique_seq_to_set();
        }
        let mut evicted: Option<(usize, VecCache<T>)> = None;
        if self.order.len() > 0 && self.order.len() >= self.capacity {
            let victim: usize = self.order.remove(0);
            assert(old(self).order@.contains(victim));
            assert(self.order@ =~= old(self).order@.subrange(1, old(self).order@.len() as int));
            let removed = self.map.remove(&victim);
            match removed {
                Some(b) => {
                    evicted = Some((victim, b));
                },
                None => {},
            }
            assert forall|k: usize| self.map@.contains_key(k) <==> self.order@.contains(k) by {
                if k == victim {
                    if self.order@.contains(k) {
                        let i = choose|i: int| 0 <= i < self.order@.len() && self.order@[i] == k;
                        assert(old(self).order@[i + 1] == k);
                    }
                } else {
                    if old(self).order@.contains(k) {
                        let i = choose|i: int|
                            0 <= i < old(self).order@.len() && old(self).order@[i] == k;
                        assert(self.order@[i - 1] == k);
                    }
                    if self.order@.contains(k) {
                        let i = choose|i: int| 0 <= i < self.order@.len() && self.order@[i] == k;
                        assert(old(self).order@[i + 1] == k);
                    }
                }
            }
            assert(self@ =~= old(self)@.remove(victim));
        } else {
            assert(self@ =~= old(self)@);
        }
        proof {
            self.lemma_size();
            let s = self.order@;
            assert(self@.dom() =~= s.to_set());
            s.unique_seq_to_set();
        }
        evicted
    }

    /// Puts `block` in the cache as the block of table index `index`. If the
    /// index is new and the cache is full, the oldest block leaves the cache
    /// and is returned with its index.
    pub fn insert(&mut self, index: usize, block: VecCache<T>) -> (evicted: Option<
        (usize, VecCache<T>),
    >)
        requires
            old(self).wf(),
        ensures
            final(self).wf(),
            final(self).limit() == old(self).limit(),
            old(self)@.contains_key(index) || old(self)@.len() < old(self).limit() ==> evicted
                is None && final(self)@ == old(self)@.insert(
                index,
                (block.values(), block.is_dirty()),
            ),
            !old(self)@.contains_key(index) && old(self)@.len() >= old(self).limit() ==> (
            evicted matches Some((victim, b)) && victim == old(self).oldest() && victim != index
                && old(self)@.contains_key(victim) && old(self)@[victim] == (
                b.values(),
                b.is_dirty(),
            ) && final(self)@ == old(self)@.remove(victim).insert(
                index,
                (block.values(), block.is_dirty()),
            )),
    {
        proof {
            self.lemma_size();
            let s = self.order@;
            assert(self@.dom() =~= s.to_set());
            s.unique_seq_to_set();
        }
        if self.map.contains_key(&index) {
            self.map.insert(index, block);
            assert(self@ =~= old(self)@.insert(index, (block.values(), block.is_dirty())));
            return None;
        }
        let mut evicted: Option<(usize, VecCache<T>)> = None;
        if self.order.len() > 0 && self.order.len() >= self.capacity {
            let victim: usize = self.order.remove(0);
            assert(old(self).order@.contains(victim));
            assert(self.order@ =~= old(self).order@.subrange(1, old(self).order@.len() as int));
            let removed = self.map.remove(&victim);
            match removed {
                Some(b) => {
                    evicted = Some((victim, b));
                },
                None => {},
            }
            assert forall|k: usize| self.map@.contains_key(k) <==> self.order@.contains(k) by {
                if k == victim {
                    if self.order@.contains(k) {
                        let i = choose|i: int| 0 <= i < self.order@.len() && self.order@[i] == k;
                        assert(old(self).order@[i + 1] == k);
                    }
                } else {
                    if old(self).order@.contains(k) {
                        let i = choose|i: int|
                            0 <= i < old(self).order@.len() && old(self).order@[i] == k;
                        assert(self.order@[i - 1] == k);
                    }
                    if self.order@.contains(k) {
                        let i = choose|i: int| 0 <= i < self.order@.len() && self.order@[i] == k;
                        assert(old(self).order@[i + 1] == k);
                    }
                }
            }
        }
        let ghost mid = self.order@;
        assert(!mid.contains(index));
        self.order.push(index);
        self.map.insert(index, block);
        assert(self.order@.no_duplicates());
        assert forall|k: usize| self.map@.contains_key(k) <==> self.order@.contains(k) by {
            if k == index {
                assert(self.order@[mid.len() as int] == index);
            } else {
                if mid.contains(k) {
                    let i = choose|i: int| 0 <= i < mid.len() && mid[i] == k;
                    assert(self.order@[i] == k);
                }
            }
        }
        proof {
            if evicted is Some {
                let victim = evicted.unwrap().0;
                assert(self@ =~= old(self)@.remove(victim).insert(
                    index,
                    (block.values(), block.is_dirty()),
                ));
            } else {
                assert(self@ =~= old(self)@.insert(index, (block.values(), block.is_dirty())));
            }
        }
        evicted
    }

    /// The indices of the dirty blocks, each once.
    pub fn dirty_keys(&self) -> (r: Vec<usize>)
        requires
            self.wf(),
        ensures
            r@.no_duplicates(),
            forall|k: usize| r@.contains(k) <==> self@.contains_key(k) && self@[k].1,
    {
        let mut out: Vec<usize> = Vec::new();
        let ghost mut pos: Seq<int> = Seq::empty();
        let n: usize = self.order.len();
        let mut i: usize = 0;
        while i < n
            invariant
                i <= n,
                n == self.order@.len(),
                self.wf(),
                pos.len() == out@.len(),
                forall|p: int|
                    0 <= p < pos.len() ==> 0 <= #[trigger] pos[p] < i && out@[p]
                        == self.order@[pos[p]] && self.map@[out@[p]].is_dirty(),
                forall|p: int, q: int| 0 <= p < q < pos.len() ==> pos[p] < pos[q],
                forall|j: int|
                    0 <= j < i && self.map@[#[trigger] self.order@[j]].is_dirty() ==> exists|
                        p: int,
                    |
                        0 <= p < pos.len() && pos[p] == j,
            decreases n - i,
        {
            let k: usize = self.order[i];
            assert(self.order@.contains(k));
            assert(self.map@.contains_key(k));
            let ghost prev = pos;
            match self.map.get(&k) {
                Some(b) => {
                    if b.dirty() {
                        out.push(k);
                        proof {
                            pos = pos.push(i as int);
                            assert forall|j: int|
                                0 <= j < i + 1
                                    && self.map@[#[trigger] self.order@[j]].is_dirty() implies exists|
                                p: int,
                            |
                                0 <= p < pos.len() && pos[p] == j by {
                                if j < i {
                                    let p = choose|p: int| 0 <= p < prev.len() && prev[p] == j;
                                    assert(pos[p] == j);
                                } else {
                                    assert(pos[prev.len() as int] == j);
                                }
                            }
                        }
                    }
                },
                None => {},
            }
            proof {
                if pos == prev {
                    assert forall|j: int|
                        0 <= j < i + 1
                            && self.map@[#[trigger] self.order@[j]].is_dirty() implies exists|
                        p: int,
                    |
                        0 <= p < pos.len() && pos[p] == j by {
                        let p = choose|p: int| 0 <= p < prev.len() && prev[p] == j;
                        assert(pos[p] == j);
                    }
                }
            }
            i += 1;
        }
        proof {
            assert forall|p: int, q: int| 0 <= p < q < out@.len() implies out@[p] != out@[q] by {
                assert(pos[p] < pos[q]);
            }
            assert forall|k: usize| out@.contains(k) <==> self@.contains_key(k)
                && self@[k].1 by {
                if out@.contains(k) {
                    let p = choose|p: int| 0 <= p < out@.len() && out@[p] == k;
                    assert(self.order@.contains(self.order@[pos[p]]));
                    assert(self.map@.contains_key(k));
                }
                if self@.contains_key(k) && self@[k].1 {
                    assert(self.map@.contains_key(k));
                    assert(self.order@.contains(k));
                    let j = choose|j: int| 0 <= j < self.order@.len() && self.order@[j] == k;
                    assert(self.map@[self.order@[j]].is_dirty());
                    let p = choose|p: int| 0 <= p < pos.len() && pos[p] == j;
                    assert(out@[p] == k);
                }
            }
        }
        out
    }
}

} // verus!
