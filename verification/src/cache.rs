//! A least-recently-used cache of fixed capacity.
//!
//! The values live in slots of one storage block. The slots are threaded into
//! a doubly linked chain by slot indices, from the most recently used value
//! (the head) to the least recently used one (the tail).

use crate::chain::{
    is_chain, lemma_chain_covers, lemma_chain_holds_slots, lemma_chain_is_path,
    lemma_chain_neighbours, lemma_chain_remove, lemma_path_len, nexts_without, path,
    prevs_without,
};
use crate::recency::{after_inserts, evicted, inserted, promoted};
use crate::search::{accepts, first_hit, misses};
use vstd::prelude::*;

verus! {

/// One slot: a value and its two links in the recency chain.
#[derive(Debug, Clone)]
pub struct Entry<T> {
    val: T,
    prev: u16,
    next: u16,
}

impl<T> Entry<T> {
    /// The value held in the slot.
    pub closed spec fn value(&self) -> T {
        self.val
    }

    /// The slot before this one in the chain.
    pub closed spec fn prev_link(&self) -> int {
        self.prev as int
    }

    /// The slot after this one in the chain.
    pub closed spec fn next_link(&self) -> int {
        self.next as int
    }
}

/// A cache of at most `N` values that forgets the least recently used one
/// when a value is inserted into a full cache.
#[derive(Debug, Clone)]
pub struct LRUCache<T, const N: usize> {
    // The slots, in the order in which they were first filled.
    entries: Vec<Entry<T>>,
    // Slot of the most recently used value.
    head: u16,
    // Slot of the least recently used value.
    tail: u16,
}

impl<T, const N: usize> View for LRUCache<T, N> {
    type V = Seq<T>;

    /// The cached values, from the most to the least recently used.
    open spec fn view(&self) -> Seq<T> {
        self.order().map_values(|i: int| self.values()[i])
    }
}

impl<T, const N: usize> LRUCache<T, N> {
    /// The storage block.
    pub closed spec fn slots(&self) -> Seq<Entry<T>> {
        self.entries@
    }

    /// The slot that the cache takes for its head.
    pub closed spec fn head_index(&self) -> int {
        self.head as int
    }

    /// The slot that the cache takes for its tail.
    pub closed spec fn tail_index(&self) -> int {
        self.tail as int
    }

    /// The `next` link of every slot.
    pub open spec fn nexts(&self) -> Seq<int> {
        Seq::new(self.slots().len(), |i: int| self.slots()[i].next_link())
    }

    /// The `prev` link of every slot.
    pub open spec fn prevs(&self) -> Seq<int> {
        Seq::new(self.slots().len(), |i: int| self.slots()[i].prev_link())
    }

    /// The value of every slot, by slot index.
    pub open spec fn values(&self) -> Seq<T> {
        Seq::new(self.slots().len(), |i: int| self.slots()[i].value())
    }

    /// The first `n` slots on the way from the head along the `next` links.
    pub open spec fn path(&self, n: nat) -> Seq<int> {
        path(self.nexts(), self.head_index(), n)
    }

    /// The first `n` slots from the head form a chain that ends at the tail.
    pub open spec fn linked(&self, n: nat) -> bool {
        is_chain(self.nexts(), self.prevs(), self.head_index(), self.tail_index(), self.path(n))
    }

    /// The cache is valid: it holds at most `N` values, slot indices fit
    /// below the largest `u16`, and all slots form one chain from head to tail.
    pub open spec fn wf(&self) -> bool {
        &&& self.slots().len() <= N < 0xFFFF
        &&& self.linked(self.slots().len())
    }

    /// The slots from the most to the least recently used.
    pub open spec fn order(&self) -> Seq<int> {
        self.path(self.slots().len())
    }

    /// The place of slot `i` in the recency order, or the number of values
    /// where `i` is no slot of the chain.
    pub open spec fn rank(&self, i: int) -> int {
        if self.order().contains(i) {
            self.order().index_of(i)
        } else {
            self@.len() as int
        }
    }

    /// The cache holds one value for each slot.
    pub proof fn lemma_view_len(&self)
        ensures
            self@.len() == self.slots().len(),
    {
        lemma_path_len(self.nexts(), self.head_index(), self.slots().len());
    }

    /// In a valid cache every slot has its place in the recency order, and
    /// is the slot at that place.
    pub proof fn lemma_every_slot_ranked(&self, i: int)
        requires
            self.wf(),
            0 <= i < self.slots().len(),
        ensures
            0 <= self.rank(i) < self@.len(),
            self.order()[self.rank(i)] == i,
    {
        self.lemma_view_len();
        lemma_chain_covers(
            self.nexts(),
            self.prevs(),
            self.head_index(),
            self.tail_index(),
            self.order(),
        );
    }

    /// In a valid cache no slot has two places in the recency order.
    pub proof fn lemma_rank_of_place(&self, k: int)
        requires
            self.wf(),
            0 <= k < self@.len(),
        ensures
            self.rank(self.order()[k]) == k,
    {
    }

    /// The chain that is left when one slot is taken out of it.
    pub open spec fn rest(&self) -> Seq<int> {
        self.path((self.slots().len() - 1) as nat)
    }

    /// Slot `i` is out of the chain and all the other slots form it.
    pub open spec fn detached(&self, i: int) -> bool {
        &&& 0 <= i < self.slots().len() <= N < 0xFFFF
        &&& self.linked((self.slots().len() - 1) as nat)
        &&& !self.rest().contains(i)
    }

    /// An empty cache. The capacity must leave room for slot indices in `u16`.
    pub fn new() -> (cache: Self)
        requires
            N < 0xFFFF,
        ensures
            cache.wf(),
            cache@ == Seq::<T>::empty(),
    {
        LRUCache { entries: Vec::with_capacity(N), head: 0, tail: 0 }
    }

    /// Gives the slot `i` of the storage block.
    pub fn entry(&mut self, i: u16) -> (e: &mut Entry<T>)
        requires
            (i as int) < old(self).slots().len(),
        ensures
            *e == old(self).slots()[i as int],
            final(self).slots() == old(self).slots().update(i as int, *final(e)),
            final(self).head_index() == old(self).head_index(),
            final(self).tail_index() == old(self).tail_index(),
    {
        &mut self.entries[i as usize]
    }

    /// Takes the least recently used slot out of the chain and returns it.
    /// The slot keeps its value.
    pub fn pop_back(&mut self) -> (i: u16)
        requires
            old(self).wf(),
            old(self)@.len() > 0,
        ensures
            i as int == old(self).order().last(),
            final(self).slots() == old(self).slots(),
            final(self).head_index() == old(self).head_index(),
            final(self).tail_index() == old(self).prevs()[i as int],
            final(self).detached(i as int),
            final(self).rest() == old(self).order().drop_last(),
    {
        let ghost o = self.order();
        proof {
            self.lemma_view_len();
        }
        let t: u16 = self.tail;
        let new_tail: u16 = self.entry(t).prev;
        self.tail = new_tail;
        proof {
            // The slots before the old tail are the chain now.
            let rest = o.drop_last();
            lemma_chain_is_path(
                self.nexts(),
                self.prevs(),
                self.head_index(),
                self.tail_index(),
                rest,
            );
            if rest.contains(t as int) {
                let k = rest.index_of(t as int);
                assert(o[k] == o[o.len() - 1]);
            }
        }
        t
    }

    /// Puts the detached slot `i` at the head of the chain.
    pub fn push_front(&mut self, i: u16)
        requires
            old(self).detached(i as int),
        ensures
            final(self).wf(),
            final(self).order() == seq![i as int] + old(self).rest(),
            final(self).values() == old(self).values(),
    {
        let ghost o = self.rest();
        proof {
            lemma_path_len(self.nexts(), self.head_index(), (self.slots().len() - 1) as nat);
        }
        if self.entries.len() == 1 {
            self.tail = i;
        } else {
            let h: u16 = self.head;
            let e = self.entry(i);
            e.next = h;
            let f = self.entry(h);
            f.prev = i;
        }
        self.head = i;
        proof {
            // Slot `i` now stands before the chain that was there.
            lemma_chain_is_path(
                self.nexts(),
                self.prevs(),
                self.head_index(),
                self.tail_index(),
                seq![i as int] + o,
            );
        }
    }

    /// The number of values in the cache.
    pub fn len(&self) -> (n: usize)
        ensures
            n == self@.len(),
            self.wf() ==> n <= N,
    {
        proof {
            self.lemma_view_len();
        }
        self.entries.len()
    }

    /// Whether the cache holds no value.
    pub fn is_empty(&self) -> (empty: bool)
        ensures
            empty <==> self@.len() == 0,
    {
        if self.len() == 0 {
            return true;
        }
        false
    }

    /// Drops every value. Head and tail stay as they are, and mean nothing
    /// until the next insert sets them.
    pub fn clear(&mut self)
        requires
            old(self).wf(),
        ensures
            final(self).wf(),
            final(self)@ == Seq::<T>::empty(),
            final(self).head_index() == old(self).head_index(),
            final(self).tail_index() == old(self).tail_index(),
    {
        self.entries.clear();
    }

    /// Takes slot `i` out of the chain and joins its neighbours.
    fn remove(&mut self, i: u16)
        requires
            old(self).wf(),
            (i as int) < old(self).slots().len(),
        ensures
            final(self).detached(i as int),
            final(self).rest() == old(self).order().remove(old(self).rank(i as int)),
            final(self).values() == old(self).values(),
            final(self).slots().len() == old(self).slots().len(),
    {
        let ghost o = self.order();
        let ghost nexts = self.nexts();
        let ghost prevs = self.prevs();
        let ghost head = self.head_index();
        let ghost tail = self.tail_index();
        let ghost k = self.rank(i as int);
        proof {
            self.lemma_view_len();
            self.lemma_every_slot_ranked(i as int);
            lemma_chain_neighbours(nexts, prevs, head, tail, o, k);
            lemma_chain_remove(nexts, prevs, head, tail, o, k);
        }
        let prev: u16 = self.entry(i).prev;
        let next: u16 = self.entry(i).next;

        if i == self.head {
            self.head = next;
        } else {
            let e = self.entry(prev);
            e.next = next;
        }

        if i == self.tail {
            self.tail = prev;
        } else {
            let e = self.entry(next);
            e.prev = prev;
        }
        proof {
            assert(self.nexts() =~= nexts_without(nexts, prevs, head, i as int));
            assert(self.prevs() =~= prevs_without(nexts, prevs, tail, i as int));
            lemma_chain_is_path(
                self.nexts(),
                self.prevs(),
                self.head_index(),
                self.tail_index(),
                o.remove(k),
            );
        }
    }

    /// Makes slot `i` the most recently used one.
    fn touch_index(&mut self, i: u16)
        requires
            old(self).wf(),
            (i as int) < old(self).slots().len(),
        ensures
            final(self).wf(),
            final(self).order() == promoted(old(self).order(), old(self).rank(i as int)),
            final(self).values() == old(self).values(),
            final(self)@ == promoted(old(self)@, old(self).rank(i as int)),
    {
        proof {
            self.lemma_every_slot_ranked(i as int);
        }
        if i != self.head {
            self.remove(i);
            self.push_front(i);
        }
    }

    /// Puts `val` into the cache as the most recently used value. A full
    /// cache first gives up its least recently used value, which is returned.
    pub fn insert(&mut self, val: T) -> (gone: Option<T>)
        requires
            old(self).wf(),
            N > 0,
        ensures
            final(self).wf(),
            final(self)@ == inserted(old(self)@, val, N as nat),
            gone == evicted(old(self)@, N as nat),
            final(self)@.first() == val,
            final(self).order() == inserted(
                old(self).order(),
                if old(self)@.len() < N {
                    old(self)@.len() as int
                } else {
                    old(self).order().last()
                },
                N as nat,
            ),
    {
        let ghost o = self.order();
        proof {
            self.lemma_view_len();
        }
        let mut new_entry = Entry { val, prev: 0, next: 0 };

        // A full cache gives the slot of its oldest value to the new one.
        if self.entries.len() == N {
            let i: u16 = self.pop_back();
            core::mem::swap(self.entry(i), &mut new_entry);
            proof {
                // The new links of slot `i` are not on the chain of the others.
                lemma_chain_is_path(
                    self.nexts(),
                    self.prevs(),
                    self.head_index(),
                    self.tail_index(),
                    o.drop_last(),
                );
            }
            self.push_front(i);
            Some(new_entry.val)
        } else {
            let i: u16 = self.entries.len() as u16;
            self.entries.push(new_entry);
            proof {
                // The chain of the old slots does not pass through the new one.
                lemma_chain_is_path(
                    self.nexts(),
                    self.prevs(),
                    self.head_index(),
                    self.tail_index(),
                    o,
                );
            }
            self.push_front(i);
            None
        }
    }

    /// The most recently used value, if there is one.
    pub fn front_mut(&mut self) -> (front: Option<&mut T>)
        requires
            old(self).wf(),
        ensures
            final(self).wf(),
            final(self).order() == old(self).order(),
            match front {
                None => old(self)@.len() == 0 && *final(self) == *old(self),
                Some(val) => {
                    &&& old(self)@.len() > 0
                    &&& *val == old(self)@[0]
                    &&& final(self)@ == old(self)@.update(0, *final(val))
                },
            },
    {
        let h: usize = self.head as usize;
        if h < self.entries.len() {
            let ghost fin = *final(self);
            let e = &mut self.entries[h];
            let val = &mut e.val;
            proof {
                // Whatever is written to the value, the links stay.
                assert(fin.nexts() =~= old(self).nexts());
            }
            Some(val)
        } else {
            None
        }
    }

    /// A cursor at the most recently used value.
    pub fn iter_mut(&self) -> (iter: IterMut)
        ensures
            iter.slot() == self.head_index(),
            self.wf() ==> self.rank(iter.slot()) == 0,
    {
        IterMut { pos: self.head }
    }

    /// Looks, from the most recently used value on, for the first value to
    /// which `pred` answers `true`, and makes it the most recently used one.
    /// Says whether there was such a value.
    pub fn touch<F>(&mut self, pred: F) -> (hit: bool) where F: FnMut(&T) -> bool
        requires
            old(self).wf(),
            accepts(pred, old(self)@),
        ensures
            final(self).wf(),
            hit ==> exists|k: int|
                {
                    &&& #[trigger] first_hit(pred, old(self)@, k)
                    &&& final(self)@ == promoted(old(self)@, k)
                    &&& final(self).order() == promoted(old(self).order(), k)
                },
            !hit ==> {
                &&& misses(pred, old(self)@, old(self)@.len() as int)
                &&& final(self)@ == old(self)@
                &&& final(self).order() == old(self).order()
            },
    {
        let mut iter = self.iter_mut();
        // The binding that is called; `pred` stays the name of what was given.
        let mut ask = pred;
        // The number of values that `ask` has refused.
        let ghost mut k: int = 0;
        loop
            invariant
                ask == pred,
                self.wf(),
                self@ == old(self)@,
                self.order() == old(self).order(),
                accepts(pred, old(self)@),
                0 <= k <= self@.len(),
                self.rank(iter.slot()) == k,
                misses(pred, old(self)@, k),
            decreases self@.len() - k,
        {
            match iter.next(self) {
                Some((i, val)) => {
                    let hit: bool = ask(&*val);
                    if hit {
                        self.touch_index(i);
                        assert(first_hit(pred, old(self)@, k));
                        return true;
                    }
                },
                None => {
                    return false;
                },
            }
            proof {
                k = k + 1;
            }
        }
    }

    /// Looks, from the most recently used value on, for the first value to
    /// which `pred` answers `true`, makes it the most recently used one and
    /// gives access to it.
    pub fn find<F>(&mut self, pred: F) -> (found: Option<&mut T>) where F: FnMut(&T) -> bool
        requires
            old(self).wf(),
            accepts(pred, old(self)@),
        ensures
            final(self).wf(),
            match found {
                None => {
                    &&& misses(pred, old(self)@, old(self)@.len() as int)
                    &&& final(self)@ == old(self)@
                    &&& final(self).order() == old(self).order()
                },
                Some(val) => exists|k: int|
                    {
                        &&& #[trigger] first_hit(pred, old(self)@, k)
                        &&& *val == old(self)@[k]
                        &&& final(self)@ == seq![*final(val)] + old(self)@.remove(k)
                        &&& final(self).order() == promoted(old(self).order(), k)
                    },
            },
    {
        if self.touch(pred) {
            let ghost k = choose|k: int|
                {
                    &&& #[trigger] first_hit(pred, old(self)@, k)
                    &&& self@ == promoted(old(self)@, k)
                    &&& self.order() == promoted(old(self).order(), k)
                };
            let ghost mid = self@;
            // To write to the first value is to put what is written before
            // the others.
            assert forall|x: T| #[trigger] mid.update(0, x) == seq![x] + old(self)@.remove(k) by {}
            self.front_mut()
        } else {
            None
        }
    }
}

impl<T, const N: usize> LRUCache<T, N> {
    /// Head and tail are one slot exactly when the cache holds one value.
    pub proof fn lemma_head_is_tail(&self)
        requires
            self.wf(),
            self@.len() > 0,
        ensures
            self.head_index() == self.tail_index() <==> self@.len() == 1,
    {
    }

    /// A cache that was cleared and one that was just made hold the same,
    /// nothing, whatever their heads and tails are. So the same inserts
    /// leave the same values in both and push the same values out of both.
    pub proof fn lemma_cleared_as_new(cleared: &Self, fresh: &Self, vals: Seq<T>)
        requires
            cleared.wf(),
            cleared@ == Seq::<T>::empty(),
            fresh.wf(),
            fresh@ == Seq::<T>::empty(),
        ensures
            cleared@ == fresh@,
            after_inserts(cleared@, vals, N as nat) == after_inserts(fresh@, vals, N as nat),
            evicted(after_inserts(cleared@, vals, N as nat), N as nat) == evicted(
                after_inserts(fresh@, vals, N as nat),
                N as nat,
            ),
    {
    }
}

impl<T, const N: usize> Default for LRUCache<T, N> {
    /// An empty cache, valid where the capacity leaves room for slot indices.
    fn default() -> (cache: Self)
        ensures
            N < 0xFFFF ==> cache.wf(),
            cache@ == Seq::<T>::empty(),
    {
        LRUCache { entries: Vec::with_capacity(N), head: 0, tail: 0 }
    }
}

/// A cursor that walks a cache from the most to the least recently used value.
pub struct IterMut {
    // The slot that comes next, or a number that is no slot when none does.
    pos: u16,
}

impl IterMut {
    /// The slot at which the cursor stands.
    pub closed spec fn slot(&self) -> int {
        self.pos as int
    }

    /// Yields the slot at which the cursor stands, with its value, and moves
    /// the cursor one place towards the least recently used value.
    pub fn next<'a, T, const N: usize>(&mut self, cache: &'a mut LRUCache<T, N>) -> (item: Option<
        (u16, &'a mut T),
    >)
        requires
            old(cache).wf(),
        ensures
            final(cache).wf(),
            final(cache).order() == old(cache).order(),
            0 <= old(cache).rank(old(self).slot()) <= old(cache)@.len(),
            match item {
                None => {
                    &&& old(cache).rank(old(self).slot()) == old(cache)@.len()
                    &&& final(self).slot() == old(self).slot()
                    &&& *final(cache) == *old(cache)
                },
                Some((i, val)) => {
                    let k = old(cache).rank(old(self).slot());
                    &&& k < old(cache)@.len()
                    &&& i as int == old(self).slot()
                    &&& i as int == old(cache).order()[k]
                    &&& *val == old(cache)@[k]
                    &&& final(cache)@ == old(cache)@.update(k, *final(val))
                    &&& final(cache).rank(final(self).slot()) == k + 1
                    &&& k + 1 == old(cache)@.len() ==> final(self).slot() == N
                },
            },
    {
        let index: u16 = self.pos;
        let ghost o = cache.order();
        if (index as usize) < cache.entries.len() {
            let ghost k = cache.rank(index as int);
            proof {
                cache.lemma_every_slot_ranked(index as int);
                lemma_chain_neighbours(
                    cache.nexts(),
                    cache.prevs(),
                    cache.head_index(),
                    cache.tail_index(),
                    o,
                    k,
                );
            }
            let tail: u16 = cache.tail;
            let ghost fin = *final(cache);
            let entry = &mut cache.entries[index as usize];
            self.pos = if index == tail {
                N as u16
            } else {
                entry.next
            };
            let val = &mut entry.val;
            proof {
                // Whatever is written to the value, the links stay.
                assert(fin.nexts() =~= old(cache).nexts());
                if k + 1 == o.len() {
                    lemma_chain_holds_slots(
                        fin.nexts(),
                        fin.prevs(),
                        fin.head_index(),
                        fin.tail_index(),
                        o,
                        N as int,
                    );
                }
            }
            Some((index, val))
        } else {
            proof {
                lemma_chain_holds_slots(
                    cache.nexts(),
                    cache.prevs(),
                    cache.head_index(),
                    cache.tail_index(),
                    o,
                    index as int,
                );
            }
            None
        }
    }
}

} // verus!
