//! The bounded least-recently-used backing.
//!
//! Entries are kept in recency order: the first entry is the least
//! recently touched, the last the most recently touched. Reads promote
//! the touched key to the most recent position; binding a new key at
//! capacity silently evicts the least recently touched entry.

use vstd::prelude::*;
use crate::assoc::distinct_keys;
use crate::assoc::entry_map;
use crate::assoc::holds_key;
use crate::assoc::key_index;
use crate::assoc::lemma_empty;
use crate::assoc::lemma_entry_at;
use crate::assoc::lemma_holds_iff;
use crate::assoc::lemma_push;
use crate::assoc::lemma_remove_at;
use crate::assoc::lemma_update_at;
use crate::backing::partition_entries;
use crate::backing::BackingError;
use crate::backing::CacheBacking;
use crate::backing::NoMeta;
use crate::keys::CacheKey;
use crate::keys::CacheValue;

verus! {

/// A bounded store that evicts the least recently touched entry when a
/// new key arrives at capacity.
pub struct LruCacheBacking<K: CacheKey, V> {
    entries: Vec<(K, V)>,
    capacity: usize,
}

impl<K: CacheKey, V: CacheValue> LruCacheBacking<K, V> {
    /// The stored entries, least recently touched first.
    pub closed spec fn entry_seq(&self) -> Seq<(K, V)> {
        self.entries@
    }

    /// The capacity the store was created with.
    pub closed spec fn spec_capacity(&self) -> usize {
        self.capacity
    }

    /// Creates a store that holds at most `size` entries. The capacity
    /// must allow at least one entry: the backing contract promises that
    /// a freshly bound key is observable, which a store of capacity zero
    /// could not honor.
    pub fn new(size: usize) -> (r: LruCacheBacking<K, V>)
        requires
            size >= 1,
        ensures
            r.inv(),
            r.reliable(),
            !r.stable(),
            r.spec_capacity() == size,
            r.entry_seq() == Seq::<(K, V)>::empty(),
            r.contents() == Map::<<K as View>::V, V>::empty(),
    {
        proof {
            lemma_empty::<K, V>();
        }
        LruCacheBacking { entries: Vec::new(), capacity: size }
    }

    /// Creates a store that never reaches its capacity in practice.
    pub fn unbounded() -> (r: LruCacheBacking<K, V>)
        ensures
            r.inv(),
            r.reliable(),
            !r.stable(),
            r.spec_capacity() == usize::MAX,
            r.entry_seq() == Seq::<(K, V)>::empty(),
            r.contents() == Map::<<K as View>::V, V>::empty(),
    {
        LruCacheBacking::new(usize::MAX)
    }

    fn find(&self, key: &K) -> (r: Option<usize>)
        ensures
            match r {
                Some(i) => i < self.entries@.len() && self.entries@[i as int].0@ == key@,
                None => !holds_key(self.entries@, key@),
            },
    {
        let mut i: usize = 0;
        while i < self.entries.len()
            invariant
                i <= self.entries@.len(),
                forall|n: int| 0 <= n < i ==> self.entries@[n].0@ != key@,
            decreases self.entries@.len() - i,
        {
            if self.entries[i].0.key_eq(key) {
                return Some(i);
            }
            i += 1;
        }
        None
    }

    /// Looks a key up and promotes it to the most recent position.
    pub fn lookup(&mut self, key: &K) -> (r: Option<V>)
        requires
            old(self).inv(),
        ensures
            final(self).inv(),
            final(self).spec_capacity() == old(self).spec_capacity(),
            match r {
                Some(v) => {
                    &&& holds_key(old(self).entry_seq(), key@)
                    &&& v == old(self).entry_seq()[key_index(old(self).entry_seq(), key@)].1
                    &&& final(self).entry_seq() == old(self).entry_seq().remove(
                        key_index(old(self).entry_seq(), key@),
                    ).push(old(self).entry_seq()[key_index(old(self).entry_seq(), key@)])
                    &&& final(self).contents() == old(self).contents()
                },
                None => !holds_key(old(self).entry_seq(), key@) && *final(self) == *old(self),
            },
    {
        match self.find(key) {
            Some(i) => {
                let ghost pre = self.entries@;
                proof {
                    lemma_entry_at(pre, i as int);
                    lemma_remove_at(pre, i as int);
                    lemma_holds_iff(pre.remove(i as int), pre[i as int].0@);
                    lemma_push(pre.remove(i as int), pre[i as int].0, pre[i as int].1);
                }
                let e = self.entries.remove(i);
                let value = e.1.dup();
                self.entries.push(e);
                proof {
                    assert(self.contents() =~= old(self).contents());
                }
                Some(value)
            },
            None => None,
        }
    }

    /// Looks a key up for in-place mutation, promoting it to the most
    /// recent position.
    pub fn lookup_mut(&mut self, key: &K) -> (r: Option<&mut V>)
        requires
            old(self).inv(),
        ensures
            match r {
                Some(v) => {
                    &&& holds_key(old(self).entry_seq(), key@)
                    &&& *v == old(self).entry_seq()[key_index(old(self).entry_seq(), key@)].1
                    &&& final(self).entry_seq() == old(self).entry_seq().remove(
                        key_index(old(self).entry_seq(), key@),
                    ).push(
                        (
                            old(self).entry_seq()[key_index(old(self).entry_seq(), key@)].0,
                            *final(v),
                        ),
                    )
                    &&& final(self).inv()
                    &&& final(self).spec_capacity() == old(self).spec_capacity()
                    &&& final(self).contents() == old(self).contents().insert(key@, *final(v))
                },
                None => {
                    &&& !holds_key(old(self).entry_seq(), key@)
                    &&& *final(self) == *old(self)
                    &&& final(self).inv()
                },
            },
    {
        match self.find(key) {
            Some(i) => {
                let ghost pre = self.entries@;
                proof {
                    lemma_entry_at(pre, i as int);
                    lemma_remove_at(pre, i as int);
                    lemma_holds_iff(pre.remove(i as int), pre[i as int].0@);
                }
                let e = self.entries.remove(i);
                self.entries.push(e);
                let n = self.entries.len() - 1;
                let ghost mid = self.entries@;
                proof {
                    assert(mid == pre.remove(i as int).push(pre[i as int]));
                    lemma_push(pre.remove(i as int), pre[i as int].0, pre[i as int].1);
                    lemma_entry_at(mid, n as int);
                }
                let v = &mut self.entries[n].1;
                proof {
                    lemma_update_at(mid, n as int, mid[n as int].0, *final(v));
                    assert(mid.update(n as int, (mid[n as int].0, *final(v))) =~= pre.remove(
                        i as int,
                    ).push((pre[i as int].0, *final(v))));
                    assert(entry_map(mid).insert(key@, *final(v)) =~= entry_map(pre).insert(
                        key@,
                        *final(v),
                    ));
                }
                Some(v)
            },
            None => None,
        }
    }

    /// Binds a key to a value. An existing key is promoted and its value
    /// replaced; a new key is appended as most recent, and if the store
    /// is at capacity the least recently touched entry is evicted first.
    pub fn store(&mut self, key: K, value: V) -> (prior: Option<V>)
        requires
            old(self).inv(),
        ensures
            final(self).inv(),
            final(self).spec_capacity() == old(self).spec_capacity(),
            final(self).entry_seq().len() <= final(self).spec_capacity(),
            holds_key(old(self).entry_seq(), key@) ==> {
                &&& final(self).entry_seq() == old(self).entry_seq().remove(
                    key_index(old(self).entry_seq(), key@),
                ).push((key, value))
                &&& prior == Some(
                    old(self).entry_seq()[key_index(old(self).entry_seq(), key@)].1,
                )
                &&& final(self).contents() == old(self).contents().insert(key@, value)
            },
            (!holds_key(old(self).entry_seq(), key@) && old(self).entry_seq().len() < old(
                self,
            ).spec_capacity()) ==> {
                &&& final(self).entry_seq() == old(self).entry_seq().push((key, value))
                &&& prior is None
                &&& final(self).contents() == old(self).contents().insert(key@, value)
            },
            (!holds_key(old(self).entry_seq(), key@) && old(self).entry_seq().len() == old(
                self,
            ).spec_capacity()) ==> {
                &&& final(self).entry_seq() == old(self).entry_seq().remove(0).push((key, value))
                &&& prior is None
                &&& final(self).contents() == old(self).contents().remove(
                    old(self).entry_seq()[0].0@,
                ).insert(key@, value)
            },
    {
        match self.find(&key) {
            Some(i) => {
                let ghost pre = self.entries@;
                proof {
                    lemma_entry_at(pre, i as int);
                    lemma_remove_at(pre, i as int);
                    lemma_holds_iff(pre.remove(i as int), key@);
                    lemma_push(pre.remove(i as int), key, value);
                }
                let e = self.entries.remove(i);
                let prior = e.1;
                self.entries.push((key, value));
                proof {
                    assert(self.contents() =~= old(self).contents().insert(key@, value));
                }
                Some(prior)
            },
            None => {
                if self.entries.len() >= self.capacity {
                    let ghost pre = self.entries@;
                    proof {
                        lemma_entry_at(pre, 0);
                        lemma_remove_at(pre, 0);
                        lemma_holds_iff(pre.remove(0), key@);
                        lemma_push(pre.remove(0), key, value);
                    }
                    let evicted = self.entries.remove(0);
                    self.entries.push((key, value));
                    proof {
                        assert(self.contents() =~= old(self).contents().remove(
                            pre[0].0@,
                        ).insert(key@, value));
                    }
                    None
                } else {
                    proof {
                        lemma_push(self.entries@, key, value);
                    }
                    self.entries.push((key, value));
                    None
                }
            },
        }
    }

    /// Removes a key and returns its value.
    pub fn take(&mut self, key: &K) -> (prior: Option<V>)
        requires
            old(self).inv(),
        ensures
            final(self).inv(),
            final(self).spec_capacity() == old(self).spec_capacity(),
            match prior {
                Some(p) => {
                    &&& holds_key(old(self).entry_seq(), key@)
                    &&& p == old(self).entry_seq()[key_index(old(self).entry_seq(), key@)].1
                    &&& final(self).entry_seq() == old(self).entry_seq().remove(
                        key_index(old(self).entry_seq(), key@),
                    )
                    &&& final(self).contents() == old(self).contents().remove(key@)
                },
                None => !holds_key(old(self).entry_seq(), key@) && *final(self) == *old(self),
            },
    {
        match self.find(key) {
            Some(i) => {
                proof {
                    lemma_entry_at(self.entries@, i as int);
                    lemma_remove_at(self.entries@, i as int);
                }
                let e = self.entries.remove(i);
                Some(e.1)
            },
            None => None,
        }
    }

    /// Reports whether a key is bound, without touching recency.
    pub fn contains(&self, key: &K) -> (b: bool)
        requires
            self.inv(),
        ensures
            b == self.contents().contains_key(key@),
    {
        match self.find(key) {
            Some(i) => {
                proof {
                    lemma_entry_at(self.entries@, i as int);
                }
                true
            },
            None => {
                proof {
                    lemma_holds_iff(self.entries@, key@);
                }
                false
            },
        }
    }

    /// Replaces the value of a bound key in place, promoting the entry to
    /// the most recent position; an absent key is left absent.
    pub fn swap(&mut self, key: &K, value: V) -> (prior: Option<V>)
        requires
            old(self).inv(),
        ensures
            final(self).inv(),
            final(self).spec_capacity() == old(self).spec_capacity(),
            match prior {
                Some(p) => {
                    &&& holds_key(old(self).entry_seq(), key@)
                    &&& p == old(self).entry_seq()[key_index(old(self).entry_seq(), key@)].1
                    &&& final(self).entry_seq() == old(self).entry_seq().remove(
                        key_index(old(self).entry_seq(), key@),
                    ).push(
                        (old(self).entry_seq()[key_index(old(self).entry_seq(), key@)].0, value),
                    )
                    &&& final(self).contents() == old(self).contents().insert(key@, value)
                },
                None => !holds_key(old(self).entry_seq(), key@) && *final(self) == *old(self),
            },
    {
        match self.find(key) {
            Some(i) => {
                let ghost pre = self.entries@;
                proof {
                    lemma_entry_at(pre, i as int);
                    lemma_remove_at(pre, i as int);
                    lemma_holds_iff(pre.remove(i as int), key@);
                    lemma_push(pre.remove(i as int), pre[i as int].0, value);
                }
                let e = self.entries.remove(i);
                self.entries.push((e.0, value));
                proof {
                    assert(self.contents() =~= old(self).contents().insert(key@, value));
                }
                Some(e.1)
            },
            None => None,
        }
    }

    /// Removes every entry the predicate selects and returns the removed
    /// pairs: exactly the entries the predicate answered true for leave
    /// the store, and every kept entry answered false.
    pub fn remove_where<P: Fn(K, V) -> bool>(&mut self, pred: P) -> (removed: Vec<(K, V)>)
        requires
            old(self).inv(),
            forall|k: K, v: V| #[trigger] call_requires(pred, (k, v)),
        ensures
            final(self).inv(),
            final(self).spec_capacity() == old(self).spec_capacity(),
            distinct_keys(removed@),
            forall|i: int|
                0 <= i < removed@.len() ==> old(self).contents().contains_key(
                    #[trigger] removed@[i].0@,
                ) && removed@[i].1 == old(self).contents()[removed@[i].0@] && call_ensures(
                    pred,
                    (removed@[i].0, removed@[i].1),
                    true,
                ),
            forall|j: <K as View>::V|
                #[trigger] final(self).contents().contains_key(j) ==> old(
                    self,
                ).contents().contains_key(j) && final(self).contents()[j] == old(
                    self,
                ).contents()[j] && !holds_key(removed@, j),
            old(self).contents().remove_keys(
                Set::new(|j: <K as View>::V| holds_key(removed@, j)),
            ).submap_of(final(self).contents()),
            forall|j: <K as View>::V|
                #[trigger] final(self).contents().contains_key(j) ==> exists|k: K, v: V|
                    k@ == j && v == old(self).contents()[j] && call_ensures(pred, (k, v), false),
    {
        let ghost orig = self.entries@;
        let removed = partition_entries(&mut self.entries, pred);
        proof {
            assert forall|j: <K as View>::V|
                self.contents().contains_key(j) implies entry_map(orig).contains_key(j)
                && self.contents()[j] == entry_map(orig)[j] && !holds_key(removed@, j) by {
                lemma_entry_at(self.entries@, key_index(self.entries@, j));
            }
            assert forall|j: <K as View>::V|
                entry_map(orig).contains_key(j) implies self.contents().contains_key(j)
                || holds_key(removed@, j) by {
                lemma_holds_iff(orig, j);
                lemma_holds_iff(self.entries@, j);
            }
            let rset = Set::new(|j: <K as View>::V| holds_key(removed@, j));
            assert(entry_map(orig).remove_keys(rset).submap_of(self.contents())) by {
                assert forall|j: <K as View>::V|
                    #[trigger] entry_map(orig).remove_keys(rset).contains_key(
                        j,
                    ) implies self.contents().contains_key(j) && entry_map(orig).remove_keys(
                    rset,
                )[j] == self.contents()[j] by {
                    assert(entry_map(orig).contains_key(j) && !holds_key(removed@, j));
                    lemma_holds_iff(orig, j);
                    lemma_holds_iff(self.entries@, j);
                }
            }
            assert forall|j: <K as View>::V|
                #[trigger] self.contents().contains_key(j) implies exists|k: K, v: V|
                k@ == j && v == entry_map(orig)[j] && call_ensures(pred, (k, v), false) by {
                let i = key_index(self.entries@, j);
                lemma_entry_at(self.entries@, i);
                assert(self.entries@[i].0@ == j && self.entries@[i].1 == entry_map(orig)[j]
                    && call_ensures(pred, (self.entries@[i].0, self.entries@[i].1), false));
            }
        }
        removed
    }
}

/// With its keys pairwise distinct, a store of capacity `n` holds at most
/// `n` keys: the length of its recency order bounds the number of keys.
pub proof fn lemma_lru_capacity_bound<K: CacheKey, V: CacheValue>(b: &LruCacheBacking<K, V>)
    requires
        b.inv(),
    ensures
        b.entry_seq().len() <= b.spec_capacity(),
        distinct_keys(b.entry_seq()),
        forall|j: <K as View>::V|
            b.contents().contains_key(j) ==> holds_key(b.entry_seq(), j),
{
    assert forall|j: <K as View>::V|
        b.contents().contains_key(j) implies holds_key(b.entry_seq(), j) by {
        lemma_holds_iff(b.entry_seq(), j);
    }
}

impl<K: CacheKey, V: CacheValue> CacheBacking<K, V> for LruCacheBacking<K, V> {
    type Meta = NoMeta;

    closed spec fn inv(&self) -> bool {
        distinct_keys(self.entries@) && self.entries@.len() <= self.capacity && self.capacity >= 1
    }

    closed spec fn contents(&self) -> Map<<K as View>::V, V> {
        entry_map(self.entries@)
    }

    closed spec fn stable(&self) -> bool {
        false
    }

    closed spec fn reliable(&self) -> bool {
        true
    }

    fn swap_value(&mut self, key: &K, value: V, now: u64) -> (r: Result<
        Option<V>,
        BackingError,
    >) {
        let prior = self.swap(key, value);
        proof {
            if prior is Some {
                assert(self.contents().remove(key@).submap_of(
                    old(self).contents().remove(key@),
                ));
            }
        }
        Ok(prior)
    }

    fn get(&mut self, key: &K, now: u64) -> (r: Result<Option<V>, BackingError>) {
        Ok(self.lookup(key))
    }

    fn set(&mut self, key: K, value: V, meta: Option<NoMeta>, now: u64) -> (r: Result<
        Option<V>,
        BackingError,
    >) {
        let ghost pre = self.entries@;
        let prior = self.store(key, value);
        proof {
            if !holds_key(pre, key@) && pre.len() == self.spec_capacity() {
                lemma_entry_at(pre, 0);
            }
        }
        Ok(prior)
    }

    fn remove(&mut self, key: &K, now: u64) -> (r: Result<Option<V>, BackingError>) {
        Ok(self.take(key))
    }

    fn contains_key(&mut self, key: &K, now: u64) -> (r: Result<bool, BackingError>) {
        Ok(self.contains(key))
    }

    fn remove_if<P: Fn(K, V) -> bool>(&mut self, pred: P, now: u64) -> (r: Result<
        Vec<(K, V)>,
        BackingError,
    >) {
        let removed = self.remove_where(pred);
        proof {
            assert(self.contents().submap_of(old(self).contents()));
        }
        Ok(removed)
    }

    fn clear(&mut self, now: u64) -> (r: Result<(), BackingError>) {
        self.entries = Vec::new();
        proof {
            lemma_empty::<K, V>();
        }
        Ok(())
    }
}

} // verus!
