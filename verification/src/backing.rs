//! The pluggable key-to-entry stores behind the cache engine.
//!
//! A backing is a single-threaded store with a small uniform contract and
//! an associated meta type for per-entry policy input. Reads may mutate the
//! store (recency promotion, expiry sweeping), so every operation takes the
//! store mutably and the current time. The contract is phrased over the
//! mathematical map a backing holds: operations never invent entries, and a
//! `stable` backing never drops entries of its own accord.

use vstd::prelude::*;
use crate::assoc::distinct_keys;
use crate::assoc::entry_map;
use crate::assoc::holds_key;
use crate::assoc::key_index;
use crate::assoc::lemma_empty;
use crate::assoc::lemma_holds_iff;
use crate::assoc::lemma_entry_at;
use crate::assoc::lemma_push;
use crate::assoc::lemma_remove_at;
use crate::assoc::lemma_update_at;
use crate::keys::CacheKey;
use crate::keys::CacheValue;

verus! {

/// A structural failure inside a backing. Only the time-to-live backing
/// can produce one.
#[derive(Debug, Clone)]
pub enum BackingError {
    TtlError(TtlError),
}

/// A structural failure of the expiry index of the time-to-live backing:
/// the index lost track of a live entry.
#[derive(Debug, Clone)]
pub enum TtlError {
    /// No expiry record carries the deadline stored with the entry.
    ExpiryNotFound,
    /// Records carry the deadline, but none of them names the entry's key.
    ExpiryKeyNotFound,
}

/// Per-entry policy input for backings that need none.
#[derive(Copy, Clone, Debug, Default)]
pub struct NoMeta {}

/// The uniform contract of a key-to-entry store.
///
/// `contents()` is the map the store currently holds. Every operation
/// preserves the invariant and may at most shrink the map beyond its own
/// effect; when `stable()` holds, nothing is dropped beyond that effect,
/// and the contract becomes exact.
pub trait CacheBacking<K: CacheKey, V: CacheValue>: Sized {
    /// Per-entry policy input accepted by `set`.
    type Meta;

    /// The structural invariant of the store.
    spec fn inv(&self) -> bool;

    /// The map from key views to values that the store holds.
    spec fn contents(&self) -> Map<<K as View>::V, V>;

    /// Whether the store never drops entries of its own accord.
    spec fn stable(&self) -> bool;

    /// Whether the store's operations never report a structural failure.
    spec fn reliable(&self) -> bool;

    /// Replaces the value bound to a key in place, leaving the store's
    /// policy state for the entry otherwise as a read would (recency is
    /// promoted, expired entries may be swept), and returns the previous
    /// value. An absent key stays absent.
    fn swap_value(&mut self, key: &K, value: V, now: u64) -> (r: Result<Option<V>, BackingError>)
        requires
            old(self).inv(),
        ensures
            final(self).inv(),
            final(self).stable() == old(self).stable(),
            final(self).reliable() == old(self).reliable(),
            old(self).reliable() ==> r is Ok,
            match r {
                Ok(prior) => match prior {
                    Some(p) => {
                        &&& old(self).contents().contains_key(key@)
                        &&& p == old(self).contents()[key@]
                        &&& final(self).contents().contains_key(key@)
                        &&& final(self).contents()[key@] == value
                        &&& final(self).contents().remove(key@).submap_of(
                            old(self).contents().remove(key@),
                        )
                        &&& (old(self).stable() ==> old(self).contents().remove(key@).submap_of(
                            final(self).contents().remove(key@),
                        ))
                    },
                    None => {
                        &&& !final(self).contents().contains_key(key@)
                        &&& final(self).contents().submap_of(old(self).contents())
                        &&& (old(self).stable() ==> final(self).contents() == old(self).contents()
                            && !old(self).contents().contains_key(key@))
                    },
                },
                Err(_) => true,
            },
    ;

    /// Looks a key up and returns a duplicate of its value; the store may
    /// first apply its policy.
    fn get(&mut self, key: &K, now: u64) -> (r: Result<Option<V>, BackingError>)
        requires
            old(self).inv(),
        ensures
            final(self).inv(),
            final(self).stable() == old(self).stable(),
            final(self).reliable() == old(self).reliable(),
            old(self).reliable() ==> r is Ok,
            match r {
                Ok(opt) => {
                    &&& final(self).contents().submap_of(old(self).contents())
                    &&& (old(self).stable() ==> final(self).contents() == old(self).contents())
                    &&& match opt {
                        Some(v) => final(self).contents().contains_key(key@) && v == final(self).contents()[key@],
                        None => !final(self).contents().contains_key(key@),
                    }
                },
                Err(_) => true,
            },
    ;

    /// Binds a key to a value, with optional policy input, and returns the
    /// value previously bound, if any survived the store's policy.
    fn set(&mut self, key: K, value: V, meta: Option<Self::Meta>, now: u64) -> (r: Result<
        Option<V>,
        BackingError,
    >)
        requires
            old(self).inv(),
        ensures
            final(self).inv(),
            final(self).stable() == old(self).stable(),
            final(self).reliable() == old(self).reliable(),
            old(self).reliable() ==> r is Ok,
            match r {
                Ok(prior) => {
                    &&& final(self).contents().contains_key(key@)
                    &&& final(self).contents()[key@] == value
                    &&& final(self).contents().remove(key@).submap_of(old(self).contents())
                    &&& (old(self).stable() ==> old(self).contents().remove(key@).submap_of(
                        final(self).contents().remove(key@),
                    ))
                    &&& match prior {
                        Some(p) => old(self).contents().contains_key(key@) && p == old(self).contents()[key@],
                        None => old(self).stable() ==> !old(self).contents().contains_key(key@),
                    }
                },
                Err(_) => true,
            },
    ;

    /// Removes a key and returns the value it was bound to, if any
    /// survived the store's policy.
    fn remove(&mut self, key: &K, now: u64) -> (r: Result<Option<V>, BackingError>)
        requires
            old(self).inv(),
        ensures
            final(self).inv(),
            final(self).stable() == old(self).stable(),
            final(self).reliable() == old(self).reliable(),
            old(self).reliable() ==> r is Ok,
            match r {
                Ok(prior) => {
                    &&& !final(self).contents().contains_key(key@)
                    &&& final(self).contents().submap_of(old(self).contents())
                    &&& (old(self).stable() ==> old(self).contents().remove(key@).submap_of(
                        final(self).contents(),
                    ))
                    &&& match prior {
                        Some(p) => old(self).contents().contains_key(key@) && p == old(self).contents()[key@],
                        None => old(self).stable() ==> !old(self).contents().contains_key(key@),
                    }
                },
                Err(_) => true,
            },
    ;

    /// Reports whether a key is currently usable. This is the one read
    /// that never mutates the store; a backing with an expiry policy
    /// answers `false` for an entry whose deadline has passed.
    fn contains_key(&mut self, key: &K, now: u64) -> (r: Result<bool, BackingError>)
        requires
            old(self).inv(),
        ensures
            *final(self) == *old(self),
            old(self).reliable() ==> r is Ok,
            match r {
                Ok(b) => {
                    &&& (b ==> old(self).contents().contains_key(key@))
                    &&& (old(self).stable() ==> b == old(self).contents().contains_key(key@))
                },
                Err(_) => true,
            },
    ;

    /// Removes every entry the predicate selects and returns the removed
    /// pairs. The predicate receives duplicates of the stored key and
    /// value.
    fn remove_if<P: Fn(K, V) -> bool>(&mut self, pred: P, now: u64) -> (r: Result<
        Vec<(K, V)>,
        BackingError,
    >)
        requires
            old(self).inv(),
            forall|k: K, v: V| #[trigger] call_requires(pred, (k, v)),
        ensures
            final(self).inv(),
            final(self).stable() == old(self).stable(),
            final(self).reliable() == old(self).reliable(),
            old(self).reliable() ==> r is Ok,
            match r {
                Ok(removed) => {
                    &&& distinct_keys(removed@)
                    &&& forall|i: int|
                        0 <= i < removed@.len() ==> old(self).contents().contains_key(
                            #[trigger] removed@[i].0@,
                        ) && removed@[i].1 == old(self).contents()[removed@[i].0@]
                            && call_ensures(pred, (removed@[i].0, removed@[i].1), true)
                    &&& final(self).contents().submap_of(old(self).contents())
                    &&& forall|j: <K as View>::V|
                        final(self).contents().contains_key(j) ==> !holds_key(removed@, j)
                    &&& (old(self).stable() ==> old(self).contents().remove_keys(
                        Set::new(|j: <K as View>::V| holds_key(removed@, j)),
                    ).submap_of(final(self).contents()))
                    &&& forall|j: <K as View>::V|
                        final(self).contents().contains_key(j)
                            ==> exists|k: K, v: V|
                                k@ == j && v == old(self).contents()[j] && call_ensures(
                                    pred,
                                    (k, v),
                                    false,
                                )
                },
                Err(_) => true,
            },
    ;

    /// Empties the store.
    fn clear(&mut self, now: u64) -> (r: Result<(), BackingError>)
        requires
            old(self).inv(),
        ensures
            final(self).inv(),
            final(self).stable() == old(self).stable(),
            final(self).reliable() == old(self).reliable(),
            old(self).reliable() ==> r is Ok,
            match r {
                Ok(u) => final(self).contents() == Map::<<K as View>::V, V>::empty(),
                Err(_) => true,
            },
    ;
}

/// Splits a distinct-key entry vector by a predicate: entries the
/// predicate selects are removed and returned, the rest stay in their
/// original relative order. The predicate receives duplicates.
pub(crate) fn partition_entries<K: CacheKey, V: CacheValue, P: Fn(K, V) -> bool>(
    entries: &mut Vec<(K, V)>,
    pred: P,
) -> (removed: Vec<(K, V)>)
    requires
        distinct_keys(old(entries)@),
        forall|k: K, v: V| #[trigger] call_requires(pred, (k, v)),
    ensures
        distinct_keys(final(entries)@),
        distinct_keys(removed@),
        final(entries)@.len() + removed@.len() == old(entries)@.len(),
        forall|i: int|
            0 <= i < final(entries)@.len() ==> entry_map(old(entries)@).contains_key(
                #[trigger] final(entries)@[i].0@,
            ) && final(entries)@[i].1 == entry_map(old(entries)@)[final(entries)@[i].0@]
                && call_ensures(pred, (final(entries)@[i].0, final(entries)@[i].1), false),
        forall|i: int|
            0 <= i < removed@.len() ==> entry_map(old(entries)@).contains_key(
                #[trigger] removed@[i].0@,
            ) && removed@[i].1 == entry_map(old(entries)@)[removed@[i].0@] && call_ensures(
                pred,
                (removed@[i].0, removed@[i].1),
                true,
            ),
        forall|j: <K as View>::V|
            holds_key(old(entries)@, j) <==> holds_key(final(entries)@, j) || holds_key(
                removed@,
                j,
            ),
        forall|j: <K as View>::V| holds_key(final(entries)@, j) ==> !holds_key(removed@, j),
{
        let ghost orig = entries@;
        let mut kept: Vec<(K, V)> = Vec::new();
        let mut removed: Vec<(K, V)> = Vec::new();
        proof {
            lemma_empty::<K, V>();
        }
        while entries.len() > 0
            invariant
                forall|k: K, v: V| #[trigger] call_requires(pred, (k, v)),
                distinct_keys(orig),
                kept@.len() + removed@.len() + entries@.len() == orig.len(),
                distinct_keys(kept@),
                distinct_keys(removed@),
                distinct_keys(entries@),
                // every key view of the three parts occurs in the original
                forall|j: <K as View>::V|
                    holds_key(kept@, j) || holds_key(removed@, j) || holds_key(entries@, j)
                        <==> holds_key(orig, j),
                // the parts are pairwise disjoint
                forall|j: <K as View>::V| holds_key(kept@, j) ==> !holds_key(removed@, j),
                forall|j: <K as View>::V| holds_key(kept@, j) ==> !holds_key(entries@, j),
                forall|j: <K as View>::V| holds_key(removed@, j) ==> !holds_key(entries@, j),
                // values agree with the original map
                forall|i: int|
                    0 <= i < kept@.len() ==> entry_map(orig).contains_key(#[trigger] kept@[i].0@)
                        && kept@[i].1 == entry_map(orig)[kept@[i].0@] && call_ensures(
                        pred,
                        (kept@[i].0, kept@[i].1),
                        false,
                    ),
                forall|i: int|
                    0 <= i < removed@.len() ==> entry_map(orig).contains_key(
                        #[trigger] removed@[i].0@,
                    ) && removed@[i].1 == entry_map(orig)[removed@[i].0@] && call_ensures(
                        pred,
                        (removed@[i].0, removed@[i].1),
                        true,
                    ),
                forall|i: int|
                    0 <= i < entries@.len() ==> entry_map(orig).contains_key(
                        #[trigger] entries@[i].0@,
                    ) && entries@[i].1 == entry_map(orig)[entries@[i].0@],
            decreases entries@.len(),
        {
            proof {
                lemma_entry_at(entries@, 0);
                lemma_remove_at(entries@, 0);
            }
            let ghost entries_pre = entries@;
            let ghost kept_pre = kept@;
            let ghost removed_pre = removed@;
            let (k, v) = entries.remove(0);
            let kq = k.key_dup();
            let vq = v.dup();
            if pred(kq, vq) {
                proof {
                    lemma_push(removed@, k, v);
                }
                removed.push((k, v));
            } else {
                proof {
                    lemma_push(kept@, k, v);
                }
                kept.push((k, v));
            }
            proof {
                assert forall|j: <K as View>::V|
                    (holds_key(kept@, j) || holds_key(removed@, j) || holds_key(
                        entries@,
                        j,
                    )) <==> holds_key(orig, j) by {
                    lemma_holds_iff(kept@, j);
                    lemma_holds_iff(removed@, j);
                    lemma_holds_iff(entries@, j);
                    lemma_holds_iff(orig, j);
                    lemma_holds_iff(kept_pre, j);
                    lemma_holds_iff(removed_pre, j);
                    lemma_holds_iff(entries_pre, j);
                }
                assert forall|j: <K as View>::V|
                    holds_key(kept@, j) implies !holds_key(removed@, j) && !holds_key(
                    entries@,
                    j,
                ) by {
                    lemma_holds_iff(kept@, j);
                    lemma_holds_iff(removed@, j);
                    lemma_holds_iff(entries@, j);
                    lemma_holds_iff(kept_pre, j);
                    lemma_holds_iff(removed_pre, j);
                    lemma_holds_iff(entries_pre, j);
                }
                assert forall|j: <K as View>::V|
                    holds_key(removed@, j) implies !holds_key(entries@, j) by {
                    lemma_holds_iff(removed@, j);
                    lemma_holds_iff(entries@, j);
                    lemma_holds_iff(removed_pre, j);
                    lemma_holds_iff(entries_pre, j);
                }
            }
        }
        *entries = kept;
        removed
    }

/// The default unbounded backing: a plain map with no eviction policy.
pub struct HashMapBacking<K: CacheKey, V> {
    entries: Vec<(K, V)>,
}

impl<K: CacheKey, V: CacheValue> HashMapBacking<K, V> {
    /// Creates an empty backing.
    pub fn new() -> (r: HashMapBacking<K, V>)
        ensures
            r.inv(),
            r.stable(),
            r.reliable(),
            r.contents() == Map::<<K as View>::V, V>::empty(),
    {
        proof {
            lemma_empty::<K, V>();
        }
        HashMapBacking { entries: Vec::new() }
    }

    /// Creates a backing holding the given pairs; when several pairs share
    /// a key view, the last one wins, as when collecting into a map.
    pub fn construct(map: Vec<(K, V)>) -> (r: HashMapBacking<K, V>)
        ensures
            r.inv(),
            r.stable(),
            r.reliable(),
            r.contents() == last_wins_map(map@),
    {
        let mut r = HashMapBacking::<K, V>::new();
        let mut input = map;
        let mut i: usize = 0;
        proof {
            assert(input@.take(0) =~= Seq::<(K, V)>::empty());
            assert(r.contents() =~= last_wins_map(input@.take(0)));
        }
        let n = input.len();
        while i < n
            invariant
                n == input@.len(),
                i <= n,
                r.inv(),
                r.stable(),
                r.reliable(),
                r.contents() == last_wins_map(input@.take(i as int)),
            decreases n - i,
        {
            let ghost pre = input@.take(i as int);
            let (k, v) = read_entry(&input, i);
            let res = r.put(k, v);
            proof {
                assert(input@.take(i + 1).drop_last() =~= pre);
                assert(input@.take(i + 1).last() == input@[i as int]);
                assert(r.contents() == last_wins_map(input@.take(i + 1)));
            }
            i += 1;
        }
        proof {
            assert(input@.take(n as int) =~= input@);
        }
        r
    }

    /// Binds a key to a value, returning the prior value; the exact,
    /// error-free form of `set` for this backing.
    fn put(&mut self, key: K, value: V) -> (prior: Option<V>)
        requires
            old(self).inv(),
        ensures
            final(self).inv(),
            final(self).stable(),
            final(self).contents() == old(self).contents().insert(key@, value),
            match prior {
                Some(p) => old(self).contents().contains_key(key@) && p == old(self).contents()[key@],
                None => !old(self).contents().contains_key(key@),
            },
    {
        match self.find(&key) {
            Some(i) => {
                proof {
                    lemma_entry_at(self.entries@, i as int);
                    lemma_update_at(self.entries@, i as int, key, value);
                }
                let prior = self.entries[i].1.dup();
                let slot = &mut self.entries[i];
                *slot = (key, value);
                Some(prior)
            },
            None => {
                proof {
                    lemma_push(self.entries@, key, value);
                }
                self.entries.push((key, value));
                None
            },
        }
    }

    fn find(&self, key: &K) -> (r: Option<usize>)
        ensures
            match r {
                Some(i) => i < self.entries@.len() && self.entries@[i as int].0@ == key@,
                None => !holds_key(self.entries@, key@),
            },
    {
        let mut i: usize = 0;
        while i < self.entries.len()
            invariant
                i <= self.entries@.len(),
                forall|n: int| 0 <= n < i ==> self.entries@[n].0@ != key@,
            decreases self.entries@.len() - i,
        {
            if self.entries[i].0.key_eq(key) {
                return Some(i);
            }
            i += 1;
        }
        None
    }
}

/// The map described by a pair sequence when later pairs override earlier
/// ones, as when the pairs are inserted in order.
pub open spec fn last_wins_map<K: View, V>(s: Seq<(K, V)>) -> Map<<K as View>::V, V>
    decreases s.len(),
{
    if s.len() == 0 {
        Map::empty()
    } else {
        last_wins_map(s.drop_last()).insert(s.last().0@, s.last().1)
    }
}

/// Reads the entry at position `i` of a vector as an exact duplicate.
fn read_entry<K: CacheKey, V: CacheValue>(v: &Vec<(K, V)>, i: usize) -> (r: (K, V))
    requires
        i < v@.len(),
    ensures
        r == v@[i as int],
{
    let slot = &v[i];
    let k = slot.0.key_dup();
    let val = slot.1.dup();
    (k, val)
}

impl<K: CacheKey, V: CacheValue> CacheBacking<K, V> for HashMapBacking<K, V> {
    type Meta = NoMeta;

    closed spec fn inv(&self) -> bool {
        distinct_keys(self.entries@)
    }

    closed spec fn contents(&self) -> Map<<K as View>::V, V> {
        entry_map(self.entries@)
    }

    closed spec fn stable(&self) -> bool {
        true
    }

    closed spec fn reliable(&self) -> bool {
        true
    }

    fn swap_value(&mut self, key: &K, value: V, now: u64) -> (r: Result<
        Option<V>,
        BackingError,
    >) {
        match self.find(key) {
            Some(i) => {
                let ghost pre = self.entries@;
                proof {
                    lemma_entry_at(pre, i as int);
                    lemma_update_at(pre, i as int, pre[i as int].0, value);
                }
                let slot = &mut self.entries[i].1;
                let prior = slot.dup();
                *slot = value;
                Ok(Some(prior))
            },
            None => Ok(None),
        }
    }

    fn get(&mut self, key: &K, now: u64) -> (r: Result<Option<V>, BackingError>) {
        match self.find(key) {
            Some(i) => {
                proof {
                    lemma_entry_at(self.entries@, i as int);
                }
                Ok(Some(self.entries[i].1.dup()))
            },
            None => Ok(None),
        }
    }

    fn set(&mut self, key: K, value: V, meta: Option<NoMeta>, now: u64) -> (r: Result<
        Option<V>,
        BackingError,
    >) {
        Ok(self.put(key, value))
    }

    fn remove(&mut self, key: &K, now: u64) -> (r: Result<Option<V>, BackingError>) {
        match self.find(key) {
            Some(i) => {
                proof {
                    lemma_entry_at(self.entries@, i as int);
                    lemma_remove_at(self.entries@, i as int);
                }
                let (k0, v0) = self.entries.remove(i);
                Ok(Some(v0))
            },
            None => Ok(None),
        }
    }

    fn contains_key(&mut self, key: &K, now: u64) -> (r: Result<bool, BackingError>) {
        match self.find(key) {
            Some(i) => {
                proof {
                    lemma_entry_at(self.entries@, i as int);
                }
                Ok(true)
            },
            None => Ok(false),
        }
    }

    fn remove_if<P: Fn(K, V) -> bool>(&mut self, pred: P, now: u64) -> (r: Result<
        Vec<(K, V)>,
        BackingError,
    >) {
        let ghost orig = self.entries@;
        let removed = partition_entries(&mut self.entries, pred);
        proof {
            assert forall|j: <K as View>::V|
                self.contents().contains_key(j) implies entry_map(orig).contains_key(j)
                && self.contents()[j] == entry_map(orig)[j] && !holds_key(removed@, j) by {
                lemma_entry_at(self.entries@, key_index(self.entries@, j));
            }
            assert forall|j: <K as View>::V|
                entry_map(orig).contains_key(j) implies self.contents().contains_key(j)
                || holds_key(removed@, j) by {
                lemma_holds_iff(orig, j);
                lemma_holds_iff(self.entries@, j);
            }
            let rset = Set::new(|j: <K as View>::V| holds_key(removed@, j));
            assert(entry_map(orig).remove_keys(rset).submap_of(self.contents())) by {
                assert forall|j: <K as View>::V|
                    #[trigger] entry_map(orig).remove_keys(rset).contains_key(
                        j,
                    ) implies self.contents().contains_key(j) && entry_map(orig).remove_keys(
                    rset,
                )[j] == self.contents()[j] by {
                    assert(entry_map(orig).contains_key(j) && !holds_key(removed@, j));
                    lemma_holds_iff(orig, j);
                    lemma_holds_iff(self.entries@, j);
                }
            }
            assert forall|j: <K as View>::V| self.contents().contains_key(j) implies exists|
                k: K,
                v: V,
            |
                k@ == j && v == entry_map(orig)[j] && call_ensures(pred, (k, v), false) by {
                let i = key_index(self.entries@, j);
                lemma_entry_at(self.entries@, i);
                assert(self.entries@[i].0@ == j && self.entries@[i].1 == entry_map(orig)[j]
                    && call_ensures(pred, (self.entries@[i].0, self.entries@[i].1), false));
            }
        }
        Ok(removed)
    }

    fn clear(&mut self, now: u64) -> (r: Result<(), BackingError>) {
        self.entries = Vec::new();
        proof {
            lemma_empty::<K, V>();
        }
        Ok(())
    }
}

} // verus!
