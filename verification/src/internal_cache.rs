//! The cache engine: the single logical owner of a backing that services
//! one request at a time and implements the single-flight protocol.
//!
//! Each method is one serialized state transition on the key space. An
//! absent key looked up with `get` installs a `Loading` entry and asks
//! the runtime to run the loader; a key already loading is joined, never
//! loaded twice. A loader's commit arrives as `set` with the
//! `loading_result` flag, and is rejected whenever a user mutation or a
//! removal won the race — user input always takes precedence over a
//! concurrent loader.
//!
//! The exact transition each method performs on a backing that never
//! drops entries of its own accord is stated through the `apply_*` and
//! `get_transition` functions; on an evicting backing the same clauses
//! hold up to the backing's policy.

use vstd::prelude::*;
use core::marker::PhantomData;
use crate::assoc::holds_key;
use crate::assoc::lemma_remove_exact;
use crate::assoc::lemma_set_insert;
use crate::assoc::lemma_submap_point;
use crate::backing::CacheBacking;
use crate::cache_api::entry_value;
use crate::cache_api::CacheEntry;
use crate::cache_api::CacheResult;
use crate::cache_api::PendingWork;
use crate::keys::CacheKey;
use crate::keys::CacheValue;

verus! {

/// The value resident for a key, if any.
pub open spec fn found_value<J, V>(m: Map<J, CacheEntry<V>>, j: J) -> Option<V> {
    if m.contains_key(j) {
        entry_value(m[j])
    } else {
        None
    }
}

/// The transition of an unconditional user set: the key is bound to the
/// value, whatever was there before.
pub open spec fn apply_set<J, V>(m: Map<J, CacheEntry<V>>, j: J, v: V) -> Map<J, CacheEntry<V>> {
    m.insert(j, CacheEntry::Loaded(v))
}

/// The transition of a loader's commit: the value is installed only when
/// the key still carries the loading entry; a user set that raced ahead,
/// or a removal, leaves the map unchanged — user input wins.
pub open spec fn apply_set_unblock<J, V>(m: Map<J, CacheEntry<V>>, j: J, v: V) -> Map<
    J,
    CacheEntry<V>,
> {
    if m.contains_key(j) && m[j] is Loading {
        m.insert(j, CacheEntry::Loaded(v))
    } else {
        m
    }
}

/// The transition of a failing loader's unblock: the loading entry is
/// removed; a loaded entry (a user set won the race) is left alone.
pub open spec fn apply_unblock<J, V>(m: Map<J, CacheEntry<V>>, j: J) -> Map<J, CacheEntry<V>> {
    if m.contains_key(j) && m[j] is Loading {
        m.remove(j)
    } else {
        m
    }
}

/// The transition of a removal.
pub open spec fn apply_remove<J, V>(m: Map<J, CacheEntry<V>>, j: J) -> Map<J, CacheEntry<V>> {
    m.remove(j)
}

/// The transition and answer of a lookup that loads on a miss: a
/// resident value is found, an in-flight load is joined through its
/// announcer, and a miss installs a loading entry under a fresh
/// announcer and asks for the loader to be run.
pub open spec fn get_transition<J, V>(m: Map<J, CacheEntry<V>>, j: J, fresh: u64) -> (
    Map<J, CacheEntry<V>>,
    CacheResult<V>,
) {
    if m.contains_key(j) {
        match m[j] {
            CacheEntry::Loaded(v) => (m, CacheResult::Found(v)),
            CacheEntry::Loading(a) => (m, CacheResult::Loading(PendingWork::Subscribe(a))),
        }
    } else {
        (
            m.insert(j, CacheEntry::Loading(fresh)),
            CacheResult::Loading(PendingWork::Load(fresh)),
        )
    }
}

/// The engine: the exclusive owner of a backing holding cache entries,
/// plus the counter that names fresh announcers.
pub struct InternalCacheStore<K: CacheKey, V: CacheValue, B: CacheBacking<K, CacheEntry<V>>> {
    phantom: PhantomData<(K, V)>,
    data: B,
    next_announcer: u64,
}

impl<K: CacheKey, V: CacheValue, B: CacheBacking<K, CacheEntry<V>>> InternalCacheStore<K, V, B> {
    /// The key-to-entry map the engine currently holds.
    pub closed spec fn entries(&self) -> Map<<K as View>::V, CacheEntry<V>> {
        self.data.contents()
    }

    /// The engine's invariant: its backing's invariant.
    pub closed spec fn inv(&self) -> bool {
        self.data.inv()
    }

    /// Whether the backing never drops entries of its own accord.
    pub closed spec fn stable(&self) -> bool {
        self.data.stable()
    }

    /// Whether the backing never reports a structural failure.
    pub closed spec fn reliable(&self) -> bool {
        self.data.reliable()
    }

    /// The identifier the next fresh announcer will get.
    pub closed spec fn next_id(&self) -> u64 {
        self.next_announcer
    }

    /// Creates an engine owning the given backing.
    pub fn new(backing: B) -> (r: InternalCacheStore<K, V, B>)
        requires
            backing.inv(),
        ensures
            r.inv(),
            r.stable() == backing.stable(),
            r.reliable() == backing.reliable(),
            r.entries() == backing.contents(),
            r.next_id() == 0,
    {
        InternalCacheStore { phantom: PhantomData, data: backing, next_announcer: 0 }
    }

    /// Looks a key up without loading: a resident value is found, a
    /// loading or absent key is simply absent.
    pub fn get_if_present(&mut self, key: K, now: u64) -> (r: CacheResult<V>)
        requires
            old(self).inv(),
        ensures
            final(self).inv(),
            final(self).stable() == old(self).stable(),
            final(self).reliable() == old(self).reliable(),
            final(self).next_id() == old(self).next_id(),
            old(self).reliable() ==> !(r is Error),
            !(r is Error) ==> final(self).entries().submap_of(old(self).entries()),
            match r {
                CacheResult::Found(v) => old(self).entries().contains_key(key@) && old(self).entries()[key@] == CacheEntry::Loaded(v),
                CacheResult::Absent => true,
                CacheResult::Error(_) => true,
                _ => false,
            },
            old(self).stable() && !(r is Error) ==> final(self).entries() == old(self).entries()
                && (match found_value(old(self).entries(), key@) {
                Some(v) => r == CacheResult::Found(v),
                None => r is Absent,
            }),
    {
        let res = self.data.get(&key, now);
        match res {
            Ok(opt) => match opt {
                Some(entry) => match entry {
                    CacheEntry::Loaded(v) => {
                        proof {
                            lemma_submap_point(self.data.contents(), old(self).data.contents(), key@);
                        }
                        CacheResult::Found(v)
                    },
                    CacheEntry::Loading(_) => CacheResult::Absent,
                },
                None => CacheResult::Absent,
            },
            Err(e) => CacheResult::Error(e),
        }
    }

    /// Looks a key up, loading on a miss: the single-flight protocol. A
    /// resident value is found; a key already loading is joined through
    /// its announcer — a second loader is never started; a miss installs
    /// a loading entry under a fresh announcer and asks for the loader.
    pub fn get(&mut self, key: K, now: u64) -> (r: CacheResult<V>)
        requires
            old(self).inv(),
        ensures
            final(self).inv(),
            final(self).stable() == old(self).stable(),
            final(self).reliable() == old(self).reliable(),
            old(self).reliable() ==> !(r is Error),
            match r {
                CacheResult::Found(v) => old(self).entries().contains_key(key@) && old(self).entries()[key@] == CacheEntry::Loaded(v) && final(self).entries().submap_of(
                    old(self).entries(),
                ) && final(self).next_id() == old(self).next_id(),
                CacheResult::Loading(w) => match w {
                    PendingWork::Subscribe(a) => old(self).entries().contains_key(key@) && old(self).entries()[key@] == CacheEntry::<V>::Loading(a) && final(self).entries().submap_of(old(self).entries()) && final(self).next_id() == old(self).next_id(),
                    PendingWork::Load(a) => a == old(self).next_id() && final(self).entries().contains_key(key@) && final(self).entries()[key@]
                        == CacheEntry::<V>::Loading(a) && final(self).next_id() == (
                    if old(self).next_id() == u64::MAX {
                        0
                    } else {
                        (old(self).next_id() + 1) as u64
                    }),
                },
                CacheResult::Error(_) => true,
                _ => false,
            },
            old(self).stable() && !(r is Error) ==> {
                let step = get_transition(old(self).entries(), key@, old(self).next_id());
                final(self).entries() == step.0 && r == step.1
            },
    {
        let res = self.data.get(&key, now);
        match res {
            Ok(opt) => match opt {
                Some(entry) => match entry {
                    CacheEntry::Loaded(v) => {
                        proof {
                            lemma_submap_point(self.data.contents(), old(self).data.contents(), key@);
                        }
                        CacheResult::Found(v)
                    },
                    CacheEntry::Loading(a) => {
                        proof {
                            lemma_submap_point(self.data.contents(), old(self).data.contents(), key@);
                        }
                        CacheResult::Loading(PendingWork::Subscribe(a))
                    },
                },
                None => {
                    let id = self.next_announcer;
                    self.next_announcer = if id == u64::MAX {
                        0
                    } else {
                        id + 1
                    };
                    let set_res = self.data.set(key, CacheEntry::Loading(id), None, now);
                    match set_res {
                        Ok(_) => {
                            proof {
                                if old(self).stable() {
                                    lemma_set_insert(
                                        old(self).data.contents(),
                                        self.data.contents(),
                                        key@,
                                        CacheEntry::Loading(id),
                                    );
                                }
                            }
                            CacheResult::Loading(PendingWork::Load(id))
                        },
                        Err(e) => CacheResult::Error(e),
                    }
                },
            },
            Err(e) => CacheResult::Error(e),
        }
    }

    /// Binds a key to a value. A user set (`loading_result` false) always
    /// wins: it overwrites whatever is there and returns the prior
    /// resident value. A loader's commit (`loading_result` true) is
    /// aborted when the key is absent — it was removed during the load —
    /// or already resident — a user mutation raced ahead; user input
    /// takes precedence over a concurrent loader.
    pub fn set(&mut self, key: K, value: V, loading_result: bool, meta: Option<B::Meta>, now: u64) -> (r:
        CacheResult<V>)
        requires
            old(self).inv(),
        ensures
            final(self).inv(),
            final(self).stable() == old(self).stable(),
            final(self).reliable() == old(self).reliable(),
            final(self).next_id() == old(self).next_id(),
            old(self).reliable() ==> !(r is Error),
            !(r is Loading) && !(r is Retry),
            old(self).stable() && !(r is Error) ==> {
                let m = old(self).entries();
                if loading_result {
                    // a loader's commit never answers a value; whether it was
                    // applied shows in the transition alone
                    final(self).entries() == apply_set_unblock(m, key@, value) && r is Absent
                } else {
                    final(self).entries() == apply_set(m, key@, value) && (match found_value(
                        m,
                        key@,
                    ) {
                        Some(p) => r == CacheResult::Found(p),
                        None => r is Absent,
                    })
                }
            },
    {
        let res = self.data.get(&key, now);
        let opt_entry = match res {
            Ok(o) => o,
            Err(e) => {
                return CacheResult::Error(e);
            },
        };
        if loading_result {
            match &opt_entry {
                None => {
                    // abort: the key was removed while the load ran
                    return CacheResult::Absent;
                },
                Some(e) => match e {
                    CacheEntry::Loaded(_) => {
                        // abort: a user mutation raced ahead and wins
                        proof {
                            lemma_submap_point(
                                self.data.contents(),
                                old(self).data.contents(),
                                key@,
                            );
                        }
                        return CacheResult::Absent;
                    },
                    CacheEntry::Loading(_) => {},
                },
            }
        }
        proof {
            if opt_entry is Some {
                lemma_submap_point(self.data.contents(), old(self).data.contents(), key@);
            }
        }
        let set_res = self.data.set(key, CacheEntry::Loaded(value), meta, now);
        match set_res {
            Ok(prior) => {
                proof {
                    if old(self).stable() {
                        lemma_set_insert(
                            old(self).data.contents(),
                            self.data.contents(),
                            key@,
                            CacheEntry::Loaded(value),
                        );
                    }
                }
                match prior {
                    Some(p) => match p {
                        CacheEntry::Loaded(d) => CacheResult::Found(d),
                        CacheEntry::Loading(_) => CacheResult::Absent,
                    },
                    None => CacheResult::Absent,
                }
            },
            Err(e) => CacheResult::Error(e),
        }
    }

    /// Discards the loading entry of a failed load. A loaded entry — a
    /// user set won the race — is left alone.
    pub fn unblock(&mut self, key: K, now: u64) -> (r: CacheResult<V>)
        requires
            old(self).inv(),
        ensures
            final(self).inv(),
            final(self).stable() == old(self).stable(),
            final(self).reliable() == old(self).reliable(),
            final(self).next_id() == old(self).next_id(),
            old(self).reliable() ==> !(r is Error),
            !(r is Loading) && !(r is Retry) && !(r is Found),
            old(self).stable() && !(r is Error) ==> final(self).entries() == apply_unblock(
                old(self).entries(),
                key@,
            ),
    {
        let res = self.data.get(&key, now);
        match res {
            Ok(opt) => match opt {
                Some(entry) => match entry {
                    CacheEntry::Loading(_) => {
                        proof {
                            lemma_submap_point(
                                self.data.contents(),
                                old(self).data.contents(),
                                key@,
                            );
                        }
                        let rem = self.data.remove(&key, now);
                        match rem {
                            Ok(_) => {
                                proof {
                                    if old(self).stable() {
                                        lemma_remove_exact(
                                            old(self).data.contents(),
                                            self.data.contents(),
                                            key@,
                                        );
                                    }
                                }
                                CacheResult::Absent
                            },
                            Err(e) => CacheResult::Error(e),
                        }
                    },
                    CacheEntry::Loaded(_) => {
                        proof {
                            lemma_submap_point(
                                self.data.contents(),
                                old(self).data.contents(),
                                key@,
                            );
                        }
                        CacheResult::Absent
                    },
                },
                None => CacheResult::Absent,
            },
            Err(e) => CacheResult::Error(e),
        }
    }

    /// Removes a key, answering with the prior resident value. A removed
    /// loading entry leaves its loader running; the loader's later commit
    /// will find the key absent and abort.
    pub fn remove(&mut self, key: K, now: u64) -> (r: CacheResult<V>)
        requires
            old(self).inv(),
        ensures
            final(self).inv(),
            final(self).stable() == old(self).stable(),
            final(self).reliable() == old(self).reliable(),
            final(self).next_id() == old(self).next_id(),
            old(self).reliable() ==> !(r is Error),
            !(r is Loading) && !(r is Retry),
            old(self).stable() && !(r is Error) ==> {
                final(self).entries() == apply_remove(old(self).entries(), key@) && (match
                    found_value(old(self).entries(), key@) {
                    Some(v) => r == CacheResult::Found(v),
                    None => r is Absent,
                })
            },
    {
        let res = self.data.remove(&key, now);
        match res {
            Ok(prior) => {
                proof {
                    if old(self).stable() {
                        lemma_remove_exact(old(self).data.contents(), self.data.contents(), key@);
                    }
                }
                match prior {
                    Some(p) => match p {
                        CacheEntry::Loaded(d) => CacheResult::Found(d),
                        CacheEntry::Loading(_) => CacheResult::Absent,
                    },
                    None => CacheResult::Absent,
                }
            },
            Err(e) => CacheResult::Error(e),
        }
    }

    /// Removes every entry the predicate selects. A resident entry shows
    /// the predicate its value, a loading entry shows `None`; removing a
    /// loading entry behaves as `remove` does. The reply carries no data.
    pub fn remove_if<P: Fn(K, Option<V>) -> bool>(&mut self, pred: P, now: u64) -> (r: CacheResult<
        V,
    >)
        requires
            old(self).inv(),
            forall|k: K, ov: Option<V>| #[trigger] call_requires(pred, (k, ov)),
        ensures
            final(self).inv(),
            final(self).stable() == old(self).stable(),
            final(self).reliable() == old(self).reliable(),
            final(self).next_id() == old(self).next_id(),
            old(self).reliable() ==> !(r is Error),
            r is Absent || r is Error,
            !(r is Error) ==> final(self).entries().submap_of(old(self).entries()),
            old(self).stable() && !(r is Error) ==> forall|j: <K as View>::V|
                #[trigger] final(self).entries().contains_key(j) ==> exists|k: K|
                    k@ == j && call_ensures(
                        pred,
                        (k, entry_value(old(self).entries()[j])),
                        false,
                    ),
            old(self).stable() && !(r is Error) ==> forall|j: <K as View>::V|
                #[trigger] old(self).entries().contains_key(j) && !final(self).entries().contains_key(j) ==> exists|k: K|
                    k@ == j && call_ensures(
                        pred,
                        (k, entry_value(old(self).entries()[j])),
                        true,
                    ),
    {
        let pred_ref = &pred;
        let lifted = |k: K, e: CacheEntry<V>| -> (b: bool)
            requires
                call_requires(pred_ref, (k, entry_value(e))),
            ensures
                call_ensures(pred_ref, (k, entry_value(e)), b),
            {
                match e {
                    CacheEntry::Loaded(v) => pred_ref(k, Some(v)),
                    CacheEntry::Loading(_) => pred_ref(k, None),
                }
            };
        let res = self.data.remove_if(lifted, now);
        match res {
            Ok(removed) => {
                proof {
                    assert forall|j: <K as View>::V|
                        old(self).stable() && #[trigger] self.data.contents().contains_key(
                            j,
                        ) implies exists|k: K|
                        k@ == j && call_ensures(
                            pred,
                            (k, entry_value(old(self).data.contents()[j])),
                            false,
                        ) by {
                        lemma_submap_point(self.data.contents(), old(self).data.contents(), j);
                        let (k, v): (K, CacheEntry<V>) = choose|k: K, v: CacheEntry<V>|
                            k@ == j && v == old(self).data.contents()[j] && call_ensures(
                                lifted,
                                (k, v),
                                false,
                            );
                        assert(call_ensures(pred, (k, entry_value(old(self).data.contents()[j])), false));
                    }
                    assert forall|j: <K as View>::V|
                        old(self).stable() && #[trigger] old(self).data.contents().contains_key(
                            j,
                        ) && !self.data.contents().contains_key(j) implies exists|k: K|
                        k@ == j && call_ensures(
                            pred,
                            (k, entry_value(old(self).data.contents()[j])),
                            true,
                        ) by {
                        let rset = Set::new(|x: <K as View>::V| holds_key(removed@, x));
                        if !rset.contains(j) {
                            assert(old(self).data.contents().remove_keys(rset).contains_key(j));
                            lemma_submap_point(
                                old(self).data.contents().remove_keys(rset),
                                self.data.contents(),
                                j,
                            );
                        }
                        assert(holds_key(removed@, j));
                        let i = choose|i: int| 0 <= i < removed@.len() && removed@[i].0@ == j;
                        assert(removed@[i].1 == old(self).data.contents()[j]);
                        assert(call_ensures(lifted, (removed@[i].0, removed@[i].1), true));
                        assert(call_ensures(
                            pred,
                            (removed@[i].0, entry_value(removed@[i].1)),
                            true,
                        ));
                    }
                }
                CacheResult::Absent
            },
            Err(e) => CacheResult::Error(e),
        }
    }

    /// Empties the cache. In-flight loaders will find their keys absent
    /// when they commit, and abort.
    pub fn clear(&mut self, now: u64) -> (r: CacheResult<V>)
        requires
            old(self).inv(),
        ensures
            final(self).inv(),
            final(self).stable() == old(self).stable(),
            final(self).reliable() == old(self).reliable(),
            final(self).next_id() == old(self).next_id(),
            old(self).reliable() ==> !(r is Error),
            r is Absent || r is Error,
            r is Absent ==> final(self).entries() == Map::<<K as View>::V, CacheEntry<V>>::empty(),
    {
        let res = self.data.clear(now);
        match res {
            Ok(_) => CacheResult::Absent,
            Err(e) => CacheResult::Error(e),
        }
    }

    /// Updates a key with a value-to-value function, loading it first
    /// when asked and absent. A resident value is replaced by the
    /// function's result, stored with the given policy input, and the new
    /// value is answered. A key in flight asks the runtime to retry after
    /// the load; the unconsumed function travels back with the answer.
    pub fn update<F: FnOnce(V) -> V>(
        &mut self,
        key: K,
        f: F,
        load: bool,
        meta: Option<B::Meta>,
        now: u64,
    ) -> (r: (CacheResult<V>, Option<F>))
        requires
            old(self).inv(),
            forall|v: V| #[trigger] call_requires(f, (v,)),
        ensures
            final(self).inv(),
            final(self).stable() == old(self).stable(),
            final(self).reliable() == old(self).reliable(),
            old(self).reliable() ==> !(r.0 is Error),
            old(self).stable() && !(r.0 is Error) ==> {
                let m = old(self).entries();
                if m.contains_key(key@) && m[key@] is Loaded {
                    // the resident value is updated: the answer is the
                    // function's result and the entry now holds it
                    r.0 matches CacheResult::Found(nv) && call_ensures(
                        f,
                        (entry_value(m[key@])->Some_0,),
                        nv,
                    ) && final(self).entries() == apply_set(m, key@, nv) && r.1 is None
                } else if load && m.contains_key(key@) {
                    r.0 == CacheResult::<V>::Retry(
                        PendingWork::Subscribe(m[key@]->Loading_0),
                    ) && final(self).entries() == m && r.1 == Some(f)
                } else if load {
                    r.0 == CacheResult::<V>::Retry(PendingWork::Load(old(self).next_id())) && final(self).entries() == m.insert(key@, CacheEntry::Loading(old(self).next_id()))
                        && r.1 == Some(f) && final(self).next_id() == (
                    if old(self).next_id() == u64::MAX {
                        0
                    } else {
                        (old(self).next_id() + 1) as u64
                    })
                } else {
                    r.0 is Absent && final(self).entries() == m && r.1 == Some(f)
                }
            },
    {
        let lookup = if load {
            self.get(key.key_dup(), now)
        } else {
            self.get_if_present(key.key_dup(), now)
        };
        match lookup {
            CacheResult::Found(v) => {
                let nv = f(v);
                let stored = nv.dup();
                let set_res = self.data.set(key, CacheEntry::Loaded(stored), meta, now);
                match set_res {
                    Ok(_) => {
                        proof {
                            if old(self).stable() {
                                lemma_set_insert(
                                    old(self).data.contents(),
                                    self.data.contents(),
                                    key@,
                                    CacheEntry::Loaded(nv),
                                );
                            }
                        }
                        (CacheResult::Found(nv), None)
                    },
                    Err(e) => (CacheResult::Error(e), None),
                }
            },
            CacheResult::Loading(w) => (CacheResult::Retry(w), Some(f)),
            CacheResult::Absent => (CacheResult::Absent, Some(f)),
            CacheResult::Error(e) => (CacheResult::Error(e), Some(f)),
            CacheResult::Retry(w) => {
                proof {
                    assert(false);
                }
                (CacheResult::Retry(w), Some(f))
            },
        }
    }

    /// Updates a key in place with a value-to-value function, preserving
    /// the entry's policy state (its deadline, its recency is promoted as
    /// by a read). Loads first when asked and absent; a key in flight
    /// asks the runtime to retry after the load.
    pub fn update_mut<F: FnOnce(V) -> V>(&mut self, key: K, f: F, load: bool, now: u64) -> (r: (
        CacheResult<V>,
        Option<F>,
    ))
        requires
            old(self).inv(),
            forall|v: V| #[trigger] call_requires(f, (v,)),
        ensures
            final(self).inv(),
            final(self).stable() == old(self).stable(),
            final(self).reliable() == old(self).reliable(),
            old(self).reliable() ==> !(r.0 is Error),
            old(self).stable() && !(r.0 is Error) ==> {
                let m = old(self).entries();
                if m.contains_key(key@) && m[key@] is Loaded {
                    r.0 matches CacheResult::Found(nv) && call_ensures(
                        f,
                        (entry_value(m[key@])->Some_0,),
                        nv,
                    ) && final(self).entries() == apply_set(m, key@, nv) && r.1 is None
                } else if m.contains_key(key@) {
                    r.0 == CacheResult::<V>::Retry(
                        PendingWork::Subscribe(m[key@]->Loading_0),
                    ) && final(self).entries() == m && r.1 == Some(f)
                } else if load {
                    r.0 == CacheResult::<V>::Retry(PendingWork::Load(old(self).next_id())) && final(self).entries() == m.insert(key@, CacheEntry::Loading(old(self).next_id()))
                        && r.1 == Some(f) && final(self).next_id() == (
                    if old(self).next_id() == u64::MAX {
                        0
                    } else {
                        (old(self).next_id() + 1) as u64
                    })
                } else {
                    r.0 is Absent && final(self).entries() == m && r.1 == Some(f)
                }
            },
    {
        let res = self.data.get(&key, now);
        let cur = match res {
            Ok(o) => o,
            Err(e) => {
                return (CacheResult::Error(e), Some(f));
            },
        };
        match cur {
            Some(entry) => match entry {
                CacheEntry::Loaded(v) => {
                    proof {
                        lemma_submap_point(self.data.contents(), old(self).data.contents(), key@);
                    }
                    let nv = f(v);
                    let stored = nv.dup();
                    let swap_res = self.data.swap_value(&key, CacheEntry::Loaded(stored), now);
                    match swap_res {
                        Ok(_) => {
                            proof {
                                if old(self).stable() {
                                    assert forall|j: <K as View>::V|
                                        j != key@ && #[trigger] self.data.contents().contains_key(
                                            j,
                                        ) implies old(self).data.contents().contains_key(j)
                                        && self.data.contents()[j] == old(self).data.contents()[j] by {
                                        assert(self.data.contents().remove(key@).contains_key(j));
                                        lemma_submap_point(
                                            self.data.contents().remove(key@),
                                            old(self).data.contents().remove(key@),
                                            j,
                                        );
                                    }
                                    assert forall|j: <K as View>::V|
                                        j != key@ && #[trigger] old(self).data.contents().contains_key(
                                            j,
                                        ) implies self.data.contents().contains_key(j) by {
                                        assert(old(self).data.contents().remove(
                                            key@,
                                        ).contains_key(j));
                                        lemma_submap_point(
                                            old(self).data.contents().remove(key@),
                                            self.data.contents().remove(key@),
                                            j,
                                        );
                                    }
                                    assert(self.data.contents() =~= old(self).data.contents().insert(key@, CacheEntry::Loaded(nv)));
                                }
                            }
                            (CacheResult::Found(nv), None)
                        },
                        Err(e) => (CacheResult::Error(e), None),
                    }
                },
                CacheEntry::Loading(a) => {
                    proof {
                        lemma_submap_point(self.data.contents(), old(self).data.contents(), key@);
                    }
                    (CacheResult::Retry(PendingWork::Subscribe(a)), Some(f))
                },
            },
            None => {
                if load {
                    let inner = self.get(key, now);
                    match inner {
                        CacheResult::Loading(w) => (CacheResult::Retry(w), Some(f)),
                        CacheResult::Found(v) => (CacheResult::Found(v), Some(f)),
                        CacheResult::Error(e) => (CacheResult::Error(e), Some(f)),
                        CacheResult::Absent => (CacheResult::Absent, Some(f)),
                        CacheResult::Retry(w) => {
                            proof {
                                assert(false);
                            }
                            (CacheResult::Retry(w), Some(f))
                        },
                    }
                } else {
                    (CacheResult::Absent, Some(f))
                }
            },
        }
    }
}

} // verus!
