//! The time-to-live backing: an inner store of value-deadline pairs plus
//! a deadline-ordered expiry index.
//!
//! Every mutating operation first performs a lazy sweep, popping the head
//! of the expiry index while its deadline has passed and removing the
//! matching entries from the inner store. The index and the store are
//! kept in lockstep: they bind exactly the same keys, each index record
//! carries the deadline stored with its entry, and the index is sorted by
//! deadline. Losing that lockstep is the one structural failure the
//! backing can report; under the invariant those reports are proved
//! unreachable.

use vstd::prelude::*;
use core::marker::PhantomData;
use crate::assoc::distinct_keys;
use crate::assoc::entry_map;
use crate::assoc::holds_key;
use crate::assoc::key_index;
use crate::assoc::lemma_empty;
use crate::assoc::lemma_entry_at;
use crate::assoc::lemma_holds_iff;
use crate::assoc::lemma_insert_at;
use crate::assoc::lemma_remove_at;
use crate::assoc::lemma_submap_point;
use crate::backing::BackingError;
use crate::backing::CacheBacking;
use crate::backing::HashMapBacking;
use crate::backing::TtlError;
use crate::keys::CacheKey;
use crate::keys::CacheValue;

verus! {

/// Per-entry policy input of the time-to-live backing: an override for
/// the default time to live, in milliseconds.
#[derive(Copy, Clone, Debug)]
pub struct TtlMeta {
    pub ttl: u64,
}

/// Whether the records of an expiry index are ordered by deadline.
pub open spec fn sorted_by_deadline<K: View>(s: Seq<(K, u64)>) -> bool {
    forall|a: int, b: int| 0 <= a <= b < s.len() ==> s[a].1 <= s[b].1
}

/// The sum of a time and a span, saturating at the largest representable
/// time.
pub open spec fn deadline_of(now: u64, ttl: u64) -> u64 {
    if now + ttl <= u64::MAX {
        (now + ttl) as u64
    } else {
        u64::MAX
    }
}

/// The restriction of a value-deadline map to the entries whose deadline
/// lies strictly in the future.
pub open spec fn unexpired<J, V>(m: Map<J, (V, u64)>, now: u64) -> Map<J, (V, u64)> {
    Map::new(|j: J| m.contains_key(j) && m[j].1 > now, |j: J| m[j])
}

/// A store that expires entries a fixed (or per-entry) time after they
/// were bound.
pub struct TtlCacheBacking<K: CacheKey, V: CacheValue, B: CacheBacking<K, (V, u64)>> {
    phantom: PhantomData<V>,
    ttl: u64,
    expiry_queue: Vec<(K, u64)>,
    map: B,
}

impl<K: CacheKey, V: CacheValue> TtlCacheBacking<K, V, HashMapBacking<K, (V, u64)>> {
    /// Creates a store with the given default time to live over the
    /// default inner backing.
    pub fn new(ttl: u64) -> (r: TtlCacheBacking<K, V, HashMapBacking<K, (V, u64)>>)
        ensures
            r.inv(),
            !r.stable(),
            r.reliable(),
            r.contents() == Map::<<K as View>::V, V>::empty(),
            r.raw() == Map::<<K as View>::V, (V, u64)>::empty(),
            r.default_ttl() == ttl,
    {
        TtlCacheBacking::with_backing(ttl, HashMapBacking::new())
    }
}

impl<K: CacheKey, V: CacheValue, B: CacheBacking<K, (V, u64)>> TtlCacheBacking<K, V, B> {
    /// The expiry index: key and deadline records, sorted by deadline.
    pub closed spec fn expiry_seq(&self) -> Seq<(K, u64)> {
        self.expiry_queue@
    }

    /// The deadline each live key expires at.
    pub closed spec fn deadlines(&self) -> Map<<K as View>::V, u64> {
        entry_map(self.expiry_queue@)
    }

    /// The inner store's map of value-deadline pairs.
    pub closed spec fn raw(&self) -> Map<<K as View>::V, (V, u64)> {
        self.map.contents()
    }

    /// The time to live applied when a binding carries no override.
    pub closed spec fn default_ttl(&self) -> u64 {
        self.ttl
    }

    /// The invariant tying the expiry index to the inner store.
    closed spec fn wf(&self) -> bool {
        &&& self.map.inv()
        &&& self.map.stable()
        &&& self.map.reliable()
        &&& distinct_keys(self.expiry_queue@)
        &&& sorted_by_deadline(self.expiry_queue@)
        &&& forall|j: <K as View>::V| #![auto]
            entry_map(self.expiry_queue@).contains_key(j) <==> self.map.contents().contains_key(j)
        &&& forall|j: <K as View>::V| #![auto]
            self.map.contents().contains_key(j) ==> entry_map(self.expiry_queue@)[j]
                == self.map.contents()[j].1
    }

    /// Creates a store over the given empty inner backing.
    pub fn with_backing(ttl: u64, backing: B) -> (r: TtlCacheBacking<K, V, B>)
        requires
            backing.inv(),
            backing.stable(),
            backing.reliable(),
            backing.contents() == Map::<<K as View>::V, (V, u64)>::empty(),
        ensures
            r.inv(),
            !r.stable(),
            r.reliable(),
            r.contents() == Map::<<K as View>::V, V>::empty(),
            r.raw() == Map::<<K as View>::V, (V, u64)>::empty(),
            r.default_ttl() == ttl,
    {
        let r = TtlCacheBacking {
            phantom: PhantomData,
            ttl,
            expiry_queue: Vec::new(),
            map: backing,
        };
        proof {
            lemma_empty::<K, u64>();
            assert(r.contents() =~= Map::<<K as View>::V, V>::empty());
        }
        r
    }

    fn find_record(&self, key: &K) -> (r: Option<usize>)
        ensures
            match r {
                Some(i) => i < self.expiry_seq().len() && self.expiry_seq()[i as int].0@ == key@,
                None => !holds_key(self.expiry_seq(), key@),
            },
    {
        let mut i: usize = 0;
        while i < self.expiry_queue.len()
            invariant
                i <= self.expiry_queue@.len(),
                forall|n: int| 0 <= n < i ==> self.expiry_queue@[n].0@ != key@,
            decreases self.expiry_queue@.len() - i,
        {
            if self.expiry_queue[i].0.key_eq(key) {
                return Some(i);
            }
            i += 1;
        }
        None
    }

    /// Reports whether a key is bound and its deadline lies strictly in
    /// the future. This read never mutates the store.
    pub fn contains_live(&self, key: &K, now: u64) -> (b: bool)
        requires
            self.inv(),
        ensures
            b == (self.deadlines().contains_key(key@) && self.deadlines()[key@] > now),
    {
        match self.find_record(key) {
            Some(i) => {
                proof {
                    lemma_entry_at(self.expiry_queue@, i as int);
                }
                self.expiry_queue[i].1 > now
            },
            None => {
                proof {
                    lemma_holds_iff(self.expiry_queue@, key@);
                }
                false
            },
        }
    }

    /// Finds some record carrying the given deadline, by binary search.
    fn find_deadline(&self, expiry: u64) -> (r: Option<usize>)
        requires
            sorted_by_deadline(self.expiry_seq()),
        ensures
            match r {
                Some(i) => i < self.expiry_seq().len() && self.expiry_seq()[i as int].1 == expiry,
                None => forall|p: int|
                    0 <= p < self.expiry_seq().len() ==> self.expiry_seq()[p].1 != expiry,
            },
    {
        let mut lo: usize = 0;
        let mut hi: usize = self.expiry_queue.len();
        while lo < hi
            invariant
                lo <= hi <= self.expiry_queue@.len(),
                sorted_by_deadline(self.expiry_queue@),
                forall|p: int| 0 <= p < lo ==> self.expiry_queue@[p].1 < expiry,
                forall|p: int|
                    hi <= p < self.expiry_queue@.len() ==> self.expiry_queue@[p].1 > expiry,
            decreases hi - lo,
        {
            let mid = lo + (hi - lo) / 2;
            let d = self.expiry_queue[mid].1;
            if d < expiry {
                lo = mid + 1;
            } else if d > expiry {
                hi = mid;
            } else {
                return Some(mid);
            }
        }
        None
    }

    /// The first position whose deadline lies strictly after the given
    /// one: the insertion point that keeps records of equal deadline in
    /// arrival order.
    fn upper_bound(&self, expiry: u64) -> (i: usize)
        requires
            sorted_by_deadline(self.expiry_seq()),
        ensures
            i <= self.expiry_seq().len(),
            forall|a: int| 0 <= a < i ==> self.expiry_seq()[a].1 <= expiry,
            forall|a: int| i <= a < self.expiry_seq().len() ==> self.expiry_seq()[a].1 > expiry,
    {
        let mut lo: usize = 0;
        let mut hi: usize = self.expiry_queue.len();
        while lo < hi
            invariant
                lo <= hi <= self.expiry_queue@.len(),
                sorted_by_deadline(self.expiry_queue@),
                forall|p: int| 0 <= p < lo ==> self.expiry_queue@[p].1 <= expiry,
                forall|p: int|
                    hi <= p < self.expiry_queue@.len() ==> self.expiry_queue@[p].1 > expiry,
            decreases hi - lo,
        {
            let mid = lo + (hi - lo) / 2;
            if self.expiry_queue[mid].1 <= expiry {
                lo = mid + 1;
            } else {
                hi = mid;
            }
        }
        lo
    }

    /// Starting from some record with the sought deadline, finds the
    /// record of the sought key among the records sharing that deadline:
    /// first at the starting point, then scanning leftward, then
    /// rightward.
    fn expiry_index_on_key_eq(&self, idx: usize, expiry: u64, key: &K) -> (r: Option<usize>)
        requires
            sorted_by_deadline(self.expiry_seq()),
            distinct_keys(self.expiry_seq()),
            idx < self.expiry_seq().len(),
            self.expiry_seq()[idx as int].1 == expiry,
        ensures
            match r {
                Some(i) => i < self.expiry_seq().len() && self.expiry_seq()[i as int].0@ == key@
                    && self.expiry_seq()[i as int].1 == expiry,
                None => forall|p: int|
                    0 <= p < self.expiry_seq().len() ==> !(self.expiry_seq()[p].0@ == key@
                        && self.expiry_seq()[p].1 == expiry),
            },
    {
        let ghost q = self.expiry_queue@;
        let n = self.expiry_queue.len();
        if self.expiry_queue[idx].0.key_eq(key) {
            return Some(idx);
        }
        let mut pos: usize = idx;
        while pos > 0 && self.expiry_queue[pos - 1].1 == expiry
            invariant
                idx < q.len(),
                q == self.expiry_queue@,
                sorted_by_deadline(q),
                q[idx as int].1 == expiry,
                pos <= idx,
                forall|p: int| pos <= p < idx ==> q[p].1 == expiry && q[p].0@ != key@,
            decreases pos,
        {
            if self.expiry_queue[pos - 1].0.key_eq(key) {
                return Some(pos - 1);
            }
            pos -= 1;
        }
        proof {
            assert forall|p: int| 0 <= p < idx implies !(q[p].0@ == key@ && q[p].1 == expiry) by {
                if p < pos {
                    assert(pos > 0);
                    assert(q[pos - 1].1 != expiry);
                    assert(q[p].1 <= q[pos - 1].1);
                    assert(q[pos - 1].1 <= q[idx as int].1);
                }
            }
        }
        let mut pos2: usize = idx + 1;
        while pos2 < self.expiry_queue.len() && self.expiry_queue[pos2].1 == expiry
            invariant
                idx < q.len(),
                q == self.expiry_queue@,
                sorted_by_deadline(q),
                q[idx as int].1 == expiry,
                idx < pos2 <= q.len(),
                forall|p: int| idx < p < pos2 ==> q[p].1 == expiry && q[p].0@ != key@,
            decreases q.len() - pos2,
        {
            if self.expiry_queue[pos2].0.key_eq(key) {
                return Some(pos2);
            }
            pos2 += 1;
        }
        proof {
            assert forall|p: int| idx < p < q.len() implies !(q[p].0@ == key@ && q[p].1
                == expiry) by {
                if p >= pos2 {
                    assert(pos2 < q.len());
                    assert(q[pos2 as int].1 != expiry);
                    assert(q[idx as int].1 <= q[pos2 as int].1);
                    assert(q[pos2 as int].1 <= q[p].1);
                }
            }
        }
        None
    }

    /// Excises the expiry record of a replaced or removed entry. Because
    /// several keys may share a deadline, a binary search on the deadline
    /// is followed by a scan among the equal-deadline records. A miss at
    /// either step would mean the index lost track of the entry and is
    /// reported as a structural failure; under the invariant that cannot
    /// happen.
    fn cleanup_expiry(&mut self, entry: Option<(V, u64)>, key: &K) -> (r: Result<
        Option<V>,
        BackingError,
    >)
        requires
            distinct_keys(old(self).expiry_seq()),
            sorted_by_deadline(old(self).expiry_seq()),
            match entry {
                Some(p) => holds_key(old(self).expiry_seq(), key@) && entry_map(
                    old(self).expiry_seq(),
                )[key@] == p.1,
                None => true,
            },
        ensures
            final(self).map == old(self).map,
            final(self).ttl == old(self).ttl,
            distinct_keys(final(self).expiry_seq()),
            sorted_by_deadline(final(self).expiry_seq()),
            match entry {
                Some(p) => r == Ok::<Option<V>, BackingError>(Some(p.0)) && final(self).expiry_seq() == old(self).expiry_seq().remove(
                    key_index(old(self).expiry_seq(), key@),
                ) && entry_map(final(self).expiry_seq()) == entry_map(
                    old(self).expiry_seq(),
                ).remove(key@),
                None => r == Ok::<Option<V>, BackingError>(None) && *final(self) == *old(self),
            },
    {
        match entry {
            Some((value, old_expiry)) => {
                let ghost q = self.expiry_queue@;
                let ghost ki = key_index(q, key@);
                proof {
                    lemma_entry_at(q, ki);
                }
                match self.find_deadline(old_expiry) {
                    Some(found) => {
                        let index = self.expiry_index_on_key_eq(found, old_expiry, key);
                        match index {
                            Some(index) => {
                                proof {
                                    lemma_entry_at(q, index as int);
                                    assert(index as int == ki);
                                    lemma_remove_at(q, index as int);
                                    assert forall|a: int, b: int|
                                        0 <= a <= b < q.remove(index as int).len() implies q.remove(
                                        index as int,
                                    )[a].1 <= q.remove(index as int)[b].1 by {
                                        let a0 = if a < index {
                                            a
                                        } else {
                                            a + 1
                                        };
                                        let b0 = if b < index {
                                            b
                                        } else {
                                            b + 1
                                        };
                                        assert(q[a0].1 <= q[b0].1);
                                    }
                                }
                                self.expiry_queue.remove(index);
                                Ok(Some(value))
                            },
                            None => {
                                proof {
                                    assert(q[ki].0@ == key@ && q[ki].1 == old_expiry);
                                    assert(false);
                                }
                                Err(BackingError::TtlError(TtlError::ExpiryKeyNotFound))
                            },
                        }
                    },
                    None => {
                        proof {
                            assert(q[ki].1 == old_expiry);
                            assert(false);
                        }
                        Err(BackingError::TtlError(TtlError::ExpiryNotFound))
                    },
                }
            },
            None => Ok(None),
        }
    }

    /// Sweeps the head of the expiry index while its deadline has passed,
    /// removing the matching entries from the inner store.
    fn remove_old(&mut self, now: u64)
        requires
            old(self).inv(),
        ensures
            final(self).inv(),
            final(self).default_ttl() == old(self).default_ttl(),
            final(self).raw() == unexpired(old(self).raw(), now),
    {
        while self.expiry_queue.len() > 0 && self.expiry_queue[0].1 <= now
            invariant
                self.wf(),
                self.ttl == old(self).ttl,
                forall|j: <K as View>::V| #![auto]
                    self.map.contents().contains_key(j) ==> old(self).map.contents().contains_key(
                        j,
                    ) && self.map.contents()[j] == old(self).map.contents()[j],
                forall|j: <K as View>::V| #![auto]
                    old(self).map.contents().contains_key(j) && old(self).map.contents()[j].1 > now
                        ==> self.map.contents().contains_key(j),
            decreases self.expiry_queue@.len(),
        {
            let ghost q_pre = self.expiry_queue@;
            let ghost m_pre = self.map.contents();
            proof {
                lemma_entry_at(q_pre, 0);
                lemma_remove_at(q_pre, 0);
            }
            let res = self.map.remove(&self.expiry_queue[0].0, now);
            match res {
                Ok(_) => {},
                Err(_) => {
                    proof {
                        assert(false);
                    }
                },
            }
            self.expiry_queue.remove(0);
            proof {
                let h = q_pre[0].0@;
                assert(self.expiry_queue@ == q_pre.remove(0));
                assert(self.map.contents() =~= m_pre.remove(h));
                assert(entry_map(self.expiry_queue@) == entry_map(q_pre).remove(h));
                assert forall|a: int, b: int|
                    0 <= a <= b < self.expiry_queue@.len() implies self.expiry_queue@[a].1
                    <= self.expiry_queue@[b].1 by {
                    assert(q_pre[a + 1].1 <= q_pre[b + 1].1);
                }
                assert(m_pre[h].1 == entry_map(q_pre)[h]);
                assert(m_pre[h].1 <= now);
                assert forall|j: <K as View>::V| #![auto]
                    entry_map(self.expiry_queue@).contains_key(j)
                        <==> self.map.contents().contains_key(j) by {
                    assert(entry_map(q_pre).contains_key(j) <==> m_pre.contains_key(j));
                }
                assert(self.wf());
            }
        }
        proof {
            assert forall|j: <K as View>::V|
                self.map.contents().contains_key(j) implies self.map.contents()[j].1 > now by {
                assert(entry_map(self.expiry_queue@).contains_key(j));
                lemma_holds_iff(self.expiry_queue@, j);
                let i = key_index(self.expiry_queue@, j);
                lemma_entry_at(self.expiry_queue@, i);
                assert(self.expiry_queue@.len() > 0);
                assert(self.expiry_queue@[0].1 <= self.expiry_queue@[i].1);
            }
            assert(self.map.contents() =~= unexpired(old(self).map.contents(), now));
        }
    }

    /// Binds a key to a value with the given deadline: the inner entry is
    /// replaced, the old expiry record excised, and a new record placed
    /// after all records of equal deadline.
    fn replace(&mut self, key: K, value: V, expiry: u64, now: u64) -> (r: Result<
        Option<V>,
        BackingError,
    >)
        requires
            old(self).inv(),
        ensures
            final(self).inv(),
            final(self).default_ttl() == old(self).default_ttl(),
            final(self).raw() == old(self).raw().insert(key@, (value, expiry)),
            final(self).deadlines() == old(self).deadlines().remove(key@).insert(key@, expiry),
            // the new record stands after every record of equal deadline:
            // only records with a strictly later deadline follow it
            ({
                let q = final(self).expiry_seq();
                let i = key_index(q, key@);
                holds_key(q, key@) && q[i].1 == expiry && forall|p: int|
                    i < p < q.len() ==> q[p].1 > expiry
            }),
            r == Ok::<Option<V>, BackingError>(
                if old(self).raw().contains_key(key@) {
                    Some(old(self).raw()[key@].0)
                } else {
                    None
                },
            ),
    {
        let ghost m_pre = self.map.contents();
        let ghost q_pre = self.expiry_queue@;
        let kq = key.key_dup();
        let res = self.map.set(key, (value, expiry), None, now);
        let prior = match res {
            Ok(p) => p,
            Err(e) => {
                proof {
                    assert(false);
                }
                return Err(e);
            },
        };
        proof {
            assert(self.map.contents().contains_key(key@));
            assert(self.map.contents()[key@] == (value, expiry));
            assert forall|j: <K as View>::V|
                j != key@ && #[trigger] self.map.contents().contains_key(j) implies m_pre.contains_key(
                j,
            ) && self.map.contents()[j] == m_pre[j] by {
                assert(self.map.contents().remove(key@).contains_key(j));
                lemma_submap_point(self.map.contents().remove(key@), m_pre, j);
            }
            assert forall|j: <K as View>::V|
                j != key@ && #[trigger] m_pre.contains_key(j) implies self.map.contents().contains_key(
                j,
            ) by {
                assert(m_pre.remove(key@).contains_key(j));
                lemma_submap_point(m_pre.remove(key@), self.map.contents().remove(key@), j);
            }
            assert(self.map.contents() =~= m_pre.insert(key@, (value, expiry)));
            if prior is Some {
                assert(m_pre.contains_key(key@));
                assert(entry_map(q_pre).contains_key(key@));
                lemma_holds_iff(q_pre, key@);
                assert(entry_map(q_pre)[key@] == m_pre[key@].1);
            }
        }
        let cleaned = self.cleanup_expiry(prior, &kq);
        let out = match cleaned {
            Ok(o) => o,
            Err(e) => {
                proof {
                    assert(false);
                }
                return Err(e);
            },
        };
        let ghost q_mid = self.expiry_queue@;
        proof {
            if prior is None {
                assert(!m_pre.contains_key(key@));
                assert(!entry_map(q_pre).contains_key(key@));
                assert(q_mid == q_pre);
            }
            assert(!entry_map(q_mid).contains_key(key@));
            lemma_holds_iff(q_mid, key@);
        }
        let idx = self.upper_bound(expiry);
        proof {
            lemma_insert_at(q_mid, idx as int, kq, expiry);
        }
        self.expiry_queue.insert(idx, (kq, expiry));
        proof {
            let q_new = self.expiry_queue@;
            assert(q_new == q_mid.insert(idx as int, (key, expiry)));
            assert forall|a: int, b: int| 0 <= a <= b < q_new.len() implies q_new[a].1
                <= q_new[b].1 by {
                if a < idx && b == idx {
                    assert(q_new[a] == q_mid[a]);
                } else if a == idx && b > idx {
                    assert(q_new[b] == q_mid[b - 1]);
                } else if a != idx && b != idx {
                    let a0 = if a < idx {
                        a
                    } else {
                        a - 1
                    };
                    let b0 = if b < idx {
                        b
                    } else {
                        b - 1
                    };
                    assert(q_mid[a0].1 <= q_mid[b0].1);
                }
            }
            assert(entry_map(q_new) == entry_map(q_mid).insert(key@, expiry));
            if prior is Some {
                assert(entry_map(q_mid) == entry_map(q_pre).remove(key@));
            } else {
                assert(entry_map(q_mid) =~= entry_map(q_pre).remove(key@));
            }
            assert forall|j: <K as View>::V| #![auto]
                entry_map(q_new).contains_key(j) <==> self.map.contents().contains_key(j) by {
                assert(entry_map(q_pre).contains_key(j) <==> m_pre.contains_key(j));
            }
            assert forall|j: <K as View>::V| #![auto]
                self.map.contents().contains_key(j) implies entry_map(q_new)[j]
                == self.map.contents()[j].1 by {
                assert(entry_map(q_pre).contains_key(j) <==> m_pre.contains_key(j));
                if j != key@ {
                    assert(entry_map(q_pre)[j] == m_pre[j].1);
                }
            }
            assert(self.wf());
            assert(entry_map(q_new) == entry_map(q_pre).remove(key@).insert(key@, expiry));
            lemma_entry_at(q_new, idx as int);
            assert(key_index(q_new, key@) == idx as int);
            assert forall|p: int| idx < p < q_new.len() implies q_new[p].1 > expiry by {
                assert(q_new[p] == q_mid[p - 1]);
            }
        }
        Ok(out)
    }

    /// Removes a key: the inner entry is removed and its expiry record
    /// excised.
    fn remove_key(&mut self, key: &K, now: u64) -> (r: Result<Option<V>, BackingError>)
        requires
            old(self).inv(),
        ensures
            final(self).inv(),
            final(self).default_ttl() == old(self).default_ttl(),
            final(self).raw() == old(self).raw().remove(key@),
            r == Ok::<Option<V>, BackingError>(
                if old(self).raw().contains_key(key@) {
                    Some(old(self).raw()[key@].0)
                } else {
                    None
                },
            ),
    {
        let ghost m_pre = self.map.contents();
        let ghost q_pre = self.expiry_queue@;
        let res = self.map.remove(key, now);
        let prior = match res {
            Ok(p) => p,
            Err(e) => {
                proof {
                    assert(false);
                }
                return Err(e);
            },
        };
        proof {
            assert forall|j: <K as View>::V|
                #[trigger] self.map.contents().contains_key(j) implies j != key@
                && m_pre.contains_key(j) && self.map.contents()[j] == m_pre[j] by {
                lemma_submap_point(self.map.contents(), m_pre, j);
            }
            assert forall|j: <K as View>::V|
                j != key@ && #[trigger] m_pre.contains_key(j) implies self.map.contents().contains_key(
                j,
            ) by {
                assert(m_pre.remove(key@).contains_key(j));
                lemma_submap_point(m_pre.remove(key@), self.map.contents(), j);
            }
            assert(self.map.contents() =~= m_pre.remove(key@));
            if prior is Some {
                assert(m_pre.contains_key(key@));
                assert(entry_map(q_pre).contains_key(key@));
                lemma_holds_iff(q_pre, key@);
                assert(entry_map(q_pre)[key@] == m_pre[key@].1);
            }
        }
        let cleaned = self.cleanup_expiry(prior, key);
        let out = match cleaned {
            Ok(o) => o,
            Err(e) => {
                proof {
                    assert(false);
                }
                return Err(e);
            },
        };
        proof {
            let q_new = self.expiry_queue@;
            if prior is Some {
                assert(entry_map(q_new) == entry_map(q_pre).remove(key@));
            } else {
                assert(!m_pre.contains_key(key@));
                assert(!entry_map(q_pre).contains_key(key@));
                assert(q_new == q_pre);
                assert(entry_map(q_new) =~= entry_map(q_pre).remove(key@));
            }
            assert forall|j: <K as View>::V| #![auto]
                entry_map(q_new).contains_key(j) <==> self.map.contents().contains_key(j) by {
                assert(entry_map(q_pre).contains_key(j) <==> m_pre.contains_key(j));
            }
            assert forall|j: <K as View>::V| #![auto]
                self.map.contents().contains_key(j) implies entry_map(q_new)[j]
                == self.map.contents()[j].1 by {
                assert(entry_map(q_pre).contains_key(j) <==> m_pre.contains_key(j));
                assert(entry_map(q_pre)[j] == m_pre[j].1);
            }
            assert(self.wf());
        }
        Ok(out)
    }

    /// Binds a key to a value whose deadline is the current time plus the
    /// effective time to live: the override carried by `meta` if any, the
    /// store's default otherwise. Expired entries are swept first; the
    /// value previously bound is returned if it had not expired.
    pub fn set_entry(&mut self, key: K, value: V, meta: Option<TtlMeta>, now: u64) -> (r: Result<
        Option<V>,
        BackingError,
    >)
        requires
            old(self).inv(),
        ensures
            final(self).inv(),
            final(self).default_ttl() == old(self).default_ttl(),
            final(self).raw() == unexpired(old(self).raw(), now).insert(
                key@,
                (
                    value,
                    deadline_of(
                        now,
                        match meta {
                            Some(m) => m.ttl,
                            None => old(self).default_ttl(),
                        },
                    ),
                ),
            ),
            final(self).deadlines().contains_key(key@),
            final(self).deadlines()[key@] == deadline_of(
                now,
                match meta {
                    Some(m) => m.ttl,
                    None => old(self).default_ttl(),
                },
            ),
            // the fresh record is placed after every record of equal
            // deadline, keeping co-expiring keys in arrival order
            ({
                let q = final(self).expiry_seq();
                let i = key_index(q, key@);
                let dl = deadline_of(
                    now,
                    match meta {
                        Some(m) => m.ttl,
                        None => old(self).default_ttl(),
                    },
                );
                holds_key(q, key@) && q[i].1 == dl && forall|p: int|
                    i < p < q.len() ==> q[p].1 > dl
            }),
            r == Ok::<Option<V>, BackingError>(
                if unexpired(old(self).raw(), now).contains_key(key@) {
                    Some(unexpired(old(self).raw(), now)[key@].0)
                } else {
                    None
                },
            ),
    {
        self.remove_old(now);
        let ttl = match meta {
            Some(meta) => meta.ttl,
            None => self.ttl,
        };
        let expiry = if now <= u64::MAX - ttl {
            now + ttl
        } else {
            u64::MAX
        };
        self.replace(key, value, expiry, now)
    }

    /// Removes a key, sweeping expired entries first; the value it was
    /// bound to is returned if it had not expired.
    pub fn remove_entry(&mut self, key: &K, now: u64) -> (r: Result<Option<V>, BackingError>)
        requires
            old(self).inv(),
        ensures
            final(self).inv(),
            final(self).default_ttl() == old(self).default_ttl(),
            final(self).raw() == unexpired(old(self).raw(), now).remove(key@),
            r == Ok::<Option<V>, BackingError>(
                if unexpired(old(self).raw(), now).contains_key(key@) {
                    Some(unexpired(old(self).raw(), now)[key@].0)
                } else {
                    None
                },
            ),
    {
        self.remove_old(now);
        self.remove_key(key, now)
    }

    /// Looks a key up: expired entries are swept first, and the value is
    /// answered exactly when the key survives the sweep. A surviving
    /// entry keeps its value and its deadline — a read does not refresh
    /// the time to live.
    pub fn get_entry(&mut self, key: &K, now: u64) -> (r: Result<Option<V>, BackingError>)
        requires
            old(self).inv(),
        ensures
            final(self).inv(),
            final(self).default_ttl() == old(self).default_ttl(),
            final(self).raw() == unexpired(old(self).raw(), now),
            r == Ok::<Option<V>, BackingError>(
                if unexpired(old(self).raw(), now).contains_key(key@) {
                    Some(unexpired(old(self).raw(), now)[key@].0)
                } else {
                    None
                },
            ),
    {
        self.remove_old(now);
        let res = self.map.get(key, now);
        let opt = match res {
            Ok(opt) => opt,
            Err(e) => {
                proof {
                    assert(false);
                }
                return Err(e);
            },
        };
        match opt {
            Some(t) => Ok(Some(t.0)),
            None => Ok(None),
        }
    }

    /// Replaces the value of a live key in place, keeping the entry's
    /// deadline; expired entries are swept first, and an absent or
    /// expired key is left absent.
    pub fn swap_entry(&mut self, key: &K, value: V, now: u64) -> (r: Result<
        Option<V>,
        BackingError,
    >)
        requires
            old(self).inv(),
        ensures
            final(self).inv(),
            final(self).default_ttl() == old(self).default_ttl(),
            final(self).raw() == (if unexpired(old(self).raw(), now).contains_key(key@) {
                unexpired(old(self).raw(), now).insert(
                    key@,
                    (value, unexpired(old(self).raw(), now)[key@].1),
                )
            } else {
                unexpired(old(self).raw(), now)
            }),
            r == Ok::<Option<V>, BackingError>(
                if unexpired(old(self).raw(), now).contains_key(key@) {
                    Some(unexpired(old(self).raw(), now)[key@].0)
                } else {
                    None
                },
            ),
    {
        self.remove_old(now);
        let ghost mid = self.map.contents();
        let ghost q_mid = self.expiry_queue@;
        let found = match self.map.get(key, now) {
            Ok(o) => o,
            Err(e) => {
                proof {
                    assert(false);
                }
                return Err(e);
            },
        };
        match found {
            Some(pair) => {
                let (prior, deadline) = pair;
                let res = self.map.swap_value(key, (value, deadline), now);
                match res {
                    Ok(inner_prior) => {
                        proof {
                            assert(self.map.contents().contains_key(key@));
                            assert(self.map.contents()[key@] == (value, deadline));
                            assert forall|j: <K as View>::V|
                                j != key@ && #[trigger] self.map.contents().contains_key(
                                    j,
                                ) implies mid.contains_key(j) && self.map.contents()[j]
                                == mid[j] by {
                                assert(self.map.contents().remove(key@).contains_key(j));
                                lemma_submap_point(
                                    self.map.contents().remove(key@),
                                    mid.remove(key@),
                                    j,
                                );
                            }
                            assert forall|j: <K as View>::V|
                                j != key@ && #[trigger] mid.contains_key(j) implies self.map.contents().contains_key(
                                j,
                            ) by {
                                assert(mid.remove(key@).contains_key(j));
                                lemma_submap_point(
                                    mid.remove(key@),
                                    self.map.contents().remove(key@),
                                    j,
                                );
                            }
                            assert(self.map.contents() =~= mid.insert(key@, (value, deadline)));
                            assert(entry_map(q_mid).contains_key(key@));
                            assert(entry_map(q_mid)[key@] == deadline);
                            assert(self.wf());
                        }
                        Ok(Some(prior))
                    },
                    Err(e) => {
                        proof {
                            assert(false);
                        }
                        Err(e)
                    },
                }
            },
            None => {
                proof {
                    assert(!self.map.contents().contains_key(key@));
                }
                Ok(None)
            },
        }
    }

    /// Removes every live entry the predicate selects, sweeping expired
    /// entries first, and returns the removed pairs: exactly the live
    /// entries the predicate answered true for leave the store, every
    /// kept entry answered false, and expired entries are swept rather
    /// than tested.
    pub fn remove_selected<P: Fn(K, V) -> bool>(&mut self, pred: P, now: u64) -> (r: Result<
        Vec<(K, V)>,
        BackingError,
    >)
        requires
            old(self).inv(),
            forall|k: K, v: V| #[trigger] call_requires(pred, (k, v)),
        ensures
            final(self).inv(),
            final(self).default_ttl() == old(self).default_ttl(),
            r is Ok,
            match r {
                Ok(removed) => {
                    &&& distinct_keys(removed@)
                    &&& forall|n: int|
                        0 <= n < removed@.len() ==> unexpired(old(self).raw(), now).contains_key(
                            #[trigger] removed@[n].0@,
                        ) && removed@[n].1 == unexpired(old(self).raw(), now)[removed@[n].0@].0
                            && call_ensures(pred, (removed@[n].0, removed@[n].1), true)
                    &&& forall|j: <K as View>::V|
                        #[trigger] final(self).raw().contains_key(j) ==> unexpired(
                            old(self).raw(),
                            now,
                        ).contains_key(j) && final(self).raw()[j] == unexpired(
                            old(self).raw(),
                            now,
                        )[j] && !holds_key(removed@, j)
                    &&& unexpired(old(self).raw(), now).remove_keys(
                        Set::new(|j: <K as View>::V| holds_key(removed@, j)),
                    ).submap_of(final(self).raw())
                    &&& forall|j: <K as View>::V|
                        #[trigger] final(self).raw().contains_key(j) ==> exists|k: K, v: V|
                            k@ == j && v == unexpired(old(self).raw(), now)[j].0 && call_ensures(
                                pred,
                                (k, v),
                                false,
                            )
                },
                Err(_) => false,
            },
    {
        self.remove_old(now);
        let pred_ref = &pred;
        let lifted = |k: K, p: (V, u64)| -> (b: bool)
            requires
                call_requires(pred_ref, (k, p.0)),
            ensures
                call_ensures(pred_ref, (k, p.0), b),
            { pred_ref(k, p.0) };
        let ghost m_pre = self.map.contents();
        let ghost q_pre = self.expiry_queue@;
        let res = self.map.remove_if(lifted, now);
        let inner_removed = match res {
            Ok(x) => x,
            Err(e) => {
                proof {
                    assert(false);
                }
                return Err(e);
            },
        };
        let ghost ir = inner_removed@;
        excise_keys(&mut self.expiry_queue, &inner_removed);
        // hand back plain key-value pairs
        let mut out: Vec<(K, V)> = Vec::new();
        let mut rest = inner_removed;
        while rest.len() > 0
            invariant
                out@.len() + rest@.len() == ir.len(),
                forall|n: int| 0 <= n < rest@.len() ==> rest@[n] == ir[n + out@.len()],
                forall|n: int|
                    0 <= n < out@.len() ==> out@[n].0 == ir[n].0 && out@[n].1 == ir[n].1.0,
            decreases rest@.len(),
        {
            let (k, p) = rest.remove(0);
            out.push((k, p.0));
        }
        proof {
            let rset = Set::new(|j: <K as View>::V| holds_key(ir, j));
            assert(m_pre == unexpired(old(self).raw(), now));
            // the removed pairs and the handed-out pairs name the same keys
            assert forall|j: <K as View>::V| holds_key(out@, j) <==> holds_key(ir, j) by {
                if holds_key(out@, j) {
                    let n = choose|n: int| 0 <= n < out@.len() && out@[n].0@ == j;
                    assert(ir[n].0@ == j);
                }
                if holds_key(ir, j) {
                    let n = choose|n: int| 0 <= n < ir.len() && ir[n].0@ == j;
                    assert(out@[n].0@ == j);
                }
            }
            assert(distinct_keys(out@)) by {
                assert forall|a: int, b: int|
                    0 <= a < b < out@.len() implies out@[a].0@ != out@[b].0@ by {
                    assert(ir[a].0@ != ir[b].0@);
                }
            }
            // the index and the store still bind the same keys
            assert forall|j: <K as View>::V| #![auto]
                entry_map(self.expiry_queue@).contains_key(j) implies self.map.contents().contains_key(j)
                && entry_map(self.expiry_queue@)[j] == self.map.contents()[j].1 by {
                assert(entry_map(q_pre).contains_key(j) && entry_map(self.expiry_queue@)[j] == entry_map(
                    q_pre,
                )[j] && !holds_key(ir, j));
                assert(m_pre.contains_key(j));
                assert(m_pre.remove_keys(rset).contains_key(j));
                lemma_submap_point(m_pre.remove_keys(rset), self.map.contents(), j);
                assert(entry_map(q_pre)[j] == m_pre[j].1);
            }
            assert forall|j: <K as View>::V| #![auto]
                self.map.contents().contains_key(j) implies entry_map(self.expiry_queue@).contains_key(j) by {
                lemma_submap_point(self.map.contents(), m_pre, j);
                assert(!holds_key(ir, j));
                assert(entry_map(q_pre).contains_key(j));
            }
            assert(self.wf());
            // the handed-out pairs were live and selected
            assert forall|n: int| 0 <= n < out@.len() implies unexpired(
                old(self).raw(),
                now,
            ).contains_key(#[trigger] out@[n].0@) && out@[n].1 == unexpired(
                old(self).raw(),
                now,
            )[out@[n].0@].0 && call_ensures(pred, (out@[n].0, out@[n].1), true) by {
                assert(m_pre.contains_key(ir[n].0@));
                assert(ir[n].1 == m_pre[ir[n].0@]);
                assert(call_ensures(lifted, (ir[n].0, ir[n].1), true));
            }
            // every kept entry survived unchanged and answered false
            assert forall|j: <K as View>::V|
                #[trigger] self.map.contents().contains_key(j) implies unexpired(
                old(self).raw(),
                now,
            ).contains_key(j) && self.map.contents()[j] == unexpired(old(self).raw(), now)[j]
                && !holds_key(out@, j) by {
                lemma_submap_point(self.map.contents(), m_pre, j);
                assert(!holds_key(ir, j));
            }
            // nothing beyond the selected keys was dropped
            let oset = Set::new(|j: <K as View>::V| holds_key(out@, j));
            assert(oset =~= rset);
            assert(unexpired(old(self).raw(), now).remove_keys(oset).submap_of(
                self.map.contents(),
            )) by {
                assert forall|j: <K as View>::V|
                    #[trigger] unexpired(old(self).raw(), now).remove_keys(oset).contains_key(
                        j,
                    ) implies self.map.contents().contains_key(j) && unexpired(
                    old(self).raw(),
                    now,
                ).remove_keys(oset)[j] == self.map.contents()[j] by {
                    assert(m_pre.contains_key(j) && !holds_key(out@, j));
                    assert(!holds_key(ir, j));
                    assert(m_pre.remove_keys(rset).contains_key(j));
                    lemma_submap_point(m_pre.remove_keys(rset), self.map.contents(), j);
                }
            }
            // every kept entry has a false answer on record
            assert forall|j: <K as View>::V|
                #[trigger] self.map.contents().contains_key(j) implies exists|k: K, v: V|
                k@ == j && v == unexpired(old(self).raw(), now)[j].0 && call_ensures(
                    pred,
                    (k, v),
                    false,
                ) by {
                lemma_submap_point(self.map.contents(), m_pre, j);
                let (k, pr): (K, (V, u64)) = choose|k: K, pr: (V, u64)|
                    k@ == j && pr == m_pre[j] && call_ensures(lifted, (k, pr), false);
                assert(call_ensures(pred, (k, pr.0), false));
            }
        }
        Ok(out)
    }
}

/// The expiry index is consistent with the inner store after any
/// operation: it is sorted by deadline, it names exactly the keys the
/// store holds, each key once, and each record's deadline equals the
/// deadline stored with the entry.
pub proof fn lemma_ttl_index_consistent<K: CacheKey, V: CacheValue, B: CacheBacking<K, (V, u64)>>(
    b: &TtlCacheBacking<K, V, B>,
)
    requires
        b.inv(),
    ensures
        sorted_by_deadline(b.expiry_seq()),
        distinct_keys(b.expiry_seq()),
        forall|j: <K as View>::V| #![auto]
            b.deadlines().contains_key(j) <==> b.raw().contains_key(j),
        forall|j: <K as View>::V| #![auto]
            b.raw().contains_key(j) ==> b.deadlines()[j] == b.raw()[j].1,
{
}

/// The value map the backing presents binds exactly the keys of its raw
/// value-deadline map, each key to the stored value.
pub proof fn lemma_ttl_contents_raw<K: CacheKey, V: CacheValue, B: CacheBacking<K, (V, u64)>>(
    b: &TtlCacheBacking<K, V, B>,
)
    ensures
        forall|j: <K as View>::V| #![auto]
            b.contents().contains_key(j) <==> b.raw().contains_key(j),
        forall|j: <K as View>::V| #![auto]
            b.raw().contains_key(j) ==> b.contents()[j] == b.raw()[j].0,
{
}

/// After a bind at time `t0` with effective time to live `d`, the entry
/// is alive at a query time `t` exactly while `t` lies strictly before
/// `t0 + d`: its deadline, `deadline_of(t0, d)`, is compared strictly
/// against the query time.
pub proof fn lemma_ttl_monotonicity(t0: u64, d: u64, t: u64)
    requires
        t0 + d <= u64::MAX,
    ensures
        deadline_of(t0, d) > t <==> t < t0 + d,
{
}

impl<K: CacheKey, V: CacheValue, B: CacheBacking<K, (V, u64)>> CacheBacking<K, V> for TtlCacheBacking<
    K,
    V,
    B,
> {
    type Meta = TtlMeta;

    closed spec fn inv(&self) -> bool {
        self.wf()
    }

    closed spec fn contents(&self) -> Map<<K as View>::V, V> {
        Map::new(
            |j: <K as View>::V| self.map.contents().contains_key(j),
            |j: <K as View>::V| self.map.contents()[j].0,
        )
    }

    closed spec fn stable(&self) -> bool {
        false
    }

    closed spec fn reliable(&self) -> bool {
        true
    }

    fn swap_value(&mut self, key: &K, value: V, now: u64) -> (r: Result<
        Option<V>,
        BackingError,
    >) {
        let r = self.swap_entry(key, value, now);
        proof {
            let live = unexpired(old(self).raw(), now);
            if live.contains_key(key@) {
                assert(old(self).contents().contains_key(key@));
                assert(old(self).contents()[key@] == live[key@].0);
                assert(self.contents().contains_key(key@) && self.contents()[key@] == value);
                assert forall|j: <K as View>::V|
                    #[trigger] self.contents().remove(key@).contains_key(j) implies old(
                    self,
                ).contents().remove(key@).contains_key(j) && self.contents().remove(key@)[j]
                    == old(self).contents().remove(key@)[j] by {
                    assert(live.contains_key(j) && j != key@);
                }
                assert(self.contents().remove(key@).submap_of(
                    old(self).contents().remove(key@),
                ));
            } else {
                assert(!self.contents().contains_key(key@));
                assert forall|j: <K as View>::V|
                    #[trigger] self.contents().contains_key(j) implies old(
                    self,
                ).contents().contains_key(j) && self.contents()[j] == old(self).contents()[j] by {
                    assert(live.contains_key(j));
                }
                assert(self.contents().submap_of(old(self).contents()));
            }
        }
        r
    }

    fn get(&mut self, key: &K, now: u64) -> (r: Result<Option<V>, BackingError>) {
        let r = self.get_entry(key, now);
        proof {
            assert forall|j: <K as View>::V|
                self.contents().contains_key(j) implies old(self).contents().contains_key(j)
                && self.contents()[j] == old(self).contents()[j] by {}
            assert(self.contents().submap_of(old(self).contents()));
        }
        r
    }

    fn set(&mut self, key: K, value: V, meta: Option<TtlMeta>, now: u64) -> (r: Result<
        Option<V>,
        BackingError,
    >) {
        let res = self.set_entry(key, value, meta, now);
        proof {
            assert forall|j: <K as View>::V|
                j != key@ && self.contents().contains_key(j) implies old(self).contents().contains_key(j) && self.contents()[j] == old(self).contents()[j] by {}
        }
        res
    }

    fn remove(&mut self, key: &K, now: u64) -> (r: Result<Option<V>, BackingError>) {
        let res = self.remove_entry(key, now);
        proof {
            assert forall|j: <K as View>::V|
                self.contents().contains_key(j) implies old(self).contents().contains_key(j)
                && self.contents()[j] == old(self).contents()[j] by {}
            assert(self.contents().submap_of(old(self).contents()));
        }
        res
    }

    fn contains_key(&mut self, key: &K, now: u64) -> (r: Result<bool, BackingError>) {
        let b = self.contains_live(key, now);
        proof {
            if b {
                assert(self.deadlines().contains_key(key@));
                assert(self.contents().contains_key(key@));
            }
        }
        Ok(b)
    }

    fn remove_if<P: Fn(K, V) -> bool>(&mut self, pred: P, now: u64) -> (r: Result<
        Vec<(K, V)>,
        BackingError,
    >) {
        let res = self.remove_selected(pred, now);
        match res {
            Ok(removed) => {
                proof {
                    let live = unexpired(old(self).raw(), now);
                    assert forall|n: int|
                        0 <= n < removed@.len() implies old(self).contents().contains_key(
                        #[trigger] removed@[n].0@,
                    ) && removed@[n].1 == old(self).contents()[removed@[n].0@] by {
                        assert(live.contains_key(removed@[n].0@));
                    }
                    assert forall|j: <K as View>::V|
                        #[trigger] self.contents().contains_key(j) implies old(
                        self,
                    ).contents().contains_key(j) && self.contents()[j] == old(
                        self,
                    ).contents()[j] by {
                        assert(self.map.contents().contains_key(j));
                        assert(live.contains_key(j));
                    }
                    assert(self.contents().submap_of(old(self).contents()));
                    assert forall|j: <K as View>::V|
                        #[trigger] self.contents().contains_key(j) implies exists|k: K, v: V|
                        k@ == j && v == old(self).contents()[j] && call_ensures(
                            pred,
                            (k, v),
                            false,
                        ) by {
                        assert(self.map.contents().contains_key(j));
                        let (k, v): (K, V) = choose|k: K, v: V|
                            k@ == j && v == live[j].0 && call_ensures(pred, (k, v), false);
                        assert(v == old(self).contents()[j]);
                    }
                }
                Ok(removed)
            },
            Err(e) => {
                proof {
                    assert(false);
                }
                Err(e)
            },
        }
    }

    fn clear(&mut self, now: u64) -> (r: Result<(), BackingError>) {
        self.expiry_queue.clear();
        let res = self.map.clear(now);
        match res {
            Ok(_) => {},
            Err(e) => {
                proof {
                    assert(false);
                }
                return Err(e);
            },
        }
        proof {
            lemma_empty::<K, u64>();
            assert(self.contents() =~= Map::<<K as View>::V, V>::empty());
        }
        Ok(())
    }
}

/// Removes from a deadline-sorted record vector every record whose key
/// occurs in the removed-pair list.
fn excise_keys<K: CacheKey, V: CacheValue>(
    queue: &mut Vec<(K, u64)>,
    removed: &Vec<(K, (V, u64))>,
)
    requires
        distinct_keys(old(queue)@),
        sorted_by_deadline(old(queue)@),
    ensures
        distinct_keys(final(queue)@),
        sorted_by_deadline(final(queue)@),
        forall|j: <K as View>::V|
            #[trigger] entry_map(final(queue)@).contains_key(j) ==> entry_map(
                old(queue)@,
            ).contains_key(j) && entry_map(final(queue)@)[j] == entry_map(old(queue)@)[j]
                && !holds_key(removed@, j),
        forall|j: <K as View>::V|
            #[trigger] entry_map(old(queue)@).contains_key(j) ==> entry_map(
                final(queue)@,
            ).contains_key(j) || holds_key(removed@, j),
{
    let ghost orig = queue@;
    let mut i: usize = 0;
    proof {
        assert forall|p: int|
            0 <= p < queue@.len() implies entry_map(orig).contains_key(
            #[trigger] queue@[p].0@,
        ) && queue@[p].1 == entry_map(orig)[queue@[p].0@] by {
            lemma_entry_at(orig, p);
        }
    }
    while i < queue.len()
        invariant
            distinct_keys(queue@),
            sorted_by_deadline(queue@),
            i <= queue@.len(),
            forall|p: int|
                0 <= p < queue@.len() ==> entry_map(orig).contains_key(#[trigger] queue@[p].0@)
                    && queue@[p].1 == entry_map(orig)[queue@[p].0@],
            forall|j: <K as View>::V|
                holds_key(orig, j) ==> holds_key(queue@, j) || holds_key(removed@, j),
            forall|p: int| 0 <= p < i ==> !holds_key(removed@, #[trigger] queue@[p].0@),
        decreases queue@.len() - i,
    {
        let hit = key_in_list(removed, &queue[i].0);
        if hit {
            let ghost q_cur = queue@;
            proof {
                lemma_entry_at(q_cur, i as int);
                lemma_remove_at(q_cur, i as int);
            }
            queue.remove(i);
            proof {
                assert(queue@ == q_cur.remove(i as int));
                assert forall|a: int, b: int|
                    0 <= a <= b < queue@.len() implies queue@[a].1 <= queue@[b].1 by {
                    let a0 = if a < i {
                        a
                    } else {
                        a + 1
                    };
                    let b0 = if b < i {
                        b
                    } else {
                        b + 1
                    };
                    assert(q_cur[a0].1 <= q_cur[b0].1);
                }
                assert forall|p: int|
                    0 <= p < queue@.len() implies entry_map(orig).contains_key(
                    #[trigger] queue@[p].0@,
                ) && queue@[p].1 == entry_map(orig)[queue@[p].0@] by {
                    let p0 = if p < i {
                        p
                    } else {
                        p + 1
                    };
                    assert(queue@[p] == q_cur[p0]);
                }
                assert forall|p: int|
                    0 <= p < i implies !holds_key(removed@, #[trigger] queue@[p].0@) by {
                    assert(queue@[p] == q_cur[p]);
                }
                assert forall|j: <K as View>::V|
                    holds_key(orig, j) implies holds_key(queue@, j) || holds_key(
                    removed@,
                    j,
                ) by {
                    if holds_key(q_cur, j) {
                        let a = choose|a: int| 0 <= a < q_cur.len() && q_cur[a].0@ == j;
                        if a == i {
                            assert(holds_key(removed@, j));
                        } else if a < i {
                            assert(queue@[a].0@ == j);
                        } else {
                            assert(queue@[a - 1].0@ == j);
                        }
                    }
                }
            }
        } else {
            i += 1;
        }
    }
    proof {
        assert forall|j: <K as View>::V| #![auto]
            entry_map(queue@).contains_key(j) implies entry_map(orig).contains_key(j) && entry_map(
            queue@,
        )[j] == entry_map(orig)[j] && !holds_key(removed@, j) by {
            lemma_holds_iff(queue@, j);
            let p = key_index(queue@, j);
            lemma_entry_at(queue@, p);
        }
        assert forall|j: <K as View>::V| #![auto]
            entry_map(orig).contains_key(j) implies entry_map(queue@).contains_key(j) || holds_key(
            removed@,
            j,
        ) by {
            lemma_holds_iff(orig, j);
            lemma_holds_iff(queue@, j);
        }
    }
}

/// Looks a key up in a removed-pair list.
fn key_in_list<K: CacheKey, W>(list: &Vec<(K, W)>, key: &K) -> (b: bool)
    ensures
        b == holds_key(list@, key@),
{
    let mut i: usize = 0;
    while i < list.len()
        invariant
            i <= list@.len(),
            forall|n: int| 0 <= n < i ==> list@[n].0@ != key@,
        decreases list@.len() - i,
    {
        if list[i].0.key_eq(key) {
            proof {
                assert(holds_key(list@, key@));
            }
            return true;
        }
        i += 1;
    }
    false
}

} // verus!
