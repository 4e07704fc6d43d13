//! The universal guarantees of the engine, stated over its transition
//! functions and proved once and for all.
//!
//! Each law speaks about the serialized key-space transitions that the
//! engine's methods are proved to perform (see their contracts): what a
//! sequence of transitions ends in, for every state and every key.

use vstd::prelude::*;
use crate::cache_api::CacheEntry;
use crate::cache_api::CacheResult;
use crate::cache_api::PendingWork;
use crate::internal_cache::apply_remove;
use crate::internal_cache::apply_set;
use crate::internal_cache::apply_set_unblock;
use crate::internal_cache::apply_unblock;
use crate::internal_cache::found_value;
use crate::internal_cache::get_transition;

verus! {

/// Single-flight: while a load for a key is in flight, a further lookup
/// joins the existing announcer and leaves the state unchanged — it
/// never starts a second loader.
pub proof fn lemma_single_flight<J, V>(m: Map<J, CacheEntry<V>>, j: J, a: u64, fresh: u64)
    requires
        m.contains_key(j),
        m[j] == CacheEntry::<V>::Loading(a),
    ensures
        get_transition(m, j, fresh) == (
            m,
            CacheResult::<V>::Loading(PendingWork::Subscribe(a)),
        ),
{
}

/// A miss starts exactly one load: the first lookup installs the loading
/// entry, so any further lookup before the commit joins that load
/// instead of starting another.
pub proof fn lemma_miss_loads_once<J, V>(m: Map<J, CacheEntry<V>>, j: J, fresh: u64, fresh2: u64)
    requires
        !m.contains_key(j),
    ensures
        ({
            let step = get_transition(m, j, fresh);
            get_transition(step.0, j, fresh2) == (
                step.0,
                CacheResult::<V>::Loading(PendingWork::Subscribe(fresh)),
            )
        }),
{
}

/// The race rule: a user set submitted while a load is in flight wins.
/// The loader's later commit is rejected, and a lookup afterwards
/// answers the user's value, whatever the loader produced.
pub proof fn lemma_race_rule<J, V>(m: Map<J, CacheEntry<V>>, j: J, user: V, loaded: V)
    requires
        m.contains_key(j),
        m[j] is Loading,
    ensures
        ({
            let after_set = apply_set(m, j, user);
            let after_commit = apply_set_unblock(after_set, j, loaded);
            after_commit == after_set && found_value(after_commit, j) == Some(user)
        }),
{
}

/// A removal during a load also wins: the loader's commit finds the key
/// absent, aborts, and the key stays absent.
pub proof fn lemma_remove_wins<J, V>(m: Map<J, CacheEntry<V>>, j: J, loaded: V)
    ensures
        ({
            let after = apply_remove(m, j);
            apply_set_unblock(after, j, loaded) == after && found_value(after, j)
                == Option::<V>::None
        }),
{
}

/// A failing loader's unblock removes only its own loading entry: a
/// value the user set in the meantime is left standing.
pub proof fn lemma_unblock_spares_user_value<J, V>(m: Map<J, CacheEntry<V>>, j: J, user: V)
    ensures
        apply_unblock(apply_set(m, j, user), j) == apply_set(m, j, user),
{
}

/// Removing a key twice ends in the same state as removing it once.
pub proof fn lemma_remove_idempotent<J, V>(m: Map<J, CacheEntry<V>>, j: J)
    ensures
        apply_remove(apply_remove(m, j), j) == apply_remove(m, j),
{
    assert(apply_remove(apply_remove(m, j), j) =~= apply_remove(m, j));
}

/// Updating a loaded entry yields the update function's result and
/// leaves the entry holding exactly that result. The engine's `update`
/// answers `Found(nv)` with `nv` the function's value on the resident
/// one, and performs this transition.
pub proof fn lemma_update_on_loaded<J, V>(m: Map<J, CacheEntry<V>>, j: J, v: V, nv: V)
    requires
        m.contains_key(j),
        m[j] == CacheEntry::Loaded(v),
    ensures
        ({
            let after = apply_set(m, j, nv);
            found_value(after, j) == Some(nv) && after[j] == CacheEntry::Loaded(nv)
        }),
{
}

} // verus!
