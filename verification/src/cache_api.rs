//! The entry model, the outcome protocol, and the pure decisions of the
//! client facade.
//!
//! The engine answers every request with a `CacheResult`. A `Loading`
//! answer carries the pending work the runtime must perform — running the
//! loader or subscribing to an announcer — and a `Retry` answer asks the
//! runtime to perform that work and then re-submit the same request. The
//! functions here are the pure halves of the facade: how a loader's
//! outcome is committed and surfaced, and how an outcome is normalized
//! into the caller's result.

use vstd::prelude::*;
use crate::backing::BackingError;
use crate::keys::CacheValue;

verus! {

/// An entry of the cache: an authoritative resident value, or a load in
/// progress identified by its announcer.
#[derive(Debug, Clone)]
pub enum CacheEntry<V> {
    Loaded(V),
    Loading(u64),
}

impl<V: CacheValue> CacheValue for CacheEntry<V> {
    fn dup(&self) -> (r: Self) {
        match self {
            CacheEntry::Loaded(v) => CacheEntry::Loaded(v.dup()),
            CacheEntry::Loading(a) => CacheEntry::Loading(*a),
        }
    }
}

/// The value a resident entry holds, if any.
pub open spec fn entry_value<V>(e: CacheEntry<V>) -> Option<V> {
    match e {
        CacheEntry::Loaded(v) => Some(v),
        CacheEntry::Loading(_) => None,
    }
}

/// Asynchronous work that an engine answer asks the runtime to perform.
#[derive(Debug, Clone, Copy, PartialEq, Eq, Structural)]
pub enum PendingWork {
    /// Run the loader for the requested key and publish its outcome on
    /// the announcer with this identifier, then tell the engine.
    Load(u64),
    /// Subscribe to the announcer with this identifier and await its one
    /// message.
    Subscribe(u64),
}

/// The engine's answer to one request.
#[derive(Debug)]
pub enum CacheResult<V> {
    /// The value was resolved synchronously from cache state.
    Found(V),
    /// The value will be produced by the given pending work.
    Loading(PendingWork),
    /// Perform the given pending work, then re-submit the same request.
    Retry(PendingWork),
    /// Not present — a legitimate answer where absence is meaningful.
    Absent,
    /// A structural failure in the backing.
    Error(BackingError),
}

/// A value together with whether it was answered from resident state.
#[derive(Debug, Clone)]
pub struct ResultMeta<V> {
    pub result: V,
    pub cached: bool,
}

/// A failure of the transport between the facade, the engine, and the
/// announcers.
#[derive(Debug, Clone)]
pub enum CacheCommunicationError {
    /// The engine's inbound queue rejected the request.
    QueueSendFailed,
    /// The engine was torn down before answering.
    ResponseRecvFailed,
    /// The announcer closed before publishing its message.
    AnnouncerRecvFailed,
    /// The task producing the value could not be joined.
    JoinFailed,
}

/// Everything a cache operation can fail with.
#[derive(Debug, Clone)]
pub enum CacheLoadingError<E> {
    /// The user's loader returned this error.
    LoadingError(E),
    /// The backing reported a structural failure.
    BackingError(BackingError),
    /// The transport between facade and engine failed.
    CommunicationError(CacheCommunicationError),
    /// A re-submitted update still observed a load in flight.
    LookupLoop,
    /// A re-submitted in-place update found its key gone.
    NoData,
}

/// What a loader task asks the engine to do once the user's loader
/// resolved.
#[derive(Debug)]
pub enum LoaderCommit<V> {
    /// The load succeeded: commit this value, unless a user mutation won
    /// the race.
    Install(V),
    /// The load failed: discard the loading entry.
    Discard,
}

/// The decisions of a loader task at resolution: what is committed to the
/// engine and what the task yields to its awaiters. The loader publishes
/// the raw outcome on the announcer first, so subscribers never consult
/// the backing.
pub fn plan_loader_commit<V: CacheValue, E>(res: Result<V, E>) -> (r: (
    LoaderCommit<V>,
    Result<V, CacheLoadingError<E>>,
))
    ensures
        match res {
            Ok(v) => r.0 == LoaderCommit::Install(v) && r.1 == Ok::<V, CacheLoadingError<E>>(v),
            Err(e) => r.0 is Discard && r.1 == Err::<V, CacheLoadingError<E>>(
                CacheLoadingError::LoadingError(e),
            ),
        },
{
    match res {
        Ok(v) => {
            let copy = v.dup();
            (LoaderCommit::Install(copy), Ok(v))
        },
        Err(e) => (LoaderCommit::Discard, Err(CacheLoadingError::LoadingError(e))),
    }
}

/// Normalizes an engine answer, together with the awaited value of its
/// pending work when it had any, into the caller's result: a resident
/// value is cached, an awaited value is fresh, absence is `None`, and a
/// backing failure is surfaced.
pub fn interpret_response<V, E>(
    r: CacheResult<V>,
    awaited: Option<Result<V, CacheLoadingError<E>>>,
) -> (out: Result<Option<ResultMeta<V>>, CacheLoadingError<E>>)
    requires
        (r is Loading || r is Retry) <==> awaited is Some,
    ensures
        match r {
            CacheResult::Found(v) => out matches Ok(Some(m)) && m.result == v && m.cached,
            CacheResult::Loading(_) | CacheResult::Retry(_) => match awaited {
                Some(a) => match a {
                    Ok(v) => out matches Ok(Some(m)) && m.result == v && !m.cached,
                    Err(e) => out == Err::<Option<ResultMeta<V>>, CacheLoadingError<E>>(e),
                },
                None => false,
            },
            CacheResult::Absent => out == Ok::<Option<ResultMeta<V>>, CacheLoadingError<E>>(None),
            CacheResult::Error(be) => out == Err::<Option<ResultMeta<V>>, CacheLoadingError<E>>(
                CacheLoadingError::BackingError(be),
            ),
        },
{
    match r {
        CacheResult::Found(value) => Ok(Some(ResultMeta { result: value, cached: true })),
        CacheResult::Loading(_) | CacheResult::Retry(_) => match awaited {
            Some(a) => match a {
                Ok(value) => Ok(Some(ResultMeta { result: value, cached: false })),
                Err(e) => Err(e),
            },
            None => Err(CacheLoadingError::CommunicationError(
                CacheCommunicationError::JoinFailed,
            )),
        },
        CacheResult::Absent => Ok(None),
        CacheResult::Error(be) => Err(CacheLoadingError::BackingError(be)),
    }
}

/// Interprets the engine's answer to a re-submitted update. An in-place
/// update that no longer finds its key reports `NoData`; a value update
/// that still observes a load in flight reports `LookupLoop`.
pub fn interpret_update_retry<V, E>(r: CacheResult<V>, mutator: bool) -> (out: Result<
    V,
    CacheLoadingError<E>,
>)
    ensures
        match r {
            CacheResult::Found(v) => out == Ok::<V, CacheLoadingError<E>>(v),
            CacheResult::Error(be) => if mutator {
                out matches Err(e) && e is NoData
            } else {
                out == Err::<V, CacheLoadingError<E>>(CacheLoadingError::BackingError(be))
            },
            _ => if mutator {
                out matches Err(e) && e is NoData
            } else {
                out matches Err(e) && e is LookupLoop
            },
        },
{
    if mutator {
        match r {
            CacheResult::Found(value) => Ok(value),
            _ => Err(CacheLoadingError::NoData),
        }
    } else {
        match r {
            CacheResult::Found(value) => Ok(value),
            CacheResult::Error(be) => Err(CacheLoadingError::BackingError(be)),
            _ => Err(CacheLoadingError::LookupLoop),
        }
    }
}

} // verus!
