//! An in-process key-value cache library built around a sharded store that
//! composes an eviction policy, an expiration policy, and a key index behind
//! a single entry-based API.
//!
//! The core pieces are:
//! - intrusive list and bag primitives used by the eviction engines,
//! - a layer protocol: composable per-shard side-state with read/write hooks,
//! - eviction layers (least-recently-inserted, least-recently-touched,
//!   approximate touch tracking, random, generational promotion),
//! - expiration layers (intrusive, deadline, sliding windows), and
//! - the sharded store itself, plus a single-shard local store.
use vstd::prelude::*;

pub mod builder;
pub mod evict;
pub mod expire;
pub mod local;
pub mod laws;
pub mod map;
pub mod layer;
pub mod shard;
pub mod sync;
pub mod table;
pub mod time;

verus! {

/// A cache value: a payload that carries its own key.
///
/// Keys are plain 64-bit integers; a caller with richer keys hashes or encodes
/// them into a `u64` before handing values to the cache.
pub trait Value: Sized {
    /// The key of this value, as seen by specifications.
    spec fn spec_key(&self) -> u64;

    /// The key under which this value is stored.
    fn key(&self) -> (k: u64)
        ensures
            k == self.spec_key(),
    ;
}

/// The outcome of probing a store for a key: the entry's pointer, or nothing.
/// Probing counts as a touch against the eviction policy, exactly as a `get`
/// does, and drops an entry the expiration policy reports as dead.
#[derive(Debug, Clone)]
pub enum Entry<P> {
    Occupied(P),
    Vacant,
}

impl<P> Entry<P> {
    /// The entry as an option, for specifications.
    pub open spec fn spec_option(self) -> Option<P> {
        match self {
            Entry::Occupied(p) => Some(p),
            Entry::Vacant => None,
        }
    }

    /// The pointer of an occupied entry.
    pub fn into_pointer(self) -> (r: Option<P>)
        ensures
            self matches Entry::Occupied(p) ==> r == Some(p),
            self is Vacant ==> r is None,
    {
        match self {
            Entry::Occupied(p) => Some(p),
            Entry::Vacant => None,
        }
    }

    pub fn is_occupied(&self) -> (r: bool)
        ensures
            r == (self is Occupied),
    {
        match self {
            Entry::Occupied(_) => true,
            Entry::Vacant => false,
        }
    }
}

} // verus!
