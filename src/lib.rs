//! An embedded key-value store kept as an append-only log of records,
//! replayed into an in-memory index when the store is opened.

pub mod memory;
pub mod record;
pub mod log;
pub mod store;

pub use store::{KeyNotFound, KvStore, KvsError, Pending};

use vstd::prelude::*;

verus! {

/// The value bound to `k` in `m`, if any.
pub open spec fn lookup(m: Map<Seq<char>, Seq<char>>, k: Seq<char>) -> Option<Seq<char>> {
    if m.contains_key(k) {
        Some(m[k])
    } else {
        None
    }
}

/// The characters of an optional string.
pub open spec fn opt_view(o: Option<String>) -> Option<Seq<char>> {
    match o {
        Some(s) => Some(s@),
        None => None,
    }
}

} // verus!
