//! A persistent key-value store: an in-memory index backed by an append-only
//! log of records, with per-record expiry, compaction and restore from a backup.

use vstd::prelude::*;

pub mod frame;
pub mod index;
pub mod laws;
pub mod record;
pub mod store;

verus! {

} // verus!
