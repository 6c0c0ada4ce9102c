//! A filesystem index: a scanner that turns a snapshot of a directory tree
//! into a tree of nodes with compact metadata, a generational slab that
//! stores index nodes beside a metadata cache, a versioned binary format that
//! saves and loads that store, and version-based cancellation for
//! long-running work.
use vstd::prelude::*;

pub mod tree_store;
pub mod cancel;
pub mod metadata_cache;
pub mod node;
pub mod persist;
pub mod slab;
pub mod store;
pub mod walk;

verus! {

} // verus!
