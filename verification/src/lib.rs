//! A page-oriented B+Tree index with its page cache and LRU-K replacement
//! policy: a persistent, ordered key-to-value index over fixed-size pages.

use vstd::prelude::*;

pub mod btree;
pub mod catalog;
pub mod disk;
pub mod internal;
pub mod node;
pub mod page;
pub mod page_cache;
pub mod replacer;
pub mod slot;
pub mod table_node;

verus! {

/// The errors the storage core can surface.
///
/// `Io` is a failure of the backing storage; `OutOfMemory` means the cache
/// could not obtain an unpinned frame; `CorruptPage` means decoding a node
/// from page bytes violated an invariant.
#[derive(Clone, Copy, Debug, PartialEq, Eq, Structural)]
pub enum StoreError {
    Io,
    OutOfMemory,
    CorruptPage,
}

} // verus!
