//! The nodes of the recency list.

use vstd::prelude::*;

verus! {

/// The link of a node that is in no list.
pub const UNLINKED: usize = usize::MAX;

/// A node of the recency list: a key-value pair and the slots of the nodes before and after it.
/// A node without a key and a value is a sigil, which marks an end of the list.
pub struct LruEntry<K, V> {
    pub key: Option<K>,
    pub val: Option<V>,
    pub prev: usize,
    pub next: usize,
}

impl<K, V> LruEntry<K, V> {
    /// Makes a node that holds `key` and `val` and is in no list.
    pub fn new(key: K, val: V) -> (entry: Self)
        ensures
            entry.key == Some(key),
            entry.val == Some(val),
            entry.prev == UNLINKED,
            entry.next == UNLINKED,
        no_unwind
    {
        LruEntry { key: Some(key), val: Some(val), prev: UNLINKED, next: UNLINKED }
    }

    /// Makes a sigil that is in no list.
    pub fn new_sigil() -> (entry: Self)
        ensures
            entry.key is None,
            entry.val is None,
            entry.prev == UNLINKED,
            entry.next == UNLINKED,
        no_unwind
    {
        LruEntry { key: None, val: None, prev: UNLINKED, next: UNLINKED }
    }
}

} // verus!
