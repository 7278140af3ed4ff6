//! The model of a cache: the sequence of its key-value pairs, the most recently used pair first,
//! and what the operations make of it.

use vstd::prelude::*;
use vstd::std_specs::hash::{builds_valid_hashers, contains_borrowed_key, obeys_key_model};

verus! {

/// Whether `key` is the key that `query` asks for: a hash map that holds `key` alone is found to
/// contain `query`. Where `Q` is `K` this is equality, and where `K` is `Box<Q>` it is equality
/// with what the box holds.
pub open spec fn borrows_as<K, Q: ?Sized>(key: K, query: &Q) -> bool {
    contains_borrowed_key::<K, (), Q>(Map::empty().insert(key, ()), query)
}

/// Keys that borrow as equal values are equal.
pub open spec fn borrows_uniquely<K, Q: ?Sized>() -> bool {
    forall|k1: K, k2: K, query: &Q| #[trigger]
        borrows_as(k1, query) && #[trigger] borrows_as(k2, query) ==> k1 == k2
}

/// What is asked of the type of a query: it meets vstd's condition on keys, and keys that borrow as
/// equal values are equal.
///
/// vstd's condition is `obeys_key_model`: the hash of a value is the same at every call, and two
/// values are the same one exactly where `==` says that they are equal. A lawful `Eq` alone does
/// not give this. Types whose `==` takes different values to be equal, such as strings that are
/// compared without regard to case, are outside the contracts. Where `Q` is `K`, keys that meet the
/// condition borrow lawfully.
pub open spec fn borrows_lawfully<K, Q: ?Sized>() -> bool {
    obeys_key_model::<Q>() && borrows_uniquely::<K, Q>()
}

/// Any two hashers that `builder` gives compute the same, as those of every builder of its type do.
pub open spec fn gives_equal_hashers<S>(builder: S) -> bool {
    builds_valid_hashers::<S>()
}

/// Whether an empty hash table can be made for `capacity` slots. It has a power of two of buckets,
/// at least 8 of them for every 7 slots, and each takes a slot and a byte; all of them together
/// have to stay below `isize::MAX` bytes.
pub open spec fn allocatable(capacity: usize) -> bool {
    capacity <= 7 * (isize::MAX / 128 + 1)
}

/// No key occurs twice.
pub open spec fn unique_keys<K, V>(entries: Seq<(K, V)>) -> bool {
    forall|i: int, j: int|
        0 <= i < j < entries.len() ==> (#[trigger] entries[i]).0 != (#[trigger] entries[j]).0
}

/// The pair at position `i` has the key that `query` asks for.
pub open spec fn found_at<K, V, Q: ?Sized>(entries: Seq<(K, V)>, query: &Q, i: int) -> bool {
    0 <= i < entries.len() && borrows_as(entries[i].0, query)
}

/// Some pair has the key that `query` asks for.
pub open spec fn holds<K, V, Q: ?Sized>(entries: Seq<(K, V)>, query: &Q) -> bool {
    exists|i: int| #![trigger entries[i]] found_at(entries, query, i)
}

/// The position of the pair whose key `query` asks for.
pub open spec fn position<K, V, Q: ?Sized>(entries: Seq<(K, V)>, query: &Q) -> int
    recommends
        holds(entries, query),
{
    choose|i: int| #![trigger entries[i]] found_at(entries, query, i)
}

/// A query asks for one pair at most.
pub proof fn lemma_position<K, V, Q: ?Sized>(entries: Seq<(K, V)>, query: &Q, i: int)
    requires
        unique_keys(entries),
        borrows_uniquely::<K, Q>(),
        found_at(entries, query, i),
    ensures
        holds(entries, query),
        position(entries, query) == i,
{
    let j = position(entries, query);
    assert(found_at(entries, query, j));
    assert(borrows_as(entries[i].0, query) && borrows_as(entries[j].0, query));
}

/// The value under the key that `query` asks for.
pub open spec fn lookup<K, V, Q: ?Sized>(entries: Seq<(K, V)>, query: &Q) -> Option<V> {
    if holds(entries, query) {
        Some(entries[position(entries, query)].1)
    } else {
        None
    }
}

/// The pair at position `i` moved to the front.
pub open spec fn promoted<K, V>(entries: Seq<(K, V)>, i: int) -> Seq<(K, V)> {
    seq![entries[i]] + entries.remove(i)
}

/// Moving a pair to the front keeps the keys apart.
pub proof fn lemma_promoted_unique<K, V>(entries: Seq<(K, V)>, i: int)
    requires
        unique_keys(entries),
        0 <= i < entries.len(),
    ensures
        unique_keys(promoted(entries, i)),
{
}

/// The pair whose key `query` asks for moved to the front.
pub open spec fn after_get<K, V, Q: ?Sized>(entries: Seq<(K, V)>, query: &Q) -> Seq<(K, V)> {
    if holds(entries, query) {
        promoted(entries, position(entries, query))
    } else {
        entries
    }
}

/// The pair whose key `query` asks for taken out.
pub open spec fn after_pop<K, V, Q: ?Sized>(entries: Seq<(K, V)>, query: &Q) -> Seq<(K, V)> {
    if holds(entries, query) {
        entries.remove(position(entries, query))
    } else {
        entries
    }
}

/// A key that is there gets the new value and moves to the front. Another key comes to the front
/// with its value, and in a full cache the last pair makes room; a cache without room for any
/// pair stays as it is.
pub open spec fn after_put<K, V>(entries: Seq<(K, V)>, capacity: usize, key: K, val: V) -> Seq<
    (K, V),
> {
    if holds(entries, &key) {
        seq![(key, val)] + entries.remove(position(entries, &key))
    } else if capacity == 0 {
        entries
    } else if entries.len() == capacity {
        seq![(key, val)] + entries.drop_last()
    } else {
        seq![(key, val)] + entries
    }
}

/// The last pair taken out.
pub open spec fn after_pop_lru<K, V>(entries: Seq<(K, V)>) -> Seq<(K, V)> {
    if entries.len() > 0 {
        entries.drop_last()
    } else {
        entries
    }
}

/// The first `capacity` pairs.
pub open spec fn after_resize<K, V>(entries: Seq<(K, V)>, capacity: usize) -> Seq<(K, V)> {
    if entries.len() > capacity {
        entries.take(capacity as int)
    } else {
        entries
    }
}

} // verus!
