//! The hash index of the cache: it files the slots of the nodes under the hashes of their keys.
//!
//! The nodes own the keys. The index holds slots only, and looks at the nodes when it compares or
//! hashes keys. Hashing and the hash table itself are outside code: the items marked
//! `external_body` here state what is taken of it.

use std::borrow::Borrow;
use std::hash::{BuildHasher, Hash};

use vstd::prelude::*;
use vstd::std_specs::hash::obeys_key_model;

use crate::entry::LruEntry;
use crate::model::{allocatable, borrows_as, borrows_lawfully, gives_equal_hashers};

verus! {

/// `hashbrown::DefaultHashBuilder`, of which nothing is known here but that it exists.
#[verifier::external_type_specification]
#[verifier::external_body]
pub struct ExDefaultHashBuilder(hashbrown::DefaultHashBuilder);

/// `hashbrown::DefaultHashBuilder::default`, which seeds a builder. Taken of it: it is a builder
/// that gives equal hashers. What the seed is, and so what the hashers compute, is left unsaid: it
/// differs from builder to builder.
pub assume_specification[ <hashbrown::DefaultHashBuilder as Default>::default ]() -> (builder:
    hashbrown::DefaultHashBuilder)
    ensures
        gives_equal_hashers(builder),
;

/// A `hashbrown::HashTable` of slots.
#[verifier::external_body]
pub struct SlotTable {
    table: hashbrown::HashTable<usize>,
}

/// The slots that a table holds, each with the hash that it was inserted with.
pub uninterp spec fn filed(table: SlotTable) -> Map<usize, u64>;

/// A hash builder, with the function that it and the `Hash` of the keys compute.
#[verifier::reject_recursive_types(K)]
pub struct KeyHasher<K, S> {
    builder: S,
    /// The hash of each key. It is fixed when the hasher is made, and differs from hasher to
    /// hasher where the builder is seeded.
    digests: Ghost<spec_fn(K) -> u64>,
    /// Whether the builder is known to give equal hashers, so that there is such a function.
    lawful: Ghost<bool>,
}

impl<K, S> KeyHasher<K, S> {
    /// The builder whose hashers hash the keys.
    pub closed spec fn builder(self) -> S {
        self.builder
    }

    /// The hash of a key.
    pub closed spec fn digest(self, key: K) -> u64 {
        (self.digests@)(key)
    }

    /// Whether the builder is known to give equal hashers.
    pub closed spec fn lawful(self) -> bool {
        self.lawful@
    }
}

/// Every slot is that of a node with a key.
pub open spec fn keyed<K, V>(slots: Map<usize, u64>, nodes: Seq<LruEntry<K, V>>) -> bool {
    forall|slot: usize| #[trigger]
        slots.contains_key(slot) ==> slot < nodes.len() && nodes[slot as int].key is Some
}

/// Every slot stands under the hash of its node's key.
pub open spec fn hashed<K, V, S>(
    slots: Map<usize, u64>,
    nodes: Seq<LruEntry<K, V>>,
    hasher: KeyHasher<K, S>,
) -> bool {
    forall|slot: usize| #[trigger]
        slots.contains_key(slot) ==> slots[slot] == hasher.digest(nodes[slot as int].key.unwrap())
}

/// The node at `slot` holds the key that `query` asks for.
pub open spec fn slot_matches<K, V, Q: ?Sized>(
    nodes: Seq<LruEntry<K, V>>,
    slot: usize,
    query: &Q,
) -> bool {
    borrows_as(nodes[slot as int].key.unwrap(), query)
}

/// Calls `hashbrown::Equivalent::equivalent`, which compares the query with what the key borrows
/// as. Taken of it, for keys and queries that are the same where they are equal: it says whether
/// the key is the one that the query asks for.
#[verifier::external_body]
fn equivalent<K: Borrow<Q>, Q: Eq + ?Sized>(key: &K, query: &Q) -> (same: bool)
    requires
        obeys_key_model::<K>(),
        borrows_lawfully::<K, Q>(),
    ensures
        same == borrows_as(*key, query),
{
    hashbrown::Equivalent::equivalent(query, key)
}

/// Says whether the node at `slot` holds the key that `query` asks for.
fn key_matches<K: Borrow<Q>, V, Q: Eq + ?Sized>(
    nodes: &Vec<LruEntry<K, V>>,
    slot: usize,
    query: &Q,
) -> (same: bool)
    requires
        obeys_key_model::<K>(),
        borrows_lawfully::<K, Q>(),
        slot < nodes@.len(),
        nodes@[slot as int].key is Some,
    ensures
        same == slot_matches(nodes@, slot, query),
{
    match &nodes[slot].key {
        Some(key) => equivalent(key, query),
        None => false,
    }
}

impl<K: Hash + Eq, S: BuildHasher> KeyHasher<K, S> {
    /// Calls `BuildHasher::hash_one`. Taken of it, for keys and queries that meet vstd's condition
    /// on keys and for a builder that gives equal hashers: a query has the hash of the key that it
    /// asks for, as `Borrow` wants it, and a key has the same hash at every call, so that no call
    /// unwinds. What this hash is, the builder's seed decides.
    #[verifier::external_body]
    fn hash_one<Q>(&self, query: &Q) -> (hash: u64) where K: Borrow<Q>, Q: Hash + ?Sized
        requires
            obeys_key_model::<K>(),
            borrows_lawfully::<K, Q>(),
            self.lawful(),
        ensures
            forall|key: K| #[trigger] borrows_as(key, query) ==> hash == self.digest(key),
        no_unwind
    {
        self.builder.hash_one(query)
    }

    /// Hashes the key of the node at `slot`.
    fn hash_slot<V>(&self, nodes: &Vec<LruEntry<K, V>>, slot: usize) -> (hash: u64)
        requires
            obeys_key_model::<K>(),
            self.lawful(),
            slot < nodes@.len(),
            nodes@[slot as int].key is Some,
        ensures
            hash == self.digest(nodes@[slot as int].key.unwrap()),
        no_unwind
    {
        match &nodes[slot].key {
            Some(key) => {
                assert(borrows_as(*key, key));
                self.hash_one(key)
            },
            None => 0,
        }
    }
}

impl SlotTable {
    /// Calls `HashTable::find`. Taken of it: the slot that comes back is in the table and passes
    /// the comparison; where none comes back, no slot that was inserted with this hash passes. No
    /// call unwinds, since the comparison answers for all keys and queries that are asked for here.
    #[verifier::external_body]
    fn find<K: Borrow<Q>, V, Q: Eq + ?Sized>(
        &self,
        hash: u64,
        nodes: &Vec<LruEntry<K, V>>,
        query: &Q,
    ) -> (found: Option<usize>)
        requires
            obeys_key_model::<K>(),
            borrows_lawfully::<K, Q>(),
            keyed(filed(*self), nodes@),
        ensures
            match found {
                Some(slot) => filed(*self).contains_key(slot) && slot_matches(nodes@, slot, query),
                None => forall|slot: usize| #[trigger]
                    filed(*self).contains_key(slot) && filed(*self)[slot] == hash ==> !slot_matches(
                        nodes@,
                        slot,
                        query,
                    ),
            },
        no_unwind
    {
        self.table.find(hash, |slot| key_matches(nodes, *slot, query)).copied()
    }

    /// Calls `HashTable::find_entry`, and `OccupiedEntry::remove` on what it finds. Taken of them:
    /// the slot that comes back was in the table, passes the comparison, and is gone; where none
    /// comes back the table is as it was, and no slot that was inserted with this hash passes. No
    /// call unwinds, since the comparison answers for all keys and queries that are asked for here.
    #[verifier::external_body]
    fn remove<K: Borrow<Q>, V, Q: Eq + ?Sized>(
        &mut self,
        hash: u64,
        nodes: &Vec<LruEntry<K, V>>,
        query: &Q,
    ) -> (removed: Option<usize>)
        requires
            obeys_key_model::<K>(),
            borrows_lawfully::<K, Q>(),
            keyed(filed(*old(self)), nodes@),
        ensures
            match removed {
                Some(slot) => filed(*old(self)).contains_key(slot) && slot_matches(
                    nodes@,
                    slot,
                    query,
                ) && filed(*final(self)) == filed(*old(self)).remove(slot),
                None => filed(*final(self)) == filed(*old(self)) && forall|slot: usize| #[trigger]
                    filed(*old(self)).contains_key(slot) && filed(*old(self))[slot] == hash
                        ==> !slot_matches(nodes@, slot, query),
            },
        no_unwind
    {
        match self.table.find_entry(hash, |slot| key_matches(nodes, *slot, query)) {
            Ok(entry) => Some(entry.remove().0),
            Err(_) => None,
        }
    }

    /// Calls `HashTable::insert_unique`, which asks for the hashes of the slots that it moves.
    /// Taken of it: the slot is added with its hash, and the others keep theirs. Growing the
    /// table may fail for want of memory, as the nodes that the slots belong to may before it.
    #[verifier::external_body]
    fn insert<K: Hash + Eq, V, S: BuildHasher>(
        &mut self,
        hash: u64,
        slot: usize,
        nodes: &Vec<LruEntry<K, V>>,
        hasher: &KeyHasher<K, S>,
    )
        requires
            obeys_key_model::<K>(),
            hasher.lawful(),
            keyed(filed(*old(self)), nodes@),
            hashed(filed(*old(self)), nodes@, *hasher),
            !filed(*old(self)).contains_key(slot),
        ensures
            filed(*final(self)) == filed(*old(self)).insert(slot, hash),
    {
        self.table.insert_unique(hash, slot, |slot| hasher.hash_slot(nodes, *slot));
    }

    /// Calls `HashTable::shrink_to_fit`, which asks for the hashes of the slots that it moves.
    /// Taken of it: the table holds what it held. How much memory the table has before and after is
    /// left unsaid, since it is not a function of what the table holds.
    #[verifier::external_body]
    fn shrink_to_fit<K: Hash + Eq, V, S: BuildHasher>(
        &mut self,
        nodes: &Vec<LruEntry<K, V>>,
        hasher: &KeyHasher<K, S>,
    )
        requires
            obeys_key_model::<K>(),
            hasher.lawful(),
            keyed(filed(*old(self)), nodes@),
            hashed(filed(*old(self)), nodes@, *hasher),
        ensures
            filed(*final(self)) == filed(*old(self)),
    {
        self.table.shrink_to_fit(|slot| hasher.hash_slot(nodes, *slot));
    }

    /// Calls `HashTable::len`. Taken of it: it counts the slots, and does not unwind.
    #[verifier::external_body]
    fn len(&self) -> (len: usize)
        ensures
            len == filed(*self).len(),
        no_unwind
    {
        self.table.len()
    }
}

/// A table of slots and the hasher of the keys that the slots are filed under.
#[verifier::reject_recursive_types(K)]
pub struct SlotIndex<K, S> {
    slots: SlotTable,
    hasher: KeyHasher<K, S>,
}

impl<K, S> SlotIndex<K, S> {
    /// The slots in the index, each with the hash that it is filed under.
    pub closed spec fn filed(self) -> Map<usize, u64> {
        filed(self.slots)
    }

    /// The hasher of the index.
    pub closed spec fn hasher(self) -> KeyHasher<K, S> {
        self.hasher
    }

    /// Every slot in the index is that of a node with a key, and is filed under the key's hash.
    pub open spec fn indexes<V>(self, nodes: Seq<LruEntry<K, V>>) -> bool {
        keyed(self.filed(), nodes) && hashed(self.filed(), nodes, self.hasher())
    }
}

impl<K: Hash + Eq, S: BuildHasher> SlotIndex<K, S> {
    /// Calls `HashTable::with_capacity` and keeps the given builder. Taken of it: the table is
    /// empty, and the builder is the one that was given, which counts as lawful where it is
    /// known to give equal hashers.
    #[verifier::external_body]
    pub(crate) fn with_capacity_and_hasher(capacity: usize, builder: S) -> (index: Self)
        requires
            allocatable(capacity),
        ensures
            index.hasher().builder() == builder,
            index.hasher().lawful() == gives_equal_hashers(builder),
            index.filed().is_empty(),
    {
        SlotIndex {
            slots: SlotTable { table: hashbrown::HashTable::with_capacity(capacity) },
            hasher: KeyHasher { builder, digests: Ghost(arbitrary()), lawful: Ghost(arbitrary()) },
        }
    }

    /// Finds the slot whose key `query` asks for.
    pub(crate) fn find<V, Q>(&self, nodes: &Vec<LruEntry<K, V>>, query: &Q) -> (found: Option<
        usize,
    >) where K: Borrow<Q>, Q: Hash + Eq + ?Sized
        requires
            obeys_key_model::<K>(),
            borrows_lawfully::<K, Q>(),
            self.hasher().lawful(),
            self.indexes(nodes@),
        ensures
            match found {
                Some(slot) => self.filed().contains_key(slot) && slot_matches(nodes@, slot, query),
                None => forall|slot: usize| #[trigger]
                    self.filed().contains_key(slot) ==> !slot_matches(nodes@, slot, query),
            },
        no_unwind
    {
        let hash: u64 = self.hasher.hash_one(query);
        self.slots.find(hash, nodes, query)
    }

    /// Takes the slot whose key `query` asks for out of the index.
    pub(crate) fn remove<V, Q>(&mut self, nodes: &Vec<LruEntry<K, V>>, query: &Q) -> (removed:
        Option<usize>) where K: Borrow<Q>, Q: Hash + Eq + ?Sized
        requires
            obeys_key_model::<K>(),
            borrows_lawfully::<K, Q>(),
            old(self).hasher().lawful(),
            old(self).indexes(nodes@),
        ensures
            final(self).hasher() == old(self).hasher(),
            match removed {
                Some(slot) => {
                    &&& old(self).filed().contains_key(slot)
                    &&& slot_matches(nodes@, slot, query)
                    &&& final(self).filed() == old(self).filed().remove(slot)
                },
                None => {
                    &&& forall|slot: usize| #[trigger]
                        old(self).filed().contains_key(slot) ==> !slot_matches(nodes@, slot, query)
                    &&& final(self).filed() == old(self).filed()
                },
            },
        no_unwind
    {
        let hash: u64 = self.hasher.hash_one(query);
        self.slots.remove(hash, nodes, query)
    }

    /// Files a slot under the hash of its node's key.
    pub(crate) fn insert<V>(&mut self, nodes: &Vec<LruEntry<K, V>>, slot: usize)
        requires
            obeys_key_model::<K>(),
            old(self).hasher().lawful(),
            old(self).indexes(nodes@),
            slot < nodes@.len(),
            nodes@[slot as int].key is Some,
            !old(self).filed().contains_key(slot),
        ensures
            final(self).hasher() == old(self).hasher(),
            final(self).filed() == old(self).filed().insert(
                slot,
                old(self).hasher().digest(nodes@[slot as int].key.unwrap()),
            ),
    {
        let hash: u64 = self.hasher.hash_slot(nodes, slot);
        self.slots.insert(hash, slot, nodes, &self.hasher);
    }

    /// Gives back memory that the index does not need. What it holds stays as it is, and of the
    /// memory nothing is stated.
    pub(crate) fn shrink_to_fit<V>(&mut self, nodes: &Vec<LruEntry<K, V>>)
        requires
            obeys_key_model::<K>(),
            old(self).hasher().lawful(),
            old(self).indexes(nodes@),
        ensures
            final(self).hasher() == old(self).hasher(),
            final(self).filed() == old(self).filed(),
    {
        self.slots.shrink_to_fit(nodes, &self.hasher);
    }

    /// Counts the slots in the index.
    pub(crate) fn len(&self) -> (len: usize)
        ensures
            len == self.filed().len(),
        no_unwind
    {
        self.slots.len()
    }
}

} // verus!
