//! The cache: a recency list of nodes and an index that finds them by their keys.
//!
//! A function that is marked `no_unwind` does not panic. It makes no call that could fail for want
//! of memory; of the calls that hash and compare keys, the index states that they return.

use std::borrow::Borrow;
use std::hash::{BuildHasher, Hash};

use vstd::prelude::*;
use vstd::std_specs::hash::obeys_key_model;

use crate::entry::LruEntry;
use crate::index::SlotIndex;
use crate::iter::{Iter, IterMut};
use crate::list::{linked, occupied, pair, same_pairs, EntryList, HEAD, TAIL};
use crate::model::{
    after_get, after_pop, after_pop_lru, after_put, after_resize, allocatable, borrows_as,
    borrows_lawfully, found_at, gives_equal_hashers, holds, lemma_position, lemma_promoted_unique,
    lookup, position, promoted, unique_keys,
};

verus! {

/// The hash builder of a cache that is not given one.
pub type DefaultHasher = hashbrown::DefaultHashBuilder;

/// A cache that holds a limited number of key-value pairs and makes room for a new pair by
/// discarding the one that was used least recently.
#[verifier::reject_recursive_types(K)]
pub struct LruCache<K, V, S = DefaultHasher> {
    map: SlotIndex<K, S>,
    list: EntryList<K, V>,
    cap: usize,
}

impl<K, V, S> View for LruCache<K, V, S> {
    type V = Seq<(K, V)>;

    /// The pairs in the cache, the most recently used one first.
    closed spec fn view(&self) -> Seq<(K, V)> {
        self.list@
    }
}

impl<K, V, S> LruCache<K, V, S> {
    /// The number of pairs that the cache has room for.
    pub closed spec fn capacity(self) -> usize {
        self.cap
    }

    /// The builder of the hashers that hash the keys.
    pub closed spec fn hash_builder(self) -> S {
        self.map.hasher().builder()
    }

    /// What holds of a cache at all times, for keys that are the same value exactly where `==` says
    /// that they are equal, as vstd's `obeys_key_model` wants them: no key occurs twice, there are
    /// no more pairs than there is room for, and the parts of the cache agree with each other.
    pub open spec fn inv(self) -> bool {
        &&& obeys_key_model::<K>()
        &&& unique_keys(self@)
        &&& self@.len() <= self.capacity()
        &&& self.wf()
    }

    /// The hash builder gives equal hashers, the list is linked up, every slot beside those of the
    /// sigils is in the list or free, and the index files the slots of the list under the hashes
    /// of their keys.
    pub closed spec fn wf(self) -> bool {
        &&& self.map.hasher().lawful()
        &&& self.list.wf()
        &&& self.list.nodes@.len() == 2 + self.list.order().len() + self.list.free@.len()
        &&& self.map.filed().dom() == self.list.order().to_set()
        &&& self.map.indexes(self.list.nodes@)
    }
}

impl<K: Hash + Eq, V> LruCache<K, V> {
    /// Makes a cache that holds at most `cap` pairs.
    ///
    /// ```
    /// use lru::LruCache;
    /// let mut cache: LruCache<isize, &str> = LruCache::new(10);
    /// ```
    pub fn new(cap: usize) -> (cache: LruCache<K, V>)
        requires
            allocatable(cap),
        ensures
            obeys_key_model::<K>() ==> cache.inv(),
            cache@ == Seq::<(K, V)>::empty(),
            cache.capacity() == cap,
    {
        let hash_builder = DefaultHasher::default();
        LruCache::construct(cap, SlotIndex::with_capacity_and_hasher(cap, hash_builder))
    }

    /// Makes a cache that never discards a pair on its own.
    ///
    /// ```
    /// use lru::LruCache;
    /// let mut cache: LruCache<isize, &str> = LruCache::unbounded();
    /// ```
    pub fn unbounded() -> (cache: LruCache<K, V>)
        ensures
            obeys_key_model::<K>() ==> cache.inv(),
            cache@ == Seq::<(K, V)>::empty(),
            cache.capacity() == usize::MAX,
    {
        let hash_builder = DefaultHasher::default();
        LruCache::construct(usize::MAX, SlotIndex::with_capacity_and_hasher(0, hash_builder))
    }
}

impl<K: Hash + Eq, V, S: BuildHasher> LruCache<K, V, S> {
    /// Makes a cache that holds at most `cap` pairs and hashes keys with the given builder.
    ///
    /// ```
    /// use lru::{DefaultHasher, LruCache};
    ///
    /// let s = DefaultHasher::default();
    /// let mut cache: LruCache<isize, &str> = LruCache::with_hasher(10, s);
    /// ```
    pub fn with_hasher(cap: usize, hash_builder: S) -> (cache: LruCache<K, V, S>)
        requires
            allocatable(cap),
        ensures
            obeys_key_model::<K>() && gives_equal_hashers(hash_builder) ==> cache.inv(),
            cache@ == Seq::<(K, V)>::empty(),
            cache.capacity() == cap,
            cache.hash_builder() == hash_builder,
    {
        LruCache::construct(cap, SlotIndex::with_capacity_and_hasher(cap, hash_builder))
    }

    /// Makes a cache that never discards a pair on its own and hashes keys with the given builder.
    pub fn unbounded_with_hasher(hash_builder: S) -> (cache: LruCache<K, V, S>)
        ensures
            obeys_key_model::<K>() && gives_equal_hashers(hash_builder) ==> cache.inv(),
            cache@ == Seq::<(K, V)>::empty(),
            cache.capacity() == usize::MAX,
            cache.hash_builder() == hash_builder,
    {
        LruCache::construct(usize::MAX, SlotIndex::with_capacity_and_hasher(0, hash_builder))
    }

    /// Makes a cache without pairs around an empty index.
    fn construct(cap: usize, map: SlotIndex<K, S>) -> (cache: LruCache<K, V, S>)
        requires
            map.filed().is_empty(),
        ensures
            obeys_key_model::<K>() && map.hasher().lawful() ==> cache.inv(),
            cache@ == Seq::<(K, V)>::empty(),
            cache.capacity() == cap,
            cache.hash_builder() == map.hasher().builder(),
    {
        let list = EntryList::new();
        assert(map.filed().dom() =~= list.order().to_set());
        LruCache { map, list, cap }
    }

    /// The number of pairs in the cache.
    ///
    /// ```
    /// use lru::LruCache;
    /// let mut cache = LruCache::new(2);
    /// assert_eq!(cache.len(), 0);
    ///
    /// cache.put(1, "a");
    /// assert_eq!(cache.len(), 1);
    ///
    /// cache.put(2, "b");
    /// cache.put(3, "c");
    /// assert_eq!(cache.len(), 2);
    /// ```
    pub fn len(&self) -> (len: usize)
        requires
            self.inv(),
        ensures
            len == self@.len(),
        no_unwind
    {
        proof {
            self.list.order().unique_seq_to_set();
        }
        self.map.len()
    }

    /// Finds the slot of the node whose key `k` asks for.
    fn find<Q>(&self, k: &Q) -> (found: Option<usize>) where K: Borrow<Q>, Q: Hash + Eq + ?Sized
        requires
            self.inv(),
            borrows_lawfully::<K, Q>(),
        ensures
            match found {
                Some(slot) => self.list.order().contains(slot) && found_at(
                    self@,
                    k,
                    self.list.order().index_of(slot),
                ),
                None => !holds(self@, k),
            },
        no_unwind
    {
        let found: Option<usize> = self.map.find(&self.list.nodes, k);
        proof {
            if found is Some {
                assert(self.list.order().to_set().contains(found.unwrap()));
            } else {
                assert forall|i: int| !found_at(self@, k, i) by {
                    if 0 <= i < self@.len() {
                        assert(self.list.order().to_set().contains(self.list.order()[i]));
                    }
                }
            }
        }
        found
    }

    /// Whether the cache holds no pair.
    ///
    /// ```
    /// use lru::LruCache;
    /// let mut cache = LruCache::new(2);
    /// assert!(cache.is_empty());
    ///
    /// cache.put(1, "a");
    /// assert!(!cache.is_empty());
    /// ```
    pub fn is_empty(&self) -> (empty: bool)
        requires
            self.inv(),
        ensures
            empty == (self@.len() == 0),
        no_unwind
    {
        self.len() == 0
    }

    /// The number of pairs that the cache has room for.
    ///
    /// ```
    /// use lru::LruCache;
    /// let mut cache: LruCache<isize, &str> = LruCache::new(2);
    /// assert_eq!(cache.cap(), 2);
    /// ```
    pub fn cap(&self) -> (cap: usize)
        ensures
            cap == self.capacity(),
        no_unwind
    {
        self.cap
    }

    /// Moves the node at `slot` to the front of the list.
    fn promote(&mut self, slot: usize)
        requires
            old(self).inv(),
            old(self).list.order().contains(slot),
        ensures
            final(self).inv(),
            final(self).cap == old(self).cap,
            final(self).hash_builder() == old(self).hash_builder(),
            final(self)@ == promoted(old(self)@, old(self).list.order().index_of(slot)),
            final(self).list.order()[0] == slot,
            same_pairs(old(self).list.nodes@, final(self).list.nodes@),
        no_unwind
    {
        let ghost order = self.list.order();
        let ghost i = order.index_of(slot);
        self.list.detach(slot);
        self.list.attach(slot);
        proof {
            assert(self.list.order().to_set() =~= order.to_set()) by {
                assert forall|s: usize| order.contains(s) implies self.list.order().contains(
                    s,
                ) by {
                    let j = order.index_of(s);
                    if j < i {
                        assert(self.list.order()[j + 1] == s);
                    } else if j == i {
                        assert(self.list.order()[0] == s);
                    } else {
                        assert(self.list.order()[j] == s);
                    }
                }
            }
            lemma_promoted_unique(old(self)@, i);
        }
    }

    /// Puts a pair into the cache, in front of all others. If the key is in the cache already, it
    /// gets the new value and the old one is returned; otherwise a full cache discards the least
    /// recently used pair, and a cache without room for any pair discards the new one.
    ///
    /// ```
    /// use lru::LruCache;
    /// let mut cache = LruCache::new(2);
    ///
    /// assert_eq!(None, cache.put(1, "a"));
    /// assert_eq!(None, cache.put(2, "b"));
    /// assert_eq!(Some("b"), cache.put(2, "beta"));
    ///
    /// assert_eq!(cache.get(&1), Some(&"a"));
    /// assert_eq!(cache.get(&2), Some(&"beta"));
    /// ```
    pub fn put(&mut self, k: K, v: V) -> (replaced: Option<V>)
        requires
            old(self).inv(),
        ensures
            final(self).inv(),
            final(self).capacity() == old(self).capacity(),
            final(self).hash_builder() == old(self).hash_builder(),
            final(self)@ == after_put(old(self)@, old(self).capacity(), k, v),
            old(self).capacity() > 0 ==> final(self)@[0] == (k, v),
            replaced == lookup(old(self)@, &k),
        no_unwind when holds(old(self)@, &k) || old(self).capacity() == 0
    {
        match self.find(&k) {
            Some(slot) => {
                let ghost i = self.list.order().index_of(slot);
                proof {
                    lemma_position(self@, &k, i);
                    assert(borrows_as(self@[i].0, &k));
                }
                let mut val = Some(v);
                std::mem::swap(&mut self.list.nodes[slot].val, &mut val);
                proof {
                    self.list.lemma_value_set(old(self).list, i);
                }
                self.promote(slot);
                assert(self@ =~= after_put(old(self)@, old(self).capacity(), k, v));
                val
            },
            None => {
                if self.cap() == 0 {
                    return None;
                }
                if self.len() == self.cap() {
                    self.remove_last();
                }
                let ghost kept = *self;
                let slot: usize = self.list.store(LruEntry::new(k, v));
                self.list.attach(slot);
                self.map.insert(&self.list.nodes, slot);
                proof {
                    assert(!holds(kept@, &k)) by {
                        assert forall|i: int| !found_at(kept@, &k, i) by {
                            assert(!found_at(old(self)@, &k, i));
                        }
                    }
                    self.lemma_added(kept, slot);
                }
                None
            },
        }
    }

    /// Takes the least recently used node out of the cache.
    fn remove_last(&mut self) -> (removed: Option<LruEntry<K, V>>)
        requires
            old(self).inv(),
        ensures
            final(self).inv(),
            final(self).cap == old(self).cap,
            final(self).hash_builder() == old(self).hash_builder(),
            final(self)@ == after_pop_lru(old(self)@),
            match removed {
                Some(entry) => old(self)@.len() > 0 && entry.key == Some(old(self)@.last().0)
                    && entry.val == Some(old(self)@.last().1),
                None => old(self)@.len() == 0,
            },
        no_unwind
    {
        let ghost order = self.list.order();
        let ghost last = order.len() - 1;
        assert(linked(self.list.nodes@, order, last));
        let slot: usize = self.list.nodes[TAIL].prev;
        if slot != HEAD {
            assert(occupied(self.list.nodes@, order[last]));
            match &self.list.nodes[slot].key {
                Some(key) => {
                    let removed: Option<usize> = self.map.remove(&self.list.nodes, key);
                    proof {
                        assert(borrows_as(*key, key));
                        assert(order.to_set().contains(slot));
                        assert(removed is Some);
                        assert(order.to_set().contains(removed.unwrap()));
                        let i = order.index_of(removed.unwrap());
                        assert(self@[i].0 == self@[last].0);
                    }
                },
                None => {},
            }
            self.list.detach(slot);
            let entry = self.list.release(slot);
            proof {
                self.lemma_taken(*old(self), last);
            }
            Some(entry)
        } else {
            assert(order.len() > 0 ==> occupied(self.list.nodes@, order[last]));
            None
        }
    }

    /// Returns the value of the key, or `None` if the key is not in the cache. The key becomes the
    /// most recently used one.
    ///
    /// ```
    /// use lru::LruCache;
    /// let mut cache = LruCache::new(2);
    ///
    /// cache.put(1, "a");
    /// cache.put(2, "b");
    /// cache.put(2, "c");
    /// cache.put(3, "d");
    ///
    /// assert_eq!(cache.get(&1), None);
    /// assert_eq!(cache.get(&2), Some(&"c"));
    /// assert_eq!(cache.get(&3), Some(&"d"));
    /// ```
    pub fn get<'a, Q>(&'a mut self, k: &Q) -> (val: Option<&'a V>) where
        K: Borrow<Q>,
        Q: Hash + Eq + ?Sized,

        requires
            old(self).inv(),
            borrows_lawfully::<K, Q>(),
        ensures
            final(self).inv(),
            final(self).capacity() == old(self).capacity(),
            final(self).hash_builder() == old(self).hash_builder(),
            final(self)@ == after_get(old(self)@, k),
            match val {
                Some(v) => lookup(old(self)@, k) == Some(*v),
                None => lookup(old(self)@, k) is None,
            },
        no_unwind
    {
        match self.find(k) {
            Some(slot) => {
                let ghost i = self.list.order().index_of(slot);
                proof {
                    lemma_position(self@, k, i);
                }
                assert(occupied(self.list.nodes@, self.list.order()[i]));
                self.promote(slot);
                match &self.list.nodes[slot].val {
                    Some(val) => Some(val),
                    None => None,
                }
            },
            None => None,
        }
    }

    /// Returns a mutable reference to the value of the key, or `None` if the key is not in the
    /// cache. The key becomes the most recently used one.
    ///
    /// ```
    /// use lru::LruCache;
    /// let mut cache = LruCache::new(2);
    ///
    /// cache.put("apple", 8);
    /// cache.put("banana", 4);
    /// cache.put("banana", 6);
    /// cache.put("pear", 2);
    ///
    /// assert_eq!(cache.get_mut(&"apple"), None);
    /// assert_eq!(cache.get_mut(&"banana"), Some(&mut 6));
    /// assert_eq!(cache.get_mut(&"pear"), Some(&mut 2));
    /// ```
    pub fn get_mut<'a, Q>(&'a mut self, k: &Q) -> (val: Option<&'a mut V>) where
        K: Borrow<Q>,
        Q: Hash + Eq + ?Sized,

        requires
            old(self).inv(),
            borrows_lawfully::<K, Q>(),
        ensures
            final(self).inv(),
            final(self).capacity() == old(self).capacity(),
            final(self).hash_builder() == old(self).hash_builder(),
            match val {
                Some(v) => {
                    let i = position(old(self)@, k);
                    &&& lookup(old(self)@, k) == Some(*v)
                    &&& final(self)@[0] == (old(self)@[i].0, *final(v))
                    &&& final(self)@ == seq![final(self)@[0]] + old(self)@.remove(i)
                },
                None => lookup(old(self)@, k) is None && final(self)@ == old(self)@,
            },
        no_unwind
    {
        match self.find(k) {
            Some(slot) => {
                let ghost i = self.list.order().index_of(slot);
                proof {
                    lemma_position(self@, k, i);
                }
                assert(occupied(self.list.nodes@, self.list.order()[i]));
                self.promote(slot);
                self.value_mut(slot, Ghost(0))
            },
            None => None,
        }
    }

    /// Returns the value of the key, or `None` if the key is not in the cache. Unlike `get` this
    /// is no use of the key.
    ///
    /// ```
    /// use lru::LruCache;
    /// let mut cache = LruCache::new(2);
    ///
    /// cache.put(1, "a");
    /// cache.put(2, "b");
    ///
    /// assert_eq!(cache.peek(&1), Some(&"a"));
    /// assert_eq!(cache.peek(&2), Some(&"b"));
    /// ```
    pub fn peek<'a, Q>(&'a self, k: &Q) -> (val: Option<&'a V>) where
        K: Borrow<Q>,
        Q: Hash + Eq + ?Sized,

        requires
            self.inv(),
            borrows_lawfully::<K, Q>(),
        ensures
            match val {
                Some(v) => lookup(self@, k) == Some(*v),
                None => lookup(self@, k) is None,
            },
        no_unwind
    {
        match self.find(k) {
            Some(slot) => {
                let ghost i = self.list.order().index_of(slot);
                proof {
                    lemma_position(self@, k, i);
                }
                assert(occupied(self.list.nodes@, self.list.order()[i]));
                match &self.list.nodes[slot].val {
                    Some(val) => Some(val),
                    None => None,
                }
            },
            None => None,
        }
    }

    /// Returns a mutable reference to the value of the key, or `None` if the key is not in the
    /// cache. Unlike `get_mut` this is no use of the key.
    ///
    /// ```
    /// use lru::LruCache;
    /// let mut cache = LruCache::new(2);
    ///
    /// cache.put(1, "a");
    /// cache.put(2, "b");
    ///
    /// assert_eq!(cache.peek_mut(&1), Some(&mut "a"));
    /// assert_eq!(cache.peek_mut(&2), Some(&mut "b"));
    /// ```
    pub fn peek_mut<'a, Q>(&'a mut self, k: &Q) -> (val: Option<&'a mut V>) where
        K: Borrow<Q>,
        Q: Hash + Eq + ?Sized,

        requires
            old(self).inv(),
            borrows_lawfully::<K, Q>(),
        ensures
            final(self).inv(),
            final(self).capacity() == old(self).capacity(),
            final(self).hash_builder() == old(self).hash_builder(),
            match val {
                Some(v) => {
                    let i = position(old(self)@, k);
                    &&& lookup(old(self)@, k) == Some(*v)
                    &&& final(self)@ == old(self)@.update(i, (old(self)@[i].0, *final(v)))
                },
                None => lookup(old(self)@, k) is None && final(self)@ == old(self)@,
            },
        no_unwind
    {
        match self.find(k) {
            Some(slot) => {
                let ghost i = self.list.order().index_of(slot);
                proof {
                    lemma_position(self@, k, i);
                }
                self.value_mut(slot, Ghost(i))
            },
            None => None,
        }
    }

    /// Returns a mutable reference to the value in `slot`, which is at position `i` of the list.
    fn value_mut(&mut self, slot: usize, Ghost(i): Ghost<int>) -> (val: Option<&mut V>)
        requires
            old(self).inv(),
            0 <= i < old(self)@.len(),
            old(self).list.order()[i] == slot,
        ensures
            final(self).inv(),
            final(self).cap == old(self).cap,
            final(self).hash_builder() == old(self).hash_builder(),
            val is Some,
            *val.unwrap() == old(self)@[i].1,
            final(self)@ == old(self)@.update(i, (old(self)@[i].0, *final(val.unwrap()))),
        no_unwind
    {
        assert(occupied(self.list.nodes@, self.list.order()[i]));
        let val = match &mut self.list.nodes[slot].val {
            Some(val) => Some(val),
            None => None,
        };
        proof {
            after_borrow(*self).list.lemma_value_set(old(self).list, i);
        }
        val
    }

    /// Returns the least recently used pair, or `None` if the cache is empty. This is no use of its
    /// key.
    ///
    /// ```
    /// use lru::LruCache;
    /// let mut cache = LruCache::new(2);
    ///
    /// cache.put(1, "a");
    /// cache.put(2, "b");
    ///
    /// assert_eq!(cache.peek_lru(), Some((&1, &"a")));
    /// ```
    pub fn peek_lru<'a>(&'a self) -> (entry: Option<(&'a K, &'a V)>)
        requires
            self.inv(),
        ensures
            match entry {
                Some((k, v)) => self@.len() > 0 && self@.last() == (*k, *v),
                None => self@.len() == 0,
            },
        no_unwind
    {
        if self.is_empty() {
            return None;
        }
        let ghost order = self.list.order();
        assert(linked(self.list.nodes@, order, order.len() - 1));
        assert(occupied(self.list.nodes@, order.last()));
        let slot: usize = self.list.nodes[TAIL].prev;
        match (&self.list.nodes[slot].key, &self.list.nodes[slot].val) {
            (Some(key), Some(val)) => Some((key, val)),
            _ => None,
        }
    }

    /// Says whether the key is in the cache. This is no use of the key.
    ///
    /// ```
    /// use lru::LruCache;
    /// let mut cache = LruCache::new(2);
    ///
    /// cache.put(1, "a");
    /// cache.put(2, "b");
    /// cache.put(3, "c");
    ///
    /// assert!(!cache.contains(&1));
    /// assert!(cache.contains(&2));
    /// assert!(cache.contains(&3));
    /// ```
    pub fn contains<Q>(&self, k: &Q) -> (found: bool) where K: Borrow<Q>, Q: Hash + Eq + ?Sized
        requires
            self.inv(),
            borrows_lawfully::<K, Q>(),
        ensures
            found == holds(self@, k),
        no_unwind
    {
        match self.find(k) {
            Some(_) => true,
            None => false,
        }
    }

    /// Takes the key out of the cache and returns its value, or `None` if it is not there.
    ///
    /// ```
    /// use lru::LruCache;
    /// let mut cache = LruCache::new(2);
    ///
    /// cache.put(2, "a");
    ///
    /// assert_eq!(cache.pop(&1), None);
    /// assert_eq!(cache.pop(&2), Some("a"));
    /// assert_eq!(cache.pop(&2), None);
    /// assert_eq!(cache.len(), 0);
    /// ```
    pub fn pop<Q>(&mut self, k: &Q) -> (val: Option<V>) where K: Borrow<Q>, Q: Hash + Eq + ?Sized
        requires
            old(self).inv(),
            borrows_lawfully::<K, Q>(),
        ensures
            final(self).inv(),
            final(self).capacity() == old(self).capacity(),
            final(self).hash_builder() == old(self).hash_builder(),
            final(self)@ == after_pop(old(self)@, k),
            val == lookup(old(self)@, k),
        no_unwind
    {
        let ghost order = self.list.order();
        match self.map.remove(&self.list.nodes, k) {
            None => {
                assert forall|i: int| !found_at(self@, k, i) by {
                    if 0 <= i < self@.len() {
                        assert(order.to_set().contains(order[i]));
                    }
                }
                None
            },
            Some(slot) => {
                assert(order.to_set().contains(slot));
                let ghost i = order.index_of(slot);
                proof {
                    lemma_position(self@, k, i);
                }
                assert(occupied(self.list.nodes@, order[i]));
                self.list.detach(slot);
                let entry = self.list.release(slot);
                proof {
                    self.lemma_taken(*old(self), i);
                }
                entry.val
            },
        }
    }

    /// Takes the least recently used pair out of the cache and returns it, or `None` if the cache
    /// is empty.
    ///
    /// ```
    /// use lru::LruCache;
    /// let mut cache = LruCache::new(2);
    ///
    /// cache.put(2, "a");
    /// cache.put(3, "b");
    /// cache.put(4, "c");
    /// cache.get(&3);
    ///
    /// assert_eq!(cache.pop_lru(), Some((4, "c")));
    /// assert_eq!(cache.pop_lru(), Some((3, "b")));
    /// assert_eq!(cache.pop_lru(), None);
    /// assert_eq!(cache.len(), 0);
    /// ```
    pub fn pop_lru(&mut self) -> (entry: Option<(K, V)>)
        requires
            old(self).inv(),
        ensures
            final(self).inv(),
            final(self).capacity() == old(self).capacity(),
            final(self).hash_builder() == old(self).hash_builder(),
            final(self)@ == after_pop_lru(old(self)@),
            entry == (if old(self)@.len() > 0 {
                Some(old(self)@.last())
            } else {
                None
            }),
        no_unwind
    {
        match self.remove_last() {
            Some(LruEntry { key: Some(key), val: Some(val), .. }) => Some((key, val)),
            _ => None,
        }
    }

    /// Changes the number of pairs that the cache has room for. Of the pairs that do not fit any
    /// more, the least recently used ones are discarded.
    ///
    /// ```
    /// use lru::LruCache;
    /// let mut cache: LruCache<isize, &str> = LruCache::new(2);
    ///
    /// cache.put(1, "a");
    /// cache.put(2, "b");
    /// cache.resize(4);
    /// cache.put(3, "c");
    /// cache.put(4, "d");
    ///
    /// assert_eq!(cache.len(), 4);
    /// assert_eq!(cache.get(&1), Some(&"a"));
    /// assert_eq!(cache.get(&2), Some(&"b"));
    /// assert_eq!(cache.get(&3), Some(&"c"));
    /// assert_eq!(cache.get(&4), Some(&"d"));
    /// ```
    pub fn resize(&mut self, cap: usize)
        requires
            old(self).inv(),
        ensures
            final(self).inv(),
            final(self).capacity() == cap,
            final(self).hash_builder() == old(self).hash_builder(),
            final(self)@ == after_resize(old(self)@, cap),
        no_unwind when cap == old(self).capacity()
    {
        if cap == self.cap {
            return;
        }
        while self.len() > cap
            invariant
                self.inv(),
                self.hash_builder() == old(self).hash_builder(),
                self@.len() <= old(self)@.len(),
                self@.len() >= cap || self@.len() == old(self)@.len(),
                self@ == old(self)@.take(self@.len() as int),
            decreases self@.len(),
        {
            self.pop_lru();
        }
        self.shrink_to_fit();
        self.cap = cap;
    }

    /// Gives back memory that the index does not need.
    fn shrink_to_fit(&mut self)
        requires
            old(self).inv(),
        ensures
            final(self).inv(),
            final(self).cap == old(self).cap,
            final(self).hash_builder() == old(self).hash_builder(),
            final(self)@ == old(self)@,
    {
        self.map.shrink_to_fit(&self.list.nodes);
    }

    /// Takes all pairs out of the cache.
    ///
    /// ```
    /// use lru::LruCache;
    /// let mut cache: LruCache<isize, &str> = LruCache::new(2);
    /// cache.put(1, "a");
    /// cache.put(2, "b");
    /// assert_eq!(cache.len(), 2);
    ///
    /// cache.clear();
    /// assert_eq!(cache.len(), 0);
    /// ```
    pub fn clear(&mut self)
        requires
            old(self).inv(),
        ensures
            final(self).inv(),
            final(self).capacity() == old(self).capacity(),
            final(self).hash_builder() == old(self).hash_builder(),
            final(self)@ == Seq::<(K, V)>::empty(),
        no_unwind
    {
        while !self.is_empty()
            invariant
                self.inv(),
                self.capacity() == old(self).capacity(),
                self.hash_builder() == old(self).hash_builder(),
            decreases self@.len(),
        {
            self.pop_lru();
        }
    }

    /// Iterates over the pairs from the most to the least recently used one.
    ///
    /// ```
    /// use lru::LruCache;
    /// let mut cache = LruCache::new(3);
    /// cache.put("a", 1);
    /// cache.put("b", 2);
    ///
    /// let mut iter = cache.iter();
    /// assert_eq!(iter.next(), Some((&"b", &2)));
    /// assert_eq!(iter.next(), Some((&"a", &1)));
    /// assert_eq!(iter.next(), None);
    /// ```
    pub fn iter<'a>(&'a self) -> (iter: Iter<'a, K, V>)
        requires
            self.inv(),
        ensures
            iter@ == self@,
        no_unwind
    {
        Iter::new(&self.list, self.len())
    }

    /// Iterates over the pairs from the most to the least recently used one and lets the values
    /// be changed.
    ///
    /// ```
    /// use lru::LruCache;
    /// let mut cache = LruCache::new(3);
    /// cache.put("a", 1);
    /// cache.put("b", 2);
    ///
    /// let mut iter = cache.iter_mut();
    /// while let Some((_, val)) = iter.next() {
    ///     *val += 10;
    /// }
    /// assert_eq!(cache.peek(&"a"), Some(&11));
    /// ```
    pub fn iter_mut<'a>(&'a mut self) -> (iter: IterMut<'a, K, V>)
        requires
            old(self).inv(),
        ensures
            final(self).inv(),
            final(self).capacity() == old(self).capacity(),
            final(self).hash_builder() == old(self).hash_builder(),
            iter.wf(),
            iter@.len() == old(self)@.len(),
            final(self)@.len() == old(self)@.len(),
            forall|i: int|
                #![trigger iter@[i]]
                #![trigger final(self)@[i]]
                0 <= i < iter@.len() ==> {
                    &&& old(self)@[i] == (*iter@[i].0, *iter@[i].1)
                    &&& final(self)@[i] == (*iter@[i].0, *final(iter@[i].1))
                },
    {
        let items = self.list.iter_mut();
        proof {
            let after = after_borrow(*self).list@;
            assert forall|i: int| 0 <= i < items@.len() implies (#[trigger] after[i]).0
                == old(self).list@[i].0 by {
                assert(items@[i] is Some);
            }
        }
        IterMut::new(items)
    }

    /// Taking the node at position `i` out of the index and the list leaves a well-formed cache.
    proof fn lemma_taken(self, before: Self, i: int)
        requires
            before.inv(),
            0 <= i < before.list.order().len(),
            self.cap == before.cap,
            self.map.hasher() == before.map.hasher(),
            self.map.filed() == before.map.filed().remove(before.list.order()[i]),
            self.list.wf(),
            self.list.order() == before.list.order().remove(i),
            self.list@ == before.list@.remove(i),
            self.list.nodes@.len() == before.list.nodes@.len(),
            self.list.free@ == before.list.free@.push(before.list.order()[i]),
            forall|s: int|
                0 <= s < before.list.nodes@.len() && s != before.list.order()[i]
                    ==> (#[trigger] self.list.nodes@[s]).key == before.list.nodes@[s].key,
        ensures
            self.inv(),
    {
        let order = before.list.order();
        let slot = order[i];
        assert(self.list.order().to_set() =~= order.to_set().remove(slot)) by {
            assert forall|s: usize| order.contains(s) && s != slot implies self.list.order().contains(
                s,
            ) by {
                let j = order.index_of(s);
                assert(self.list.order()[if j < i { j } else { j - 1 }] == s);
            }
        }
        assert(self.map.filed().dom() =~= self.list.order().to_set());
    }

    /// Putting a new key in front of the list and its slot into the index leaves a well-formed
    /// cache.
    proof fn lemma_added(self, before: Self, slot: usize)
        requires
            before.inv(),
            before.list@.len() < before.cap,
            self.cap == before.cap,
            self.map.hasher() == before.map.hasher(),
            occupied(self.list.nodes@, slot),
            !before.list.order().contains(slot),
            !holds(before.list@, &self.list.nodes@[slot as int].key.unwrap()),
            self.map.filed() == before.map.filed().insert(
                slot,
                before.map.hasher().digest(self.list.nodes@[slot as int].key.unwrap()),
            ),
            self.list.wf(),
            self.list.order() == seq![slot] + before.list.order(),
            self.list@ == seq![pair(self.list.nodes@, slot)] + before.list@,
            self.list.nodes@.len() - self.list.free@.len() == before.list.nodes@.len()
                - before.list.free@.len() + 1,
            self.list.nodes@.len() >= before.list.nodes@.len(),
            forall|s: int|
                0 <= s < before.list.nodes@.len() && s != slot
                    ==> (#[trigger] self.list.nodes@[s]).key == before.list.nodes@[s].key,
        ensures
            self.inv(),
    {
        let order = before.list.order();
        let key = self.list.nodes@[slot as int].key.unwrap();
        assert(self.list.order().to_set() =~= order.to_set().insert(slot)) by {
            assert(self.list.order()[0] == slot);
            assert forall|s: usize| order.contains(s) implies self.list.order().contains(s) by {
                assert(self.list.order()[order.index_of(s) + 1] == s);
            }
        }
        assert(self.map.filed().dom() =~= self.list.order().to_set());
        assert forall|j: int| 0 <= j < before.list@.len() implies before.list@[j].0 != key by {
            assert(!found_at(before.list@, &key, j));
            assert(borrows_as(key, &key));
        }
    }
}

} // verus!
