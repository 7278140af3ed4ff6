use std::cell::Cell;
use std::collections::hash_map::{DefaultHasher, RandomState};
use std::hash::BuildHasher;
use std::rc::Rc;

use lru::LruCache;

/// A hash builder that counts the hashers it has built.
struct CountingBuilder {
    inner: RandomState,
    built: Rc<Cell<usize>>,
}

impl CountingBuilder {
    fn new(built: &Rc<Cell<usize>>) -> CountingBuilder {
        CountingBuilder { inner: RandomState::new(), built: Rc::clone(built) }
    }
}

impl BuildHasher for CountingBuilder {
    type Hasher = DefaultHasher;

    fn build_hasher(&self) -> DefaultHasher {
        self.built.set(self.built.get() + 1);
        self.inner.build_hasher()
    }
}

/// The pairs of a cache, the most recently used one first.
fn pairs<K: std::hash::Hash + Eq + Clone, V: Clone>(cache: &LruCache<K, V>) -> Vec<(K, V)> {
    let mut iter = cache.iter();
    let mut all = Vec::new();
    while let Some((k, v)) = iter.next() {
        all.push((k.clone(), v.clone()));
    }
    all
}

/// A cache with the pairs `(n, 10 n)` for `n` from 1 to `count`.
fn filled(cap: usize, count: u32) -> LruCache<u32, u32> {
    let mut cache = LruCache::new(cap);
    for n in 1..=count {
        cache.put(n, 10 * n);
    }
    cache
}

#[test]
fn put_is_read_back_and_in_front() {
    let mut cache = filled(3, 3);
    assert_eq!(cache.put(2, 21), Some(20));
    assert_eq!(cache.peek(&2), Some(&21));
    assert_eq!(pairs(&cache), vec![(2, 21), (3, 30), (1, 10)]);
    assert_eq!(cache.put(4, 40), None);
    assert_eq!(cache.peek(&4), Some(&40));
    assert_eq!(pairs(&cache), vec![(4, 40), (2, 21), (3, 30)]);
}

#[test]
fn put_keeps_the_other_values() {
    let mut cache = filled(3, 3);
    cache.put(4, 40);
    assert_eq!(cache.peek(&1), None);
    assert_eq!(cache.peek(&2), Some(&20));
    assert_eq!(cache.peek(&3), Some(&30));
}

#[test]
fn put_when_full_is_pop_lru_and_put() {
    let mut one = filled(3, 3);
    let mut other = filled(3, 3);
    one.put(4, 40);
    assert_eq!(other.pop_lru(), Some((1, 10)));
    other.put(4, 40);
    assert_eq!(pairs(&one), pairs(&other));
}

#[test]
fn put_discards_the_least_recently_used() {
    let mut cache = filled(3, 3);
    cache.get(&1);
    cache.peek(&2);
    *cache.peek_mut(&2).unwrap() = 22;
    assert!(cache.contains(&2));
    assert_eq!(cache.peek_lru(), Some((&2, &22)));
    cache.put(4, 40);
    assert_eq!(pairs(&cache), vec![(4, 40), (1, 10), (3, 30)]);
}

#[test]
fn the_last_written_value_is_held() {
    let mut cache = filled(4, 4);
    cache.put(1, 11);
    *cache.get_mut(&2).unwrap() = 22;
    *cache.peek_mut(&3).unwrap() = 33;
    let mut iter = cache.iter_mut();
    while let Some((_, v)) = iter.next() {
        *v += 100;
    }
    assert_eq!(pairs(&cache), vec![(2, 122), (1, 111), (4, 140), (3, 133)]);
}

#[test]
fn iter_mut_keeps_what_it_does_not_come_to() {
    let mut cache = filled(4, 4);
    {
        let mut iter = cache.iter_mut();
        *iter.next().unwrap().1 = 1;
        *iter.next_back().unwrap().1 = 2;
    }
    assert_eq!(pairs(&cache), vec![(4, 1), (3, 30), (2, 20), (1, 2)]);
}

#[test]
fn a_cache_without_room_stays_empty() {
    let mut cache = LruCache::new(0);
    assert_eq!(cache.put(1, "a"), None);
    assert_eq!(cache.put(1, "b"), None);
    assert_eq!(cache.len(), 0);
    assert_eq!(cache.cap(), 0);
    assert_eq!(cache.get(&1), None);
    assert_eq!(cache.pop_lru(), None);
    assert!(cache.peek_lru().is_none());
    assert!(cache.iter().next().is_none());
}

#[test]
fn an_unbounded_cache_keeps_every_key() {
    let mut cache = LruCache::unbounded();
    assert_eq!(cache.cap(), usize::MAX);
    for n in 0..2000u32 {
        assert_eq!(cache.put(n, n + 1), None);
    }
    for n in 0..2000u32 {
        assert_eq!(cache.get(&n), Some(&(n + 1)));
    }
    assert_eq!(cache.get(&2000), None);
    assert_eq!(cache.len(), 2000);
}

#[test]
fn unbounded_with_hasher_uses_the_given_builder() {
    let builder = RandomState::new();
    let mut cache = LruCache::unbounded_with_hasher(builder);
    for n in 0..100u32 {
        cache.put(n, 2 * n);
    }
    for n in 0..100u32 {
        assert_eq!(cache.peek(&n), Some(&(2 * n)));
    }
    assert_eq!(cache.peek(&100), None);
    assert_eq!(cache.cap(), usize::MAX);
}

#[test]
fn with_hasher_discards_what_does_not_fit() {
    let builder = RandomState::new();
    let mut cache = LruCache::with_hasher(2, builder);
    cache.put("a", 1);
    cache.put("b", 2);
    cache.put("c", 3);
    assert_eq!(cache.cap(), 2);
    assert_eq!(cache.peek(&"a"), None);
    assert_eq!(cache.peek_lru(), Some((&"b", &2)));
}

/// Does each operation that hashes a key and checks that the counting builder was asked.
fn asks_the_builder(mut cache: LruCache<u32, u32, CountingBuilder>, built: &Rc<Cell<usize>>) {
    assert_eq!(built.get(), 0);
    cache.put(1, 10);
    let mut before = built.get();
    assert!(before > 0);
    assert_eq!(cache.get(&1), Some(&10));
    assert!(built.get() > before);
    before = built.get();
    assert!(cache.contains(&1));
    assert!(built.get() > before);
    cache.put(2, 20);
    cache.resize(1);
    cache.clear();
    cache.put(3, 30);
    before = built.get();
    assert_eq!(cache.peek(&3), Some(&30));
    assert!(built.get() > before);
    before = built.get();
    assert_eq!(cache.pop(&3), Some(30));
    assert!(built.get() > before);
}

#[test]
fn with_hasher_hashes_with_the_given_builder() {
    let built = Rc::new(Cell::new(0));
    asks_the_builder(LruCache::with_hasher(4, CountingBuilder::new(&built)), &built);
}

#[test]
fn unbounded_with_hasher_hashes_with_the_given_builder() {
    let built = Rc::new(Cell::new(0));
    asks_the_builder(LruCache::unbounded_with_hasher(CountingBuilder::new(&built)), &built);
}

#[test]
fn get_keeps_the_values_and_is_idempotent() {
    let mut cache = filled(3, 3);
    assert_eq!(cache.get(&2), Some(&20));
    assert_eq!(pairs(&cache), vec![(2, 20), (3, 30), (1, 10)]);
    assert_eq!(cache.get(&2), Some(&20));
    assert_eq!(pairs(&cache), vec![(2, 20), (3, 30), (1, 10)]);
    assert_eq!(cache.get(&9), None);
    assert_eq!(pairs(&cache), vec![(2, 20), (3, 30), (1, 10)]);
}

#[test]
fn pop_removes_one_key() {
    let mut cache = filled(3, 3);
    assert_eq!(cache.pop(&2), Some(20));
    assert_eq!(cache.pop(&2), None);
    assert!(!cache.contains(&2));
    assert_eq!(pairs(&cache), vec![(3, 30), (1, 10)]);
}

#[test]
fn pop_undoes_the_put_of_a_new_key() {
    let mut cache = filled(4, 3);
    cache.put(4, 40);
    assert_eq!(cache.pop(&4), Some(40));
    assert_eq!(pairs(&cache), pairs(&filled(4, 3)));
}

#[test]
fn pop_lru_goes_from_the_back() {
    let mut cache = filled(3, 3);
    cache.get(&1);
    assert_eq!(cache.pop_lru(), Some((2, 20)));
    assert_eq!(cache.pop_lru(), Some((3, 30)));
    assert_eq!(cache.pop_lru(), Some((1, 10)));
    assert_eq!(cache.pop_lru(), None);
    assert!(cache.is_empty());
}

#[test]
fn resize_keeps_the_most_recently_used() {
    let mut cache = filled(4, 4);
    cache.resize(2);
    assert_eq!(cache.cap(), 2);
    assert_eq!(pairs(&cache), vec![(4, 40), (3, 30)]);
    cache.resize(3);
    assert_eq!(cache.cap(), 3);
    assert_eq!(pairs(&cache), vec![(4, 40), (3, 30)]);
    cache.resize(3);
    assert_eq!(cache.cap(), 3);
    assert_eq!(cache.put(5, 50), None);
    assert_eq!(pairs(&cache), vec![(5, 50), (4, 40), (3, 30)]);
}

#[test]
fn resize_twice_keeps_the_smaller_capacity() {
    let mut cache = filled(5, 5);
    cache.resize(2);
    cache.resize(4);
    assert_eq!(pairs(&cache), vec![(5, 50), (4, 40)]);
    let mut cache = filled(5, 5);
    cache.resize(4);
    cache.resize(2);
    assert_eq!(pairs(&cache), vec![(5, 50), (4, 40)]);
}

#[test]
fn resize_leaves_every_kept_key_findable() {
    let mut cache = filled(1000, 1000);
    cache.resize(300);
    assert_eq!(cache.len(), 300);
    for n in 1..=700u32 {
        assert_eq!(cache.peek(&n), None);
    }
    for n in 701..=1000u32 {
        assert_eq!(cache.peek(&n), Some(&(10 * n)));
    }
}

#[test]
fn clear_empties_and_keeps_the_capacity() {
    let mut cache = filled(3, 3);
    cache.clear();
    assert!(cache.is_empty());
    assert_eq!(cache.cap(), 3);
    assert_eq!(cache.get(&1), None);
    assert_eq!(cache.put(1, 11), None);
    assert_eq!(pairs(&cache), vec![(1, 11)]);
}

#[test]
fn slots_are_used_again() {
    let mut cache = filled(8, 8);
    for n in 1..=4u32 {
        assert_eq!(cache.pop(&(2 * n)), Some(20 * n));
    }
    for n in 11..=14u32 {
        assert_eq!(cache.put(n, n), None);
    }
    assert_eq!(
        pairs(&cache),
        vec![(14, 14), (13, 13), (12, 12), (11, 11), (7, 70), (5, 50), (3, 30), (1, 10)]
    );
}

#[test]
fn iterators_meet() {
    let cache = filled(5, 5);
    let mut iter = cache.iter();
    assert_eq!(iter.size_hint(), (5, Some(5)));
    assert_eq!(iter.next_back(), Some((&1, &10)));
    assert_eq!(iter.next(), Some((&5, &50)));
    assert_eq!(iter.next_back(), Some((&2, &20)));
    assert_eq!(iter.clone().count(), 2);
    assert_eq!(iter.next_back(), Some((&3, &30)));
    assert_eq!(iter.next(), Some((&4, &40)));
    assert_eq!(iter.next(), None);
    assert_eq!(iter.next_back(), None);
    assert_eq!(iter.size_hint(), (0, Some(0)));
}

#[test]
fn mutable_iterators_meet() {
    let mut cache = filled(3, 3);
    let mut iter = cache.iter_mut();
    assert_eq!(iter.size_hint(), (3, Some(3)));
    assert_eq!(iter.next_back(), Some((&1, &mut 10)));
    assert_eq!(iter.next(), Some((&3, &mut 30)));
    assert_eq!(iter.len(), 1);
    assert_eq!(iter.next(), Some((&2, &mut 20)));
    assert_eq!(iter.next_back(), None);
    assert_eq!(iter.next(), None);
    assert_eq!(cache.iter_mut().count(), 3);
}

#[test]
fn keys_are_found_in_their_borrowed_forms() {
    let mut strings: LruCache<String, u32> = LruCache::new(4);
    strings.put(String::from("apple"), 1);
    assert_eq!(strings.peek("apple"), Some(&1));
    assert_eq!(strings.peek("pear"), None);
    assert!(strings.contains("apple"));
    assert_eq!(strings.pop("apple"), Some(1));
    let mut boxes: LruCache<Box<u32>, u32> = LruCache::new(4);
    boxes.put(Box::new(7), 70);
    assert_eq!(boxes.get(&7), Some(&70));
    assert_eq!(boxes.get(&8), None);
    let mut bytes: LruCache<Vec<u8>, u32> = LruCache::new(4);
    bytes.put(vec![1, 2], 12);
    *bytes.peek_mut(&[1u8, 2][..]).unwrap() = 13;
    assert_eq!(bytes.get(&[1u8, 2][..]), Some(&13));
    assert_eq!(bytes.get(&[1u8][..]), None);
}

#[test]
fn entries_start_without_links() {
    let entry = lru::LruEntry::new("key", 5);
    assert_eq!(entry.key, Some("key"));
    assert_eq!(entry.val, Some(5));
    assert_eq!(entry.prev, lru::entry::UNLINKED);
    assert_eq!(entry.next, lru::entry::UNLINKED);
    let sigil: lru::LruEntry<&str, u32> = lru::LruEntry::new_sigil();
    assert_eq!(sigil.key, None);
    assert_eq!(sigil.val, None);
    assert_eq!(sigil.prev, lru::entry::UNLINKED);
    assert_eq!(sigil.next, lru::entry::UNLINKED);
}
