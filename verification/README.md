# lru

A least recently used cache, verified with Verus. A cache holds a limited number of key-value pairs
and makes room for a new pair by discarding the one that was used least recently. `put`, `get`,
`get_mut`, `pop` and `pop_lru` are built to take constant time on average. The contracts do not
speak of time, so this is not proved.

```rust
use lru::LruCache;

let mut cache = LruCache::new(2);
cache.put("apple", 3);
cache.put("banana", 2);

assert_eq!(*cache.get(&"apple").unwrap(), 3);
assert!(cache.get(&"pear").is_none());

assert_eq!(cache.put("pear", 5), None);
assert!(cache.get(&"banana").is_none());
```

## Layout

- `src/model.rs`: the model of a cache, which is the sequence of its pairs with the most recently
  used one first, and what each operation makes of it.
- `src/cache.rs`: `LruCache`, with contracts over the model.
- `src/iter.rs`: the iterators `Iter` and `IterMut`.
- `src/laws.rs`: what holds of all caches, such as that they are ordered by the last uses of their
  keys whatever is called.
- `src/list.rs`, `src/entry.rs`: the recency list, doubly linked through the slots of a vector.
- `src/index.rs`: the hash index that finds the slot of a key. It rests on `hashbrown` and on the
  standard library's hashing. What is taken of them without proof is stated here and nowhere else.
- `app/`: the standard traits for iterating over a cache and for printing it.
- `tests/`: tests of the library.

## Keys

The contracts hold of keys that meet vstd's `obeys_key_model`: a key has the same hash at every call,
and two keys are the same value exactly where `==` says that they are equal. This asks for more than
a lawful `Eq` and `Hash`. Keys whose `==` takes different values to be equal are outside the
contracts. vstd knows the condition to hold of the primitive types and of boxes of them. A query by a
borrowed form of the key asks the same of that form, and that no two keys borrow as equal values.

A cache that is given a hash builder also asks that the builder gives equal hashers. This is known of
the default builder and of the standard library's `RandomState`.
