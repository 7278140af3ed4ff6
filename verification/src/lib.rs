//! A cache that holds a limited number of key-value pairs and makes room for a new pair by
//! discarding the one that was used least recently.
//!
//! ```
//! use lru::LruCache;
//!
//! let mut cache = LruCache::new(2);
//! cache.put("apple", 3);
//! cache.put("banana", 2);
//!
//! assert_eq!(*cache.get(&"apple").unwrap(), 3);
//! assert_eq!(*cache.get(&"banana").unwrap(), 2);
//! assert!(cache.get(&"pear").is_none());
//!
//! assert_eq!(cache.put("banana", 4), Some(2));
//! assert_eq!(cache.put("pear", 5), None);
//!
//! assert_eq!(*cache.get(&"pear").unwrap(), 5);
//! assert_eq!(*cache.get(&"banana").unwrap(), 4);
//! assert!(cache.get(&"apple").is_none());
//! ```
//!
//! The contracts speak of a cache as the sequence of its pairs, the most recently used one first
//! (see [`model`]). What holds of all caches, whatever is done with them, is in [`laws`].

pub mod cache;
pub mod entry;
mod index;
pub mod iter;
pub mod laws;
mod list;
pub mod model;

pub use cache::{DefaultHasher, LruCache};
pub use entry::LruEntry;
pub use iter::{Iter, IterMut};
