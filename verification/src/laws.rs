//! Laws of the cache, over the model that the contracts of its functions speak of.

use vstd::prelude::*;
use vstd::std_specs::hash::{builds_valid_hashers, contains_borrowed_key, obeys_key_model};

use crate::model::{
    after_get, after_pop, after_pop_lru, after_put, after_resize, allocatable, borrows_as,
    borrows_lawfully, borrows_uniquely, found_at, gives_equal_hashers, holds, lemma_position,
    lookup, position, promoted, unique_keys,
};

verus! {

/// A query asks for a key exactly where vstd takes a map of this key alone to contain the query,
/// whatever the types of both.
pub proof fn law_borrows_as<K, Q: ?Sized>(key: K, query: &Q)
    ensures
        borrows_as(key, query) <==> contains_borrowed_key::<K, (), Q>(map![key => ()], query),
{
}

/// A query by a key asks for this key alone.
pub proof fn law_key_asks_for_itself<K>(key: K, query: K)
    ensures
        borrows_as(key, &query) <==> key == query,
{
}

/// A query by what a box holds asks for the boxes that hold it.
pub proof fn law_boxed_key_is_asked_for<Q>(key: Box<Q>, query: Q)
    ensures
        borrows_as(key, &query) <==> *key == query,
{
    assert(Map::<Box<Q>, ()>::empty().insert(key, ()).contains_key(Box::new(query)) <==> *key
        == query);
}

/// Keys borrow uniquely exactly where no query asks for two of them.
pub proof fn law_borrows_uniquely<K, Q: ?Sized>()
    ensures
        borrows_uniquely::<K, Q>() <==> forall|a: K, b: K, query: &Q|
            #![trigger borrows_as(a, query), borrows_as(b, query)]
            a != b ==> !(borrows_as(a, query) && borrows_as(b, query)),
{
}

/// Queries of a type are lawful exactly where vstd takes the type to be one of keys and no query
/// asks for two keys.
pub proof fn law_borrows_lawfully<K, Q: ?Sized>()
    ensures
        borrows_lawfully::<K, Q>() <==> obeys_key_model::<Q>() && forall|a: K, b: K, query: &Q|
            #![trigger borrows_as(a, query), borrows_as(b, query)]
            a != b ==> !(borrows_as(a, query) && borrows_as(b, query)),
{
}

/// Keys that vstd takes to be keys are lawful queries for themselves and for boxes of them.
pub proof fn law_keys_borrow_lawfully<K>()
    requires
        obeys_key_model::<K>(),
    ensures
        borrows_lawfully::<K, K>(),
        borrows_lawfully::<Box<K>, K>(),
{
    assert forall|a: Box<K>, b: Box<K>, query: &K| #[trigger]
        borrows_as(a, query) && #[trigger] borrows_as(b, query) implies a == b by {
        law_boxed_key_is_asked_for(a, *query);
        law_boxed_key_is_asked_for(b, *query);
    }
}

/// A builder gives equal hashers exactly where vstd takes its type to build them.
pub proof fn law_gives_equal_hashers<S>(builder: S)
    ensures
        gives_equal_hashers(builder) <==> builds_valid_hashers::<S>(),
{
}

/// A hash table can be made for every capacity that fills seven eighths of its buckets at most,
/// where sixteen bytes for each bucket fit into half of the address space.
pub proof fn law_allocatable(capacity: usize, buckets: int)
    requires
        8 * capacity <= 7 * buckets,
        16 * buckets <= isize::MAX + 1,
    ensures
        allocatable(capacity),
{
}

/// Keys are unique exactly where their sequence has no duplicates.
pub proof fn law_unique_keys<K, V>(entries: Seq<(K, V)>)
    ensures
        unique_keys(entries) <==> entries.map_values(|entry: (K, V)| entry.0).no_duplicates(),
{
    let keys = entries.map_values(|entry: (K, V)| entry.0);
    assert forall|i: int| 0 <= i < entries.len() implies (#[trigger] entries[i]).0 == keys[i] by {}
    if unique_keys(entries) {
        assert forall|i: int, j: int|
            0 <= i < keys.len() && 0 <= j < keys.len() && i != j implies keys[i] != keys[j] by {
            assert(entries[i].0 != entries[j].0);
        }
    }
}

/// Where a query of any type asks for the key at a position, the cache holds the key, and a lookup
/// gives the value beside it.
pub proof fn law_lookup_by_any_query<K, V, Q: ?Sized>(entries: Seq<(K, V)>, query: &Q, i: int)
    requires
        unique_keys(entries),
        borrows_uniquely::<K, Q>(),
        0 <= i < entries.len(),
        borrows_as(entries[i].0, query),
    ensures
        holds(entries, query),
        position(entries, query) == i,
        lookup(entries, query) == Some(entries[i].1),
{
    lemma_position(entries, query, i);
}

/// Where a query of any type asks for none of the keys, the cache does not hold it: a lookup gives
/// nothing, and `get` and `pop` change nothing.
pub proof fn law_absent_query<K, V, Q: ?Sized>(entries: Seq<(K, V)>, query: &Q)
    requires
        forall|i: int| 0 <= i < entries.len() ==> !borrows_as((#[trigger] entries[i]).0, query),
    ensures
        !holds(entries, query),
        lookup(entries, query) is None,
        after_get(entries, query) == entries,
        after_pop(entries, query) == entries,
{
}

/// The cache holds a query of any type exactly where it asks for one of the keys.
pub proof fn law_holds<K, V, Q: ?Sized>(entries: Seq<(K, V)>, query: &Q)
    ensures
        holds(entries, query) <==> exists|i: int|
            0 <= i < entries.len() && borrows_as((#[trigger] entries[i]).0, query),
{
    if exists|i: int| 0 <= i < entries.len() && borrows_as((#[trigger] entries[i]).0, query) {
        let i = choose|i: int|
            0 <= i < entries.len() && borrows_as((#[trigger] entries[i]).0, query);
        assert(found_at(entries, query, i));
    } else {
        law_absent_query(entries, query);
    }
}

/// `get` with a query of any type moves the pair whose key it asks for to the front, and the other
/// pairs keep their order.
pub proof fn law_get_moves_to_front<K, V, Q: ?Sized>(entries: Seq<(K, V)>, query: &Q, i: int)
    requires
        unique_keys(entries),
        borrows_uniquely::<K, Q>(),
        0 <= i < entries.len(),
        borrows_as(entries[i].0, query),
    ensures
        after_get(entries, query) == seq![entries[i]] + entries.remove(i),
{
    lemma_position(entries, query, i);
}

/// `pop` with a query of any type takes the pair whose key it asks for out, and the other pairs
/// keep their order.
pub proof fn law_pop_takes_one_pair<K, V, Q: ?Sized>(entries: Seq<(K, V)>, query: &Q, i: int)
    requires
        unique_keys(entries),
        borrows_uniquely::<K, Q>(),
        0 <= i < entries.len(),
        borrows_as(entries[i].0, query),
    ensures
        after_pop(entries, query) == entries.remove(i),
{
    lemma_position(entries, query, i);
}

/// Queries of any types that ask for the same key are answered alike and change a cache alike.
pub proof fn law_query_forms_agree<K, V, Q: ?Sized, R: ?Sized>(
    entries: Seq<(K, V)>,
    query: &Q,
    other: &R,
)
    requires
        unique_keys(entries),
        borrows_uniquely::<K, Q>(),
        borrows_uniquely::<K, R>(),
        forall|key: K| borrows_as(key, query) <==> #[trigger] borrows_as(key, other),
    ensures
        holds(entries, query) == holds(entries, other),
        lookup(entries, query) == lookup(entries, other),
        after_get(entries, query) == after_get(entries, other),
        after_pop(entries, query) == after_pop(entries, other),
{
    if exists|i: int| 0 <= i < entries.len() && borrows_as((#[trigger] entries[i]).0, other) {
        let i = choose|i: int|
            0 <= i < entries.len() && borrows_as((#[trigger] entries[i]).0, other);
        lemma_position(entries, query, i);
        lemma_position(entries, other, i);
    } else {
        assert forall|i: int| 0 <= i < entries.len() implies !borrows_as(
            (#[trigger] entries[i]).0,
            query,
        ) by {
            assert(!borrows_as(entries[i].0, other));
        }
        law_absent_query(entries, query);
        law_absent_query(entries, other);
    }
}

/// `put` of a key that is there moves its pair to the front with the new value, and the other pairs
/// keep their order.
pub proof fn law_put_known_key<K, V>(
    entries: Seq<(K, V)>,
    capacity: usize,
    key: K,
    val: V,
    i: int,
)
    requires
        unique_keys(entries),
        0 <= i < entries.len(),
        entries[i].0 == key,
    ensures
        after_put(entries, capacity, key, val) == seq![(key, val)] + entries.remove(i),
{
    assert(borrows_as(entries[i].0, &key));
    lemma_position(entries, &key, i);
}

/// `put` of a new key into a cache with room for any pair puts the pair in front of as many of the
/// others as there is room for, which keep their order.
pub proof fn law_put_new_key<K, V>(entries: Seq<(K, V)>, capacity: usize, key: K, val: V)
    requires
        forall|i: int| 0 <= i < entries.len() ==> (#[trigger] entries[i]).0 != key,
        entries.len() <= capacity,
        0 < capacity,
    ensures
        after_put(entries, capacity, key, val) == seq![(key, val)] + entries.take(
            if entries.len() < capacity {
                entries.len() as int
            } else {
                capacity - 1
            },
        ),
{
    law_absent_query(entries, &key);
}

/// `pop_lru` takes the last pair out, and the other pairs keep their order.
pub proof fn law_pop_lru_takes_the_last<K, V>(entries: Seq<(K, V)>)
    ensures
        entries.len() > 0 ==> after_pop_lru(entries).push(entries.last()) == entries,
        entries.len() == 0 ==> after_pop_lru(entries) == entries,
{
}

/// `resize` keeps the pairs in front, as many as there is room for, in their order.
pub proof fn law_resize_keeps_the_first<K, V>(entries: Seq<(K, V)>, capacity: usize)
    ensures
        after_resize(entries, capacity).len() == (if entries.len() < capacity {
            entries.len() as int
        } else {
            capacity as int
        }),
        after_resize(entries, capacity).is_prefix_of(entries),
{
}

/// A key is in the cache exactly where a lookup finds a value.
pub proof fn law_lookup_finds_what_is_held<K, V, Q: ?Sized>(entries: Seq<(K, V)>, query: &Q)
    ensures
        holds(entries, query) <==> lookup(entries, query) is Some,
{
}

/// A lookup gives the value that stands beside the key.
pub proof fn law_lookup_at<K, V>(entries: Seq<(K, V)>, i: int)
    requires
        unique_keys(entries),
        0 <= i < entries.len(),
    ensures
        lookup(entries, &entries[i].0) == Some(entries[i].1),
{
    assert(borrows_as(entries[i].0, &entries[i].0));
    lemma_position(entries, &entries[i].0, i);
}

/// What was put is what is read, and it is the most recently used pair.
pub proof fn law_put_then_lookup<K, V>(entries: Seq<(K, V)>, capacity: usize, key: K, val: V)
    requires
        unique_keys(entries),
        entries.len() <= capacity,
        capacity > 0,
    ensures
        lookup(after_put(entries, capacity, key, val), &key) == Some(val),
        after_put(entries, capacity, key, val)[0] == (key, val),
{
    law_put_keeps_cache(entries, capacity, key, val);
    law_lookup_at(after_put(entries, capacity, key, val), 0);
}

/// Putting a pair keeps the keys apart and the cache within its capacity.
pub proof fn law_put_keeps_cache<K, V>(entries: Seq<(K, V)>, capacity: usize, key: K, val: V)
    requires
        unique_keys(entries),
        entries.len() <= capacity,
    ensures
        unique_keys(after_put(entries, capacity, key, val)),
        after_put(entries, capacity, key, val).len() <= capacity,
{
    if holds(entries, &key) {
        let p = position(entries, &key);
        assert(found_at(entries, &key, p));
        assert(entries[p].0 == key);
    } else {
        assert forall|i: int| 0 <= i < entries.len() implies (#[trigger] entries[i]).0 != key by {
            assert(!found_at(entries, &key, i));
        }
    }
}

/// A call that changes a cache. What `get_mut` and `peek_mut` lend is written over with a value;
/// one that is not written over is a `Get`, or no step at all. A call with a borrowed form of a key
/// is the step of the key that it asks for (see `law_query_is_a_step`), and no step where it asks
/// for none in the cache.
pub enum Step<K, V> {
    /// `put`
    Put(K, V),
    /// `get`, or `get_mut` without a change of the value
    Get(K),
    /// `get_mut`, and the value that it lent becomes the given one
    GetMut(K, V),
    /// `peek_mut`, and the value that it lent becomes the given one
    PeekMut(K, V),
    /// `iter_mut`, and the values that it lent become the given ones
    IterMut(Seq<V>),
    /// `pop`
    Pop(K),
    /// `pop_lru`
    PopLru,
    /// `resize`
    Resize(usize),
    /// `clear`
    Clear,
}

/// What a cache holds and how much it has room for.
pub struct State<K, V> {
    pub entries: Seq<(K, V)>,
    pub capacity: usize,
}

/// The state of a cache after a call.
pub open spec fn stepped<K, V>(state: State<K, V>, step: Step<K, V>) -> State<K, V> {
    let entries = state.entries;
    let after = match step {
        Step::Put(key, val) => after_put(entries, state.capacity, key, val),
        Step::Get(key) => after_get(entries, &key),
        Step::GetMut(key, val) => if holds(entries, &key) {
            seq![(key, val)] + entries.remove(position(entries, &key))
        } else {
            entries
        },
        Step::PeekMut(key, val) => if holds(entries, &key) {
            entries.update(position(entries, &key), (key, val))
        } else {
            entries
        },
        Step::IterMut(vals) => Seq::new(entries.len(), |i: int| (entries[i].0, vals[i])),
        Step::Pop(key) => after_pop(entries, &key),
        Step::PopLru => after_pop_lru(entries),
        Step::Resize(capacity) => after_resize(entries, capacity),
        Step::Clear => Seq::empty(),
    };
    let capacity = match step {
        Step::Resize(capacity) => capacity,
        _ => state.capacity,
    };
    State { entries: after, capacity }
}

/// A cache that was made with a capacity, after some calls.
pub open spec fn run<K, V>(capacity: usize, steps: Seq<Step<K, V>>) -> State<K, V>
    decreases steps.len(),
{
    if steps.len() == 0 {
        State { entries: Seq::empty(), capacity }
    } else {
        stepped(run(capacity, steps.drop_last()), steps.last())
    }
}

/// The keys that were used, in the order of their uses: those that were put, and those that `get`
/// and `get_mut` found.
pub open spec fn uses<K, V>(capacity: usize, steps: Seq<Step<K, V>>) -> Seq<K>
    decreases steps.len(),
{
    if steps.len() == 0 {
        Seq::empty()
    } else {
        let before = uses(capacity, steps.drop_last());
        let held = run(capacity, steps.drop_last()).entries;
        match steps.last() {
            Step::Put(key, _) => before.push(key),
            Step::Get(key) => if holds(held, &key) {
                before.push(key)
            } else {
                before
            },
            Step::GetMut(key, _) => if holds(held, &key) {
                before.push(key)
            } else {
                before
            },
            _ => before,
        }
    }
}

/// The value that was last written under a key: by `put`, or through what `get_mut`, `peek_mut` or
/// `iter_mut` lent.
pub open spec fn last_written<K, V>(capacity: usize, steps: Seq<Step<K, V>>, key: K) -> Option<V>
    decreases steps.len(),
{
    if steps.len() == 0 {
        None
    } else {
        let before = last_written(capacity, steps.drop_last(), key);
        let held = run(capacity, steps.drop_last()).entries;
        match steps.last() {
            Step::Put(k, val) => if k == key {
                Some(val)
            } else {
                before
            },
            Step::GetMut(k, val) | Step::PeekMut(k, val) => if k == key && holds(held, &key) {
                Some(val)
            } else {
                before
            },
            Step::IterMut(vals) => if holds(held, &key) {
                Some(vals[position(held, &key)])
            } else {
                before
            },
            _ => before,
        }
    }
}

/// `later` was used after the last use of `earlier`.
pub open spec fn used_later<K>(uses: Seq<K>, later: K, earlier: K) -> bool {
    exists|t: int|
        0 <= t < uses.len() && #[trigger] uses[t] == later && forall|u: int|
            t <= u < uses.len() ==> #[trigger] uses[u] != earlier
}

/// Each pair was used later than those behind it.
pub open spec fn ordered_by_use<K, V>(entries: Seq<(K, V)>, uses: Seq<K>) -> bool {
    forall|i: int, j: int|
        0 <= i < j < entries.len() ==> used_later(
            uses,
            (#[trigger] entries[i]).0,
            (#[trigger] entries[j]).0,
        )
}

/// Whatever the calls, no key occurs twice and the cache stays within its capacity.
pub proof fn law_run_keeps_cache<K, V>(capacity: usize, steps: Seq<Step<K, V>>)
    ensures
        unique_keys(run(capacity, steps).entries),
        run(capacity, steps).entries.len() <= run(capacity, steps).capacity,
    decreases steps.len(),
{
    if steps.len() > 0 {
        law_run_keeps_cache(capacity, steps.drop_last());
        law_step_keeps_cache(run(capacity, steps.drop_last()), steps.last());
    }
}

/// A call keeps the keys apart and the cache within its capacity.
pub proof fn law_step_keeps_cache<K, V>(state: State<K, V>, step: Step<K, V>)
    requires
        unique_keys(state.entries),
        state.entries.len() <= state.capacity,
    ensures
        unique_keys(stepped(state, step).entries),
        stepped(state, step).entries.len() <= stepped(state, step).capacity,
{
    let entries = state.entries;
    match step {
        Step::Put(key, val) => law_put_keeps_cache(entries, state.capacity, key, val),
        Step::Get(key) | Step::GetMut(key, _) | Step::PeekMut(key, _) | Step::Pop(key) => {
            if holds(entries, &key) {
                let p = position(entries, &key);
                assert(found_at(entries, &key, p));
                assert(entries[p].0 == key);
            }
        },
        _ => {},
    }
}

/// Using another key does not make the earlier of two uses the later one.
proof fn lemma_used_later_push<K>(uses: Seq<K>, later: K, earlier: K, key: K)
    requires
        used_later(uses, later, earlier),
        earlier != key,
    ensures
        used_later(uses.push(key), later, earlier),
{
    let t = choose|t: int|
        0 <= t < uses.len() && #[trigger] uses[t] == later && forall|u: int|
            t <= u < uses.len() ==> #[trigger] uses[u] != earlier;
    assert(uses.push(key)[t] == later);
}

/// A key that was just used was used later than any other.
proof fn lemma_used_last<K>(uses: Seq<K>, key: K, earlier: K)
    requires
        earlier != key,
    ensures
        used_later(uses.push(key), key, earlier),
{
    assert(uses.push(key)[uses.len() as int] == key);
}

/// Whatever the calls, the cache is ordered by the last uses of its keys.
pub proof fn law_run_orders_by_use<K, V>(capacity: usize, steps: Seq<Step<K, V>>)
    ensures
        ordered_by_use(run(capacity, steps).entries, uses(capacity, steps)),
    decreases steps.len(),
{
    if steps.len() > 0 {
        let rest = steps.drop_last();
        let step = steps.last();
        let entries = run(capacity, rest).entries;
        let before = uses(capacity, rest);
        let after = run(capacity, steps).entries;
        law_run_orders_by_use(capacity, rest);
        law_run_keeps_cache(capacity, rest);
        law_run_keeps_cache(capacity, steps);
        match step {
            Step::Put(key, _) | Step::Get(key) | Step::GetMut(key, _) => {
                let held = holds(entries, &key);
                let p = position(entries, &key);
                if held {
                    assert(found_at(entries, &key, p));
                    assert(entries[p].0 == key);
                }
                if held || (step is Put && after.len() > 0) {
                    assert(after[0].0 == key);
                    assert forall|i: int, j: int| 0 <= i < j < after.len() implies used_later(
                        uses(capacity, steps),
                        (#[trigger] after[i]).0,
                        (#[trigger] after[j]).0,
                    ) by {
                        if i == 0 {
                            lemma_used_last(before, key, after[j].0);
                        } else {
                            let a = if held && i > p { i } else { i - 1 };
                            let b = if held && j > p { j } else { j - 1 };
                            assert(after[i].0 == entries[a].0 && after[j].0 == entries[b].0);
                            lemma_used_later_push(before, after[i].0, after[j].0, key);
                        }
                    }
                }
            },
            _ => {},
        }
    }
}

/// A call with a query of any type is the step of the key that it asks for.
pub proof fn law_query_is_a_step<K, V, Q: ?Sized>(state: State<K, V>, query: &Q, i: int, val: V)
    requires
        unique_keys(state.entries),
        borrows_uniquely::<K, Q>(),
        0 <= i < state.entries.len(),
        borrows_as(state.entries[i].0, query),
    ensures
        ({
            let entries = state.entries;
            let key = entries[i].0;
            let front = seq![(key, val)];
            &&& stepped(state, Step::Get(key)).entries == after_get(entries, query)
            &&& stepped(state, Step::Pop(key)).entries == after_pop(entries, query)
            &&& stepped(state, Step::GetMut(key, val)).entries == front + entries.remove(i)
            &&& stepped(state, Step::PeekMut(key, val)).entries == entries.update(i, (key, val))
        }),
{
    let entries = state.entries;
    let key = entries[i].0;
    assert(borrows_as(key, &key));
    lemma_position(entries, &key, i);
    lemma_position(entries, query, i);
}

/// Whatever the calls, `get` with a query of any type is a use of the key that it asks for: the
/// cache is then ordered by the last uses of its keys, the last of all being that of this key.
pub proof fn law_any_query_is_a_use<K, V, Q: ?Sized>(
    capacity: usize,
    steps: Seq<Step<K, V>>,
    query: &Q,
    i: int,
)
    requires
        borrows_uniquely::<K, Q>(),
        0 <= i < run(capacity, steps).entries.len(),
        borrows_as(run(capacity, steps).entries[i].0, query),
    ensures
        ({
            let entries = run(capacity, steps).entries;
            let key = entries[i].0;
            let after = after_get(entries, query);
            &&& after[0] == entries[i]
            &&& ordered_by_use(after, uses(capacity, steps).push(key))
            &&& run(capacity, steps.push(Step::Get(key))).entries == after
            &&& uses(capacity, steps.push(Step::Get(key))) == uses(capacity, steps).push(key)
        }),
{
    let state = run(capacity, steps);
    let key = state.entries[i].0;
    let more = steps.push(Step::Get(key));
    law_run_keeps_cache(capacity, steps);
    law_query_is_a_step(state, query, i, state.entries[i].1);
    law_get_moves_to_front(state.entries, query, i);
    assert(more.drop_last() =~= steps);
    law_lookup_at(state.entries, i);
    law_lookup_finds_what_is_held(state.entries, &key);
    law_run_orders_by_use(capacity, more);
}

/// Whatever the calls, each key in the cache has the value that was last written under it.
pub proof fn law_run_holds_last_written<K, V>(capacity: usize, steps: Seq<Step<K, V>>)
    ensures
        forall|i: int|
            0 <= i < run(capacity, steps).entries.len() ==> last_written(
                capacity,
                steps,
                (#[trigger] run(capacity, steps).entries[i]).0,
            ) == Some(run(capacity, steps).entries[i].1),
    decreases steps.len(),
{
    if steps.len() > 0 {
        let rest = steps.drop_last();
        let entries = run(capacity, rest).entries;
        let after = run(capacity, steps).entries;
        law_run_holds_last_written(capacity, rest);
        law_run_keeps_cache(capacity, rest);
        assert forall|i: int| 0 <= i < after.len() implies last_written(
            capacity,
            steps,
            (#[trigger] after[i]).0,
        ) == Some(after[i].1) by {
            match steps.last() {
                Step::Put(key, _)
                | Step::Get(key)
                | Step::GetMut(key, _)
                | Step::PeekMut(key, _)
                | Step::Pop(key) => {
                    let held = holds(entries, &key);
                    let p = position(entries, &key);
                    if held {
                        assert(found_at(entries, &key, p));
                        assert(entries[p].0 == key);
                    }
                    assert forall|j: int| 0 <= j < entries.len() && (!held || j != p) implies (
                    #[trigger] entries[j]).0 != key by {
                        assert(!held ==> !found_at(entries, &key, j));
                    }
                },
                Step::IterMut(_) => {
                    let key = entries[i].0;
                    assert(borrows_as(key, &key));
                    lemma_position(entries, &key, i);
                },
                _ => {},
            }
        }
    }
}

/// Putting a new key into a full cache discards one pair, and every other key was used after the
/// discarded one.
pub proof fn law_put_discards_least_recently_used<K, V>(
    capacity: usize,
    steps: Seq<Step<K, V>>,
    key: K,
    val: V,
)
    requires
        !holds(run(capacity, steps).entries, &key),
        0 < run(capacity, steps).entries.len() == run(capacity, steps).capacity,
    ensures
        ({
            let before = run(capacity, steps);
            let after = after_put(before.entries, before.capacity, key, val);
            let discarded = before.entries.last();
            &&& !holds(after, &discarded.0)
            &&& forall|i: int|
                0 <= i < before.entries.len() - 1 ==> lookup(
                    after,
                    &(#[trigger] before.entries[i]).0,
                ) == Some(before.entries[i].1) && used_later(
                    uses(capacity, steps),
                    before.entries[i].0,
                    discarded.0,
                )
        }),
{
    let before = run(capacity, steps);
    let entries = before.entries;
    let after = after_put(entries, before.capacity, key, val);
    law_run_keeps_cache(capacity, steps);
    law_run_orders_by_use(capacity, steps);
    law_put_keeps_cache(entries, before.capacity, key, val);
    assert forall|i: int| 0 <= i < entries.len() - 1 implies lookup(
        after,
        &(#[trigger] entries[i]).0,
    ) == Some(entries[i].1) by {
        assert(after[i + 1] == entries[i]);
        law_lookup_at(after, i + 1);
    }
    assert forall|i: int| !found_at(after, &entries.last().0, i) by {
        assert(!found_at(entries, &key, entries.len() - 1));
        assert(borrows_as(key, &key));
    }
}

/// Putting a pair leaves what is read under another key as it is, unless the cache is full, the
/// key that is put is new, and the other one is the least recently used.
pub proof fn law_put_keeps_others<K, V>(
    entries: Seq<(K, V)>,
    capacity: usize,
    key: K,
    val: V,
    other: K,
)
    requires
        unique_keys(entries),
        entries.len() <= capacity,
        other != key,
    ensures
        lookup(after_put(entries, capacity, key, val), &other) == (if !holds(entries, &key) && 0
            < entries.len() == capacity && entries.last().0 == other {
            None
        } else {
            lookup(entries, &other)
        }),
{
    let after = after_put(entries, capacity, key, val);
    law_put_keeps_cache(entries, capacity, key, val);
    let held = holds(entries, &key);
    let p = position(entries, &key);
    if held {
        assert(found_at(entries, &key, p));
        assert(entries[p].0 == key);
    }
    if holds(entries, &other) {
        let i = position(entries, &other);
        assert(found_at(entries, &other, i));
        let full = !held && entries.len() == capacity;
        if full && i == entries.len() - 1 {
            assert forall|j: int| !found_at(after, &other, j) by {}
        } else {
            let j = if held && i > p { i } else { i + 1 };
            assert(after[j] == entries[i]);
            law_lookup_at(after, j);
        }
    } else {
        assert forall|j: int| !found_at(after, &other, j) by {
            if 0 < j < after.len() {
                let i = if held && j > p { j } else { j - 1 };
                assert(after[j] == entries[i]);
                assert(!found_at(entries, &other, i));
            }
        }
    }
}

/// Putting a new key into a full cache is taking the least recently used pair out and then putting
/// the new one.
pub proof fn law_put_when_full<K, V>(entries: Seq<(K, V)>, capacity: usize, key: K, val: V)
    requires
        !holds(entries, &key),
        0 < entries.len() == capacity,
    ensures
        after_put(entries, capacity, key, val) == after_put(
            after_pop_lru(entries),
            capacity,
            key,
            val,
        ),
{
    assert forall|i: int| !found_at(after_pop_lru(entries), &key, i) by {
        assert(!found_at(entries, &key, i));
    }
}

/// A cache without room for any pair stays empty.
pub proof fn law_put_without_room<K, V>(entries: Seq<(K, V)>, key: K, val: V)
    requires
        entries.len() == 0,
    ensures
        after_put(entries, 0, key, val) == entries,
        lookup(after_put(entries, 0, key, val), &key) is None,
{
}

/// A cache that was made unbounded keeps every key that it holds, as long as it holds fewer than
/// `usize::MAX`.
pub proof fn law_unbounded_keeps_keys<K, V, Q: ?Sized>(
    entries: Seq<(K, V)>,
    key: K,
    val: V,
    query: &Q,
)
    requires
        unique_keys(entries),
        entries.len() < usize::MAX,
        holds(entries, query),
    ensures
        holds(after_put(entries, usize::MAX, key, val), query),
{
    let after = after_put(entries, usize::MAX, key, val);
    let i = position(entries, query);
    assert(found_at(entries, query, i));
    let held = holds(entries, &key);
    let p = position(entries, &key);
    if held {
        assert(found_at(entries, &key, p));
        assert(entries[p].0 == key);
    }
    let j = if held && i == p {
        0
    } else if held && i > p {
        i
    } else {
        i + 1
    };
    assert(after[j].0 == entries[i].0);
    assert(found_at(after, query, j));
}

/// `get` changes the order alone: every key keeps its value, and there are as many pairs as before.
pub proof fn law_get_keeps_lookups<K, V, Q: ?Sized, R: ?Sized>(
    entries: Seq<(K, V)>,
    query: &Q,
    other: &R,
)
    requires
        unique_keys(entries),
        borrows_uniquely::<K, R>(),
    ensures
        lookup(after_get(entries, query), other) == lookup(entries, other),
        after_get(entries, query).len() == entries.len(),
{
    if holds(entries, query) {
        let p = position(entries, query);
        let after = after_get(entries, query);
        assert(found_at(entries, query, p));
        if holds(entries, other) {
            let i = position(entries, other);
            assert(found_at(entries, other, i));
            let j = if i == p {
                0
            } else if i > p {
                i
            } else {
                i + 1
            };
            assert(after[j] == entries[i]);
            lemma_position(after, other, j);
        } else {
            assert forall|j: int| !found_at(after, other, j) by {
                if 0 <= j < after.len() {
                    let i = if j == 0 {
                        p
                    } else if j > p {
                        j
                    } else {
                        j - 1
                    };
                    assert(after[j] == entries[i]);
                    assert(!found_at(entries, other, i));
                }
            }
        }
    }
}

/// A key that was just used stays in front when it is used again.
pub proof fn law_get_twice<K, V, Q: ?Sized>(entries: Seq<(K, V)>, query: &Q)
    requires
        unique_keys(entries),
        borrows_uniquely::<K, Q>(),
    ensures
        after_get(after_get(entries, query), query) == after_get(entries, query),
{
    if holds(entries, query) {
        let p = position(entries, query);
        assert(found_at(entries, query, p));
        let once = after_get(entries, query);
        assert(once[0] == entries[p]);
        lemma_position(once, query, 0);
        assert(promoted(once, 0) =~= once);
    }
}

/// A key that was taken out is gone.
pub proof fn law_pop_removes<K, V, Q: ?Sized>(entries: Seq<(K, V)>, query: &Q)
    requires
        unique_keys(entries),
        borrows_uniquely::<K, Q>(),
    ensures
        lookup(after_pop(entries, query), query) is None,
{
    if holds(entries, query) {
        let p = position(entries, query);
        let after = after_pop(entries, query);
        assert(found_at(entries, query, p));
        assert forall|j: int| !found_at(after, query, j) by {
            if 0 <= j < after.len() {
                let i = if j < p { j } else { j + 1 };
                assert(after[j] == entries[i]);
                if borrows_as(entries[i].0, query) {
                    lemma_position(entries, query, i);
                }
            }
        }
    }
}

/// Taking a key out leaves what is read under another key as it is.
pub proof fn law_pop_keeps_others<K, V, Q: ?Sized>(entries: Seq<(K, V)>, query: &Q, other: K)
    requires
        unique_keys(entries),
        !borrows_as(other, query),
    ensures
        lookup(after_pop(entries, query), &other) == lookup(entries, &other),
{
    if holds(entries, query) {
        let p = position(entries, query);
        let after = after_pop(entries, query);
        assert(found_at(entries, query, p));
        if holds(entries, &other) {
            let i = position(entries, &other);
            assert(found_at(entries, &other, i));
            assert(entries[i].0 == other);
            let j = if i < p { i } else { i - 1 };
            assert(after[j] == entries[i]);
            law_lookup_at(after, j);
        } else {
            assert forall|j: int| !found_at(after, &other, j) by {
                if 0 <= j < after.len() {
                    let i = if j < p { j } else { j + 1 };
                    assert(after[j] == entries[i]);
                    assert(!found_at(entries, &other, i));
                }
            }
        }
    }
}

/// Taking out a new key that was just put gives the cache back, where there was room for it.
pub proof fn law_put_then_pop<K, V>(entries: Seq<(K, V)>, capacity: usize, key: K, val: V)
    requires
        unique_keys(entries),
        entries.len() < capacity,
        !holds(entries, &key),
    ensures
        after_pop(after_put(entries, capacity, key, val), &key) == entries,
{
    let put = after_put(entries, capacity, key, val);
    law_put_keeps_cache(entries, capacity, key, val);
    assert(put[0].0 == key);
    assert(borrows_as(key, &key));
    lemma_position(put, &key, 0);
    assert(put.remove(0) =~= entries);
}

/// The pairs that are left after `n` calls of `pop_lru`.
pub open spec fn after_pops<K, V>(entries: Seq<(K, V)>, n: nat) -> Seq<(K, V)>
    decreases n,
{
    if n == 0 {
        entries
    } else {
        after_pop_lru(after_pops(entries, (n - 1) as nat))
    }
}

/// Calls of `pop_lru` take the pairs out from the least recently used one on, so the next of them
/// takes the one that is last among those left.
pub proof fn law_pop_lru_from_the_back<K, V>(entries: Seq<(K, V)>, n: nat)
    requires
        n <= entries.len(),
    ensures
        after_pops(entries, n) == entries.take(entries.len() - n),
        n < entries.len() ==> after_pops(entries, n).last() == entries[entries.len() - 1 - n],
    decreases n,
{
    if n > 0 {
        law_pop_lru_from_the_back(entries, (n - 1) as nat);
    }
}

/// Resizing a cache to less than it holds is calling `pop_lru` until it fits.
pub proof fn law_resize_pops<K, V>(entries: Seq<(K, V)>, capacity: usize)
    requires
        entries.len() >= capacity,
    ensures
        after_resize(entries, capacity) == after_pops(
            entries,
            (entries.len() - capacity) as nat,
        ),
{
    law_pop_lru_from_the_back(entries, (entries.len() - capacity) as nat);
}

/// Clearing a cache is calling `pop_lru` until it is empty.
pub proof fn law_clear_pops<K, V>(entries: Seq<(K, V)>)
    ensures
        after_pops(entries, entries.len()) == Seq::<(K, V)>::empty(),
{
    law_pop_lru_from_the_back(entries, entries.len());
}

/// Resizing twice keeps what fits into the smaller of the two capacities.
pub proof fn law_resize_twice<K, V>(entries: Seq<(K, V)>, first: usize, second: usize)
    ensures
        after_resize(after_resize(entries, first), second) == after_resize(
            entries,
            if first <= second {
                first
            } else {
                second
            },
        ),
{
}

/// Resizing a cache to what it holds or more keeps everything.
pub proof fn law_resize_larger<K, V>(entries: Seq<(K, V)>, capacity: usize)
    requires
        entries.len() <= capacity,
    ensures
        after_resize(entries, capacity) == entries,
{
}

/// The pairs that an iterator still has to come to after calls of `next`, which are `true` here,
/// and of `next_back`.
pub open spec fn after_nexts<K, V>(entries: Seq<(K, V)>, calls: Seq<bool>) -> Seq<(K, V)>
    decreases calls.len(),
{
    if calls.len() == 0 {
        entries
    } else if calls.last() {
        after_nexts(entries, calls.drop_last()).drop_first()
    } else {
        after_nexts(entries, calls.drop_last()).drop_last()
    }
}

/// How many of the calls are `next`.
pub open spec fn nexts(calls: Seq<bool>) -> nat
    decreases calls.len(),
{
    if calls.len() == 0 {
        0
    } else if calls.last() {
        nexts(calls.drop_last()) + 1
    } else {
        nexts(calls.drop_last())
    }
}

/// However `next` and `next_back` alternate, the first come to the pairs from the front on and the
/// second from the back on, until they meet: no pair comes twice and none is left out.
pub proof fn law_iterators_meet<K, V>(entries: Seq<(K, V)>, calls: Seq<bool>)
    requires
        calls.len() <= entries.len(),
    ensures
        nexts(calls) <= calls.len(),
        after_nexts(entries, calls) == entries.subrange(
            nexts(calls) as int,
            entries.len() - (calls.len() - nexts(calls)),
        ),
    decreases calls.len(),
{
    if calls.len() > 0 {
        law_iterators_meet(entries, calls.drop_last());
    }
}

} // verus!
