//! Iterators over the pairs of a cache.

use vstd::prelude::*;

use crate::entry::LruEntry;
use crate::list::{linked, occupied, pair, EntryList, HEAD, TAIL};

verus! {

/// An iterator over the pairs of a cache, from the most to the least recently used one.
pub struct Iter<'a, K, V> {
    len: usize,
    ptr: usize,
    end: usize,
    nodes: &'a Vec<LruEntry<K, V>>,
    /// The slots of the pairs that are still to come.
    rest: Ghost<Seq<usize>>,
}

impl<'a, K, V> View for Iter<'a, K, V> {
    type V = Seq<(K, V)>;

    /// The pairs that are still to come.
    closed spec fn view(&self) -> Seq<(K, V)> {
        Seq::new(self.rest@.len(), |i: int| pair(self.nodes@, self.rest@[i]))
    }
}

impl<'a, K, V> Iter<'a, K, V> {
    /// The slots to come are those between `ptr` and `end`, linked to each other.
    #[verifier::type_invariant]
    closed spec fn inv(self) -> bool {
        let rest = self.rest@;
        &&& self.len == rest.len()
        &&& rest.len() > 0 ==> self.ptr == rest[0] && self.end == rest.last()
        &&& forall|i: int| 0 <= i < rest.len() ==> occupied(self.nodes@, #[trigger] rest[i])
        &&& forall|i: int, j: int|
            0 <= i && j == i + 1 && j < rest.len() ==> self.nodes@[#[trigger] rest[i] as int].next
                == rest[j] && self.nodes@[#[trigger] rest[j] as int].prev == rest[i]
    }

    /// Makes an iterator over all pairs of a list.
    pub(crate) fn new(list: &'a EntryList<K, V>, len: usize) -> (iter: Self)
        requires
            list.wf(),
            len == list@.len(),
        ensures
            iter@ == list@,
        no_unwind
    {
        let ghost order = list.order();
        proof {
            assert(linked(list.nodes@, order, -1));
            assert(linked(list.nodes@, order, order.len() - 1));
            assert forall|i: int, j: int|
                0 <= i && j == i + 1 && j < order.len() implies list.nodes@[#[trigger] order[i]
                as int].next == order[j] && list.nodes@[#[trigger] order[j] as int].prev
                == order[i] by {
                assert(linked(list.nodes@, order, i));
            }
        }
        Iter {
            len,
            ptr: list.nodes[HEAD].next,
            end: list.nodes[TAIL].prev,
            nodes: &list.nodes,
            rest: Ghost(order),
        }
    }

    /// Returns the next pair from the front.
    pub fn next(&mut self) -> (entry: Option<(&'a K, &'a V)>)
        ensures
            match entry {
                Some((k, v)) => {
                    &&& old(self)@.len() > 0
                    &&& old(self)@[0] == (*k, *v)
                    &&& final(self)@ == old(self)@.drop_first()
                },
                None => old(self)@.len() == 0 && final(self)@ == old(self)@,
            },
        no_unwind
    {
        proof {
            use_type_invariant(&*self);
        }
        if self.len == 0 {
            return None;
        }
        let nodes = self.nodes;
        let node = &nodes[self.ptr];
        let ghost rest = self.rest@.drop_first();
        *self = Iter {
            len: self.len - 1,
            ptr: node.next,
            end: self.end,
            nodes,
            rest: Ghost(rest),
        };
        match (&node.key, &node.val) {
            (Some(key), Some(val)) => Some((key, val)),
            _ => None,
        }
    }

    /// Returns the next pair from the back.
    pub fn next_back(&mut self) -> (entry: Option<(&'a K, &'a V)>)
        ensures
            match entry {
                Some((k, v)) => {
                    &&& old(self)@.len() > 0
                    &&& old(self)@.last() == (*k, *v)
                    &&& final(self)@ == old(self)@.drop_last()
                },
                None => old(self)@.len() == 0 && final(self)@ == old(self)@,
            },
        no_unwind
    {
        proof {
            use_type_invariant(&*self);
        }
        if self.len == 0 {
            return None;
        }
        let nodes = self.nodes;
        let node = &nodes[self.end];
        let ghost rest = self.rest@.drop_last();
        *self = Iter {
            len: self.len - 1,
            ptr: self.ptr,
            end: node.prev,
            nodes,
            rest: Ghost(rest),
        };
        match (&node.key, &node.val) {
            (Some(key), Some(val)) => Some((key, val)),
            _ => None,
        }
    }

    /// The number of pairs that are still to come.
    pub fn len(&self) -> (len: usize)
        ensures
            len == self@.len(),
        no_unwind
    {
        proof {
            use_type_invariant(self);
        }
        self.len
    }

    /// The least and the greatest number of pairs that may still come, which are the same.
    pub fn size_hint(&self) -> (hint: (usize, Option<usize>))
        ensures
            hint.0 == self@.len(),
            hint.1 == Some(hint.0),
        no_unwind
    {
        (self.len(), Some(self.len()))
    }

    /// Uses the iterator up and says how many pairs were still to come.
    pub fn count(self) -> (count: usize)
        ensures
            count == self@.len(),
        no_unwind
    {
        self.len()
    }
}

impl<'a, K, V> Clone for Iter<'a, K, V> {
    /// Makes an iterator over the same pairs.
    fn clone(&self) -> (iter: Self)
        ensures
            iter@ == self@,
    {
        proof {
            use_type_invariant(self);
        }
        Iter { len: self.len, ptr: self.ptr, end: self.end, nodes: self.nodes, rest: self.rest }
    }
}

/// An iterator over the pairs of a cache, from the most to the least recently used one, that lets
/// the values be changed.
pub struct IterMut<'a, K, V> {
    /// The pairs from `front` on are still to come.
    items: Vec<Option<(&'a K, &'a mut V)>>,
    front: usize,
}

impl<'a, K, V> IterMut<'a, K, V> {
    /// The pairs that are still to come.
    pub closed spec fn view(self) -> Seq<(&'a K, &'a mut V)> {
        Seq::new(
            (self.items@.len() - self.front) as nat,
            |i: int| self.items@[self.front + i].unwrap(),
        )
    }

    /// The pairs that are still to come are there.
    #[verifier::type_invariant]
    pub closed spec fn wf(self) -> bool {
        &&& self.front <= self.items@.len()
        &&& forall|i: int| self.front <= i < self.items@.len() ==> #[trigger] self.items@[i] is Some
    }

    /// Makes an iterator over the given pairs.
    pub(crate) fn new(items: Vec<Option<(&'a K, &'a mut V)>>) -> (iter: Self)
        requires
            forall|i: int| 0 <= i < items@.len() ==> #[trigger] items@[i] is Some,
        ensures
            iter@ == Seq::new(items@.len(), |i: int| items@[i].unwrap()),
            iter.wf(),
    {
        IterMut { items, front: 0 }
    }

    /// Takes the iterator's parts out and leaves an iterator at its end.
    fn take(&mut self) -> (taken: Self)
        ensures
            taken == *old(self),
            final(self)@.len() == 0,
    {
        let mut taken = IterMut { items: Vec::new(), front: 0 };
        std::mem::swap(self, &mut taken);
        taken
    }

    /// Returns the next pair from the front.
    pub fn next(&mut self) -> (entry: Option<(&'a K, &'a mut V)>)
        ensures
            match entry {
                Some(e) => {
                    &&& old(self)@.len() > 0
                    &&& e == old(self)@[0]
                    &&& final(self)@ == old(self)@.drop_first()
                },
                None => old(self)@.len() == 0 && final(self)@ == old(self)@,
            },
            final(self).wf(),
    {
        proof {
            use_type_invariant(&*self);
        }
        if self.front == self.items.len() {
            return None;
        }
        let IterMut { mut items, front } = self.take();
        let entry = items[front].take();
        *self = IterMut { items, front: front + 1 };
        entry
    }

    /// Returns the next pair from the back.
    pub fn next_back(&mut self) -> (entry: Option<(&'a K, &'a mut V)>)
        ensures
            match entry {
                Some(e) => {
                    &&& old(self)@.len() > 0
                    &&& e == old(self)@.last()
                    &&& final(self)@ == old(self)@.drop_last()
                },
                None => old(self)@.len() == 0 && final(self)@ == old(self)@,
            },
            final(self).wf(),
    {
        proof {
            use_type_invariant(&*self);
        }
        if self.front == self.items.len() {
            return None;
        }
        let IterMut { mut items, front } = self.take();
        let entry = items.pop()?;
        *self = IterMut { items, front };
        entry
    }

    /// The number of pairs that are still to come.
    pub fn len(&self) -> (len: usize)
        ensures
            len == self@.len(),
        no_unwind
    {
        proof {
            use_type_invariant(self);
        }
        self.items.len() - self.front
    }

    /// The least and the greatest number of pairs that may still come, which are the same.
    pub fn size_hint(&self) -> (hint: (usize, Option<usize>))
        ensures
            hint.0 == self@.len(),
            hint.1 == Some(hint.0),
        no_unwind
    {
        (self.len(), Some(self.len()))
    }

    /// Uses the iterator up and says how many pairs were still to come. Their values stay as they
    /// are.
    pub fn count(self) -> (count: usize)
        ensures
            count == self@.len(),
            forall|i: int|
                0 <= i < self@.len() ==> *final((#[trigger] self@[i]).1) == *self@[i].1,
        no_unwind
    {
        let count: usize = self.len();
        proof {
            use_type_invariant(&self);
            self.lemma_done();
        }
        count
    }

    /// An iterator that is done with leaves the values that it did not come to as they were.
    pub proof fn lemma_done(self)
        requires
            self.wf(),
        ensures
            has_resolved(self) ==> forall|i: int|
                0 <= i < self@.len() ==> *(#[trigger] self@[i]).1 == *final(self@[i].1),
    {
        if has_resolved(self) {
            assert forall|i: int| 0 <= i < self@.len() implies *(#[trigger] self@[i]).1
                == *final(self@[i].1) by {
                assert(has_resolved(self.items));
                assert(has_resolved(self.items@[self.front + i]));
            }
        }
    }
}

} // verus!
