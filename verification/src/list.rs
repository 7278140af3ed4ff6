//! The recency list: a doubly linked list of nodes that live in the slots of a vector.

use vstd::prelude::*;

use crate::entry::{LruEntry, UNLINKED};

verus! {

/// The slot of the sigil before the most recently used node.
pub(crate) const HEAD: usize = 0;

/// The slot of the sigil after the least recently used node.
pub(crate) const TAIL: usize = 1;

/// A doubly linked list whose nodes are slots of `nodes`. The slots `HEAD` and `TAIL` hold the
/// sigils at its ends. A slot is in the list, is free, or is loose: it holds a pair, but no link
/// leads to it.
pub(crate) struct EntryList<K, V> {
    pub(crate) nodes: Vec<LruEntry<K, V>>,
    /// The free slot to be used next, which links to the one to be used after it.
    pub(crate) spare: usize,
    /// The slots that hold no pair, the one to be used next last.
    pub(crate) free: Ghost<Seq<usize>>,
    /// The slots of the list from the head to the tail.
    pub(crate) order: Ghost<Seq<usize>>,
}

/// The slot at position `i` of the list, where the sigils stand just outside its ends.
pub(crate) open spec fn stop(order: Seq<usize>, i: int) -> usize {
    if i < 0 {
        HEAD
    } else if i < order.len() {
        order[i]
    } else {
        TAIL
    }
}

/// The nodes at positions `i` and `i + 1` are linked to each other.
pub(crate) open spec fn linked<K, V>(
    nodes: Seq<LruEntry<K, V>>,
    order: Seq<usize>,
    i: int,
) -> bool {
    &&& nodes[stop(order, i) as int].next == stop(order, i + 1)
    &&& nodes[stop(order, i + 1) as int].prev == stop(order, i)
}

/// The slot holds a pair.
pub(crate) open spec fn occupied<K, V>(nodes: Seq<LruEntry<K, V>>, slot: usize) -> bool {
    &&& TAIL < slot < nodes.len()
    &&& nodes[slot as int].key is Some
    &&& nodes[slot as int].val is Some
}

/// The slot holds nothing.
pub(crate) open spec fn vacant<K, V>(nodes: Seq<LruEntry<K, V>>, slot: usize) -> bool {
    &&& TAIL < slot < nodes.len()
    &&& nodes[slot as int].key is None
    &&& nodes[slot as int].val is None
}

/// The free slot to be used after the first `i` are left, or `UNLINKED` after the last one.
pub(crate) open spec fn top(free: Seq<usize>, i: int) -> usize {
    if i > 0 {
        free[i - 1]
    } else {
        UNLINKED
    }
}

/// The free slot at position `i` links to the one to be used after it.
pub(crate) open spec fn chained<K, V>(
    nodes: Seq<LruEntry<K, V>>,
    free: Seq<usize>,
    i: int,
) -> bool {
    nodes[free[i] as int].next == top(free, i)
}

/// The pair in a slot.
pub(crate) open spec fn pair<K, V>(nodes: Seq<LruEntry<K, V>>, slot: usize) -> (K, V) {
    (nodes[slot as int].key.unwrap(), nodes[slot as int].val.unwrap())
}

/// Both hold the same keys and values in the same slots.
pub(crate) open spec fn same_pairs<K, V>(
    a: Seq<LruEntry<K, V>>,
    b: Seq<LruEntry<K, V>>,
) -> bool {
    &&& a.len() == b.len()
    &&& forall|s: int|
        #![trigger a[s]]
        #![trigger b[s]]
        0 <= s < a.len() ==> a[s].key == b[s].key && a[s].val == b[s].val
}

impl<K, V> EntryList<K, V> {
    /// The pairs of the list from the head to the tail.
    pub(crate) open spec fn view(self) -> Seq<(K, V)> {
        Seq::new(self.order@.len(), |i: int| pair(self.nodes@, self.order@[i]))
    }

    /// The slots of the list from the head to the tail.
    pub(crate) open spec fn order(self) -> Seq<usize> {
        self.order@
    }

    /// The sigils are there, the slots in the list hold pairs and are linked up in their order, the
    /// free ones hold none and are chained from `spare` on, and no slot occurs twice.
    pub(crate) open spec fn wf(self) -> bool {
        &&& self.nodes@.len() > TAIL
        &&& self.order@.no_duplicates()
        &&& self.free@.no_duplicates()
        &&& forall|i: int|
            0 <= i < self.order@.len() ==> occupied(self.nodes@, #[trigger] self.order@[i])
        &&& forall|i: int|
            0 <= i < self.free@.len() ==> vacant(self.nodes@, #[trigger] self.free@[i])
        &&& self.spare == top(self.free@, self.free@.len() as int)
        &&& forall|i: int|
            0 <= i < self.free@.len() ==> #[trigger] chained(self.nodes@, self.free@, i)
        &&& forall|i: int|
            -1 <= i < self.order@.len() ==> #[trigger] linked(self.nodes@, self.order@, i)
    }

    /// Makes an empty list.
    pub(crate) fn new() -> (list: Self)
        ensures
            list.wf(),
            list.order() == Seq::<usize>::empty(),
            list@ == Seq::<(K, V)>::empty(),
            list.nodes@.len() == 2,
            list.free@ == Seq::<usize>::empty(),
    {
        let mut head = LruEntry::new_sigil();
        let mut tail = LruEntry::new_sigil();
        head.next = TAIL;
        tail.prev = HEAD;
        let mut nodes = Vec::new();
        nodes.push(head);
        nodes.push(tail);
        EntryList { nodes, spare: UNLINKED, free: Ghost(Seq::empty()), order: Ghost(Seq::empty()) }
    }

    /// Unlinks the node at `slot`, which becomes loose.
    pub(crate) fn detach(&mut self, slot: usize)
        requires
            old(self).wf(),
            old(self).order().contains(slot),
        ensures
            final(self).wf(),
            final(self).order() == old(self).order().remove(old(self).order().index_of(slot)),
            final(self)@ == old(self)@.remove(old(self).order().index_of(slot)),
            same_pairs(old(self).nodes@, final(self).nodes@),
            final(self).free@ == old(self).free@,
        no_unwind
    {
        let ghost order = self.order@;
        let ghost i = order.index_of(slot);
        assert(linked(self.nodes@, order, i - 1));
        assert(linked(self.nodes@, order, i));
        assert(occupied(self.nodes@, order[i]));
        assert(i > 0 ==> occupied(self.nodes@, order[i - 1]));
        assert(i + 1 < order.len() ==> occupied(self.nodes@, order[i + 1]));
        let prev: usize = self.nodes[slot].prev;
        let next: usize = self.nodes[slot].next;
        self.nodes[prev].next = next;
        self.nodes[next].prev = prev;
        proof {
            self.order@ = order.remove(i);
            assert forall|j: int| -1 <= j < self.order@.len() implies #[trigger] linked(
                self.nodes@,
                self.order@,
                j,
            ) by {
                let before = old(self).nodes@;
                if j < i - 1 {
                    assert(linked(before, order, j));
                } else if j >= i {
                    assert(linked(before, order, j + 1));
                }
            }
            lemma_chain_kept(old(self).nodes@, self.nodes@, self.free@, self.free@.len() as int);
        }
    }

    /// Links the loose node at `slot` in at the head.
    pub(crate) fn attach(&mut self, slot: usize)
        requires
            old(self).wf(),
            occupied(old(self).nodes@, slot),
            !old(self).order().contains(slot),
        ensures
            final(self).wf(),
            final(self).order() == seq![slot] + old(self).order(),
            final(self)@ == seq![pair(old(self).nodes@, slot)] + old(self)@,
            same_pairs(old(self).nodes@, final(self).nodes@),
            final(self).free@ == old(self).free@,
        no_unwind
    {
        let ghost order = self.order@;
        assert(linked(self.nodes@, order, -1));
        assert(order.len() > 0 ==> occupied(self.nodes@, order[0]));
        let first: usize = self.nodes[HEAD].next;
        self.nodes[slot].next = first;
        self.nodes[slot].prev = HEAD;
        self.nodes[HEAD].next = slot;
        self.nodes[first].prev = slot;
        proof {
            self.order@ = seq![slot] + order;
            assert forall|j: int| -1 <= j < self.order@.len() implies #[trigger] linked(
                self.nodes@,
                self.order@,
                j,
            ) by {
                if j >= 1 {
                    assert(linked(old(self).nodes@, order, j - 1));
                }
            }
            lemma_chain_kept(old(self).nodes@, self.nodes@, self.free@, self.free@.len() as int);
        }
    }

    /// Stores a node in a slot, which is then loose: in a free one, or in a new one where none is
    /// free.
    pub(crate) fn store(&mut self, entry: LruEntry<K, V>) -> (slot: usize)
        requires
            old(self).wf(),
            entry.key is Some,
            entry.val is Some,
        ensures
            final(self).wf(),
            final(self).order() == old(self).order(),
            final(self)@ == old(self)@,
            occupied(final(self).nodes@, slot),
            !final(self).order().contains(slot),
            final(self).nodes@[slot as int] == entry,
            if old(self).free@.len() > 0 {
                &&& slot == old(self).free@.last()
                &&& final(self).free@ == old(self).free@.drop_last()
                &&& final(self).nodes@.len() == old(self).nodes@.len()
            } else {
                &&& slot == old(self).nodes@.len()
                &&& final(self).free@ == old(self).free@
                &&& final(self).nodes@.len() == old(self).nodes@.len() + 1
            },
            forall|s: int|
                0 <= s < old(self).nodes@.len() && s != slot ==> #[trigger] final(self).nodes@[s]
                    == old(self).nodes@[s],
    {
        let ghost free = self.free@;
        if self.spare != UNLINKED {
            let slot: usize = self.spare;
            assert(vacant(self.nodes@, free.last()));
            assert(chained(self.nodes@, free, free.len() - 1));
            self.spare = self.nodes[slot].next;
            self.nodes[slot] = entry;
            proof {
                self.free@ = free.drop_last();
                self.lemma_kept(*old(self), slot);
                lemma_chain_kept(old(self).nodes@, self.nodes@, free, free.len() - 1);
                assert forall|i: int| 0 <= i < self.free@.len() implies #[trigger] chained(
                    self.nodes@,
                    self.free@,
                    i,
                ) by {
                    assert(chained(self.nodes@, free, i));
                }
            }
            slot
        } else {
            assert(free.len() > 0 ==> vacant(self.nodes@, free.last()));
            let slot: usize = self.nodes.len();
            self.nodes.push(entry);
            proof {
                self.lemma_kept(*old(self), slot);
                lemma_chain_kept(old(self).nodes@, self.nodes@, free, free.len() as int);
            }
            slot
        }
    }

    /// Takes the node out of a loose slot, which becomes free.
    pub(crate) fn release(&mut self, slot: usize) -> (entry: LruEntry<K, V>)
        requires
            old(self).wf(),
            occupied(old(self).nodes@, slot),
            !old(self).order().contains(slot),
        ensures
            final(self).wf(),
            final(self).order() == old(self).order(),
            final(self)@ == old(self)@,
            entry == old(self).nodes@[slot as int],
            final(self).free@ == old(self).free@.push(slot),
            final(self).nodes@.len() == old(self).nodes@.len(),
            forall|s: int|
                0 <= s < old(self).nodes@.len() && s != slot ==> #[trigger] final(self).nodes@[s]
                    == old(self).nodes@[s],
        no_unwind
    {
        let mut entry = LruEntry::new_sigil();
        entry.next = self.spare;
        std::mem::swap(&mut self.nodes[slot], &mut entry);
        self.spare = slot;
        proof {
            let free = self.free@;
            self.free@ = free.push(slot);
            self.lemma_kept(*old(self), slot);
            lemma_chain_kept(old(self).nodes@, self.nodes@, free, free.len() as int);
            assert forall|i: int| 0 <= i < self.free@.len() implies #[trigger] chained(
                self.nodes@,
                self.free@,
                i,
            ) by {
                if i < free.len() {
                    assert(chained(self.nodes@, free, i));
                }
            }
        }
        entry
    }

    /// Collects the slots of the list from the head to the tail.
    fn slots(&self) -> (slots: Vec<usize>)
        requires
            self.wf(),
        ensures
            slots@ == self.order(),
    {
        let ghost order = self.order@;
        let mut slots: Vec<usize> = Vec::new();
        assert(linked(self.nodes@, order, -1));
        let mut slot: usize = self.nodes[HEAD].next;
        while slot != TAIL
            invariant
                self.wf(),
                order == self.order@,
                slots@.len() <= order.len(),
                slots@ == order.take(slots@.len() as int),
                slot == stop(order, slots@.len() as int),
            decreases order.len() - slots@.len(),
        {
            assert(occupied(self.nodes@, order[slots@.len() as int]));
            assert(linked(self.nodes@, order, slots@.len() as int));
            slots.push(slot);
            slot = self.nodes[slot].next;
        }
        assert(slots@.len() < order.len() ==> occupied(self.nodes@, order[slots@.len() as int]));
        slots
    }

    /// Borrows the pairs of the list from the head to the tail.
    pub(crate) fn iter_mut<'a>(&'a mut self) -> (items: Vec<Option<(&'a K, &'a mut V)>>)
        requires
            old(self).wf(),
        ensures
            final(self).wf(),
            final(self).order() == old(self).order(),
            final(self).free@ == old(self).free@,
            final(self).nodes@.len() == old(self).nodes@.len(),
            forall|s: int|
                0 <= s < old(self).nodes@.len() ==> (#[trigger] final(self).nodes@[s]).key
                    == old(self).nodes@[s].key,
            items@.len() == old(self)@.len(),
            forall|i: int|
                0 <= i < items@.len() ==> match #[trigger] items@[i] {
                    Some((k, v)) => old(self)@[i] == (*k, *v) && final(self)@[i] == (*k, *final(v)),
                    None => false,
                },
    {
        let ghost order = self.order@;
        let slots: Vec<usize> = self.slots();
        let mut refs = pairs_mut(&mut self.nodes);
        let ghost lent_refs = refs@;
        proof {
            assert forall|s: int| 0 <= s < old(self).nodes@.len() implies revalued(
                old(self).nodes@[s],
                #[trigger] after_borrow(*self).nodes@[s],
            ) by {
                assert(lent_refs[s] == refs@[s]);
            }
            after_borrow(*self).lemma_revalued(*old(self));
        }
        let mut items: Vec<Option<(&'a K, &'a mut V)>> = Vec::new();
        let mut i: usize = 0;
        while i < slots.len()
            invariant
                i <= slots@.len(),
                slots@ == order,
                order.no_duplicates(),
                refs@.len() == lent_refs.len(),
                items@.len() == i,
                forall|j: int| 0 <= j < order.len() ==> (#[trigger] order[j]) < refs@.len(),
                forall|j: int|
                    i <= j < order.len() ==> refs@[#[trigger] order[j] as int]
                        == lent_refs[order[j] as int],
                forall|j: int| 0 <= j < i ==> #[trigger] items@[j] == lent_refs[order[j] as int],
            decreases slots@.len() - i,
        {
            items.push(refs[slots[i]].take());
            i = i + 1;
        }
        assert forall|j: int| 0 <= j < order.len() implies lent_refs[#[trigger] order[j] as int]
            is Some by {
            assert(occupied(old(self).nodes@, order[j]));
        }
        items
    }

    /// Changing nothing but a slot outside the list leaves the list as it is.
    proof fn lemma_kept(self, before: Self, slot: usize)
        requires
            before.wf(),
            self.order@ == before.order@,
            TAIL < slot,
            !before.order@.contains(slot),
            self.nodes@.len() >= before.nodes@.len(),
            forall|s: int|
                0 <= s < before.nodes@.len() && s != slot ==> #[trigger] self.nodes@[s]
                    == before.nodes@[s],
        ensures
            self@ == before@,
            forall|i: int|
                0 <= i < self.order@.len() ==> occupied(self.nodes@, #[trigger] self.order@[i]),
            forall|i: int|
                -1 <= i < self.order@.len() ==> #[trigger] linked(self.nodes@, self.order@, i),
    {
        assert forall|i: int| 0 <= i < self.order@.len() implies occupied(
            self.nodes@,
            #[trigger] self.order@[i],
        ) by {
            assert(occupied(before.nodes@, before.order@[i]));
        }
        assert forall|i: int| -1 <= i < self.order@.len() implies #[trigger] linked(
            self.nodes@,
            self.order@,
            i,
        ) by {
            assert(linked(before.nodes@, before.order@, i));
            assert(i >= 0 ==> occupied(before.nodes@, before.order@[i]));
            assert(i + 1 < before.order@.len() ==> occupied(before.nodes@, before.order@[i + 1]));
        }
        assert(self@ =~= before@) by {
            assert forall|i: int| 0 <= i < self.order@.len() implies pair(
                self.nodes@,
                #[trigger] self.order@[i],
            ) == pair(before.nodes@, before.order@[i]) by {
                assert(occupied(before.nodes@, before.order@[i]));
            }
        }
    }

    /// Changing values alone leaves the list as it is.
    pub(crate) proof fn lemma_revalued(self, before: Self)
        requires
            before.wf(),
            self.order == before.order,
            self.free == before.free,
            self.spare == before.spare,
            self.nodes@.len() == before.nodes@.len(),
            forall|s: int|
                0 <= s < before.nodes@.len() ==> revalued(
                    before.nodes@[s],
                    #[trigger] self.nodes@[s],
                ),
        ensures
            self.wf(),
    {
        assert forall|i: int| 0 <= i < self.order@.len() implies occupied(
            self.nodes@,
            #[trigger] self.order@[i],
        ) by {
            assert(occupied(before.nodes@, before.order@[i]));
        }
        assert forall|i: int| 0 <= i < self.free@.len() implies vacant(
            self.nodes@,
            #[trigger] self.free@[i],
        ) by {
            assert(vacant(before.nodes@, before.free@[i]));
        }
        assert forall|i: int| 0 <= i < self.free@.len() implies self.nodes@[#[trigger] self.free@[i]
            as int].next == before.nodes@[self.free@[i] as int].next by {
            assert(vacant(before.nodes@, before.free@[i]));
        }
        lemma_chain_kept(before.nodes@, self.nodes@, self.free@, self.free@.len() as int);
        assert forall|i: int| -1 <= i < self.order@.len() implies #[trigger] linked(
            self.nodes@,
            self.order@,
            i,
        ) by {
            assert(linked(before.nodes@, before.order@, i));
            assert(i >= 0 ==> occupied(before.nodes@, before.order@[i]));
            assert(i + 1 < before.order@.len() ==> occupied(before.nodes@, before.order@[i + 1]));
        }
    }

    /// Changing the value at position `i` alone changes one pair of the list.
    pub(crate) proof fn lemma_value_set(self, before: Self, i: int)
        requires
            before.wf(),
            0 <= i < before.order().len(),
            self.order == before.order,
            self.free == before.free,
            self.spare == before.spare,
            self.nodes@[before.order()[i] as int].val is Some,
            self.nodes@ == before.nodes@.update(
                before.order()[i] as int,
                LruEntry {
                    val: self.nodes@[before.order()[i] as int].val,
                    ..before.nodes@[before.order()[i] as int]
                },
            ),
        ensures
            self.wf(),
            self@ == before@.update(
                i,
                (before@[i].0, self.nodes@[before.order()[i] as int].val.unwrap()),
            ),
    {
        let order = before.order@;
        assert(occupied(before.nodes@, order[i]));
        self.lemma_revalued(before);
        assert forall|j: int| 0 <= j < order.len() implies self@[j] == before@.update(
            i,
            (before@[i].0, self.nodes@[order[i] as int].val.unwrap()),
        )[j] by {
            assert(occupied(before.nodes@, order[j]));
        }
    }
}

/// The first `n` free slots stay chained where their links stay as they are.
proof fn lemma_chain_kept<K, V>(
    before: Seq<LruEntry<K, V>>,
    after: Seq<LruEntry<K, V>>,
    free: Seq<usize>,
    n: int,
)
    requires
        n <= free.len(),
        forall|i: int| 0 <= i < n ==> #[trigger] chained(before, free, i),
        forall|i: int|
            0 <= i < n ==> after[#[trigger] free[i] as int].next == before[free[i] as int].next,
    ensures
        forall|i: int| 0 <= i < n ==> #[trigger] chained(after, free, i),
{
    assert forall|i: int| 0 <= i < n implies #[trigger] chained(after, free, i) by {
        assert(chained(before, free, i));
    }
}

/// The two nodes differ in their values alone, and where one has a value so does the other.
pub(crate) open spec fn revalued<K, V>(a: LruEntry<K, V>, b: LruEntry<K, V>) -> bool {
    &&& a.key == b.key
    &&& a.prev == b.prev
    &&& a.next == b.next
    &&& a.val is Some <==> b.val is Some
}

/// The node holds `key` and first the value `now`, then `later`.
pub(crate) open spec fn lent<K, V>(
    before: LruEntry<K, V>,
    after: LruEntry<K, V>,
    key: K,
    now: V,
    later: V,
) -> bool {
    &&& revalued(before, after)
    &&& before.key == Some(key)
    &&& before.val == Some(now)
    &&& after.val == Some(later)
}

/// The node does not hold a pair and stays as it is.
pub(crate) open spec fn unlent<K, V>(before: LruEntry<K, V>, after: LruEntry<K, V>) -> bool {
    after == before && (before.key is None || before.val is None)
}

/// Borrows the pair of a node.
fn pair_mut<'a, K, V>(node: &'a mut LruEntry<K, V>) -> (refs: Option<(&'a K, &'a mut V)>)
    ensures
        match refs {
            Some((k, v)) => lent(*old(node), *final(node), *k, *v, *final(v)),
            None => unlent(*old(node), *final(node)),
        },
{
    match (&node.key, &mut node.val) {
        (Some(key), Some(val)) => Some((key, val)),
        _ => None,
    }
}

/// Borrows the pairs of all nodes.
fn pairs_mut<'a, K, V>(nodes: &'a mut Vec<LruEntry<K, V>>) -> (refs: Vec<
    Option<(&'a K, &'a mut V)>,
>)
    ensures
        refs@.len() == old(nodes)@.len(),
        final(nodes)@.len() == old(nodes)@.len(),
        forall|s: int|
            0 <= s < refs@.len() ==> match #[trigger] refs@[s] {
                Some((k, v)) => lent(old(nodes)@[s], final(nodes)@[s], *k, *v, *final(v)),
                None => unlent(old(nodes)@[s], final(nodes)@[s]),
            },
{
    let ghost before = nodes@;
    let mut refs: Vec<Option<(&'a K, &'a mut V)>> = Vec::new();
    let mut rest: &'a mut [LruEntry<K, V>] = nodes.as_mut_slice();
    while rest.len() > 0
        invariant
            refs@.len() + rest@.len() == before.len(),
            rest@ == before.skip(refs@.len() as int),
            after_borrow(*nodes)@.len() == refs@.len() + final(rest)@.len(),
            forall|s: int|
                0 <= s < refs@.len() ==> match #[trigger] refs@[s] {
                    Some((k, v)) => lent(before[s], after_borrow(*nodes)@[s], *k, *v, *final(v)),
                    None => unlent(before[s], after_borrow(*nodes)@[s]),
                },
            forall|j: int|
                refs@.len() <= j < after_borrow(*nodes)@.len() ==> #[trigger] after_borrow(
                    *nodes,
                )@[j] == final(rest)@[j - refs@.len()],
        decreases rest@.len(),
    {
        let whole = rest;
        let (first, others) = whole.split_at_mut(1);
        refs.push(pair_mut(&mut first[0]));
        rest = others;
    }
    refs
}

} // verus!
