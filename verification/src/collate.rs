//! The merger: it buffers the head of every source that has not run dry and
//! gives, on each pull, the least of the buffered heads.
//!
//! A source is any `Iterator`. What a source will give is known only of one
//! that keeps vstd's iterator laws (`obeys_prophetic_iter_laws`): it gives the
//! finite sequence `remaining()` and then `None`. Of any other source, such as
//! one that never ends, the contracts still say which buffered head a pull
//! gives, but not what the source puts in its place.

use vstd::multiset::Multiset;
use vstd::prelude::*;
use vstd::seq_lib::to_multiset_contains;
use vstd::std_specs::iter::IteratorSpec;
use crate::heap::{heap_ordered, pop, push, HeapEntry};
use crate::laws::lemma_least_unique;
use crate::merge::{advance, exhausted, heads, is_least, least, merged};
use crate::order::{precedes, total_order};

verus! {

/// The merger's view of a source that has not run dry: the element the
/// source gave last, which has not been emitted yet, and the source itself.
pub struct Slot<T, I> {
    pub head: T,
    pub rest: I,
}

/// What a source has still to give to the output: nothing if its slot is
/// empty, else the buffered head followed by `rest`, which stands for what
/// the source itself has still to give.
pub open spec fn pending<T, I>(slot: Option<Slot<T, I>>, rest: Seq<T>) -> Seq<T> {
    match slot {
        Some(s) => seq![s.head] + rest,
        None => Seq::empty(),
    }
}

/// What one pull does to a source that had `had` to give: if that is
/// nothing, the slot is empty; else the slot buffers the first element of
/// `had`, and `left`, what the source has to give from then on, is what
/// followed it.
pub open spec fn pulled<T, I>(had: Seq<T>, slot: Option<Slot<T, I>>, left: Seq<T>) -> bool {
    match slot {
        None => had.len() == 0,
        Some(s) => had.len() > 0 && s.head == had[0] && left == had.drop_first(),
    }
}

/// What a collection of slots can still give is bounded by `budget`: the
/// sum, over the slots that are not empty, of the source's own bound plus one
/// for the buffered head.
pub open spec fn budget<T, I: Iterator<Item = T>>(slots: Seq<Option<Slot<T, I>>>) -> nat
    decreases slots.len(),
{
    if slots.len() == 0 {
        0
    } else {
        budget(slots.drop_last()) + match slots.last() {
            Some(s) => s.rest.decrease()->0 + 1,
            None => 0,
        }
    }
}

/// A lazy merger of sources that each give their elements in non-decreasing
/// order. It holds one slot for every source that has not run dry; its view
/// has one entry for each source, in the order of the input.
#[verifier::reject_recursive_types(T)]
pub struct CollatingIterator<T, I> where T: Ord, I: Iterator<Item = T> {
    heap: Vec<HeapEntry<T, I>>,
    sources: Ghost<nat>,
}

impl<T, I> View for CollatingIterator<T, I> where T: Ord, I: Iterator<Item = T> {
    type V = Seq<Option<Slot<T, I>>>;

    /// One entry for each source, in the order of the input: the slot of a
    /// source that has not run dry, `None` for one that has.
    closed spec fn view(&self) -> Seq<Option<Slot<T, I>>> {
        Seq::new(self.sources@, |i: int| slot_of(self.heap@.to_multiset(), i))
    }
}

impl<T, I> CollatingIterator<T, I> where T: Ord, I: Iterator<Item = T> {
    /// The merger is well formed: its heap is ordered, and the slots in it
    /// belong to different sources of the input.
    pub closed spec fn wf(&self) -> bool {
        &&& heap_ordered(self.heap@)
        &&& distinct(self.heap@.to_multiset())
        &&& forall|e: HeapEntry<T, I>| #[trigger]
            self.heap@.to_multiset().count(e) > 0 ==> e.index < self.sources@
    }

    /// The buffered heads, one entry for each source.
    pub open spec fn heads(&self) -> Seq<Option<T>> {
        Seq::new(
            self@.len(),
            |i: int|
                match self@[i] {
                    Some(s) => Some(s.head),
                    None => None,
                },
        )
    }

    /// Creates a merger of the given sources, the source listed first having
    /// the lowest index. Each source is pulled once: what it gives is
    /// buffered as its head, and a source that is empty from the start gets
    /// no slot. Whether the sources are sorted is not looked at.
    pub fn new(iterators: Vec<I>) -> (merger: Self)
        requires
            total_order::<T>(),
        ensures
            merger.wf(),
            merger@.len() == iterators.len(),
            forall|i: int|
                #![trigger iterators[i]]
                #![trigger merger@[i]]
                0 <= i < iterators.len() && iterators[i].obeys_prophetic_iter_laws() ==> pulled(
                    iterators[i].remaining(),
                    merger@[i],
                    merger@[i]->0.rest.remaining(),
                ),
            forall|i: int|
                #![trigger iterators[i]]
                #![trigger merger@[i]]
                0 <= i < iterators.len() ==> (merger@[i] matches Some(s)
                    ==> s.rest.obeys_prophetic_iter_laws()
                    == iterators[i].obeys_prophetic_iter_laws()),
            (forall|i: int|
                0 <= i < iterators.len() ==> (#[trigger] iterators[i]).obeys_prophetic_iter_laws()
                    && iterators[i].decrease() is Some) ==> merger.finite(),
    {
        let ghost given = iterators@;
        let mut heap: Vec<HeapEntry<T, I>> = Vec::with_capacity(iterators.len());
        let mut index: usize = 0;
        proof {
            lemma_nothing_held(heap@);
        }
        for iterator in it: iterators
            invariant
                total_order::<T>(),
                given.len() <= usize::MAX,
                it.seq() == given,
                index == it.index(),
                heap_ordered(heap@),
                distinct(heap@.to_multiset()),
                forall|e: HeapEntry<T, I>| #[trigger]
                    heap@.to_multiset().count(e) > 0 ==> e.index < index,
                forall|i: int|
                    0 <= i < index && (#[trigger] given[i]).obeys_prophetic_iter_laws() ==> pulled(
                        given[i].remaining(),
                        slot_of(heap@.to_multiset(), i),
                        slot_of(heap@.to_multiset(), i)->0.rest.remaining(),
                    ),
                forall|i: int|
                    0 <= i < index ==> (#[trigger] slot_of(heap@.to_multiset(), i) matches Some(s)
                        ==> s.rest.obeys_prophetic_iter_laws()
                        == given[i].obeys_prophetic_iter_laws() && (given[i].decrease() is Some
                        && given[i].obeys_prophetic_iter_laws() ==> s.rest.decrease() is Some)),
        {
            let mut iterator = iterator;
            let ghost before_pull = heap@.to_multiset();
            if let Some(element) = iterator.next() {
                let entry = HeapEntry { element, iterator, index };
                push(&mut heap, entry);
                proof {
                    lemma_slot_of_held(heap@.to_multiset(), entry);
                    assert forall|i: int| 0 <= i < index implies slot_of(heap@.to_multiset(), i)
                        == slot_of(before_pull, i) by {
                        lemma_slot_of_kept(before_pull, entry, i);
                    }
                }
            }
            index += 1;
        }
        CollatingIterator { heap, sources: Ghost(given.len()) }
    }

    /// Every source that has not run dry gives only finitely many more
    /// elements, and says how many at most.
    pub open spec fn finite(&self) -> bool {
        forall|i: int|
            0 <= i < self@.len() ==> (#[trigger] self@[i] matches Some(s)
                ==> s.rest.obeys_prophetic_iter_laws() && s.rest.decrease() is Some)
    }

    /// A bound on the number of elements that a finite merger can still give.
    pub open spec fn fuel(&self) -> nat {
        budget(self@)
    }

    /// Gives the least of the buffered heads, the earlier source winning a
    /// tie, and refills the slot it came from with the next element of that
    /// source; where the source has none, the slot is dropped. No other
    /// source is touched. Gives `None`, and changes nothing, once every source
    /// has run dry.
    pub fn next(&mut self) -> (item: Option<T>)
        requires
            old(self).wf(),
            total_order::<T>(),
        ensures
            final(self).wf(),
            final(self)@.len() == old(self)@.len(),
            exhausted(old(self).heads()) ==> item is None && final(self)@ == old(self)@,
            !exhausted(old(self).heads()) ==> ({
                let w = least(old(self).heads());
                let source = old(self)@[w]->0.rest;
                &&& is_least(old(self).heads(), w)
                &&& item == old(self).heads()[w]
                &&& forall|i: int|
                    0 <= i < old(self)@.len() && i != w ==> #[trigger] final(self)@[i] == old(
                        self,
                    )@[i]
                &&& source.obeys_prophetic_iter_laws() ==> pulled(
                    source.remaining(),
                    final(self)@[w],
                    final(self)@[w]->0.rest.remaining(),
                )
                &&& final(self)@[w] matches Some(s) ==> s.rest.obeys_prophetic_iter_laws()
                    == source.obeys_prophetic_iter_laws()
            }),
            old(self).finite() ==> final(self).finite() && (item is Some ==> final(self).fuel()
                < old(self).fuel()),
    {
        let ghost held = self.heap@;
        let ghost slots = self@;
        match pop(&mut self.heap) {
            Some(mut entry) => {
                let ghost top = entry;
                let ghost w = top.index as int;
                proof {
                    // The slot at the root is that of source `w`, and it is
                    // emitted before the slot of any other source.
                    assert(held.contains(top));
                    to_multiset_contains(held, top);
                    assert forall|j: int|
                        0 <= j < old(self).heads().len() && j != w && old(
                            self,
                        ).heads()[j] is Some implies precedes(
                        old(self).heads()[w]->0,
                        w,
                        #[trigger] old(self).heads()[j]->0,
                        j,
                    ) by {
                        let e = choose|e: HeapEntry<T, I>| #[trigger]
                            held.to_multiset().count(e) > 0 && e.index == j;
                        to_multiset_contains(held, e);
                    }
                    lemma_least_unique(old(self).heads(), w);
                    // Without it the heap holds the slots of the other
                    // sources and none for `w`.
                    assert forall|i: int| 0 <= i < slots.len() implies slot_of(
                        self.heap@.to_multiset(),
                        i,
                    ) == (if i == w {
                        None
                    } else {
                        slots[i]
                    }) by {
                        lemma_slot_of_removed(held.to_multiset(), top, i);
                    }
                }
                let ghost popped = self.heap@.to_multiset();
                let result = entry.element;
                if let Some(next_element) = entry.iterator.next() {
                    entry.element = next_element;
                    push(&mut self.heap, entry);
                    proof {
                        // With the refilled slot it holds one for `w` again.
                        assert forall|x: HeapEntry<T, I>| #[trigger]
                            popped.count(x) > 0 implies x.index != entry.index by {}
                        lemma_slot_of_held(self.heap@.to_multiset(), entry);
                        assert forall|i: int| 0 <= i < slots.len() && i != w implies self@[i]
                            == slots[i] by {
                            lemma_slot_of_kept(popped, entry, i);
                        }
                    }
                }
                proof {
                    assert(self@ =~= slots.update(w, self@[w]));
                    lemma_budget_update(slots, w, self@[w]);
                    assert(budget(seq![self@[w]].drop_last()) == 0);
                }
                Some(result)
            },
            None => {
                proof {
                    lemma_nothing_held(held);
                    assert forall|i: int| 0 <= i < slots.len() implies slots[i] is None by {}
                }
                None
            },
        }
    }

    /// Pulls until every source has run dry and gives what was pulled, in
    /// the order in which it came: the merge of what the sources had still
    /// to give, buffered heads included.
    pub fn collect(self) -> (output: Vec<T>)
        requires
            self.wf(),
            self.finite(),
            total_order::<T>(),
        ensures
            output@ == merged(
                Seq::new(self@.len(), |i: int| pending(self@[i], self@[i]->0.rest.remaining())),
            ),
    {
        let mut merger = self;
        let mut output: Vec<T> = Vec::new();
        loop
            invariant
                total_order::<T>(),
                merger.wf(),
                merger.finite(),
                merger@.len() == self@.len(),
                output@ + merged(
                    Seq::new(
                        merger@.len(),
                        |i: int| pending(merger@[i], merger@[i]->0.rest.remaining()),
                    ),
                ) == merged(
                    Seq::new(self@.len(), |i: int| pending(self@[i], self@[i]->0.rest.remaining())),
                ),
            ensures
                output@ == merged(
                    Seq::new(self@.len(), |i: int| pending(self@[i], self@[i]->0.rest.remaining())),
                ),
            decreases merger.fuel(),
        {
            let ghost prev = merger;
            let ghost was = Seq::new(
                prev@.len(),
                |i: int| pending(prev@[i], prev@[i]->0.rest.remaining()),
            );
            proof {
                assert(heads(was) =~= prev.heads());
            }
            match merger.next() {
                Some(item) => {
                    output.push(item);
                    proof {
                        let w = least(prev.heads());
                        let now = Seq::new(
                            merger@.len(),
                            |i: int| pending(merger@[i], merger@[i]->0.rest.remaining()),
                        );
                        assert(now[w] =~= was[w].drop_first());
                        assert(advance(was, w) =~= now);
                    }
                },
                None => {
                    break ;
                },
            }
        }
        output
    }
}

/// Every slot in `m` belongs to a source of its own.
spec fn distinct<T, I>(m: Multiset<HeapEntry<T, I>>) -> bool where T: Ord, I: Iterator<Item = T> {
    forall|a: HeapEntry<T, I>, b: HeapEntry<T, I>|
        #[trigger] m.count(a) > 0 && #[trigger] m.count(b) > 0 && a.index == b.index ==> a == b
            && m.count(a) == 1
}

/// `m` holds a slot for source `i`.
spec fn holds<T, I>(m: Multiset<HeapEntry<T, I>>, i: int) -> bool where
    T: Ord,
    I: Iterator<Item = T>,
{
    exists|e: HeapEntry<T, I>| #[trigger] m.count(e) > 0 && e.index == i
}

/// The slot that `m` holds for source `i`.
spec fn slot_of<T, I>(m: Multiset<HeapEntry<T, I>>, i: int) -> Option<Slot<T, I>> where
    T: Ord,
    I: Iterator<Item = T>,
{
    if holds(m, i) {
        let e = choose|e: HeapEntry<T, I>| #[trigger] m.count(e) > 0 && e.index == i;
        Some(Slot { head: e.element, rest: e.iterator })
    } else {
        None
    }
}

/// An empty heap holds no slot.
proof fn lemma_nothing_held<T, I>(s: Seq<HeapEntry<T, I>>) where T: Ord, I: Iterator<Item = T>
    requires
        s.len() == 0,
    ensures
        forall|e: HeapEntry<T, I>| s.to_multiset().count(e) == 0,
{
    assert forall|e: HeapEntry<T, I>| s.to_multiset().count(e) == 0 by {
        to_multiset_contains(s, e);
    }
}

/// A slot that is held is the slot of its source.
proof fn lemma_slot_of_held<T, I>(m: Multiset<HeapEntry<T, I>>, e: HeapEntry<T, I>) where
    T: Ord,
    I: Iterator<Item = T>,

    requires
        distinct(m),
        m.count(e) > 0,
    ensures
        slot_of(m, e.index as int) == Some(Slot { head: e.element, rest: e.iterator }),
{
}

/// Adding a slot for a source that has none leaves the other sources' slots
/// as they are.
proof fn lemma_slot_of_kept<T, I>(m: Multiset<HeapEntry<T, I>>, e: HeapEntry<T, I>, i: int) where
    T: Ord,
    I: Iterator<Item = T>,

    requires
        distinct(m),
        forall|x: HeapEntry<T, I>| #[trigger] m.count(x) > 0 ==> x.index != e.index,
    ensures
        distinct(m.insert(e)),
        i != e.index ==> slot_of(m.insert(e), i) == slot_of(m, i),
{
    if i != e.index && holds(m, i) {
        let x = choose|x: HeapEntry<T, I>| #[trigger] m.count(x) > 0 && x.index == i;
        assert(m.insert(e).count(x) > 0);
    }
}

/// Taking a slot out leaves its source without one, and the other sources'
/// slots as they are.
proof fn lemma_slot_of_removed<T, I>(m: Multiset<HeapEntry<T, I>>, e: HeapEntry<T, I>, i: int) where
    T: Ord,
    I: Iterator<Item = T>,

    requires
        distinct(m),
        m.count(e) > 0,
    ensures
        distinct(m.remove(e)),
        !holds(m.remove(e), e.index as int),
        i != e.index ==> slot_of(m.remove(e), i) == slot_of(m, i),
{
    let n = m.remove(e);
    assert forall|x: HeapEntry<T, I>| #[trigger] n.count(x) > 0 implies m.count(x) > 0 && x.index
        != e.index by {}
    if i != e.index && holds(m, i) {
        let x = choose|x: HeapEntry<T, I>| #[trigger] m.count(x) > 0 && x.index == i;
        assert(n.count(x) > 0);
    }
}

/// Replacing one slot changes the budget by the difference of the two.
proof fn lemma_budget_update<T, I: Iterator<Item = T>>(
    slots: Seq<Option<Slot<T, I>>>,
    w: int,
    slot: Option<Slot<T, I>>,
)
    requires
        0 <= w < slots.len(),
    ensures
        budget(slots.update(w, slot)) + budget(seq![slots[w]]) == budget(slots) + budget(
            seq![slot],
        ),
    decreases slots.len(),
{
    let upd = slots.update(w, slot);
    assert(budget(seq![slot].drop_last()) == 0);
    assert(budget(seq![slots[w]].drop_last()) == 0);
    if w == slots.len() - 1 {
        assert(upd.drop_last() =~= slots.drop_last());
    } else {
        lemma_budget_update(slots.drop_last(), w, slot);
        assert(upd.drop_last() =~= slots.drop_last().update(w, slot));
    }
}

} // verus!
