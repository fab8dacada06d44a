//! The merger's priority queue: a binary heap of slots, kept in a `Vec`.
//!
//! A slot buffers the head of one source next to the source itself and its
//! position in the input. The heap is ordered by `before`: the slot at the
//! root is the one whose head is emitted next. The order of the other slots
//! in the `Vec` is the heap's own business; what it holds is spoken of as a
//! multiset.

use std::cmp::Ordering;
use vstd::prelude::*;
use vstd::std_specs::cmp::OrdSpec;
use vstd::seq_lib::to_multiset_update;
use crate::order::{
    lemma_le_total, lemma_not_precedes_transitive, lemma_precedes_transitive, precedes,
    total_order,
};

verus! {

/// The buffered head of one source, the source, and the place the source had
/// in the input.
#[verifier::reject_recursive_types(T)]
pub struct HeapEntry<T, I> where T: Ord, I: Iterator<Item = T> {
    pub element: T,
    pub iterator: I,
    pub index: usize,
}

/// `a` is emitted before `b`.
pub open spec fn before<T, I>(a: HeapEntry<T, I>, b: HeapEntry<T, I>) -> bool where
    T: Ord,
    I: Iterator<Item = T>,
{
    precedes(a.element, a.index as int, b.element, b.index as int)
}

impl<T, I> HeapEntry<T, I> where T: Ord, I: Iterator<Item = T> {
    /// Compares two slots by priority. The greater slot is the one that is
    /// emitted first: the one with the smaller element, and among equal
    /// elements the one with the smaller index.
    pub fn cmp(&self, other: &Self) -> (o: Ordering)
        requires
            T::obeys_cmp_spec(),
        ensures
            o == (match other.element.cmp_spec(&self.element) {
                Ordering::Equal => other.index.cmp_spec(&self.index),
                unequal => unequal,
            }),
    {
        match other.element.cmp(&self.element) {
            Ordering::Equal => other.index.cmp(&self.index),
            unequal => unequal,
        }
    }

    /// Whether this slot is emitted before `other`.
    pub fn outranks(&self, other: &Self) -> (r: bool)
        requires
            total_order::<T>(),
        ensures
            r == before(*self, *other),
    {
        let r = match self.cmp(other) {
            Ordering::Greater => true,
            _ => false,
        };
        proof {
            lemma_le_total(other.element, self.element);
        }
        r
    }
}

/// The position of the parent of position `i` in the heap.
pub open spec fn parent(i: int) -> int {
    (i - 1) / 2
}

/// The slot at `i` is not emitted before its parent.
pub open spec fn ordered_at<T, I>(s: Seq<HeapEntry<T, I>>, i: int) -> bool where
    T: Ord,
    I: Iterator<Item = T>,
{
    i > 0 ==> !before(s[i], s[parent(i)])
}

/// The heap property: no slot is emitted before its parent.
pub open spec fn heap_ordered<T, I>(s: Seq<HeapEntry<T, I>>) -> bool where
    T: Ord,
    I: Iterator<Item = T>,
{
    forall|i: int| 0 <= i < s.len() ==> #[trigger] ordered_at(s, i)
}

proof fn lemma_not_before_transitive<T, I>(
    a: HeapEntry<T, I>,
    b: HeapEntry<T, I>,
    c: HeapEntry<T, I>,
) where T: Ord, I: Iterator<Item = T>
    requires
        total_order::<T>(),
        !before(b, a),
        !before(c, b),
    ensures
        !before(c, a),
{
    lemma_not_precedes_transitive(
        a.element,
        a.index as int,
        b.element,
        b.index as int,
        c.element,
        c.index as int,
    );
}

/// In an ordered heap no slot is emitted before the root.
pub proof fn lemma_root_first<T, I>(s: Seq<HeapEntry<T, I>>, i: int) where
    T: Ord,
    I: Iterator<Item = T>,

    requires
        total_order::<T>(),
        heap_ordered(s),
        0 <= i < s.len(),
    ensures
        !before(s[i], s[0]),
    decreases i,
{
    if i > 0 {
        assert(ordered_at(s, i));
        lemma_root_first(s, parent(i));
        lemma_not_before_transitive(s[0], s[parent(i)], s[i]);
    }
}

/// Exchanges the slots at `i` and `j`.
pub fn swap_entries<T, I>(heap: &mut Vec<HeapEntry<T, I>>, i: usize, j: usize) where
    T: Ord,
    I: Iterator<Item = T>,

    requires
        i < j < old(heap).len(),
    ensures
        final(heap)@ == old(heap)@.update(i as int, old(heap)@[j as int]).update(
            j as int,
            old(heap)@[i as int],
        ),
        final(heap)@.to_multiset() == old(heap)@.to_multiset(),
{
    let ghost before_swap = heap@;
    let (low, high) = heap.as_mut_slice().split_at_mut(j);
    core::mem::swap(&mut low[i], &mut high[0]);
    proof {
        let mid = before_swap.update(i as int, before_swap[j as int]);
        to_multiset_update(before_swap, i as int, before_swap[j as int]);
        to_multiset_update(mid, j as int, before_swap[i as int]);
        before_swap.to_multiset_ensures();
        assert(heap@ == mid.update(j as int, before_swap[i as int]));
    }
}

/// Moves the last slot up until its parent is not emitted after it.
pub fn sift_up<T, I>(heap: &mut Vec<HeapEntry<T, I>>) where T: Ord, I: Iterator<Item = T>
    requires
        total_order::<T>(),
        old(heap).len() > 0,
        heap_ordered(old(heap)@.drop_last()),
    ensures
        heap_ordered(final(heap)@),
        final(heap)@.to_multiset() == old(heap)@.to_multiset(),
{
    let mut pos: usize = heap.len() - 1;
    // Everywhere but at `pos` the slots are ordered; the slots below `pos`
    // are in order with the slot above it, so that `pos` can go up.
    proof {
        assert forall|i: int| 0 <= i < heap@.len() && i != pos implies #[trigger] ordered_at(
            heap@,
            i,
        ) by {
            assert(ordered_at(heap@.drop_last(), i));
        }
    }
    while pos > 0 && heap[pos].outranks(&heap[(pos - 1) / 2])
        invariant
            total_order::<T>(),
            pos < heap.len(),
            heap@.to_multiset() == old(heap)@.to_multiset(),
            forall|i: int| 0 <= i < heap@.len() && i != pos ==> #[trigger] ordered_at(heap@, i),
            forall|c: int|
                0 <= c < heap@.len() && parent(c) == pos && pos > 0 ==> !before(
                    #[trigger] heap@[c],
                    heap@[parent(pos as int)],
                ),
        decreases pos,
    {
        let up: usize = (pos - 1) / 2;
        let ghost h = heap@;
        swap_entries(heap, up, pos);
        proof {
            assert forall|i: int| 0 <= i < heap@.len() && i != up implies #[trigger] ordered_at(
                heap@,
                i,
            ) by {
                if i == pos || (i > 0 && parent(i) == pos) {
                    // the slot that went down, and its children: by the invariants
                } else if i > 0 && parent(i) == up {
                    // the sibling: it was not before the old parent, which
                    // was after the slot that went up
                    assert(ordered_at(h, i));
                    if before(h[i], h[pos as int]) {
                        lemma_precedes_transitive(
                            h[i].element,
                            h[i].index as int,
                            h[pos as int].element,
                            h[pos as int].index as int,
                            h[up as int].element,
                            h[up as int].index as int,
                        );
                    }
                } else {
                    assert(ordered_at(h, i));
                }
            }
            assert forall|c: int|
                0 <= c < heap@.len() && parent(c) == up && up > 0 implies !before(
                #[trigger] heap@[c],
                heap@[parent(up as int)],
            ) by {
                assert(ordered_at(h, up as int));
                if c != pos {
                    assert(ordered_at(h, c));
                    lemma_not_before_transitive(h[parent(up as int)], h[up as int], h[c]);
                }
            }
        }
        pos = up;
    }
}

/// Moves the root down until neither of its children is emitted before it.
pub fn sift_down<T, I>(heap: &mut Vec<HeapEntry<T, I>>) where T: Ord, I: Iterator<Item = T>
    requires
        total_order::<T>(),
        forall|i: int|
            0 <= i < old(heap)@.len() && parent(i) != 0 ==> #[trigger] ordered_at(old(heap)@, i),
    ensures
        heap_ordered(final(heap)@),
        final(heap)@.to_multiset() == old(heap)@.to_multiset(),
{
    let len: usize = heap.len();
    let mut pos: usize = 0;
    // Everywhere but just below `pos` the slots are ordered; the slots below
    // `pos` are in order with the slot above it, so that one of them can go up.
    while pos < len / 2
        invariant
            total_order::<T>(),
            len == heap.len(),
            heap@.to_multiset() == old(heap)@.to_multiset(),
            forall|i: int|
                0 <= i < heap@.len() && parent(i) != pos ==> #[trigger] ordered_at(heap@, i),
            forall|c: int|
                0 <= c < heap@.len() && parent(c) == pos && pos > 0 ==> !before(
                    #[trigger] heap@[c],
                    heap@[parent(pos as int)],
                ),
        ensures
            heap_ordered(heap@),
            heap@.to_multiset() == old(heap)@.to_multiset(),
        decreases len - pos,
    {
        let left: usize = 2 * pos + 1;
        let right: usize = left + 1;
        let child: usize = if right < len && heap[right].outranks(&heap[left]) {
            right
        } else {
            left
        };
        let ghost h = heap@;
        let ghost other: int = if child == left { right as int } else { left as int };
        if heap[child].outranks(&heap[pos]) {
            swap_entries(heap, pos, child);
            proof {
                assert forall|i: int|
                    0 <= i < heap@.len() && parent(i) != child implies #[trigger] ordered_at(
                    heap@,
                    i,
                ) by {
                    if i != child && i != other && i != pos {
                        assert(ordered_at(h, i));
                    }
                }
                assert forall|c: int|
                    0 <= c < heap@.len() && parent(c) == child && child > 0 implies !before(
                    #[trigger] heap@[c],
                    heap@[parent(child as int)],
                ) by {
                    assert(ordered_at(h, c));
                }
            }
            pos = child;
        } else {
            proof {
                assert forall|i: int| 0 <= i < heap@.len() implies #[trigger] ordered_at(
                    heap@,
                    i,
                ) by {
                    if i == other {
                        lemma_not_before_transitive(h[pos as int], h[child as int], h[other]);
                    }
                }
            }
            break ;
        }
    }
}

/// Adds a slot to the heap.
pub fn push<T, I>(heap: &mut Vec<HeapEntry<T, I>>, entry: HeapEntry<T, I>) where
    T: Ord,
    I: Iterator<Item = T>,

    requires
        total_order::<T>(),
        heap_ordered(old(heap)@),
    ensures
        heap_ordered(final(heap)@),
        final(heap)@.to_multiset() == old(heap)@.to_multiset().insert(entry),
{
    heap.push(entry);
    proof {
        assert(heap@.drop_last() == old(heap)@);
        old(heap)@.to_multiset_ensures();
    }
    sift_up(heap);
}

/// Takes the slot that is emitted next out of the heap, if there is one.
pub fn pop<T, I>(heap: &mut Vec<HeapEntry<T, I>>) -> (top: Option<HeapEntry<T, I>>) where
    T: Ord,
    I: Iterator<Item = T>,

    requires
        total_order::<T>(),
        heap_ordered(old(heap)@),
    ensures
        heap_ordered(final(heap)@),
        old(heap)@.len() == 0 ==> top is None && final(heap)@ == old(heap)@,
        old(heap)@.len() > 0 ==> top == Some(old(heap)@[0]) && final(heap)@.to_multiset() == old(
            heap,
        )@.to_multiset().remove(old(heap)@[0]),
        forall|i: int|
            0 <= i < old(heap)@.len() ==> !before(#[trigger] old(heap)@[i], old(heap)@[0]),
{
    if heap.len() == 0 {
        return None;
    }
    let ghost h = heap@;
    let top = heap.swap_remove(0);
    proof {
        let moved = h.update(0, h.last());
        to_multiset_update(h, 0, h.last());
        moved.to_multiset_ensures();
        assert(heap@ == moved.remove(moved.len() - 1));
        assert forall|i: int| 0 <= i < heap@.len() && parent(i) != 0 implies #[trigger] ordered_at(
            heap@,
            i,
        ) by {
            assert(ordered_at(h, i));
        }
        assert forall|i: int| 0 <= i < h.len() implies !before(#[trigger] h[i], h[0]) by {
            lemma_root_first(h, i);
        }
    }
    sift_down(heap);
    Some(top)
}

} // verus!
