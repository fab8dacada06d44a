//! What merging means, stated on plain sequences.
//!
//! A collection of sources is a `Seq<Seq<T>>`: entry `i` holds what source
//! `i` has still to give, in the order in which it gives it. The merge takes,
//! again and again, the least head among the sources, the earlier source
//! winning a tie.

use vstd::multiset::Multiset;
use vstd::prelude::*;
use crate::order::{le, precedes};

verus! {

/// The element each source would give next, `None` for a source that has run dry.
pub open spec fn heads<T>(srcs: Seq<Seq<T>>) -> Seq<Option<T>> {
    Seq::new(srcs.len(), |i: int| if srcs[i].len() > 0 { Some(srcs[i][0]) } else { None })
}

/// No source has anything left.
pub open spec fn exhausted<T>(heads: Seq<Option<T>>) -> bool {
    forall|i: int| 0 <= i < heads.len() ==> heads[i] is None
}

/// Source `w` holds the head that is emitted next: it has a head, and that
/// head precedes the head of every other source that has one.
pub open spec fn is_least<T: Ord>(heads: Seq<Option<T>>, w: int) -> bool {
    &&& 0 <= w < heads.len()
    &&& heads[w] is Some
    &&& forall|j: int|
        0 <= j < heads.len() && j != w && heads[j] is Some ==> precedes(
            heads[w]->0,
            w,
            #[trigger] heads[j]->0,
            j,
        )
}

/// The source whose head is emitted next, where there is one.
pub open spec fn least<T: Ord>(heads: Seq<Option<T>>) -> int {
    choose|w: int| is_least(heads, w)
}

/// The sum of the lengths of the sources.
pub open spec fn total_len<T>(srcs: Seq<Seq<T>>) -> nat
    decreases srcs.len(),
{
    if srcs.len() == 0 {
        0
    } else {
        total_len(srcs.drop_last()) + srcs.last().len()
    }
}

/// The union, with multiplicity, of what the sources hold.
pub open spec fn union_of<T>(srcs: Seq<Seq<T>>) -> Multiset<T>
    decreases srcs.len(),
{
    if srcs.len() == 0 {
        Multiset::empty()
    } else {
        union_of(srcs.drop_last()).add(srcs.last().to_multiset())
    }
}

/// The sources after source `w` has given its head.
pub open spec fn advance<T>(srcs: Seq<Seq<T>>, w: int) -> Seq<Seq<T>> {
    srcs.update(w, srcs[w].drop_first())
}

/// The merged output: the least head, then the merge of what is left.
pub open spec fn merged<T: Ord>(srcs: Seq<Seq<T>>) -> Seq<T>
    decreases total_len(srcs),
    via merged_decreases::<T>
{
    let w = least(heads(srcs));
    if is_least(heads(srcs), w) {
        seq![srcs[w][0]] + merged(advance(srcs, w))
    } else {
        Seq::empty()
    }
}

/// The source that each element of the merged output is taken from.
pub open spec fn trace<T: Ord>(srcs: Seq<Seq<T>>) -> Seq<int>
    decreases total_len(srcs),
    via trace_decreases::<T>
{
    let w = least(heads(srcs));
    if is_least(heads(srcs), w) {
        seq![w] + trace(advance(srcs, w))
    } else {
        Seq::empty()
    }
}

#[via_fn]
proof fn merged_decreases<T: Ord>(srcs: Seq<Seq<T>>) {
    let w = least(heads(srcs));
    if is_least(heads(srcs), w) {
        lemma_total_len_update(srcs, w, srcs[w].drop_first());
    }
}

#[via_fn]
proof fn trace_decreases<T: Ord>(srcs: Seq<Seq<T>>) {
    let w = least(heads(srcs));
    if is_least(heads(srcs), w) {
        lemma_total_len_update(srcs, w, srcs[w].drop_first());
    }
}

/// Replacing one source changes the total length by the difference of the two.
pub proof fn lemma_total_len_update<T>(srcs: Seq<Seq<T>>, w: int, s: Seq<T>)
    requires
        0 <= w < srcs.len(),
    ensures
        total_len(srcs.update(w, s)) == total_len(srcs) - srcs[w].len() + s.len(),
    decreases srcs.len(),
{
    let upd = srcs.update(w, s);
    if w == srcs.len() - 1 {
        assert(upd.drop_last() =~= srcs.drop_last());
    } else {
        lemma_total_len_update(srcs.drop_last(), w, s);
        assert(upd.drop_last() =~= srcs.drop_last().update(w, s));
    }
}

/// Each element of `s` is at most the one that follows it.
pub open spec fn non_decreasing<T: Ord>(s: Seq<T>) -> bool {
    forall|i: int| 0 <= i < s.len() - 1 ==> le(#[trigger] s[i], s[i + 1])
}

/// How often `v` occurs among the first `n` entries of `t`.
pub open spec fn occurrences(t: Seq<int>, v: int, n: int) -> nat
    decreases n,
{
    if n <= 0 {
        0
    } else {
        occurrences(t, v, n - 1) + if t[n - 1] == v {
            1nat
        } else {
            0nat
        }
    }
}

} // verus!
