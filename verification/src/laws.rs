//! What holds of every merge: nothing is lost or made up, sorted sources give
//! a sorted output, and among equal elements the earlier source goes first.

use vstd::multiset::Multiset;
use vstd::prelude::*;
use vstd::seq_lib::{to_multiset_insert, to_multiset_remove};
use crate::merge::{
    advance, exhausted, heads, is_least, least, lemma_total_len_update, merged, non_decreasing,
    occurrences, total_len, trace, union_of,
};
use crate::order::{
    equivalent, le, lemma_le_total, lemma_precedes_transitive, precedes, total_order,
};

verus! {

/// Among the first `n` sources, some source that has a head holds the least.
proof fn lemma_least_among<T: Ord>(heads: Seq<Option<T>>, n: int) -> (w: int)
    requires
        total_order::<T>(),
        0 <= n <= heads.len(),
        exists|i: int| 0 <= i < n && heads[i] is Some,
    ensures
        0 <= w < n,
        heads[w] is Some,
        forall|j: int|
            0 <= j < n && j != w && heads[j] is Some ==> precedes(
                heads[w]->0,
                w,
                #[trigger] heads[j]->0,
                j,
            ),
    decreases n,
{
    let last = n - 1;
    if exists|i: int| 0 <= i < last && heads[i] is Some {
        let v = lemma_least_among(heads, last);
        if heads[last] is Some {
            if precedes(heads[last]->0, last, heads[v]->0, v) {
                assert forall|j: int| 0 <= j < n && j != last && heads[j] is Some implies precedes(
                    heads[last]->0,
                    last,
                    #[trigger] heads[j]->0,
                    j,
                ) by {
                    if j != v {
                        lemma_precedes_transitive(
                            heads[last]->0,
                            last,
                            heads[v]->0,
                            v,
                            heads[j]->0,
                            j,
                        );
                    }
                }
                last
            } else {
                v
            }
        } else {
            v
        }
    } else {
        last
    }
}

/// While some source has a head, one source holds the least of the heads.
pub proof fn lemma_least_exists<T: Ord>(heads: Seq<Option<T>>)
    requires
        total_order::<T>(),
        !exhausted(heads),
    ensures
        is_least(heads, least(heads)),
{
    let w = lemma_least_among(heads, heads.len() as int);
    assert(is_least(heads, w));
}

/// At most one source holds the head that is emitted next.
pub proof fn lemma_least_unique<T: Ord>(heads: Seq<Option<T>>, w: int)
    requires
        total_order::<T>(),
        is_least(heads, w),
    ensures
        least(heads) == w,
{
}

/// One step of the merge: where source `w` holds the least head, the output
/// is that head, followed by the merge of what is left.
pub proof fn lemma_merged_step<T: Ord>(srcs: Seq<Seq<T>>, w: int)
    requires
        total_order::<T>(),
        is_least(heads(srcs), w),
    ensures
        merged(srcs) == seq![srcs[w][0]] + merged(advance(srcs, w)),
        trace(srcs) == seq![w] + trace(advance(srcs, w)),
{
}

/// Sources that are all empty hold nothing.
proof fn lemma_nothing_left<T>(srcs: Seq<Seq<T>>)
    requires
        exhausted(heads(srcs)),
    ensures
        total_len(srcs) == 0,
        union_of(srcs) == Multiset::<T>::empty(),
    decreases srcs.len(),
{
    if srcs.len() > 0 {
        let front = srcs.drop_last();
        assert forall|i: int| 0 <= i < heads(front).len() implies heads(front)[i] is None by {
            assert(heads(srcs)[i] is None);
        }
        lemma_nothing_left(front);
        assert(heads(srcs)[srcs.len() - 1] is None);
        assert(srcs.last().to_multiset() =~= Multiset::<T>::empty()) by {
            srcs.last().to_multiset_ensures();
        }
    }
}

/// Replacing one source changes the union by the difference of the two.
proof fn lemma_union_of_update<T>(srcs: Seq<Seq<T>>, w: int, s: Seq<T>)
    requires
        0 <= w < srcs.len(),
    ensures
        union_of(srcs.update(w, s)).add(srcs[w].to_multiset()) == union_of(srcs).add(
            s.to_multiset(),
        ),
    decreases srcs.len(),
{
    let upd = srcs.update(w, s);
    let front = srcs.drop_last();
    if w == srcs.len() - 1 {
        assert(upd.drop_last() =~= front);
    } else {
        lemma_union_of_update(front, w, s);
        assert(upd.drop_last() =~= front.update(w, s));
        assert forall|v: T|
            union_of(upd).add(srcs[w].to_multiset()).count(v) == union_of(srcs).add(
                s.to_multiset(),
            ).count(v) by {
            assert(union_of(front.update(w, s)).add(front[w].to_multiset()).count(v) == union_of(
                front,
            ).add(s.to_multiset()).count(v));
        }
    }
}

/// A merge with nothing to merge is empty: no sources at all, or sources
/// that are all empty, give an empty output.
pub proof fn lemma_merged_of_nothing<T: Ord>(srcs: Seq<Seq<T>>)
    requires
        exhausted(heads(srcs)),
    ensures
        merged(srcs) == Seq::<T>::empty(),
        trace(srcs) == Seq::<int>::empty(),
{
}

/// The output is as long as the sources taken together, and its elements
/// are, with multiplicity, those of the sources.
pub proof fn lemma_merged_keeps_elements<T: Ord>(srcs: Seq<Seq<T>>)
    requires
        total_order::<T>(),
    ensures
        merged(srcs).len() == total_len(srcs),
        trace(srcs).len() == total_len(srcs),
        merged(srcs).to_multiset() == union_of(srcs),
    decreases total_len(srcs),
{
    if exhausted(heads(srcs)) {
        lemma_nothing_left(srcs);
        assert(merged(srcs).to_multiset() =~= Multiset::<T>::empty()) by {
            merged(srcs).to_multiset_ensures();
        }
    } else {
        lemma_least_exists(heads(srcs));
        let w = least(heads(srcs));
        let first = srcs[w][0];
        let rest = advance(srcs, w);
        lemma_total_len_update(srcs, w, srcs[w].drop_first());
        lemma_union_of_update(srcs, w, srcs[w].drop_first());
        lemma_merged_keeps_elements(rest);
        assert(merged(srcs) =~= merged(rest).insert(0, first));
        to_multiset_insert(merged(rest), 0, first);
        to_multiset_remove(srcs[w], 0);
        srcs[w].to_multiset_ensures();
        assert forall|v: T| merged(srcs).to_multiset().count(v) == union_of(srcs).count(v) by {
            assert(union_of(rest).add(srcs[w].to_multiset()).count(v) == union_of(srcs).add(
                srcs[w].drop_first().to_multiset(),
            ).count(v));
        }
    }
}

/// In a non-decreasing sequence every element is at most every later one.
pub proof fn lemma_non_decreasing_pairs<T: Ord>(s: Seq<T>, i: int, j: int)
    requires
        total_order::<T>(),
        non_decreasing(s),
        0 <= i <= j < s.len(),
    ensures
        le(s[i], s[j]),
    decreases j - i,
{
    if i == j {
        lemma_le_total(s[i], s[i]);
    } else {
        lemma_non_decreasing_pairs(s, i, j - 1);
    }
}

/// Sources that are each non-decreasing give a non-decreasing output.
pub proof fn lemma_merged_sorted<T: Ord>(srcs: Seq<Seq<T>>)
    requires
        total_order::<T>(),
        forall|i: int| 0 <= i < srcs.len() ==> non_decreasing(#[trigger] srcs[i]),
    ensures
        non_decreasing(merged(srcs)),
    decreases total_len(srcs),
{
    let w = least(heads(srcs));
    if is_least(heads(srcs), w) {
        let first = srcs[w][0];
        let rest = advance(srcs, w);
        lemma_total_len_update(srcs, w, srcs[w].drop_first());
        lemma_merged_sorted(rest);
        // The head that was taken is at most the one that is taken next:
        // that one is either the second element of the same source, or it
        // was the head of another source already.
        if merged(rest).len() > 0 {
            let v = least(heads(rest));
            if v != w {
                assert(heads(srcs)[v] == Some(rest[v][0]));
            }
        }
        assert forall|i: int| 0 <= i < merged(srcs).len() - 1 implies le(
            #[trigger] merged(srcs)[i],
            merged(srcs)[i + 1],
        ) by {
            if i > 0 {
                assert(merged(srcs)[i] == merged(rest)[i - 1]);
            }
        }
    }
}

proof fn lemma_occurrences_shift(t: Seq<int>, w: int, v: int, n: int)
    requires
        0 <= n <= t.len(),
    ensures
        occurrences(seq![w] + t, v, n + 1) == occurrences(t, v, n) + if w == v {
            1nat
        } else {
            0nat
        },
    decreases n,
{
    let longer = seq![w] + t;
    if n == 0 {
        assert(occurrences(longer, v, 0) == 0);
    } else {
        lemma_occurrences_shift(t, w, v, n - 1);
    }
}

/// `trace` names the source of each element of the output, and every source
/// gives its elements in its own order: the element at place `q` of the
/// output is the element of source `trace(srcs)[q]` whose place in that
/// source is the number of earlier elements of the output that the same
/// source gave.
pub proof fn lemma_trace_origin<T: Ord>(srcs: Seq<Seq<T>>, q: int)
    requires
        total_order::<T>(),
        0 <= q < merged(srcs).len(),
    ensures
        trace(srcs).len() == merged(srcs).len(),
        0 <= trace(srcs)[q] < srcs.len(),
        occurrences(trace(srcs), trace(srcs)[q], q) < srcs[trace(srcs)[q]].len(),
        merged(srcs)[q] == srcs[trace(srcs)[q]][occurrences(trace(srcs), trace(srcs)[q], q) as int],
    decreases total_len(srcs),
{
    lemma_merged_keeps_elements(srcs);
    let w = least(heads(srcs));
    let rest = advance(srcs, w);
    if q > 0 {
        lemma_merged_keeps_elements(rest);
        lemma_trace_origin(rest, q - 1);
        lemma_occurrences_shift(trace(rest), w, trace(rest)[q - 1], q - 1);
    }
}

/// The merge is stable: of two elements of the output that compare as equal,
/// the later one does not come from an earlier source than the first. So
/// where equal elements come from different sources, the source that was
/// listed first gives its element first.
pub proof fn lemma_merged_stable<T: Ord>(srcs: Seq<Seq<T>>, p: int, q: int)
    requires
        total_order::<T>(),
        forall|i: int| 0 <= i < srcs.len() ==> non_decreasing(#[trigger] srcs[i]),
        0 <= p < q < merged(srcs).len(),
        equivalent(merged(srcs)[p], merged(srcs)[q]),
    ensures
        trace(srcs)[p] <= trace(srcs)[q],
    decreases total_len(srcs),
{
    let w = least(heads(srcs));
    let rest = advance(srcs, w);
    lemma_total_len_update(srcs, w, srcs[w].drop_first());
    lemma_merged_keeps_elements(rest);
    if p == 0 {
        // Were the later element from an earlier source, the head of that
        // source would be at most that element, so at most the first; the
        // tie would then have gone to that source.
        let first = srcs[w][0];
        let later = merged(srcs)[q];
        let from = trace(srcs)[q];
        lemma_trace_origin(srcs, q);
        if from < w {
            lemma_non_decreasing_pairs(
                srcs[from],
                0,
                occurrences(trace(srcs), from, q) as int,
            );
            assert(heads(srcs)[from] == Some(srcs[from][0]));
            lemma_le_total(later, first);
        }
    } else {
        lemma_merged_stable(rest, p - 1, q - 1);
    }
}

} // verus!
