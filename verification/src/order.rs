//! The order on elements that `Ord` induces, as the merger sees it.
//!
//! Everything else in the crate speaks of elements through `le`, `lt`,
//! `equivalent` and `precedes`; the comparison laws are gathered in
//! `total_order`.

use std::cmp::Ordering;
use vstd::prelude::*;
use vstd::std_specs::cmp::OrdSpec;

verus! {

/// `a` sorts strictly before `b`.
pub open spec fn lt<T: Ord>(a: T, b: T) -> bool {
    a.cmp_spec(&b) == Ordering::Less
}

/// `a` and `b` compare as equal (they need not be the same value).
pub open spec fn equivalent<T: Ord>(a: T, b: T) -> bool {
    a.cmp_spec(&b) == Ordering::Equal
}

/// `a` sorts before `b` or ties with it.
pub open spec fn le<T: Ord>(a: T, b: T) -> bool {
    a.cmp_spec(&b) != Ordering::Greater
}

/// The comparison of `T` is a total order up to `equivalent`, and the
/// executable `cmp` computes it.
pub open spec fn total_order<T: Ord>() -> bool {
    &&& T::obeys_cmp_spec()
    &&& forall|a: T, b: T| #[trigger] lt(a, b) <==> b.cmp_spec(&a) == Ordering::Greater
    &&& forall|a: T, b: T, c: T| #[trigger] le(a, b) && #[trigger] le(b, c) ==> le(a, c)
}

/// The merger's priority: `a` from source `i` is emitted before `b` from
/// source `j` when it is smaller, or ties and comes from the earlier source.
pub open spec fn precedes<T: Ord>(a: T, i: int, b: T, j: int) -> bool {
    lt(a, b) || (equivalent(a, b) && i < j)
}

/// A type whose `Ord` keeps the comparison laws of vstd is totally ordered in
/// the sense of this crate. (For the integer types `total_order` is proved
/// without this, from the definition of their `cmp_spec`.)
pub proof fn lemma_lawful_ord_is_total_order<T: Ord>()
    requires
        vstd::laws_cmp::obeys_cmp::<T>(),
    ensures
        total_order::<T>(),
{
    reveal(vstd::laws_cmp::obeys_cmp_ord);
    reveal(vstd::laws_cmp::obeys_cmp_partial_ord);
    reveal(vstd::laws_cmp::obeys_partial_cmp_spec_properties);
    reveal(vstd::laws_eq::obeys_eq_spec_properties);
}

/// Any two elements are comparable, and tie exactly when each is at most
/// the other.
pub proof fn lemma_le_total<T: Ord>(a: T, b: T)
    requires
        total_order::<T>(),
    ensures
        le(a, b) || le(b, a),
        le(a, b) <==> !lt(b, a),
        equivalent(a, b) <==> le(a, b) && le(b, a),
        equivalent(a, b) <==> equivalent(b, a),
{
    assert(lt(a, b) <==> b.cmp_spec(&a) == Ordering::Greater);
}

/// `le` is transitive.
pub proof fn lemma_le_transitive<T: Ord>(a: T, b: T, c: T)
    requires
        total_order::<T>(),
        le(a, b),
        le(b, c),
    ensures
        le(a, c),
{
}

/// `precedes` is transitive.
pub proof fn lemma_precedes_transitive<T: Ord>(a: T, i: int, b: T, j: int, c: T, k: int)
    requires
        total_order::<T>(),
        precedes(a, i, b, j),
        precedes(b, j, c, k),
    ensures
        precedes(a, i, c, k),
{
    lemma_le_transitive(a, b, c);
    if le(c, a) {
        lemma_le_transitive(c, a, b);
        lemma_le_transitive(b, c, a);
    }
}

/// Of two elements from different sources exactly one precedes the other, and
/// what precedes is at most what it precedes.
pub proof fn lemma_precedes_connected<T: Ord>(a: T, i: int, b: T, j: int)
    requires
        total_order::<T>(),
    ensures
        i != j ==> (precedes(a, i, b, j) <==> !precedes(b, j, a, i)),
        !(precedes(a, i, b, j) && precedes(b, j, a, i)),
        precedes(a, i, b, j) ==> le(a, b),
{
}

/// "Does not come after" is transitive: if `b` does not precede `a` and `c`
/// does not precede `b`, then `c` does not precede `a`.
pub proof fn lemma_not_precedes_transitive<T: Ord>(a: T, i: int, b: T, j: int, c: T, k: int)
    requires
        total_order::<T>(),
        !precedes(b, j, a, i),
        !precedes(c, k, b, j),
    ensures
        !precedes(c, k, a, i),
{
    lemma_le_transitive(a, b, c);
    if le(c, a) {
        lemma_le_transitive(b, c, a);
        lemma_le_transitive(c, a, b);
    }
}

} // verus!
