use vstd::prelude::*;
use core::cmp::Ordering;
use vstd::std_specs::cmp::OrdSpec;

verus! {

/// `a` comes no later than `b` in the total order of `T`.
pub open spec fn order_le<T: Ord>(a: T, b: T) -> bool {
    a.cmp_spec(&b) != Ordering::Greater
}

/// Every element is no greater than any element after it, in the order of `T`.
pub open spec fn order_sorted<T: Ord>(s: Seq<T>) -> bool {
    forall|i: int, j: int| 0 <= i <= j < s.len() ==> #[trigger] order_le(s[i], s[j])
}

/// Sorts a vector in place with std's `slice::sort`.
///
/// std documents `sort` as sorting the slice (stably) in ascending order by
/// `Ord::cmp`, and as possibly panicking where `Ord` is not a total order; so
/// this wrapper asks that `T`'s order obey vstd's laws of a total order (as
/// the integer types' does) and states that the result holds the same items
/// in ascending order. Stability is not stated.
#[verifier::external_body]
pub(crate) fn sort_in_place<T: Ord>(v: &mut Vec<T>)
    requires
        vstd::laws_cmp::obeys_cmp::<T>(),
    ensures
        final(v)@.to_multiset() == old(v)@.to_multiset(),
        order_sorted(final(v)@),
{
    v.sort();
}

/// The orders of `i64` and `i32` obey vstd's laws of a total order.
pub proof fn lemma_ints_obey_order()
    ensures
        vstd::laws_cmp::obeys_cmp::<i64>(),
        vstd::laws_cmp::obeys_cmp::<i32>(),
{
    broadcast use vstd::laws_cmp::group_laws_cmp;

}

} // verus!
