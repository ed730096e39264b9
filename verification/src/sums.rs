use vstd::prelude::*;
use crate::order::{order_le, order_sorted};

verus! {

broadcast use vstd::seq_lib::group_to_multiset_ensures;

/// The sum of a sequence of integers.
pub open spec fn sum(s: Seq<i64>) -> int
    decreases s.len(),
{
    if s.len() == 0 {
        0
    } else {
        sum(s.drop_last()) + s.last()
    }
}

/// The sum of the squares of a sequence of integers.
pub open spec fn sum_sq(s: Seq<i64>) -> int
    decreases s.len(),
{
    if s.len() == 0 {
        0
    } else {
        sum_sq(s.drop_last()) + s.last() * s.last()
    }
}

/// The sum of a sequence of 32-bit integers.
pub open spec fn sum32(s: Seq<i32>) -> int
    decreases s.len(),
{
    if s.len() == 0 {
        0
    } else {
        sum32(s.drop_last()) + s.last()
    }
}

/// Ascending order.
pub open spec fn sorted(s: Seq<i64>) -> bool {
    forall|i: int, j: int| 0 <= i <= j < s.len() ==> s[i] <= s[j]
}

/// Ascending order of 32-bit integers.
pub open spec fn sorted32(s: Seq<i32>) -> bool {
    forall|i: int, j: int| 0 <= i <= j < s.len() ==> s[i] <= s[j]
}

pub proof fn lemma_sorted_from_order(s: Seq<i64>)
    requires
        order_sorted(s),
    ensures
        sorted(s),
{
    assert forall|i: int, j: int| 0 <= i <= j < s.len() implies s[i] <= s[j] by {
        assert(order_le(s[i], s[j]));
    }
}

pub proof fn lemma_sorted32_from_order(s: Seq<i32>)
    requires
        order_sorted(s),
    ensures
        sorted32(s),
{
    assert forall|i: int, j: int| 0 <= i <= j < s.len() implies s[i] <= s[j] by {
        assert(order_le(s[i], s[j]));
    }
}

pub proof fn lemma_sum_append(a: Seq<i64>, b: Seq<i64>)
    ensures
        sum(a + b) == sum(a) + sum(b),
        sum_sq(a + b) == sum_sq(a) + sum_sq(b),
    decreases b.len(),
{
    if b.len() == 0 {
        assert(a + b =~= a);
    } else {
        assert((a + b).drop_last() =~= a + b.drop_last());
        lemma_sum_append(a, b.drop_last());
    }
}

pub proof fn lemma_sum32_append(a: Seq<i32>, b: Seq<i32>)
    ensures
        sum32(a + b) == sum32(a) + sum32(b),
    decreases b.len(),
{
    if b.len() == 0 {
        assert(a + b =~= a);
    } else {
        assert((a + b).drop_last() =~= a + b.drop_last());
        lemma_sum32_append(a, b.drop_last());
    }
}

pub proof fn lemma_sum_sq_prefix(s: Seq<i64>, k: int)
    requires
        0 <= k <= s.len(),
    ensures
        0 <= sum_sq(s.take(k)) <= sum_sq(s),
    decreases s.len(),
{
    if s.len() == 0 {
    } else if k == s.len() {
        assert(s.take(k) =~= s);
        lemma_sum_sq_prefix(s.drop_last(), k - 1);
        assert(s.drop_last().take(k - 1) =~= s.drop_last());
        let x = s.last();
        assert(x * x >= 0) by (nonlinear_arith);
    } else {
        lemma_sum_sq_prefix(s.drop_last(), k);
        assert(s.drop_last().take(k) =~= s.take(k));
        let x = s.last();
        assert(x * x >= 0) by (nonlinear_arith);
    }
}

/// Removing the item at `i` takes exactly that item out of the sums.
proof fn lemma_sum_remove(s: Seq<i64>, i: int)
    requires
        0 <= i < s.len(),
    ensures
        sum(s) == sum(s.remove(i)) + s[i],
        sum_sq(s) == sum_sq(s.remove(i)) + s[i] * s[i],
{
    let pre = s.take(i);
    let post = s.skip(i + 1);
    assert(s =~= pre + (seq![s[i]] + post));
    assert(s.remove(i) =~= pre + post);
    lemma_sum_append(pre, seq![s[i]] + post);
    lemma_sum_append(seq![s[i]], post);
    lemma_sum_append(pre, post);
    lemma_sum_single(s[i]);
}

pub proof fn lemma_sum_single(x: i64)
    ensures
        sum(seq![x]) == x,
        sum_sq(seq![x]) == x * x,
{
    let one = seq![x];
    assert(one.drop_last() =~= Seq::<i64>::empty());
    assert(sum(one.drop_last()) == 0);
    assert(sum_sq(one.drop_last()) == 0);
}

/// Sequences holding the same items have the same sum and sum of squares.
pub proof fn lemma_sum_permutation(a: Seq<i64>, b: Seq<i64>)
    requires
        a.to_multiset() == b.to_multiset(),
    ensures
        sum(a) == sum(b),
        sum_sq(a) == sum_sq(b),
    decreases a.len(),
{
    if a.len() == 0 {
        assert(b.to_multiset().len() == 0);
        assert(b.len() == 0);
    } else {
        let x = a.last();
        let a1 = a.drop_last();
        assert(a =~= a1.push(x));
        assert(a.to_multiset() == a1.to_multiset().insert(x));
        assert(b.to_multiset().count(x) > 0);
        assert(b.contains(x));
        let j = choose|j: int| 0 <= j < b.len() && b[j] == x;
        let b1 = b.remove(j);
        assert(b1.to_multiset() == b.to_multiset().remove(x));
        assert(a1.to_multiset() =~= b1.to_multiset());
        lemma_sum_permutation(a1, b1);
        lemma_sum_remove(b, j);
    }
}


/// Each 32-bit value adds at most 2^31 to the size of the sum.
pub proof fn lemma_sum32_bound(s: Seq<i32>)
    ensures
        -(s.len() * 0x8000_0000) <= sum32(s) <= s.len() * 0x8000_0000,
    decreases s.len(),
{
    if s.len() > 0 {
        lemma_sum32_bound(s.drop_last());
    }
}

/// Each 64-bit value adds at most 2^63 to the size of the sum, and each
/// square that fits in an `i64` at most `i64::MAX` to the sum of squares.
pub proof fn lemma_sum_bound(s: Seq<i64>)
    requires
        forall|i: int| 0 <= i < s.len() ==> #[trigger] s[i] * s[i] <= i64::MAX,
    ensures
        -(s.len() * 0x8000_0000_0000_0000) <= sum(s) <= s.len() * 0x8000_0000_0000_0000,
        0 <= sum_sq(s) <= s.len() * 0x7fff_ffff_ffff_ffff,
    decreases s.len(),
{
    if s.len() > 0 {
        let x = s.last();
        assert(s[s.len() - 1] * s[s.len() - 1] <= i64::MAX);
        assert(x * x >= 0) by (nonlinear_arith);
        assert forall|i: int| 0 <= i < s.drop_last().len() implies #[trigger] s.drop_last()[i] * s.drop_last()[i] <= i64::MAX by {
            assert(s.drop_last()[i] == s[i]);
        }
        lemma_sum_bound(s.drop_last());
    }
}


/// Every item lies in `[lo, hi]`, so the sum lies in `[len * lo, len * hi]`.
pub proof fn lemma_sum_between(s: Seq<i64>, lo: int, hi: int)
    requires
        forall|i: int| 0 <= i < s.len() ==> lo <= #[trigger] s[i] <= hi,
    ensures
        s.len() * lo <= sum(s) <= s.len() * hi,
    decreases s.len(),
{
    if s.len() > 0 {
        let t = s.drop_last();
        assert forall|i: int| 0 <= i < t.len() implies lo <= #[trigger] t[i] <= hi by {
            assert(t[i] == s[i]);
        }
        lemma_sum_between(t, lo, hi);
        let n = t.len() as int;
        assert(s[s.len() - 1] == s.last());
        assert((n + 1) * lo == n * lo + lo) by (nonlinear_arith);
        assert((n + 1) * hi == n * hi + hi) by (nonlinear_arith);
    }
}

/// The sum of the squared distances of the items from `x`, expanded.
proof fn lemma_spread_around(s: Seq<i64>, x: int)
    ensures
        sum_sq(s) - 2 * x * sum(s) + s.len() * x * x >= 0,
    decreases s.len(),
{
    if s.len() > 0 {
        let t = s.drop_last();
        lemma_spread_around(t, x);
        let y = s.last() as int;
        let q = sum_sq(t);
        let p = sum(t);
        let n = t.len() as int;
        assert(sum_sq(s) == q + y * y);
        assert(sum(s) == p + y);
        assert((q + y * y) - 2 * x * (p + y) + (n + 1) * x * x == (q - 2 * x * p + n * x * x) + (y
            - x) * (y - x)) by (nonlinear_arith);
        assert((y - x) * (y - x) >= 0) by (nonlinear_arith);
    }
}

/// Cauchy-Schwarz for sums: `len * sum_sq >= sum * sum`.
pub proof fn lemma_sum_sq_dominates(s: Seq<i64>)
    ensures
        s.len() * sum_sq(s) >= sum(s) * sum(s),
    decreases s.len(),
{
    if s.len() > 0 {
        let t = s.drop_last();
        lemma_sum_sq_dominates(t);
        let x = s.last() as int;
        lemma_spread_around(t, x);
        let q = sum_sq(t);
        let p = sum(t);
        let n = t.len() as int;
        assert(sum_sq(s) == q + x * x);
        assert(sum(s) == p + x);
        assert((n + 1) * (q + x * x) - (p + x) * (p + x) == (n * q - p * p) + (q - 2 * x * p + n * x
            * x)) by (nonlinear_arith);
    }
}

/// Two sequences in ascending order that hold the same items are equal.
pub proof fn lemma_sorted_unique64(a: Seq<i64>, b: Seq<i64>)
    requires
        sorted(a),
        sorted(b),
        a.to_multiset() == b.to_multiset(),
    ensures
        a == b,
    decreases a.len(),
{
    broadcast use vstd::multiset::group_multiset_axioms;

    a.to_multiset_ensures();
    b.to_multiset_ensures();
    assert(a.len() == b.len());
    if a.len() > 0 {
        let x = a.last();
        let y = b.last();
        assert(a.to_multiset().count(x) > 0);
        assert(b.contains(x));
        let i = choose|i: int| 0 <= i < b.len() && b[i] == x;
        assert(x <= y);
        assert(b.to_multiset().count(y) > 0);
        assert(a.contains(y));
        let j = choose|j: int| 0 <= j < a.len() && a[j] == y;
        assert(y <= x);
        let a1 = a.drop_last();
        let b1 = b.drop_last();
        assert(a =~= a1.push(x));
        assert(b =~= b1.push(x));
        assert(a1.to_multiset() =~= a.to_multiset().remove(x));
        assert(b1.to_multiset() =~= b.to_multiset().remove(x));
        lemma_sorted_unique64(a1, b1);
        assert(a =~= b);
    } else {
        assert(a =~= b);
    }
}

} // verus!
