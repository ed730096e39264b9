use vstd::prelude::*;

verus! {

/// The length of the last run of equal consecutive items.
pub open spec fn last_run(s: Seq<i64>) -> int
    decreases s.len(),
{
    if s.len() == 0 {
        0
    } else if s.len() >= 2 && s[s.len() - 2] == s.last() {
        last_run(s.drop_last()) + 1
    } else {
        1
    }
}

/// The length of the longest run of equal consecutive items.
pub open spec fn longest_run(s: Seq<i64>) -> int
    decreases s.len(),
{
    if s.len() == 0 {
        0
    } else {
        let before = longest_run(s.drop_last());
        if last_run(s) > before {
            last_run(s)
        } else {
            before
        }
    }
}

/// The height that a plot needs for a data set whose points fall into the
/// buckets `ids`, in order: one more than its tallest stack of equal
/// consecutive buckets (at least one), and never lower than `height`.
pub open spec fn spec_bar_height(ids: Seq<i64>, height: int) -> int {
    let tallest = if longest_run(ids) > 1 { longest_run(ids) } else { 1 };
    if tallest + 1 > height {
        tallest + 1
    } else {
        height
    }
}

proof fn lemma_longest_run_prefix(s: Seq<i64>, k: int)
    requires
        0 <= k <= s.len(),
    ensures
        0 <= last_run(s.take(k)) <= longest_run(s.take(k)) <= longest_run(s),
    decreases s.len(),
{
    lemma_runs_nonneg(s.take(k));
    if k < s.len() {
        assert(s.drop_last().take(k) =~= s.take(k));
        lemma_longest_run_prefix(s.drop_last(), k);
    } else {
        assert(s.take(k) =~= s);
    }
}

proof fn lemma_runs_nonneg(s: Seq<i64>)
    ensures
        0 <= last_run(s) <= longest_run(s),
    decreases s.len(),
{
    if s.len() > 0 {
        lemma_runs_nonneg(s.drop_last());
    }
}

/// Grows a plot's height to fit the data set whose points fall into the
/// buckets `ids`, in order: counts the longest stack of points in one
/// bucket, adds one row of room, and keeps `height` if that is taller.
pub fn bar_height(ids: &[i64], height: i32) -> (r: i32)
    requires
        longest_run(ids@) < i32::MAX,
    ensures
        r == spec_bar_height(ids@, height as int),
{
    let mut largest_bucket_size: i32 = 1;
    let mut last_bucket: i64 = -1;
    let mut current_bucket_count: i32 = 0;
    let n = ids.len();
    let mut i: usize = 0;
    proof {
        assert(ids@.take(0) =~= Seq::<i64>::empty());
    }
    while i < n
        invariant
            n == ids@.len(),
            0 <= i <= n,
            longest_run(ids@) < i32::MAX,
            i == 0 ==> last_bucket == -1 && current_bucket_count == 0,
            i > 0 ==> last_bucket == ids@[i - 1] && current_bucket_count == last_run(ids@.take(i as int)),
            largest_bucket_size == (if longest_run(ids@.take(i as int)) > 1 {
                longest_run(ids@.take(i as int))
            } else {
                1
            }),
        decreases n - i,
    {
        let current_bucket = ids[i];
        let ghost t = ids@.take(i + 1);
        proof {
            assert(t.drop_last() =~= ids@.take(i as int));
            assert(t.last() == current_bucket);
            if i > 0 {
                assert(t[t.len() - 2] == ids@[i - 1]);
            }
            lemma_longest_run_prefix(ids@, i + 1);
            lemma_runs_nonneg(ids@.take(i as int));
        }
        if current_bucket == last_bucket {
            current_bucket_count = current_bucket_count + 1;
            if current_bucket_count > largest_bucket_size {
                largest_bucket_size = current_bucket_count;
            }
        } else {
            current_bucket_count = 1;
            last_bucket = current_bucket;
        }
        i = i + 1;
    }
    proof {
        assert(ids@.take(n as int) =~= ids@);
    }
    largest_bucket_size = largest_bucket_size + 1;
    if largest_bucket_size > height {
        largest_bucket_size
    } else {
        height
    }
}

proof fn lemma_runs_bounded(s: Seq<i64>)
    ensures
        last_run(s) <= longest_run(s) <= s.len(),
    decreases s.len(),
{
    if s.len() > 0 {
        lemma_runs_bounded(s.drop_last());
    }
}

/// The length of the longest run of equal consecutive buckets in `ids`: the
/// tallest stack of points, which `bar_height` needs to stay below `i32::MAX`.
pub fn longest_run_len(ids: &[i64]) -> (r: usize)
    ensures
        r == longest_run(ids@),
{
    let n = ids.len();
    let mut longest: usize = 0;
    let mut current: usize = 0;
    let mut i: usize = 0;
    proof {
        assert(ids@.take(0) =~= Seq::<i64>::empty());
    }
    while i < n
        invariant
            n == ids@.len(),
            0 <= i <= n,
            current == last_run(ids@.take(i as int)),
            longest == longest_run(ids@.take(i as int)),
        decreases n - i,
    {
        let ghost t = ids@.take(i + 1);
        proof {
            assert(t.drop_last() =~= ids@.take(i as int));
            assert(t.last() == ids@[i as int]);
            if i > 0 {
                assert(t[t.len() - 2] == ids@[i - 1]);
            }
            lemma_runs_bounded(t);
            assert(t.len() == i + 1);
        }
        if i > 0 && ids[i] == ids[i - 1] {
            current = current + 1;
        } else {
            current = 1;
        }
        if current > longest {
            longest = current;
        }
        i = i + 1;
    }
    proof {
        assert(ids@.take(n as int) =~= ids@);
    }
    longest
}

proof fn lemma_last_run_equal(s: Seq<i64>)
    requires
        s.len() > 0,
    ensures
        1 <= last_run(s) <= s.len(),
        forall|k: int| s.len() - last_run(s) <= k < s.len() ==> s[k] == s.last(),
    decreases s.len(),
{
    if s.len() >= 2 && s[s.len() - 2] == s.last() {
        let t = s.drop_last();
        lemma_last_run_equal(t);
        assert forall|k: int| s.len() - last_run(s) <= k < s.len() implies s[k] == s.last() by {
            if k < s.len() - 1 {
                assert(t[k] == t.last());
            }
        }
    }
}

proof fn lemma_last_run_covers(s: Seq<i64>, i: int)
    requires
        0 <= i < s.len(),
        forall|k: int| i <= k < s.len() ==> s[k] == s[i],
    ensures
        s.len() - i <= last_run(s),
    decreases s.len(),
{
    if i < s.len() - 1 {
        let t = s.drop_last();
        assert forall|k: int| i <= k < t.len() implies t[k] == t[i] by {
            assert(t[k] == s[k]);
        }
        lemma_last_run_covers(t, i);
        assert(s[s.len() - 2] == s[i]);
        assert(s.last() == s[i]);
        assert(last_run(s) == last_run(t) + 1);
    } else {
        lemma_runs_nonneg(s.drop_last());
    }
}

/// The items of `s` from `i` to `j`, inclusive, are all equal.
pub open spec fn equal_stretch(s: Seq<i64>, i: int, j: int) -> bool {
    forall|k: int| i <= k <= j ==> s[k] == s[i]
}

/// `longest_run` is the length of the longest stretch of equal consecutive
/// items: no such stretch is longer, and, unless `s` is empty, one has
/// exactly that length.
pub proof fn law_longest_run(s: Seq<i64>)
    ensures
        forall|i: int, j: int|
            0 <= i <= j < s.len() && #[trigger] equal_stretch(s, i, j) ==> j - i + 1 <= longest_run(s),
        s.len() == 0 ==> longest_run(s) == 0,
        s.len() > 0 ==> exists|i: int, j: int|
            0 <= i <= j < s.len() && #[trigger] equal_stretch(s, i, j) && j - i + 1 == longest_run(s),
    decreases s.len(),
{
    if s.len() > 0 {
        let t = s.drop_last();
        law_longest_run(t);
        lemma_runs_bounded(s);
        lemma_last_run_equal(s);
        assert forall|i: int, j: int|
            0 <= i <= j < s.len() && #[trigger] equal_stretch(s, i, j) implies j - i + 1 <= longest_run(s) by {
            if j < s.len() - 1 {
                assert forall|k: int| i <= k <= j implies t[k] == t[i] by {
                    assert(s[k] == s[i]);
                }
                assert(equal_stretch(t, i, j));
            } else {
                let u = s.subrange(0, j + 1);
                assert(u =~= s);
                lemma_last_run_covers(s, i);
            }
        }
        let lr = last_run(s);
        if lr > longest_run(t) {
            let i = s.len() - lr;
            let j = s.len() - 1;
            assert forall|k: int| i <= k <= j implies s[k] == s[i] by {
                assert(s[k] == s.last());
                assert(s[i] == s.last());
            }
            assert(equal_stretch(s, i, j));
            assert(j - i + 1 == longest_run(s));
        } else if t.len() > 0 {
            let (i, j) = choose|i: int, j: int|
                0 <= i <= j < t.len() && #[trigger] equal_stretch(t, i, j) && j - i + 1 == longest_run(t);
            assert forall|k: int| i <= k <= j implies s[k] == s[i] by {
                assert(t[k] == t[i]);
            }
            assert(equal_stretch(s, i, j));
            assert(j - i + 1 == longest_run(s));
        } else {
            assert(lr == 1);
            assert(longest_run(t) == 0);
        }
    }
}

/// The plot's height after `bar_height` is one more than its tallest stack
/// of points in one bucket (a stack of at least one), or the old height
/// where that is taller: never lower than either, and equal to one of them.
pub proof fn law_bar_height(ids: Seq<i64>, height: int)
    ensures
        spec_bar_height(ids, height) >= longest_run(ids) + 1,
        spec_bar_height(ids, height) >= 2,
        spec_bar_height(ids, height) >= height,
        spec_bar_height(ids, height) == height || spec_bar_height(ids, height) == longest_run(ids) + 1
            || (ids.len() == 0 && spec_bar_height(ids, height) == 2),
{
    lemma_runs_bounded(ids);
    lemma_runs_nonneg(ids);
    if ids.len() > 0 {
        lemma_last_run_equal(ids);
    }
}

} // verus!
