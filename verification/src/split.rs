use vstd::prelude::*;
use crate::reading::concat_parts;
use crate::sums::{lemma_sum32_append, sorted32, sum32};
use crate::text::{lemma_text_values_split, text_values32, text_values64};
use crate::work::{
    adjacent, align_defined, aligned, chunks_cover_by, follows_by, law_align_partition,
    law_intervals_partition, partitions, spec_interval, spec_intervals,
};

verus! {

/// The bytes of `data` in the inclusive range `c`.
pub open spec fn chunk(data: Seq<u8>, c: (usize, usize)) -> Seq<u8> {
    data.subrange(c.0 as int, c.1 + 1)
}

/// The inclusive ranges `cs` cut `data` into pieces at line breaks: the first
/// starts at 0, each starts right after the one before it, which ends with a
/// `\n`, none is empty or past the end, and the last ends at the end of the data.
pub open spec fn chunks_cover(data: Seq<u8>, cs: Seq<(usize, usize)>) -> bool {
    chunks_cover_by(data, cs, 10)
}

/// The `i32` values of the pieces, one piece after the other.
pub open spec fn chunks_values32(data: Seq<u8>, cs: Seq<(usize, usize)>) -> Seq<i32>
    decreases cs.len(),
{
    if cs.len() == 0 {
        seq![]
    } else {
        chunks_values32(data, cs.drop_last()) + text_values32(chunk(data, cs.last()))
    }
}

/// The `i64` values of the pieces, one piece after the other.
pub open spec fn chunks_values64(data: Seq<u8>, cs: Seq<(usize, usize)>) -> Seq<i64>
    decreases cs.len(),
{
    if cs.len() == 0 {
        seq![]
    } else {
        chunks_values64(data, cs.drop_last()) + text_values64(chunk(data, cs.last()))
    }
}

/// The sum over the pieces of the sum of each piece's `i32` values.
pub open spec fn chunks_sum32(data: Seq<u8>, cs: Seq<(usize, usize)>) -> int
    decreases cs.len(),
{
    if cs.len() == 0 {
        0
    } else {
        chunks_sum32(data, cs.drop_last()) + sum32(text_values32(chunk(data, cs.last())))
    }
}

proof fn lemma_cut_after_break(data: Seq<u8>, prev_end: int, e: int)
    requires
        0 <= prev_end < e < data.len(),
        data[prev_end] == 10,
    ensures
        text_values32(data.take(e + 1)) == text_values32(data.take(prev_end + 1)) + text_values32(
            data.subrange(prev_end + 1, e + 1),
        ),
        text_values64(data.take(e + 1)) == text_values64(data.take(prev_end + 1)) + text_values64(
            data.subrange(prev_end + 1, e + 1),
        ),
{
    let t = data.take(e + 1);
    let m = prev_end + 1;
    assert(t[m - 1] == 10);
    lemma_text_values_split(t, m);
    assert(t.take(m) =~= data.take(m));
    assert(t.skip(m) =~= data.subrange(m, e + 1));
}

proof fn lemma_chunks_prefix(data: Seq<u8>, cs: Seq<(usize, usize)>, k: int)
    requires
        chunks_cover(data, cs),
        1 <= k <= cs.len(),
    ensures
        text_values32(data.take(cs[k - 1].1 + 1)) == chunks_values32(data, cs.take(k)),
        text_values64(data.take(cs[k - 1].1 + 1)) == chunks_values64(data, cs.take(k)),
    decreases k,
{
    let ck = cs.take(k);
    let c = cs[k - 1];
    assert(ck.last() == c);
    if k == 1 {
        assert(ck.drop_last() =~= Seq::<(usize, usize)>::empty());
        assert(chunk(data, c) =~= data.take(c.1 + 1));
        assert(chunks_values32(data, ck.drop_last()) =~= Seq::<i32>::empty());
        assert(chunks_values64(data, ck.drop_last()) =~= Seq::<i64>::empty());
        assert(chunks_values32(data, ck) =~= text_values32(chunk(data, c)));
        assert(chunks_values64(data, ck) =~= text_values64(chunk(data, c)));
    } else {
        let p = cs[k - 2];
        assert(c.0 <= c.1);
        assert(follows_by(data, cs[k - 2], cs[(k - 2) + 1], 10));
        lemma_chunks_prefix(data, cs, k - 1);
        assert(ck.drop_last() =~= cs.take(k - 1));
        lemma_cut_after_break(data, p.1 as int, c.1 as int);
    }
}

/// Parsing a text piece by piece, where the pieces are cut at line breaks,
/// gives the values that parsing it whole gives, in the same order; so the
/// sums of the pieces add up to the sum of the whole.
pub proof fn law_chunked_values(data: Seq<u8>, cs: Seq<(usize, usize)>)
    requires
        chunks_cover(data, cs),
    ensures
        text_values32(data) == chunks_values32(data, cs),
        text_values64(data) == chunks_values64(data, cs),
        sum32(text_values32(data)) == chunks_sum32(data, cs),
{
    lemma_chunks_prefix(data, cs, cs.len() as int);
    assert(cs.take(cs.len() as int) =~= cs);
    assert(data.take(data.len() as int) =~= data);
    lemma_chunks_sum(data, cs);
}

proof fn lemma_chunks_sum(data: Seq<u8>, cs: Seq<(usize, usize)>)
    ensures
        sum32(chunks_values32(data, cs)) == chunks_sum32(data, cs),
    decreases cs.len(),
{
    if cs.len() > 0 {
        lemma_chunks_sum(data, cs.drop_last());
        lemma_sum32_append(chunks_values32(data, cs.drop_last()), text_values32(chunk(data, cs.last())));
    }
}

/// Aligning the intervals that `intervals(n, len)` makes to the line breaks
/// of the data (for `1 <= n <= len`) never underflows or overflows, and
/// cuts the data into pieces at line breaks that cover it from its first
/// byte to its last.
pub proof fn law_aligned_chunks(data: Seq<u8>, n: int)
    requires
        1 <= n <= data.len() <= usize::MAX,
    ensures
        align_defined(spec_intervals(n, data.len() as int), data, data.len() as int, 10),
        chunks_cover(data, aligned(spec_intervals(n, data.len() as int), data, data.len() as int, 10)),
{
    let len = data.len() as int;
    let iv = spec_intervals(n, len);
    law_intervals_partition(n, len);
    assert(iv.len() == n);
    assert forall|b: int| 0 <= b < iv.len() implies (#[trigger] iv[b]).0 <= iv[b].1 < len by {
        assert(0 <= spec_interval(b, n, len).0 <= spec_interval(b, n, len).1 <= len - 1);
    }
    assert forall|b: int| 0 <= b < iv.len() - 1 implies #[trigger] adjacent(iv[b], iv[b + 1]) by {
        assert(0 <= spec_interval(b, n, len).0 <= spec_interval(b, n, len).1 <= len - 1);
        assert(spec_interval(b + 1, n, len).0 == spec_interval(b, n, len).1 + 1);
    }
    assert(iv[0].0 == 0);
    assert(iv.last().1 == len - 1);
    assert(partitions(iv, len));
    law_align_partition(data, iv, 10);
}

/// What the multi-threaded reading does, split into per-CPU intervals
/// aligned to line breaks and parsed piece by piece, gives the values, in
/// order, and the sum that reading the whole text at once gives.
pub proof fn law_parallel_matches_serial(data: Seq<u8>, n: int)
    requires
        1 <= n <= data.len() <= usize::MAX,
    ensures
        text_values32(data) == chunks_values32(
            data,
            aligned(spec_intervals(n, data.len() as int), data, data.len() as int, 10),
        ),
        text_values64(data) == chunks_values64(
            data,
            aligned(spec_intervals(n, data.len() as int), data, data.len() as int, 10),
        ),
        sum32(text_values32(data)) == chunks_sum32(
            data,
            aligned(spec_intervals(n, data.len() as int), data, data.len() as int, 10),
        ),
{
    law_aligned_chunks(data, n);
    law_chunked_values(data, aligned(spec_intervals(n, data.len() as int), data, data.len() as int, 10));
}

/// Two sequences in ascending order that hold the same items are equal.
pub proof fn lemma_sorted_unique(a: Seq<i32>, b: Seq<i32>)
    requires
        sorted32(a),
        sorted32(b),
        a.to_multiset() == b.to_multiset(),
    ensures
        a == b,
    decreases a.len(),
{
    broadcast use vstd::seq_lib::group_to_multiset_ensures;
    broadcast use vstd::multiset::group_multiset_axioms;

    a.to_multiset_ensures();
    b.to_multiset_ensures();
    assert(a.len() == b.len());
    if a.len() > 0 {
        let x = a.last();
        let y = b.last();
        assert(a.to_multiset().count(x) > 0);
        assert(b.contains(x));
        let i = choose|i: int| 0 <= i < b.len() && b[i] == x;
        assert(x <= y);
        assert(b.to_multiset().count(y) > 0);
        assert(a.contains(y));
        let j = choose|j: int| 0 <= j < a.len() && a[j] == y;
        assert(y <= x);
        let a1 = a.drop_last();
        let b1 = b.drop_last();
        assert(a =~= a1.push(x));
        assert(b =~= b1.push(x));
        assert(a1.to_multiset() =~= a.to_multiset().remove(x));
        assert(b1.to_multiset() =~= b.to_multiset().remove(x));
        lemma_sorted_unique(a1, b1);
        assert(a =~= b);
    } else {
        assert(a =~= b);
    }
}

/// Parts that each hold the items of one piece hold, together, the items
/// of all the pieces.
proof fn lemma_parts_multiset(data: Seq<u8>, cs: Seq<(usize, usize)>, parts: Seq<Vec<i32>>)
    requires
        parts.len() == cs.len(),
        forall|k: int|
            0 <= k < cs.len() ==> (#[trigger] parts[k])@.to_multiset() == text_values32(
                chunk(data, cs[k]),
            ).to_multiset(),
    ensures
        concat_parts(parts).to_multiset() == chunks_values32(data, cs).to_multiset(),
    decreases cs.len(),
{
    if cs.len() > 0 {
        let p1 = parts.drop_last();
        let c1 = cs.drop_last();
        assert forall|k: int| 0 <= k < c1.len() implies (#[trigger] p1[k])@.to_multiset() == text_values32(
            chunk(data, c1[k]),
        ).to_multiset() by {
            assert(p1[k] == parts[k]);
            assert(c1[k] == cs[k]);
        }
        lemma_parts_multiset(data, c1, p1);
        assert(parts[parts.len() - 1] == parts.last());
        vstd::seq_lib::lemma_multiset_commutative(concat_parts(p1), parts.last()@);
        vstd::seq_lib::lemma_multiset_commutative(
            chunks_values32(data, c1),
            text_values32(chunk(data, cs.last())),
        );
    }
}

/// Sorting each piece on its own thread and then sorting all the pieces'
/// values together gives exactly what sorting the values of the whole text
/// gives.
pub proof fn law_parallel_sorted_matches_serial(
    data: Seq<u8>,
    n: int,
    parts: Seq<Vec<i32>>,
    merged: Seq<i32>,
    whole: Seq<i32>,
)
    requires
        1 <= n <= data.len() <= usize::MAX,
        parts.len() == aligned(spec_intervals(n, data.len() as int), data, data.len() as int, 10).len(),
        forall|k: int|
            0 <= k < parts.len() ==> (#[trigger] parts[k])@.to_multiset() == text_values32(
                chunk(
                    data,
                    aligned(spec_intervals(n, data.len() as int), data, data.len() as int, 10)[k],
                ),
            ).to_multiset(),
        sorted32(merged),
        merged.to_multiset() == concat_parts(parts).to_multiset(),
        sorted32(whole),
        whole.to_multiset() == text_values32(data).to_multiset(),
    ensures
        merged == whole,
{
    let cs = aligned(spec_intervals(n, data.len() as int), data, data.len() as int, 10);
    law_parallel_matches_serial(data, n);
    lemma_parts_multiset(data, cs, parts);
    lemma_sorted_unique(merged, whole);
}

} // verus!
