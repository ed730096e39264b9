use vstd::prelude::*;
use crate::dataset::{lemma_can_add, square_fits, tracks_points, DataSet, DataSetView};
use crate::order::{lemma_ints_obey_order, sort_in_place};
use crate::sums::{
    lemma_sorted32_from_order, lemma_sorted_unique64, lemma_sum32_bound, sorted, sorted32, sum, sum32,
    sum_sq,
};
use crate::text::{parse_lines_i32, parse_lines_i64, text_values32, text_values64};

verus! {

/// The sum of the `i32` values of a text, one per line; lines that do not
/// parse are skipped.
pub fn sum_values(text: &[u8]) -> (r: i128)
    ensures
        r == sum32(text_values32(text@)),
{
    let vals = parse_lines_i32(text);
    sum_i32(&vals)
}

/// The sum of a vector of `i32` values.
pub fn sum_i32(vals: &Vec<i32>) -> (r: i128)
    ensures
        r == sum32(vals@),
{
    let n = vals.len();
    let mut acc: i128 = 0;
    let mut i: usize = 0;
    proof {
        assert(vals@.take(0) =~= Seq::<i32>::empty());
    }
    while i < n
        invariant
            n == vals@.len(),
            0 <= i <= n,
            acc == sum32(vals@.take(i as int)),
        decreases n - i,
    {
        proof {
            assert(vals@.take(i + 1).drop_last() =~= vals@.take(i as int));
            lemma_sum32_bound(vals@.take(i + 1));
        }
        acc = acc + vals[i] as i128;
        i = i + 1;
    }
    proof {
        assert(vals@.take(n as int) =~= vals@);
    }
    acc
}

/// The `i32` values of a text, one per line, in ascending order; lines that
/// do not parse are skipped.
pub fn sorted_values(text: &[u8]) -> (r: Vec<i32>)
    ensures
        sorted32(r@),
        r@.to_multiset() == text_values32(text@).to_multiset(),
{
    let mut vals = parse_lines_i32(text);
    proof {
        lemma_ints_obey_order();
    }
    sort_in_place(&mut vals);
    proof {
        lemma_sorted32_from_order(vals@);
    }
    vals
}

/// The items of the parts, one part after the other.
pub open spec fn concat_parts(parts: Seq<Vec<i32>>) -> Seq<i32>
    decreases parts.len(),
{
    if parts.len() == 0 {
        seq![]
    } else {
        concat_parts(parts.drop_last()) + parts.last()@
    }
}

/// All the values of the parts, in ascending order.
pub fn sorted_concat(parts: &Vec<Vec<i32>>) -> (r: Vec<i32>)
    ensures
        sorted32(r@),
        r@.to_multiset() == concat_parts(parts@).to_multiset(),
{
    let mut all: Vec<i32> = Vec::new();
    let np = parts.len();
    let mut k: usize = 0;
    proof {
        assert(parts@.take(0) =~= Seq::<Vec<i32>>::empty());
    }
    while k < np
        invariant
            np == parts@.len(),
            0 <= k <= np,
            all@ == concat_parts(parts@.take(k as int)),
        decreases np - k,
    {
        let part = &parts[k];
        let ghost before = all@;
        let m = part.len();
        let mut j: usize = 0;
        while j < m
            invariant
                m == part@.len(),
                0 <= j <= m,
                all@ == before + part@.take(j as int),
            decreases m - j,
        {
            all.push(part[j]);
            proof {
                assert(part@.take(j + 1) =~= part@.take(j as int).push(part@[j as int]));
            }
            j = j + 1;
        }
        proof {
            assert(part@.take(m as int) =~= part@);
            assert(parts@.take(k + 1).drop_last() =~= parts@.take(k as int));
        }
        k = k + 1;
    }
    proof {
        assert(parts@.take(np as int) =~= parts@);
    }
    proof {
        lemma_ints_obey_order();
    }
    sort_in_place(&mut all);
    proof {
        lemma_sorted32_from_order(all@);
    }
    all
}

/// What `readset(name, text)` returns: the data set named `name` holding
/// the text's `i64` values in ascending order, with their sums.
pub open spec fn readset_result(name: Seq<char>, text: Seq<u8>, v: DataSetView) -> bool {
    &&& v.name == name
    &&& sorted(v.points)
    &&& v.points.to_multiset() == text_values64(text).to_multiset()
    &&& v.sy == sum(text_values64(text))
    &&& v.syy == sum_sq(text_values64(text))
}

/// Reads a data set from a text of `i64` values, one per line: lines that
/// do not parse are skipped, the values are added in order, then sorted.
pub fn readset<'a>(name: &'a str, text: &[u8]) -> (r: DataSet<'a>)
    requires
        forall|i: int|
            0 <= i < text_values64(text@).len() ==> square_fits(#[trigger] text_values64(text@)[i]),
    ensures
        r@.name == name@,
        sorted(r@.points),
        r@.points.to_multiset() == text_values64(text@).to_multiset(),
        r@.sy == sum(text_values64(text@)),
        r@.syy == sum_sq(text_values64(text@)),
        tracks_points(r@),
        readset_result(name@, text@, r@),
{
    let pts = parse_lines_i64(text);
    let count = pts.len();
    let mut ds = DataSet::new(name);
    proof {
        assert(pts@.len() == count);
        lemma_can_add(ds@, pts@);
        assert(Seq::<i64>::empty() + pts@ =~= pts@);
    }
    ds.add_points(pts.as_slice());
    ds.sort();
    ds
}

/// `readset` is determined by its name and text: two data sets that meet
/// its contract for the same name and text are equal, so reading the same
/// file twice gives equal data sets.
pub proof fn law_readset_unique(name: Seq<char>, text: Seq<u8>, a: DataSetView, b: DataSetView)
    requires
        readset_result(name, text, a),
        readset_result(name, text, b),
    ensures
        a == b,
{
    lemma_sorted_unique64(a.points, b.points);
}

} // verus!
