use vstd::prelude::*;
use crate::order::{lemma_ints_obey_order, sort_in_place};
use crate::sums::{
    lemma_sorted_from_order, lemma_sum_append, lemma_sum_between, lemma_sum_bound,
    lemma_sum_permutation, lemma_sum_single, lemma_sum_sq_dominates, lemma_sum_sq_prefix, sorted,
    sum, sum_sq,
};

verus! {

/// Rust's `/` on integers: the quotient rounded toward zero (for `b > 0`).
pub open spec fn trunc_div(a: int, b: int) -> int {
    if a >= 0 {
        a / b
    } else {
        -((-a) / b)
    }
}

/// The number of rows of Student's t table past the row for infinity.
pub const NSTUDENT: usize = 100;

/// A named set of integer samples, with the running sum and sum of squares
/// of the samples added to it.
pub struct DataSet<'a> {
    name: &'a str,
    pub points: Vec<i64>,
    sy: i128,
    syy: i128,
}

/// The abstract state of a data set: its name, its points in order, and the
/// running sum and sum of squares it keeps beside them.
pub ghost struct DataSetView {
    pub name: Seq<char>,
    pub points: Seq<i64>,
    pub sy: int,
    pub syy: int,
}

impl<'a> View for DataSet<'a> {
    type V = DataSetView;

    closed spec fn view(&self) -> DataSetView {
        DataSetView { name: self.name@, points: self.points@, sy: self.sy as int, syy: self.syy as int }
    }
}

/// The running sums agree with the points: the data set's invariant as long
/// as its points are changed only through its methods.
pub open spec fn tracks_points(v: DataSetView) -> bool {
    v.sy == sum(v.points) && v.syy == sum_sq(v.points)
}

/// The running sums fit the `i128` fields that hold them, as those of every
/// data set do.
pub open spec fn sums_in_range(v: DataSetView) -> bool {
    i128::MIN <= v.sy <= i128::MAX && i128::MIN <= v.syy <= i128::MAX
}

/// `x * x` does not overflow an `i64`.
pub open spec fn square_fits(x: i64) -> bool {
    x * x <= i64::MAX
}

/// Adding `pts` one after the other to a data set in state `v` overflows
/// neither the 64-bit square of a point nor the 128-bit running sums.
pub open spec fn can_add(v: DataSetView, pts: Seq<i64>) -> bool {
    &&& forall|i: int| 0 <= i < pts.len() ==> square_fits(#[trigger] pts[i])
    &&& forall|k: int|
        0 <= k <= pts.len() ==> i128::MIN <= v.sy + #[trigger] sum(pts.take(k)) <= i128::MAX
    &&& v.syy + sum_sq(pts) <= i128::MAX
}

/// The state after adding `pts` to a data set in state `v`.
pub open spec fn added(v: DataSetView, pts: Seq<i64>) -> DataSetView {
    DataSetView { name: v.name, points: v.points + pts, sy: v.sy + sum(pts), syy: v.syy + sum_sq(pts) }
}

/// The mean that `avg` computes: the running sum over the count, rounded toward zero.
pub open spec fn spec_avg(v: DataSetView) -> int {
    trunc_div(v.sy, v.points.len() as int)
}

/// The part of the sample variance's numerator that `var` computes first.
pub open spec fn var_numerator(v: DataSetView) -> int {
    v.syy - trunc_div(v.sy * v.sy, v.points.len() as int)
}

/// The sample variance that `var` computes, with integer division at each step.
pub open spec fn spec_var(v: DataSetView) -> int {
    trunc_div(var_numerator(v), v.points.len() - 1)
}

/// `var` neither divides by zero nor overflows on a data set in state `v`.
pub open spec fn var_defined(v: DataSetView) -> bool {
    &&& v.points.len() >= 2
    &&& v.sy * v.sy <= i128::MAX
    &&& i128::MIN <= var_numerator(v) <= i128::MAX
}

/// The row of Student's t table for `dof` degrees of freedom: row `dof` up to
/// the table's last row, the row for infinity (row 0) past it.
pub open spec fn spec_student_row(dof: int) -> int {
    if dof > NSTUDENT {
        0
    } else {
        dof
    }
}

impl<'a> DataSet<'a> {
    /// An empty data set with the given name.
    pub fn new(name: &'a str) -> (r: DataSet<'a>)
        ensures
            r@.name == name@,
            r@.points == Seq::<i64>::empty(),
            r@.sy == 0,
            r@.syy == 0,
            tracks_points(r@),
    {
        DataSet { name, points: Vec::new(), sy: 0, syy: 0 }
    }

    /// Adds one point, updating the running sum and sum of squares.
    fn add_point(&mut self, point: i64)
        requires
            square_fits(point),
            i128::MIN <= old(self)@.sy + point <= i128::MAX,
            old(self)@.syy + point * point <= i128::MAX,
        ensures
            final(self)@ == added(old(self)@, seq![point]),
    {
        proof {
            lemma_sum_single(point);
            assert(point * point >= 0) by (nonlinear_arith);
        }
        self.points.push(point);
        self.sy += point as i128;
        self.syy += (point * point) as i128;
        proof {
            assert(old(self)@.points.push(point) =~= old(self)@.points + seq![point]);
        }
    }

    /// Adds the points in order, updating the running sum and sum of squares.
    pub fn add_points(&mut self, points: &[i64])
        requires
            can_add(old(self)@, points@),
        ensures
            final(self)@ == added(old(self)@, points@),
            tracks_points(old(self)@) ==> tracks_points(final(self)@),
    {
        let ghost start = self@;
        let n = points.len();
        let mut i: usize = 0;
        proof {
            assert(points@.take(0) =~= Seq::<i64>::empty());
            assert(start.points + Seq::<i64>::empty() =~= start.points);
        }
        while i < n
            invariant
                n == points@.len(),
                0 <= i <= n,
                can_add(start, points@),
                self@ == added(start, points@.take(i as int)),
            decreases n - i,
        {
            let p = points[i];
            proof {
                let pre = points@.take(i as int);
                assert(points@.take(i + 1) =~= pre + seq![p]);
                lemma_sum_append(pre, seq![p]);
                lemma_sum_single(p);
                assert(sum(points@.take(i + 1)) == sum(pre) + p);
                assert(square_fits(points@[i as int]));
                lemma_sum_sq_prefix(points@, i + 1);
            }
            self.add_point(p);
            proof {
                let pre = points@.take(i as int);
                assert(start.points + pre + seq![p] =~= start.points + points@.take(i + 1));
            }
            i += 1;
        }
        proof {
            assert(points@.take(n as int) =~= points@);
            if tracks_points(start) {
                lemma_sum_append(start.points, points@);
            }
        }
    }

    /// Sorts the points in ascending order; the running sums are left as they are.
    pub fn sort(&mut self)
        ensures
            final(self)@.name == old(self)@.name,
            final(self)@.sy == old(self)@.sy,
            final(self)@.syy == old(self)@.syy,
            final(self)@.points.to_multiset() == old(self)@.points.to_multiset(),
            sorted(final(self)@.points),
            tracks_points(old(self)@) ==> tracks_points(final(self)@),
    {
        proof {
            lemma_ints_obey_order();
        }
        sort_in_place(&mut self.points);
        proof {
            lemma_sorted_from_order(self.points@);
            lemma_sum_permutation(old(self)@.points, self.points@);
        }
    }

    /// The points, as the public field `points` holds them.
    pub fn points(&self) -> (r: &Vec<i64>)
        ensures
            r@ == self@.points,
    {
        &self.points
    }

    /// The running sum of the points added.
    pub fn sy(&self) -> (r: i128)
        ensures
            r == self@.sy,
    {
        self.sy
    }

    /// The running sum of the squares of the points added.
    pub fn syy(&self) -> (r: i128)
        ensures
            r == self@.syy,
    {
        self.syy
    }

    /// The number of points.
    pub fn len(&self) -> (r: i128)
        ensures
            r == self@.points.len(),
            r <= usize::MAX,
    {
        self.points.len() as i128
    }

    /// The first point: the smallest once the points are sorted.
    pub fn min(&self) -> (r: Option<&i64>)
        ensures
            r == (if self@.points.len() == 0 { None } else { Some(&self@.points[0]) }),
    {
        self.points.first()
    }

    /// The last point: the largest once the points are sorted.
    pub fn max(&self) -> (r: Option<&i64>)
        ensures
            r == (if self@.points.len() == 0 {
                None
            } else {
                Some(&self@.points[self@.points.len() - 1])
            }),
    {
        self.points.last()
    }

    /// The point at index `len / 2`: the median once the points are sorted.
    pub fn median(&self) -> (r: Option<&i64>)
        ensures
            r == (if self@.points.len() == 0 {
                None
            } else {
                Some(&self@.points[(self@.points.len() / 2) as int])
            }),
    {
        let l = self.len() as usize;
        if l / 2 < self.points.len() {
            Some(&self.points[l / 2])
        } else {
            None
        }
    }

    /// The mean of the points, from the running sum, rounded toward zero.
    pub fn avg(&self) -> (r: i128)
        requires
            self@.points.len() > 0,
        ensures
            r == spec_avg(self@),
    {
        self.sy / self.len()
    }

    /// The row of Student's t table for comparing this data set with
    /// `other`: the one for their `n1 + n2 - 2` degrees of freedom, or the
    /// one for infinity past the table's end.
    pub fn student_row(&self, other: &DataSet) -> (r: usize)
        requires
            self@.points.len() + other@.points.len() >= 2,
        ensures
            r == spec_student_row(self@.points.len() + other@.points.len() - 2),
    {
        let i = self.len() + other.len() - 2;
        if i > NSTUDENT as i128 {
            0
        } else {
            i as usize
        }
    }

    /// The pooled sum of squared deviations of this data set and `other`:
    /// each variance weighted by its degrees of freedom.
    pub fn pooled_sum_of_squares(&self, other: &DataSet) -> (r: i128)
        requires
            var_defined(self@),
            var_defined(other@),
            i128::MIN <= (self@.points.len() - 1) * spec_var(self@) <= i128::MAX,
            i128::MIN <= (other@.points.len() - 1) * spec_var(other@) <= i128::MAX,
            i128::MIN <= (self@.points.len() - 1) * spec_var(self@) + (other@.points.len() - 1) * spec_var(
                other@,
            ) <= i128::MAX,
        ensures
            r == (self@.points.len() - 1) * spec_var(self@) + (other@.points.len() - 1) * spec_var(other@),
    {
        (self.len() - 1) * self.var() + (other.len() - 1) * other.var()
    }

    /// The sample variance, from the running sums, with integer division.
    pub fn var(&self) -> (r: i128)
        requires
            var_defined(self@),
        ensures
            r == spec_var(self@),
    {
        proof {
            let y = self.sy;
            assert(y * y >= 0) by (nonlinear_arith);
        }
        (self.syy - self.sy * self.sy / self.len()) / (self.len() - 1)
    }
}

/// A data set whose sums agree with its points can take any further points,
/// as long as the square of every point, old and new, fits in an `i64` and
/// all of them fit in one `Vec`.
pub proof fn lemma_can_add(v: DataSetView, pts: Seq<i64>)
    requires
        tracks_points(v),
        v.points.len() + pts.len() <= usize::MAX,
        forall|i: int| 0 <= i < v.points.len() ==> square_fits(#[trigger] v.points[i]),
        forall|i: int| 0 <= i < pts.len() ==> square_fits(#[trigger] pts[i]),
    ensures
        can_add(v, pts),
{
    assert forall|k: int| 0 <= k <= pts.len() implies i128::MIN <= v.sy + #[trigger] sum(pts.take(k)) <= i128::MAX by {
        let t = v.points + pts.take(k);
        assert forall|i: int| 0 <= i < t.len() implies #[trigger] t[i] * t[i] <= i64::MAX by {
            if i < v.points.len() {
                assert(square_fits(v.points[i]));
            } else {
                assert(t[i] == pts[i - v.points.len()]);
                assert(square_fits(pts[i - v.points.len()]));
            }
        }
        lemma_sum_bound(t);
        lemma_sum_append(v.points, pts.take(k));
    }
    let t = v.points + pts;
    assert forall|i: int| 0 <= i < t.len() implies #[trigger] t[i] * t[i] <= i64::MAX by {
        if i < v.points.len() {
            assert(square_fits(v.points[i]));
        } else {
            assert(square_fits(pts[i - v.points.len()]));
        }
    }
    lemma_sum_bound(t);
    lemma_sum_append(v.points, pts);
}

/// Once the points are sorted, the first is the smallest and the last the
/// largest: what `min` and `max` return bound every point.
pub proof fn law_sorted_min_max(v: DataSetView)
    requires
        sorted(v.points),
        v.points.len() > 0,
    ensures
        forall|i: int|
            0 <= i < v.points.len() ==> v.points[0] <= #[trigger] v.points[i] <= v.points[v.points.len()
                - 1],
{
}

proof fn lemma_trunc_div_between(x: int, n: int, a: int, b: int)
    requires
        n > 0,
        n * a <= x <= n * b,
    ensures
        a <= trunc_div(x, n) <= b,
{
    if x >= 0 {
        vstd::arithmetic::div_mod::lemma_fundamental_div_mod(x, n);
        let q = x / n;
        let r = x % n;
        assert(a <= q <= b) by (nonlinear_arith)
            requires
                n > 0,
                x == n * q + r,
                0 <= r < n,
                n * a <= x <= n * b,
        ;
    } else {
        let y = -x;
        assert(n * (-b) == -(n * b) && n * (-a) == -(n * a)) by (nonlinear_arith);
        vstd::arithmetic::div_mod::lemma_fundamental_div_mod(y, n);
        let q = y / n;
        let r = y % n;
        assert(-b <= q <= -a) by (nonlinear_arith)
            requires
                n > 0,
                y == n * q + r,
                0 <= r < n,
                n * (-b) <= y <= n * (-a),
        ;
    }
}

/// The mean that `avg` returns, for a data set whose sums agree with its
/// sorted points, lies between `min` and `max`.
pub proof fn law_avg_between_min_max(v: DataSetView)
    requires
        tracks_points(v),
        sorted(v.points),
        v.points.len() > 0,
    ensures
        v.points[0] <= spec_avg(v) <= v.points[v.points.len() - 1],
{
    let n = v.points.len() as int;
    let lo = v.points[0] as int;
    let hi = v.points[n - 1] as int;
    lemma_sum_between(v.points, lo, hi);
    lemma_trunc_div_between(v.sy, n, lo, hi);
}

/// The variance that `var` returns, for a data set of at least two points
/// whose sums agree with its points, is never negative.
pub proof fn law_var_nonnegative(v: DataSetView)
    requires
        tracks_points(v),
        v.points.len() >= 2,
    ensures
        var_numerator(v) >= 0,
        spec_var(v) >= 0,
{
    let n = v.points.len() as int;
    let s2 = v.sy * v.sy;
    lemma_sum_sq_dominates(v.points);
    let w = v.sy;
    assert(w * w >= 0) by (nonlinear_arith);
    vstd::arithmetic::div_mod::lemma_fundamental_div_mod(s2, n);
    let q = s2 / n;
    let r = s2 % n;
    assert(q <= v.syy) by (nonlinear_arith)
        requires
            n > 0,
            s2 == n * q + r,
            0 <= r < n,
            n * v.syy >= s2,
    ;
    let num = var_numerator(v);
    assert(num >= 0);
    vstd::arithmetic::div_mod::lemma_div_pos_is_pos(num, n - 1);
}

/// The sums of every data set fit their fields.
pub proof fn lemma_sums_in_range(ds: &DataSet)
    ensures
        sums_in_range(ds@),
{
}

/// The square of `x` fits in an `i64` exactly when `|x| <= 3037000499`.
pub proof fn lemma_square_fits_bound(x: i64)
    ensures
        square_fits(x) <==> -3037000499 <= x <= 3037000499,
{
    let b: int = 3037000499;
    if -b <= x <= b {
        assert(x * x <= b * b) by (nonlinear_arith)
            requires
                -b <= x <= b,
        ;
    } else {
        assert(x * x >= (b + 1) * (b + 1)) by (nonlinear_arith)
            requires
                x < -b || x > b,
                b > 0,
        ;
    }
}

/// Adding points whose squares fit in an `i64` to a data set whose sums
/// agree with its points (whose squares fit too), as many as one `Vec` can
/// hold, never overflows; the points are appended in the order given, and
/// the sums still agree with the points.
pub proof fn law_add_points_tracks(v: DataSetView, pts: Seq<i64>)
    requires
        tracks_points(v),
        v.points.len() + pts.len() <= usize::MAX,
        forall|i: int| 0 <= i < v.points.len() ==> square_fits(#[trigger] v.points[i]),
        forall|i: int| 0 <= i < pts.len() ==> square_fits(#[trigger] pts[i]),
    ensures
        can_add(v, pts),
        added(v, pts).name == v.name,
        added(v, pts).points == v.points + pts,
        tracks_points(added(v, pts)),
{
    lemma_can_add(v, pts);
    lemma_sum_append(v.points, pts);
}

/// Adding `a` and then `b` is adding `a + b`, and each overflows exactly
/// when the other does; adding nothing changes nothing.
pub proof fn law_add_points_concat(v: DataSetView, a: Seq<i64>, b: Seq<i64>)
    ensures
        added(added(v, a), b) == added(v, a + b),
        can_add(v, a + b) <==> (can_add(v, a) && can_add(added(v, a), b)),
        added(v, Seq::<i64>::empty()) == v,
        sums_in_range(v) ==> can_add(v, Seq::<i64>::empty()),
{
    let ab = a + b;
    lemma_sum_append(a, b);
    assert(v.points + a + b =~= v.points + ab);
    let e = Seq::<i64>::empty();
    assert(v.points + e =~= v.points);
    assert(e.take(0) =~= e);
    assert(sum(e) == 0 && sum_sq(e) == 0);
    let w = added(v, a);
    if can_add(v, ab) {
        assert forall|i: int| 0 <= i < a.len() implies square_fits(#[trigger] a[i]) by {
            assert(ab[i] == a[i]);
        }
        assert forall|k: int| 0 <= k <= a.len() implies i128::MIN <= v.sy + #[trigger] sum(a.take(k)) <= i128::MAX by {
            assert(ab.take(k) =~= a.take(k));
            assert(i128::MIN <= v.sy + sum(ab.take(k)) <= i128::MAX);
        }
        lemma_sum_sq_prefix(ab, a.len() as int);
        assert(ab.take(a.len() as int) =~= a);
        assert forall|i: int| 0 <= i < b.len() implies square_fits(#[trigger] b[i]) by {
            assert(ab[a.len() + i] == b[i]);
            assert(square_fits(ab[a.len() + i]));
        }
        assert forall|k: int| 0 <= k <= b.len() implies i128::MIN <= w.sy + #[trigger] sum(b.take(k)) <= i128::MAX by {
            assert(ab.take(a.len() + k) =~= a + b.take(k));
            lemma_sum_append(a, b.take(k));
            assert(i128::MIN <= v.sy + sum(ab.take(a.len() + k)) <= i128::MAX);
        }
    }
    if can_add(v, a) && can_add(w, b) {
        assert forall|i: int| 0 <= i < ab.len() implies square_fits(#[trigger] ab[i]) by {
            if i < a.len() {
                assert(square_fits(a[i]));
            } else {
                assert(ab[i] == b[i - a.len()]);
                assert(square_fits(b[i - a.len()]));
            }
        }
        assert forall|k: int| 0 <= k <= ab.len() implies i128::MIN <= v.sy + #[trigger] sum(ab.take(k)) <= i128::MAX by {
            if k <= a.len() {
                assert(ab.take(k) =~= a.take(k));
            } else {
                assert(ab.take(k) =~= a + b.take(k - a.len()));
                lemma_sum_append(a, b.take(k - a.len()));
                assert(a.take(a.len() as int) =~= a);
                assert(i128::MIN <= v.sy + sum(a.take(a.len() as int)) <= i128::MAX);
                assert(i128::MIN <= w.sy + sum(b.take(k - a.len())) <= i128::MAX);
            }
        }
    }
}

/// Adding one point with `add_point` is adding the one-point slice with
/// `add_points`: the same conditions keep it from overflowing, and both
/// leave the data set in the state `added(v, seq![p])`.
pub proof fn law_add_point_is_add_points(v: DataSetView, p: i64)
    requires
        sums_in_range(v),
    ensures
        can_add(v, seq![p]) <==> (square_fits(p) && i128::MIN <= v.sy + p <= i128::MAX && v.syy + p
            * p <= i128::MAX),
        added(v, seq![p]) == (DataSetView {
            name: v.name,
            points: v.points.push(p),
            sy: v.sy + p,
            syy: v.syy + p * p,
        }),
{
    let s = seq![p];
    lemma_sum_single(p);
    assert(s.take(0) =~= Seq::<i64>::empty());
    assert(s.take(1) =~= s);
    assert(sum(Seq::<i64>::empty()) == 0);
    assert(v.points + s =~= v.points.push(p));
    if square_fits(p) && i128::MIN <= v.sy + p <= i128::MAX && v.syy + p * p <= i128::MAX {
        assert forall|k: int| 0 <= k <= s.len() implies i128::MIN <= v.sy + #[trigger] sum(s.take(k)) <= i128::MAX by {
            if k == 0 {
                assert(s.take(k) =~= Seq::<i64>::empty());
            } else {
                assert(s.take(k) =~= s);
            }
        }
    }
    if can_add(v, s) {
        assert(square_fits(s[0]));
        assert(i128::MIN <= v.sy + sum(s.take(1)) <= i128::MAX);
    }
}

/// The mean is the running sum divided by the number of points, rounded
/// toward zero: `n * avg` lies within `n` of the sum, on the same side of
/// zero; for a data set whose sums agree with its points, the running sum is
/// the sum of the points.
pub proof fn law_avg_is_truncated_mean(v: DataSetView)
    requires
        v.points.len() >= 1,
    ensures
        v.sy >= 0 ==> 0 <= v.points.len() * spec_avg(v) <= v.sy < v.points.len() * (spec_avg(v) + 1),
        v.sy < 0 ==> v.points.len() * (spec_avg(v) - 1) < v.sy <= v.points.len() * spec_avg(v) <= 0,
        tracks_points(v) ==> v.sy == sum(v.points),
{
    let n = v.points.len() as int;
    let a = spec_avg(v);
    if v.sy >= 0 {
        vstd::arithmetic::div_mod::lemma_fundamental_div_mod(v.sy, n);
        let q = v.sy / n;
        let r = v.sy % n;
        assert(a == q);
        assert(0 <= n * q <= v.sy < n * (q + 1)) by (nonlinear_arith)
            requires
                n >= 1,
                v.sy == n * q + r,
                0 <= r < n,
                v.sy >= 0,
        ;
    } else {
        let y = -v.sy;
        vstd::arithmetic::div_mod::lemma_fundamental_div_mod(y, n);
        let q = y / n;
        let r = y % n;
        assert(a == -q);
        assert(n * (-q - 1) < v.sy <= n * (-q) <= 0) by (nonlinear_arith)
            requires
                n >= 1,
                y == n * q + r,
                0 <= r < n,
                y > 0,
                v.sy == -y,
        ;
    }
}

/// The variance divides the numerator `syy - (sy * sy) / n` by `n - 1`
/// for every count `n >= 2`: for a data set whose sums agree with its
/// points, `(n - 1) * var` lies within `n - 1` below that numerator.
pub proof fn law_var_divides_by_n_minus_one(v: DataSetView)
    requires
        tracks_points(v),
        v.points.len() >= 2,
    ensures
        (v.points.len() - 1) * spec_var(v) <= v.syy - (v.sy * v.sy) / (v.points.len() as int),
        v.syy - (v.sy * v.sy) / (v.points.len() as int) < (v.points.len() - 1) * (spec_var(v) + 1),
{
    let n = v.points.len() as int;
    law_var_nonnegative(v);
    let w = v.sy;
    assert(w * w >= 0) by (nonlinear_arith);
    let num = v.syy - (v.sy * v.sy) / n;
    assert(num == var_numerator(v));
    let m = n - 1;
    vstd::arithmetic::div_mod::lemma_fundamental_div_mod(num, m);
    let q = num / m;
    let r = num % m;
    assert(spec_var(v) == q);
    assert(m * q <= num < m * (q + 1)) by (nonlinear_arith)
        requires
            m >= 1,
            num == m * q + r,
            0 <= r < m,
    ;
}

/// Two data sets with `dof = n1 + n2 - 2` degrees of freedom between them
/// are compared on row `dof` of Student's t table while the table has that
/// row (up to 100), and on row 0, the row for infinity, only past it.
pub proof fn law_student_row(dof: int)
    requires
        dof >= 0,
    ensures
        dof <= 100 ==> spec_student_row(dof) == dof,
        dof > 100 ==> spec_student_row(dof) == 0,
        spec_student_row(dof) == 0 ==> dof == 0 || dof > 100,
{
}

} // verus!
