use vstd::prelude::*;

verus! {

/// The size of each of `buckets` equal buckets of `[0, r)`.
pub open spec fn bucket_size(buckets: int, r: int) -> int {
    r / buckets
}

/// `interval(bucket, buckets, r)` neither divides by zero nor overflows nor
/// underflows: there is at least one bucket, each bucket holds at least one
/// item, and the bucket's end fits in a `usize`.
pub open spec fn interval_defined(bucket: int, buckets: int, r: int) -> bool {
    &&& buckets > 0
    &&& bucket_size(buckets, r) >= 1
    &&& bucket_size(buckets, r) * (bucket + 1) <= usize::MAX
}

/// Bucket `bucket` of `[0, r)` split into `buckets` equal buckets, as an
/// inclusive range; the last bucket also takes the slop up to `r - 1`.
pub open spec fn spec_interval(bucket: int, buckets: int, r: int) -> (int, int) {
    let size = bucket_size(buckets, r);
    let start = size * bucket;
    if bucket == buckets - 1 {
        (start, r - 1)
    } else {
        (start, start + size - 1)
    }
}

proof fn lemma_bucket_size(buckets: int, r: int)
    requires
        buckets > 0,
        r >= 0,
    ensures
        0 <= bucket_size(buckets, r) * buckets <= r,
        r - bucket_size(buckets, r) * buckets < buckets,
{
    let q = r / buckets;
    vstd::arithmetic::div_mod::lemma_fundamental_div_mod(r, buckets);
    assert(0 <= r % buckets < buckets);
    assert(q >= 0);
    assert(q * buckets >= 0) by (nonlinear_arith)
        requires
            q >= 0,
            buckets > 0,
    ;
    assert(q * buckets == buckets * q) by (nonlinear_arith);
}

/// Splits `[0, r)` into `buckets` equal buckets and returns bucket `bucket`
/// as an inclusive range; the slop goes to the last bucket.
pub fn interval(bucket: usize, buckets: usize, r: usize) -> (res: (usize, usize))
    requires
        interval_defined(bucket as int, buckets as int, r as int),
    ensures
        res.0 == spec_interval(bucket as int, buckets as int, r as int).0,
        res.1 == spec_interval(bucket as int, buckets as int, r as int).1,
{
    let bucket_size = r / buckets;
    proof {
        lemma_bucket_size(buckets as int, r as int);
        let s = bucket_size as int;
        assert(s * bucket <= s * (bucket + 1)) by (nonlinear_arith)
            requires
                s >= 1,
                bucket >= 0,
        ;
        assert(s * (bucket + 1) == s * bucket + s) by (nonlinear_arith);
    }
    let slop = r - bucket_size * buckets;
    let start = bucket_size * bucket;
    let end = start + bucket_size - 1;
    if bucket == buckets - 1 {
        proof {
            assert(bucket_size * bucket + bucket_size == bucket_size * buckets) by (nonlinear_arith)
                requires
                    bucket + 1 == buckets,
            ;
        }
        (start, end + slop)
    } else {
        (start, end)
    }
}

/// Splits `[0, r)` into `buckets` equal buckets, as inclusive ranges in
/// order; the slop goes to the last bucket.
pub fn intervals(buckets: usize, r: usize) -> (res: Vec<(usize, usize)>)
    requires
        buckets == 0 || r >= buckets,
    ensures
        res@.len() == buckets,
        forall|b: int|
            0 <= b < buckets ==> (#[trigger] res@[b]).0 == spec_interval(b, buckets as int, r as int).0
                && res@[b].1 == spec_interval(b, buckets as int, r as int).1,
{
    let mut res: Vec<(usize, usize)> = Vec::new();
    let mut b: usize = 0;
    while b < buckets
        invariant
            buckets == 0 || r >= buckets,
            0 <= b <= buckets,
            res@.len() == b,
            forall|c: int|
                0 <= c < b ==> (#[trigger] res@[c]).0 == spec_interval(c, buckets as int, r as int).0
                    && res@[c].1 == spec_interval(c, buckets as int, r as int).1,
        decreases buckets - b,
    {
        proof {
            lemma_bucket_size(buckets as int, r as int);
            vstd::arithmetic::div_mod::lemma_div_is_ordered(buckets as int, r as int, buckets as int);
            vstd::arithmetic::div_mod::lemma_div_basics(buckets as int);
            let s = bucket_size(buckets as int, r as int);
            assert(s * (b + 1) <= s * buckets) by (nonlinear_arith)
                requires
                    s >= 0,
                    b + 1 <= buckets,
            ;
        }
        let iv = interval(b, buckets, r);
        res.push(iv);
        b = b + 1;
    }
    res
}

/// Calls `num_cpus::get`, which documents that it returns the number of
/// logical CPUs available to the process (after CPU affinity and cgroup
/// quotas) and that it always returns at least 1. Which number comes back
/// depends on the machine; only the lower bound is stated.
#[verifier::external_body]
fn available_cpus() -> (n: usize)
    ensures
        n >= 1,
{
    num_cpus::get()
}

/// What `work_intervals` gives for a file of `filesize` bytes on a machine
/// with `cpus` CPUs: one bucket per CPU, as `intervals` makes them, where the
/// file has at least as many bytes as there are CPUs, and `None` otherwise.
pub open spec fn cpu_plan(r: Option<Vec<(usize, usize)>>, cpus: int, filesize: int) -> bool {
    match r {
        Some(v) => {
            &&& cpus <= filesize
            &&& v@.len() == cpus
            &&& forall|b: int|
                0 <= b < cpus ==> (#[trigger] v@[b]).0 == spec_interval(b, cpus, filesize).0
                    && v@[b].1 == spec_interval(b, cpus, filesize).1
        },
        None => filesize < cpus,
    }
}

/// One bucket of the file's byte range per CPU, as `intervals` makes them,
/// where the file has at least as many bytes as there are CPUs; `None` where
/// it has fewer, where a bucket would be empty.
pub fn plan_work(cpus: usize, filesize: usize) -> (r: Option<Vec<(usize, usize)>>)
    requires
        cpus >= 1,
    ensures
        cpu_plan(r, cpus as int, filesize as int),
{
    if filesize >= cpus {
        Some(intervals(cpus, filesize))
    } else {
        None
    }
}

/// `plan_work` for the number of CPUs available to the process, which
/// depends on the machine: the result is the plan for some count of at least
/// one, so a file of `usize::MAX` bytes, which no count exceeds, always gets
/// its buckets.
pub fn work_intervals(filesize: usize) -> (r: Option<Vec<(usize, usize)>>)
    ensures
        exists|cpus: int| 1 <= cpus <= usize::MAX && #[trigger] cpu_plan(r, cpus, filesize as int),
        filesize == 0 ==> r is None,
        filesize == usize::MAX ==> r is Some,
        r matches Some(v) ==> {
            &&& 1 <= v@.len() <= filesize
            &&& forall|b: int|
                0 <= b < v@.len() ==> (#[trigger] v@[b]).0 == spec_interval(b, v@.len() as int, filesize as int).0
                    && v@[b].1 == spec_interval(b, v@.len() as int, filesize as int).1
        },
{
    let n = available_cpus();
    let r = plan_work(n, filesize);
    proof {
        assert(cpu_plan(r, n as int, filesize as int));
    }
    r
}

/// What to do with the next interval when aligning intervals to delimiters.
pub enum AlignStep {
    /// The interval is already covered: leave it out.
    Skip,
    /// Keep the interval from `start`, and move its end from `end` up to the
    /// next delimiter.
    Probe { start: usize, end: usize },
}

/// The decision that `align_step` makes for the interval `iv`, given the
/// last interval aligned so far (if any) and the data's length.
pub open spec fn spec_align_step(last: Option<(usize, usize)>, iv: (usize, usize), length: int) -> AlignStep {
    match last {
        None => AlignStep::Probe { start: iv.0, end: iv.1 },
        Some(l) => {
            if l.1 == length - 1 {
                AlignStep::Skip
            } else if iv.1 <= l.0 {
                AlignStep::Skip
            } else if iv.0 <= l.1 {
                let start = (l.1 + 1) as usize;
                AlignStep::Probe { start, end: if iv.1 < start { start } else { iv.1 } }
            } else {
                AlignStep::Probe { start: iv.0, end: iv.1 }
            }
        },
    }
}

/// `align_step` neither underflows on `length - 1` nor overflows on the
/// start after the last interval.
pub open spec fn align_step_defined(last: Option<(usize, usize)>, iv: (usize, usize), length: int) -> bool {
    match last {
        None => true,
        Some(l) => length >= 1 && (l.1 != length - 1 && iv.1 > l.0 && iv.0 <= l.1 ==> l.1 < usize::MAX),
    }
}

/// Decides what to do with the interval `iv` given the last interval aligned
/// so far: skip it when the last one already reaches the end of the data or
/// covers it, else keep it, starting after the last one where they overlap.
pub fn align_step(last: Option<(usize, usize)>, iv: (usize, usize), length: usize) -> (r: AlignStep)
    requires
        align_step_defined(last, iv, length as int),
    ensures
        r == spec_align_step(last, iv, length as int),
{
    let (mut new_start, mut new_end) = iv;
    match last {
        Some((last_start, last_end)) => {
            if last_end == length - 1 {
                return AlignStep::Skip;
            }
            if new_end <= last_start {
                return AlignStep::Skip;
            }
            if new_start <= last_end {
                new_start = last_end + 1;
                if new_end < new_start {
                    new_end = new_start;
                }
            }
        },
        None => {},
    }
    AlignStep::Probe { start: new_start, end: new_end }
}

/// The interval that a probe keeps once the read from its end found that
/// `n` bytes reach the delimiter (or the end of the data).
pub open spec fn spec_align_finish(start: usize, end: usize, n: int) -> (usize, usize) {
    (start, (end + n - 1) as usize)
}

/// Ends a probed interval at the delimiter that a read of `n` bytes from
/// its end reached.
pub fn align_finish(start: usize, end: usize, n: usize) -> (r: (usize, usize))
    requires
        1 <= end + n <= usize::MAX,
    ensures
        r == spec_align_finish(start, end, n as int),
{
    (start, end + n - 1)
}

/// How many bytes a `read_until(delim)` from position `p` reads: up to and
/// including the first `delim` at or after `p`, or to the end of the data.
pub open spec fn until_delim(data: Seq<u8>, p: int, delim: u8) -> int
    decreases data.len() - p,
{
    if p < 0 || p >= data.len() {
        0
    } else if data[p] == delim {
        1
    } else {
        1 + until_delim(data, p + 1, delim)
    }
}

/// Counts the bytes that a `read_until(delim)` from position `p` would read.
pub fn read_until_count(data: &[u8], p: usize, delim: u8) -> (n: usize)
    ensures
        n == until_delim(data@, p as int, delim),
{
    let len = data.len();
    let mut q = p;
    while q < len && data[q] != delim
        invariant
            len == data@.len(),
            p <= q,
            p < len ==> q <= len && until_delim(data@, p as int, delim) == (q - p) + until_delim(
                data@,
                q as int,
                delim,
            ),
            p >= len ==> q == p,
        decreases len - q,
    {
        q = q + 1;
    }
    if q < len {
        q - p + 1
    } else {
        q - p
    }
}

/// The last interval kept so far, if any.
pub open spec fn last_of(ret: Seq<(usize, usize)>) -> Option<(usize, usize)> {
    if ret.len() == 0 {
        None
    } else {
        Some(ret.last())
    }
}

/// The intervals kept after aligning each of `iv`, in order, to the
/// delimiters of `data`.
pub open spec fn aligned(iv: Seq<(usize, usize)>, data: Seq<u8>, length: int, delim: u8) -> Seq<(usize, usize)>
    decreases iv.len(),
{
    if iv.len() == 0 {
        seq![]
    } else {
        let ret = aligned(iv.drop_last(), data, length, delim);
        match spec_align_step(last_of(ret), iv.last(), length) {
            AlignStep::Skip => ret,
            AlignStep::Probe { start, end } => ret.push(
                spec_align_finish(start, end, until_delim(data, end as int, delim)),
            ),
        }
    }
}

/// Aligning the `k`-th interval, after the ones before it, neither
/// underflows nor overflows.
pub open spec fn align_defined_at(iv: Seq<(usize, usize)>, data: Seq<u8>, length: int, delim: u8, k: int) -> bool {
    let ret = aligned(iv.take(k), data, length, delim);
    &&& align_step_defined(last_of(ret), iv[k], length)
    &&& (spec_align_step(last_of(ret), iv[k], length) matches AlignStep::Probe { start, end } ==> 1 <= end
        + until_delim(data, end as int, delim) <= usize::MAX)
}

/// No step of aligning `iv` to the delimiters of `data` underflows or overflows.
pub open spec fn align_defined(iv: Seq<(usize, usize)>, data: Seq<u8>, length: int, delim: u8) -> bool {
    forall|k: int| 0 <= k < iv.len() ==> #[trigger] align_defined_at(iv, data, length, delim, k)
}

/// Range `b` starts right after range `a`, whose last byte is `delim`.
pub open spec fn follows_by(data: Seq<u8>, a: (usize, usize), b: (usize, usize), delim: u8) -> bool {
    b.0 == a.1 + 1 && data[a.1 as int] == delim
}

/// The inclusive ranges `cs` cut `data` into pieces after delimiters: the
/// first starts at 0, each starts right after the one before it, which ends
/// with `delim`, none is empty or past the end, and the last ends at the end
/// of the data.
pub open spec fn chunks_cover_by(data: Seq<u8>, cs: Seq<(usize, usize)>, delim: u8) -> bool {
    &&& cs.len() >= 1
    &&& cs[0].0 == 0
    &&& cs.last().1 + 1 == data.len()
    &&& forall|k: int| 0 <= k < cs.len() ==> (#[trigger] cs[k]).0 <= cs[k].1 < data.len()
    &&& forall|k: int| 0 <= k < cs.len() - 1 ==> #[trigger] follows_by(data, cs[k], cs[k + 1], delim)
}

proof fn lemma_until_delim(data: Seq<u8>, p: int, delim: u8)
    requires
        0 <= p < data.len(),
    ensures
        1 <= until_delim(data, p, delim),
        p + until_delim(data, p, delim) <= data.len(),
        data[p + until_delim(data, p, delim) - 1] == delim || p + until_delim(data, p, delim)
            == data.len(),
    decreases data.len() - p,
{
    if data[p] != delim {
        if p + 1 < data.len() {
            lemma_until_delim(data, p + 1, delim);
        } else {
            assert(until_delim(data, p + 1, delim) == 0);
        }
    }
}

/// Ranges `a` and `b` are neighbours: `b` starts right after `a`.
pub open spec fn adjacent(a: (usize, usize), b: (usize, usize)) -> bool {
    b.0 == a.1 + 1
}

/// The ranges `iv` partition `[0, len)` in order, as `intervals` makes them:
/// the first starts at 0, each starts right after the one before it, none is
/// empty or past the end, and the last ends at `len - 1`.
pub open spec fn partitions(iv: Seq<(usize, usize)>, len: int) -> bool {
    &&& iv.len() >= 1
    &&& iv[0].0 == 0
    &&& iv.last().1 == len - 1
    &&& forall|b: int| 0 <= b < iv.len() ==> (#[trigger] iv[b]).0 <= iv[b].1 < len
    &&& forall|b: int| 0 <= b < iv.len() - 1 ==> #[trigger] adjacent(iv[b], iv[b + 1])
}

/// What holds of the intervals kept after aligning a prefix of a partition:
/// they cut the data after delimiters from 0 on, and the last one reaches at
/// least `reach` and ends with `delim` or at the end of the data.
pub open spec fn aligned_so_far(ret: Seq<(usize, usize)>, data: Seq<u8>, delim: u8, reach: int) -> bool {
    &&& ret.len() >= 1
    &&& ret[0].0 == 0
    &&& forall|j: int| 0 <= j < ret.len() ==> (#[trigger] ret[j]).0 <= ret[j].1 < data.len()
    &&& forall|j: int| 0 <= j < ret.len() - 1 ==> #[trigger] follows_by(data, ret[j], ret[j + 1], delim)
    &&& ret.last().1 >= reach
    &&& (ret.last().1 == data.len() - 1 || data[ret.last().1 as int] == delim)
}

#[verifier::rlimit(40)]
proof fn lemma_align_prefix(data: Seq<u8>, iv: Seq<(usize, usize)>, delim: u8, k: int)
    requires
        1 <= data.len() <= usize::MAX,
        partitions(iv, data.len() as int),
        1 <= k <= iv.len(),
    ensures
        aligned_so_far(aligned(iv.take(k), data, data.len() as int, delim), data, delim, iv[k - 1].1 as int),
        align_defined_at(iv, data, data.len() as int, delim, k - 1),
    decreases k,
{
    let len = data.len() as int;
    let x = iv[k - 1];
    assert(x.0 <= x.1 < len);
    let tk = iv.take(k);
    assert(tk.drop_last() =~= iv.take(k - 1));
    assert(tk.last() == x);
    let ret = aligned(iv.take(k - 1), data, len, delim);
    let next = aligned(tk, data, len, delim);
    if k == 1 {
        assert(iv.take(0) =~= Seq::<(usize, usize)>::empty());
        assert(ret =~= Seq::<(usize, usize)>::empty());
        lemma_until_delim(data, x.1 as int, delim);
        let c = until_delim(data, x.1 as int, delim);
        assert(next == ret.push(spec_align_finish(x.0, x.1, c)));
        assert(next.len() == 1);
        assert(next[0] == (x.0, (x.1 + c - 1) as usize));
    } else {
        lemma_align_prefix(data, iv, delim, k - 1);
        let w = iv[k - 2];
        assert(adjacent(iv[k - 2], iv[(k - 2) + 1]));
        assert(x.0 == w.1 + 1);
        let l = ret.last();
        assert(last_of(ret) == Some(l));
        assert(ret[ret.len() - 1] == l);
        assert(l.0 <= l.1 < len);
        let step = spec_align_step(last_of(ret), x, len);
        if l.1 == len - 1 {
            assert(step == AlignStep::Skip);
            assert(next == ret);
        } else if x.1 <= l.0 {
            assert(step == AlignStep::Skip);
            assert(next == ret);
        } else {
            assert(data[l.1 as int] == delim);
            let start: usize = (l.1 + 1) as usize;
            let end: usize = if x.0 <= l.1 {
                if x.1 < start { start } else { x.1 }
            } else {
                x.1
            };
            assert(x.0 <= l.1 + 1);
            assert(step == AlignStep::Probe { start, end });
            assert(start <= end < len);
            lemma_until_delim(data, end as int, delim);
            let c = until_delim(data, end as int, delim);
            let nc = spec_align_finish(start, end, c);
            assert(next == ret.push(nc));
            assert(nc.0 <= nc.1 < len);
            assert(follows_by(data, ret[ret.len() - 1], nc, delim));
            assert forall|j: int| 0 <= j < next.len() implies (#[trigger] next[j]).0 <= next[j].1 < data.len() by {
                if j < ret.len() {
                    assert(next[j] == ret[j]);
                }
            }
            assert forall|j: int| 0 <= j < next.len() - 1 implies #[trigger] follows_by(data, next[j], next[j + 1], delim) by {
                if j < ret.len() - 1 {
                    assert(next[j] == ret[j]);
                    assert(next[j + 1] == ret[j + 1]);
                } else {
                    assert(next[j] == ret[ret.len() - 1]);
                    assert(next[j + 1] == nc);
                }
            }
            assert(next[0] == ret[0]);
        }
    }
}

/// Aligning any partition of `[0, len)` to the delimiters of data of length
/// `len` never underflows or overflows, and cuts the data into pieces after
/// delimiters that cover it from its first byte to its last.
pub proof fn law_align_partition(data: Seq<u8>, iv: Seq<(usize, usize)>, delim: u8)
    requires
        data.len() <= usize::MAX,
        partitions(iv, data.len() as int),
    ensures
        align_defined(iv, data, data.len() as int, delim),
        chunks_cover_by(data, aligned(iv, data, data.len() as int, delim), delim),
{
    let len = data.len() as int;
    assert(iv[0].0 <= iv[0].1 < len);
    assert forall|k: int| 0 <= k < iv.len() implies #[trigger] align_defined_at(iv, data, len, delim, k) by {
        lemma_align_prefix(data, iv, delim, k + 1);
    }
    lemma_align_prefix(data, iv, delim, iv.len() as int);
    assert(iv.take(iv.len() as int) =~= iv);
}

proof fn lemma_until_delim_at_end(data: Seq<u8>, e: int, delim: u8)
    requires
        0 <= e < data.len(),
        data[e] == delim || e == data.len() - 1,
    ensures
        until_delim(data, e, delim) == 1,
{
    if data[e] != delim {
        assert(until_delim(data, e + 1, delim) == 0);
    }
}

#[verifier::rlimit(40)]
proof fn lemma_keep_prefix(data: Seq<u8>, cs: Seq<(usize, usize)>, delim: u8, k: int)
    requires
        data.len() <= usize::MAX,
        chunks_cover_by(data, cs, delim),
        1 <= k <= cs.len(),
    ensures
        aligned(cs.take(k), data, data.len() as int, delim) == cs.take(k),
        align_defined_at(cs, data, data.len() as int, delim, k - 1),
    decreases k,
{
    let len = data.len() as int;
    let x = cs[k - 1];
    assert(x.0 <= x.1 < len);
    let tk = cs.take(k);
    assert(tk.drop_last() =~= cs.take(k - 1));
    assert(tk.last() == x);
    if k < cs.len() {
        assert(follows_by(data, cs[k - 1], cs[(k - 1) + 1], delim));
        assert(data[x.1 as int] == delim);
    } else {
        assert(x == cs.last());
    }
    lemma_until_delim_at_end(data, x.1 as int, delim);
    if k == 1 {
        assert(cs.take(0) =~= Seq::<(usize, usize)>::empty());
        assert(aligned(cs.take(0), data, len, delim) =~= Seq::<(usize, usize)>::empty());
        assert(aligned(tk, data, len, delim) =~= seq![x]);
        assert(tk =~= seq![x]);
    } else {
        lemma_keep_prefix(data, cs, delim, k - 1);
        let l = cs[k - 2];
        assert(follows_by(data, cs[k - 2], cs[(k - 2) + 1], delim));
        assert(l.0 <= l.1);
        let ret = cs.take(k - 1);
        assert(ret.last() == l);
        assert(last_of(ret) == Some(l));
        assert(spec_align_step(last_of(ret), x, len) == AlignStep::Probe { start: x.0, end: x.1 });
        assert(aligned(tk, data, len, delim) == ret.push(x));
        assert(ret.push(x) =~= tk);
    }
}

/// Aligning pieces that already end at delimiters, and so anything that
/// aligning has returned, changes nothing: the same pieces come back, and
/// no step underflows or overflows.
pub proof fn law_align_keeps_aligned(data: Seq<u8>, cs: Seq<(usize, usize)>, delim: u8)
    requires
        data.len() <= usize::MAX,
        chunks_cover_by(data, cs, delim),
    ensures
        align_defined(cs, data, data.len() as int, delim),
        aligned(cs, data, data.len() as int, delim) == cs,
{
    let len = data.len() as int;
    assert forall|k: int| 0 <= k < cs.len() implies #[trigger] align_defined_at(cs, data, len, delim, k) by {
        lemma_keep_prefix(data, cs, delim, k + 1);
    }
    lemma_keep_prefix(data, cs, delim, cs.len() as int);
    assert(cs.take(cs.len() as int) =~= cs);
}

/// Moves the end of each interval up to the next delimiter in `data` (or to
/// its end), starting each after the last one kept and leaving out those
/// already covered, so that no line of the data is split between two
/// intervals.
pub fn align_intervals_to_delim(intervals: Vec<(usize, usize)>, data: &[u8], length: usize, delim: u8) -> (r: Vec<(usize, usize)>)
    requires
        align_defined(intervals@, data@, length as int, delim),
    ensures
        r@ == aligned(intervals@, data@, length as int, delim),
        partitions(intervals@, length as int) && length == data@.len() ==> chunks_cover_by(
            data@,
            r@,
            delim,
        ),
{
    let mut ret: Vec<(usize, usize)> = Vec::new();
    let count = intervals.len();
    let mut k: usize = 0;
    proof {
        assert(intervals@.take(0) =~= Seq::<(usize, usize)>::empty());
    }
    while k < count
        invariant
            count == intervals@.len(),
            0 <= k <= count,
            align_defined(intervals@, data@, length as int, delim),
            ret@ == aligned(intervals@.take(k as int), data@, length as int, delim),
        decreases count - k,
    {
        proof {
            assert(align_defined_at(intervals@, data@, length as int, delim, k as int));
            assert(intervals@.take(k + 1).drop_last() =~= intervals@.take(k as int));
            assert(intervals@.take(k + 1).last() == intervals@[k as int]);
        }
        let rl = ret.len();
        let last = if rl > 0 {
            Some(ret[rl - 1])
        } else {
            None
        };
        match align_step(last, intervals[k], length) {
            AlignStep::Skip => {},
            AlignStep::Probe { start, end } => {
                let n = read_until_count(data, end, delim);
                ret.push(align_finish(start, end, n));
            },
        }
        k = k + 1;
    }
    proof {
        assert(intervals@.take(count as int) =~= intervals@);
        if partitions(intervals@, length as int) && length == data@.len() {
            law_align_partition(data@, intervals@, delim);
        }
    }
    ret
}

/// Each bucket but the last holds exactly `r / buckets` positions, and
/// bucket `b` starts at `b * (r / buckets)`; the last bucket runs from there
/// to `r - 1`, taking the slop, so it holds at least `r / buckets` and fewer
/// than `r / buckets + buckets` positions.
pub proof fn law_interval_sizes(b: int, buckets: int, r: int)
    requires
        1 <= buckets <= r,
        0 <= b < buckets,
    ensures
        spec_interval(b, buckets, r).0 == b * (r / buckets),
        b < buckets - 1 ==> spec_interval(b, buckets, r).1 - spec_interval(b, buckets, r).0 + 1 == r
            / buckets,
        b == buckets - 1 ==> spec_interval(b, buckets, r).1 == r - 1,
        b == buckets - 1 ==> r / buckets <= spec_interval(b, buckets, r).1 - spec_interval(b, buckets, r).0
            + 1 < r / buckets + buckets,
{
    lemma_bucket_size(buckets, r);
    let size = r / buckets;
    assert(size * b == b * size) by (nonlinear_arith);
    if b == buckets - 1 {
        assert(size * (buckets - 1) == size * buckets - size) by (nonlinear_arith);
    }
}

/// The buckets that `intervals(buckets, r)` returns, as a sequence.
pub open spec fn spec_intervals(buckets: int, r: int) -> Seq<(usize, usize)> {
    Seq::new(
        buckets as nat,
        |b: int| (spec_interval(b, buckets, r).0 as usize, spec_interval(b, buckets, r).1 as usize),
    )
}

/// The buckets partition `[0, r)`: the first starts at 0, each starts right
/// after the one before it ends, none is empty, and the last ends at `r - 1`.
pub proof fn law_intervals_partition(buckets: int, r: int)
    requires
        1 <= buckets <= r,
    ensures
        spec_interval(0, buckets, r).0 == 0,
        spec_interval(buckets - 1, buckets, r).1 == r - 1,
        forall|b: int|
            0 <= b < buckets ==> 0 <= (#[trigger] spec_interval(b, buckets, r)).0 <= spec_interval(
                b,
                buckets,
                r,
            ).1 <= r - 1,
        forall|b: int|
            0 <= b < buckets - 1 ==> (#[trigger] spec_interval(b + 1, buckets, r)).0 == spec_interval(
                b,
                buckets,
                r,
            ).1 + 1,
{
    lemma_bucket_size(buckets, r);
    vstd::arithmetic::div_mod::lemma_div_is_ordered(buckets, r, buckets);
    vstd::arithmetic::div_mod::lemma_div_basics(buckets);
    let size = bucket_size(buckets, r);
    assert(size >= 1);
    assert(size * 0 == 0);
    assert forall|b: int| 0 <= b < buckets implies 0 <= (#[trigger] spec_interval(b, buckets, r)).0
        <= spec_interval(b, buckets, r).1 <= r - 1 by {
        assert(0 <= size * b) by (nonlinear_arith)
            requires
                size >= 1,
                b >= 0,
        ;
        assert(size * b + size <= size * buckets) by (nonlinear_arith)
            requires
                size >= 1,
                b + 1 <= buckets,
        ;
    }
    assert forall|b: int| 0 <= b < buckets - 1 implies (#[trigger] spec_interval(b + 1, buckets, r)).0
        == spec_interval(b, buckets, r).1 + 1 by {
        assert(size * (b + 1) == size * b + size) by (nonlinear_arith);
    }
}

} // verus!
