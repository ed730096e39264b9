use vstd::prelude::*;

verus! {

/// An ASCII decimal digit.
pub open spec fn is_digit(b: u8) -> bool {
    48 <= b <= 57
}

pub open spec fn all_digits(s: Seq<u8>) -> bool {
    forall|i: int| 0 <= i < s.len() ==> is_digit(#[trigger] s[i])
}

/// The number that a string of ASCII decimal digits spells.
pub open spec fn digits_value(s: Seq<u8>) -> nat
    decreases s.len(),
{
    if s.len() == 0 {
        0
    } else {
        digits_value(s.drop_last()) * 10 + (s.last() - 48) as nat
    }
}

/// The integer that a line spells as Rust's `from_str` for signed integers
/// reads it: an optional `+` or `-`, then one or more ASCII digits, and
/// nothing else; `None` for any other line.
pub open spec fn spelled(s: Seq<u8>) -> Option<int> {
    if s.len() > 0 && (s[0] == 45 || s[0] == 43) {
        let d = s.drop_first();
        if d.len() > 0 && all_digits(d) {
            Some(if s[0] == 45 { -digits_value(d) } else { digits_value(d) as int })
        } else {
            None
        }
    } else if s.len() > 0 && all_digits(s) {
        Some(digits_value(s) as int)
    } else {
        None
    }
}

/// What `str::parse::<i64>` gives for a line, as an `Option`.
pub open spec fn parsed_i64(s: Seq<u8>) -> Option<i64> {
    match spelled(s) {
        Some(v) => if i64::MIN <= v <= i64::MAX { Some(v as i64) } else { None },
        None => None,
    }
}

/// What `str::parse::<i32>` gives for a line, as an `Option`.
pub open spec fn parsed_i32(s: Seq<u8>) -> Option<i32> {
    match spelled(s) {
        Some(v) => if i32::MIN <= v <= i32::MAX { Some(v as i32) } else { None },
        None => None,
    }
}

proof fn lemma_digits_prefix(s: Seq<u8>, k: int)
    requires
        all_digits(s),
        0 <= k <= s.len(),
    ensures
        digits_value(s.take(k)) <= digits_value(s),
    decreases s.len(),
{
    if k < s.len() {
        assert(s.drop_last().take(k) =~= s.take(k));
        lemma_digits_prefix(s.drop_last(), k);
    } else {
        assert(s.take(k) =~= s);
    }
}

/// Parses `text[start..end]` as `str::parse::<i64>` would.
pub fn parse_i64(text: &[u8], start: usize, end: usize) -> (r: Option<i64>)
    requires
        start <= end <= text@.len(),
    ensures
        r == parsed_i64(text@.subrange(start as int, end as int)),
{
    let ghost s = text@.subrange(start as int, end as int);
    if start == end {
        return None;
    }
    let first = text[start];
    let neg = first == 45u8;
    let mut i = start;
    if first == 45u8 || first == 43u8 {
        i = i + 1;
        if i == end {
            return None;
        }
    }
    let ds = i;
    let ghost d = text@.subrange(ds as int, end as int);
    proof {
        if first == 45u8 || first == 43u8 {
            assert(d =~= s.drop_first());
        } else {
            assert(d =~= s);
        }
    }
    // the largest magnitude the sign allows
    let limit: u128 = if neg { 0x8000_0000_0000_0000u128 } else { 0x7fff_ffff_ffff_ffffu128 };
    let mut acc: u128 = 0;
    proof {
        assert(d.take(0) =~= Seq::<u8>::empty());
    }
    while i < end
        invariant
            start <= ds <= i <= end <= text@.len(),
            ds < end,
            s == text@.subrange(start as int, end as int),
            d == text@.subrange(ds as int, end as int),
            s.len() > 0,
            first == s[0],
            neg == (first == 45u8),
            limit == (if neg { 0x8000_0000_0000_0000u128 } else { 0x7fff_ffff_ffff_ffffu128 }),
            (first == 45u8 || first == 43u8) ==> d == s.drop_first(),
            !(first == 45u8 || first == 43u8) ==> d == s,
            all_digits(d.take(i - ds)),
            acc == digits_value(d.take(i - ds)),
            acc <= limit,
            limit <= 0x8000_0000_0000_0000u128,
        decreases end - i,
    {
        let b = text[i];
        if b < 48u8 || b > 57u8 {
            proof {
                assert(d[i - ds] == b);
                assert(!all_digits(d));
            }
            return None;
        }
        let ghost k = i - ds;
        proof {
            assert(d.take(k + 1).drop_last() =~= d.take(k));
            assert(d.take(k + 1).last() == b);
            assert(all_digits(d.take(k + 1))) by {
                assert forall|j: int| 0 <= j < k + 1 implies is_digit(#[trigger] d.take(k + 1)[j]) by {
                    if j < k {
                        assert(d.take(k + 1)[j] == d.take(k)[j]);
                    }
                }
            }
        }
        acc = acc * 10 + (b - 48u8) as u128;
        i = i + 1;
        if acc > limit {
            proof {
                if all_digits(d) {
                    lemma_digits_prefix(d, k + 1);
                }
            }
            return None;
        }
    }
    proof {
        assert(d.take(end - ds) =~= d);
    }
    if neg {
        if acc == 0x8000_0000_0000_0000u128 {
            Some(i64::MIN)
        } else {
            let m = acc as i64;
            Some(-m)
        }
    } else {
        Some(acc as i64)
    }
}

/// Parses `text[start..end]` as `str::parse::<i32>` would.
pub fn parse_i32(text: &[u8], start: usize, end: usize) -> (r: Option<i32>)
    requires
        start <= end <= text@.len(),
    ensures
        r == parsed_i32(text@.subrange(start as int, end as int)),
{
    match parse_i64(text, start, end) {
        Some(v) => {
            if -0x8000_0000i64 <= v && v <= 0x7fff_ffffi64 {
                Some(v as i32)
            } else {
                None
            }
        },
        None => None,
    }
}

/// Where the line that starts at `p` ends: the index of the first `\n` at or
/// after `p`, or the length of the text where there is none.
pub open spec fn line_end(s: Seq<u8>, p: int) -> int
    decreases s.len() - p,
{
    if p >= s.len() {
        s.len() as int
    } else if s[p] == 10 {
        p
    } else {
        line_end(s, p + 1)
    }
}

pub proof fn lemma_line_end_bounds(s: Seq<u8>, p: int)
    requires
        p <= s.len(),
    ensures
        p <= line_end(s, p) <= s.len(),
        line_end(s, p) < s.len() ==> s[line_end(s, p)] == 10,
        forall|j: int| p <= j < line_end(s, p) ==> s[j] != 10,
    decreases s.len() - p,
{
    if p < s.len() && s[p] != 10 {
        lemma_line_end_bounds(s, p + 1);
    }
}

/// The content of the line from `p` to its end `e`: the terminating `\n`
/// is not part of it, and a `\r` just before that `\n` is dropped too.
pub open spec fn line_at(s: Seq<u8>, p: int, e: int) -> Seq<u8> {
    if e < s.len() && e > p && s[e - 1] == 13 {
        s.subrange(p, e - 1)
    } else {
        s.subrange(p, e)
    }
}

/// Where the line after the one that starts at `p` starts.
pub open spec fn next_start(s: Seq<u8>, p: int) -> int {
    if line_end(s, p) < s.len() {
        line_end(s, p) + 1
    } else {
        s.len() as int
    }
}

/// The lines of `s` from position `p` on, as `str::lines` (and
/// `BufRead::lines`) yields them: split at each `\n`, a `\r` before the
/// `\n` dropped, and no empty line after a final `\n`.
pub open spec fn lines_from(s: Seq<u8>, p: int) -> Seq<Seq<u8>>
    decreases s.len() - p,
{
    if p < 0 || p >= s.len() {
        seq![]
    } else {
        proof {
            lemma_line_end_bounds(s, p);
        }
        seq![line_at(s, p, line_end(s, p))] + lines_from(s, next_start(s, p))
    }
}

/// The lines of a text.
pub open spec fn lines(s: Seq<u8>) -> Seq<Seq<u8>> {
    lines_from(s, 0)
}

/// The `i64` values of the lines that parse as one, in order; the other
/// lines are skipped.
pub open spec fn values64(ls: Seq<Seq<u8>>) -> Seq<i64>
    decreases ls.len(),
{
    if ls.len() == 0 {
        seq![]
    } else {
        (match parsed_i64(ls[0]) {
            Some(v) => seq![v],
            None => seq![],
        }) + values64(ls.drop_first())
    }
}

/// The `i32` values of the lines that parse as one, in order; the other
/// lines are skipped.
pub open spec fn values32(ls: Seq<Seq<u8>>) -> Seq<i32>
    decreases ls.len(),
{
    if ls.len() == 0 {
        seq![]
    } else {
        (match parsed_i32(ls[0]) {
            Some(v) => seq![v],
            None => seq![],
        }) + values32(ls.drop_first())
    }
}

/// The `i64` values a text holds, one per line.
pub open spec fn text_values64(s: Seq<u8>) -> Seq<i64> {
    values64(lines(s))
}

/// The `i32` values a text holds, one per line.
pub open spec fn text_values32(s: Seq<u8>) -> Seq<i32> {
    values32(lines(s))
}

proof fn lemma_values_cons(l: Seq<u8>, rest: Seq<Seq<u8>>)
    ensures
        values64(seq![l] + rest) == (match parsed_i64(l) {
            Some(v) => seq![v],
            None => seq![],
        }) + values64(rest),
        values32(seq![l] + rest) == (match parsed_i32(l) {
            Some(v) => seq![v],
            None => seq![],
        }) + values32(rest),
{
    let ls = seq![l] + rest;
    assert(ls[0] == l);
    assert(ls.drop_first() =~= rest);
}

/// Finds the line that starts at `p`: returns where its content ends and
/// where the next line starts.
pub fn next_line(text: &[u8], p: usize) -> (r: (usize, usize))
    requires
        p < text@.len(),
    ensures
        p <= r.0 <= text@.len(),
        text@.subrange(p as int, r.0 as int) == line_at(text@, p as int, line_end(text@, p as int)),
        r.1 == next_start(text@, p as int),
        p < r.1 <= text@.len(),
        lines_from(text@, p as int) == seq![text@.subrange(p as int, r.0 as int)] + lines_from(
            text@,
            r.1 as int,
        ),
{
    let ghost s = text@;
    let n = text.len();
    let mut e = p;
    while e < n && text[e] != 10u8
        invariant
            n == s.len(),
            s == text@,
            p <= e <= n,
            line_end(s, p as int) == line_end(s, e as int),
        decreases n - e,
    {
        e = e + 1;
    }
    proof {
        lemma_line_end_bounds(s, p as int);
    }
    let content_end = if e < n && e > p && text[e - 1] == 13u8 {
        e - 1
    } else {
        e
    };
    let next = if e < n {
        e + 1
    } else {
        n
    };
    (content_end, next)
}

/// The `i64` values of the text's lines, in order, skipping the lines that
/// do not parse as one.
pub fn parse_lines_i64(text: &[u8]) -> (r: Vec<i64>)
    ensures
        r@ == text_values64(text@),
{
    let ghost s = text@;
    let n = text.len();
    let mut res: Vec<i64> = Vec::new();
    let mut p: usize = 0;
    while p < n
        invariant
            n == s.len(),
            s == text@,
            p <= n,
            text_values64(s) == res@ + values64(lines_from(s, p as int)),
        decreases n - p,
    {
        let (lend, next) = next_line(text, p);
        let ghost line = s.subrange(p as int, lend as int);
        proof {
            lemma_values_cons(line, lines_from(s, next as int));
        }
        match parse_i64(text, p, lend) {
            Some(v) => {
                res.push(v);
            },
            None => {},
        }
        proof {
            assert(text_values64(s) == res@ + values64(lines_from(s, next as int)));
        }
        p = next;
    }
    proof {
        assert(values64(lines_from(s, n as int)) =~= Seq::<i64>::empty());
        assert(res@ + Seq::<i64>::empty() =~= res@);
    }
    res
}

/// The `i32` values of the text's lines, in order, skipping the lines that
/// do not parse as one.
pub fn parse_lines_i32(text: &[u8]) -> (r: Vec<i32>)
    ensures
        r@ == text_values32(text@),
{
    let ghost s = text@;
    let n = text.len();
    let mut res: Vec<i32> = Vec::new();
    let mut p: usize = 0;
    while p < n
        invariant
            n == s.len(),
            s == text@,
            p <= n,
            text_values32(s) == res@ + values32(lines_from(s, p as int)),
        decreases n - p,
    {
        let (lend, next) = next_line(text, p);
        let ghost line = s.subrange(p as int, lend as int);
        proof {
            lemma_values_cons(line, lines_from(s, next as int));
        }
        match parse_i32(text, p, lend) {
            Some(v) => {
                res.push(v);
            },
            None => {},
        }
        proof {
            assert(text_values32(s) == res@ + values32(lines_from(s, next as int)));
        }
        p = next;
    }
    proof {
        assert(values32(lines_from(s, n as int)) =~= Seq::<i32>::empty());
        assert(res@ + Seq::<i32>::empty() =~= res@);
    }
    res
}

proof fn lemma_line_end_shift(s: Seq<u8>, m: int, q: int)
    requires
        0 <= m <= s.len(),
        0 <= q,
    ensures
        line_end(s, m + q) == m + line_end(s.skip(m), q),
    decreases s.len() - (m + q),
{
    if m + q < s.len() && s[m + q] != 10 {
        lemma_line_end_shift(s, m, q + 1);
    }
}

proof fn lemma_lines_shift(s: Seq<u8>, m: int, q: int)
    requires
        0 <= m <= s.len(),
        0 <= q,
    ensures
        lines_from(s, m + q) == lines_from(s.skip(m), q),
    decreases s.len() - (m + q),
{
    let t = s.skip(m);
    if m + q < s.len() {
        lemma_line_end_shift(s, m, q);
        lemma_line_end_bounds(s, m + q);
        lemma_line_end_bounds(t, q);
        let e = line_end(s, m + q);
        assert(line_at(s, m + q, e) =~= line_at(t, q, e - m));
        assert(next_start(s, m + q) == m + next_start(t, q));
        lemma_lines_shift(s, m, next_start(t, q));
    }
}

proof fn lemma_line_end_before(s: Seq<u8>, p: int, j: int)
    requires
        0 <= p <= j < s.len(),
        s[j] == 10,
    ensures
        line_end(s, p) <= j,
    decreases j - p,
{
    if s[p] != 10 {
        lemma_line_end_before(s, p + 1, j);
    }
}

proof fn lemma_line_end_take(s: Seq<u8>, m: int, p: int)
    requires
        0 <= p < m <= s.len(),
        s[m - 1] == 10,
    ensures
        line_end(s.take(m), p) == line_end(s, p),
    decreases m - p,
{
    if s[p] != 10 {
        lemma_line_end_take(s, m, p + 1);
    }
}

proof fn lemma_lines_prefix(s: Seq<u8>, m: int, p: int)
    requires
        0 <= p <= m <= s.len(),
        m == 0 || s[m - 1] == 10,
    ensures
        lines_from(s, p) == lines_from(s.take(m), p) + lines_from(s, m),
    decreases m - p,
{
    let t = s.take(m);
    if p < m {
        lemma_line_end_before(s, p, m - 1);
        lemma_line_end_take(s, m, p);
        lemma_line_end_bounds(s, p);
        let e = line_end(s, p);
        assert(line_at(s, p, e) =~= line_at(t, p, e));
        assert(next_start(s, p) == next_start(t, p));
        lemma_lines_prefix(s, m, next_start(s, p));
        assert(lines_from(s, p) =~= lines_from(t, p) + lines_from(s, m));
    } else {
        assert(lines_from(t, p) =~= Seq::<Seq<u8>>::empty());
        assert(lines_from(s, p) =~= lines_from(t, p) + lines_from(s, m));
    }
}

/// Cutting a text right after a line break splits its lines in two.
pub proof fn lemma_lines_split(s: Seq<u8>, m: int)
    requires
        0 <= m <= s.len(),
        m == 0 || s[m - 1] == 10,
    ensures
        lines(s) == lines(s.take(m)) + lines(s.skip(m)),
{
    lemma_lines_prefix(s, m, 0);
    lemma_lines_shift(s, m, 0);
}

pub proof fn lemma_values_append(a: Seq<Seq<u8>>, b: Seq<Seq<u8>>)
    ensures
        values64(a + b) == values64(a) + values64(b),
        values32(a + b) == values32(a) + values32(b),
    decreases a.len(),
{
    if a.len() == 0 {
        assert(a + b =~= b);
    } else {
        assert((a + b)[0] == a[0]);
        assert((a + b).drop_first() =~= a.drop_first() + b);
        lemma_values_append(a.drop_first(), b);
    }
}

/// The values of a text cut right after a line break are the values of the
/// first part followed by those of the second.
pub proof fn lemma_text_values_split(s: Seq<u8>, m: int)
    requires
        0 <= m <= s.len(),
        m == 0 || s[m - 1] == 10,
    ensures
        text_values64(s) == text_values64(s.take(m)) + text_values64(s.skip(m)),
        text_values32(s) == text_values32(s.take(m)) + text_values32(s.skip(m)),
{
    lemma_lines_split(s, m);
    lemma_values_append(lines(s.take(m)), lines(s.skip(m)));
}

} // verus!
