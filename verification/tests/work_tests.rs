use ministat::reading::sum_values;
use ministat::work::{
    align_finish, align_intervals_to_delim, align_step, interval, intervals, plan_work,
    read_until_count, work_intervals, AlignStep,
};

#[test]
fn test_interval() {
    // split [0,10) into 3 equal buckets, allocating slop to the last bucket
    let r = 10;
    let buckets = 3;
    assert_eq!(interval(0, buckets, r), (0, 2));
    assert_eq!(interval(1, buckets, r), (3, 5));
    assert_eq!(interval(2, buckets, r), (6, 9));
}

#[test]
fn test_intervals() {
    // split [0,10) into 3 equal buckets, allocating slop to the last bucket
    assert_eq!(vec![(0, 2), (3, 5), (6, 9)], intervals(3, 10));
}

#[test]
fn test_line_intervals() {
    // 1a: all contents on one line, and there is no separator
    let str_1a = b"aab";
    let unaligned_1a = intervals(2, str_1a.len());
    assert_eq!(unaligned_1a, [(0, 0), (1, 2)]);
    let aligned_1a = align_intervals_to_delim(unaligned_1a, str_1a, str_1a.len(), b'\n');
    assert_eq!(aligned_1a, [(0, 2)]);

    // 1b: all contents on one line, separator at end-of-file
    let str_1b = b"aab\n";
    let unaligned_1b = intervals(2, str_1b.len());
    assert_eq!(unaligned_1b, [(0, 1), (2, 3)]);
    let aligned_1b = align_intervals_to_delim(unaligned_1b, str_1b, str_1b.len(), b'\n');
    assert_eq!(aligned_1b, [(0, 3)]);

    // 2a: one interval fully overlaps another interval
    let str_2a = b"aabccc\ndd";
    let nbuckets_2a = 3;
    let unaligned_2a = intervals(nbuckets_2a, str_2a.len());
    assert_eq!(unaligned_2a, [(0, 2), (3, 5), (6, 8)]);
    let aligned_2a = align_intervals_to_delim(unaligned_2a, str_2a, str_2a.len(), b'\n');
    assert_eq!(aligned_2a, [(0, 6), (7, 8)]);

    // 2b: one interval partially overlaps another interval
    let str_2b = b"aabc\nc\ndd";
    let nbuckets_2b = 3;
    let unaligned_2b = intervals(nbuckets_2b, str_2b.len());
    assert_eq!(unaligned_2b, [(0, 2), (3, 5), (6, 8)]);
    let aligned_2b = align_intervals_to_delim(unaligned_2b, str_2b, str_2b.len(), b'\n');
    assert_eq!(aligned_2b, [(0, 4), (5, 6), (7, 8)]);

    // 2c: one interval fully overlaps one interval, and partially overlaps another
    let str_2c = b"aabcccd\nd";
    let nbuckets_2c = 3;
    let unaligned_2c = intervals(nbuckets_2c, str_2c.len());
    assert_eq!(unaligned_2c, [(0, 2), (3, 5), (6, 8)]);
    let aligned_2c = align_intervals_to_delim(unaligned_2c, str_2c, str_2c.len(), b'\n');
    assert_eq!(aligned_2c, [(0, 7), (8, 8)]);

    // 3: intervals are already perfect, and should not shift
    let str_3a = b"\nab";
    let nbuckets_3a = 2;
    let unaligned_3a = intervals(nbuckets_3a, str_3a.len());
    assert_eq!(unaligned_3a, [(0, 0), (1, 2)]);
    let aligned_3a = align_intervals_to_delim(unaligned_3a, str_3a, str_3a.len(), b'\n');
    assert_eq!(aligned_3a, [(0, 0), (1, 2)]);
}

#[test]
fn read_until_count_counts_through_delimiter() {
    let data = b"ab\ncd";
    assert_eq!(read_until_count(data, 0, b'\n'), 3);
    assert_eq!(read_until_count(data, 2, b'\n'), 1);
    assert_eq!(read_until_count(data, 3, b'\n'), 2);
    assert_eq!(read_until_count(data, 5, b'\n'), 0);
    assert_eq!(read_until_count(data, 9, b'\n'), 0);
}

#[test]
fn work_intervals_partition_the_file() {
    assert!(work_intervals(0).is_none());
    let v = work_intervals(1_000_000).unwrap();
    assert!(!v.is_empty());
    assert_eq!(v[0].0, 0);
    assert_eq!(v[v.len() - 1].1, 999_999);
    for w in v.windows(2) {
        assert_eq!(w[1].0, w[0].1 + 1);
    }
    assert_eq!(v, intervals(v.len(), 1_000_000));
}

#[test]
fn align_steps_decide_and_finish() {
    assert!(matches!(align_step(None, (0, 2), 9), AlignStep::Probe { start: 0, end: 2 }));
    assert!(matches!(align_step(Some((0, 8)), (3, 5), 9), AlignStep::Skip));
    assert!(matches!(align_step(Some((0, 6)), (3, 5), 9), AlignStep::Probe { start: 7, end: 7 }));
    assert!(matches!(align_step(Some((4, 6)), (0, 3), 9), AlignStep::Skip));
    assert!(matches!(align_step(Some((0, 4)), (3, 5), 9), AlignStep::Probe { start: 5, end: 5 }));
    assert!(matches!(align_step(Some((0, 4)), (3, 7), 9), AlignStep::Probe { start: 5, end: 7 }));
    assert!(matches!(align_step(Some((0, 2)), (3, 5), 9), AlignStep::Probe { start: 3, end: 5 }));
    assert_eq!(align_finish(5, 5, 2), (5, 6));
}

#[test]
fn chunked_sums_match_whole_sum() {
    let text = b"12\n-4\n7\r\n100\nxx\n5\n6\n-30\n8";
    let whole = sum_values(text);
    for buckets in 1..=text.len() {
        let chunks = align_intervals_to_delim(intervals(buckets, text.len()), text, text.len(), b'\n');
        let mut total: i128 = 0;
        for (s, e) in chunks.iter() {
            total += sum_values(&text[*s..*e + 1]);
        }
        assert_eq!(total, whole, "buckets {}", buckets);
    }
    assert_eq!(whole, 104);
}

#[test]
fn plan_work_splits_or_refuses() {

    assert_eq!(plan_work(2, 7), Some(vec![(0, 2), (3, 6)]));
    assert_eq!(plan_work(3, 10), Some(vec![(0, 2), (3, 5), (6, 9)]));
    assert_eq!(plan_work(8, 7), None);
    assert_eq!(plan_work(1, 0), None);
    assert_eq!(plan_work(1, 1), Some(vec![(0, 0)]));
}

#[test]
fn aligning_aligned_pieces_changes_nothing() {
    let texts: [&[u8]; 4] = [b"aabc\nc\ndd", b"1234\n5\n", b"\nab", b"x\ny\nz\n"];
    for text in texts.iter() {
        for buckets in 1..=text.len() {
            let once = align_intervals_to_delim(intervals(buckets, text.len()), text, text.len(), b'\n');
            let twice = align_intervals_to_delim(once.clone(), text, text.len(), b'\n');
            assert_eq!(twice, once);
        }
    }
    // a partition already cut after delimiters comes back as it is
    let pieces = vec![(0, 4), (5, 6), (7, 8)];
    assert_eq!(align_intervals_to_delim(pieces.clone(), b"aabc\nc\ndd", 9, b'\n'), pieces);
    // any delimiter works
    let cut = align_intervals_to_delim(intervals(3, 9), b"ab;cd;efg", 9, b';');
    assert_eq!(cut, vec![(0, 2), (3, 5), (6, 8)]);
}
