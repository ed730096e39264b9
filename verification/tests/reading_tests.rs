use ministat::reading::{readset, sorted_concat, sorted_values, sum_i32, sum_values};
use ministat::work::{align_intervals_to_delim, intervals, plan_work};

#[test]
fn sum_values_adds_parsed_lines() {
    assert_eq!(sum_values(b"1\n2\n3\n"), 6);
    assert_eq!(sum_values(b"1\nx\n-7\n2147483648\n"), -6);
    assert_eq!(sum_values(b""), 0);
    assert_eq!(sum_values(b"2147483647\n2147483647\n"), 4294967294);
}

#[test]
fn sum_i32_of_vector() {
    assert_eq!(sum_i32(&vec![i32::MIN, i32::MIN]), -4294967296);
}

#[test]
fn sorted_values_sorts() {
    let sorted = sorted_values(b"5\n-1\n3\nbad\n3\n");
    assert_eq!(sorted, vec![-1, 3, 3, 5]);
    let mut previous = &sorted[0];
    for n in &sorted {
        assert!(n >= previous);
        previous = n;
    }
}

#[test]
fn sorted_concat_merges_parts() {
    let parts = vec![vec![1, 5], vec![], vec![3, -2, 9]];
    assert_eq!(sorted_concat(&parts), vec![-2, 1, 3, 5, 9]);
}

#[test]
fn readset_reads_sorts_and_sums() {
    let ds = readset("file.txt", b"10\n2\nnot a number\n3\n");
    assert_eq!(ds.points, vec![2, 3, 10]);
    assert_eq!(ds.len(), 3);
    assert_eq!(ds.sy(), 15);
    assert_eq!(ds.syy(), 113);
    assert_eq!(ds.min(), Some(&2));
    assert_eq!(ds.max(), Some(&10));
    assert_eq!(ds.median(), Some(&3));
    assert_eq!(ds.avg(), 5);
}

#[test]
fn piecewise_sorting_matches_whole_sorting() {
    let text = b"9\n-4\n7\n100\nxx\n5\n6\n-30\n8\n";
    let whole = sorted_values(text);
    for buckets in 1..=text.len() {
        let pieces = align_intervals_to_delim(intervals(buckets, text.len()), text, text.len(), b'\n');
        let parts: Vec<Vec<i32>> = pieces.iter().map(|&(s, e)| sorted_values(&text[s..e + 1])).collect();
        assert_eq!(sorted_concat(&parts), whole, "buckets {}", buckets);
    }
    assert_eq!(whole, vec![-30, -4, 5, 6, 7, 8, 9, 100]);
}

#[test]
fn readset_min_and_max_bound_every_point() {
    let ds = readset("bounds", b"4\n-8\n15\n0\n");
    let lo = *ds.min().unwrap();
    let hi = *ds.max().unwrap();
    assert_eq!((lo, hi), (-8, 15));
    for p in ds.points.iter() {
        assert!(lo <= *p && *p <= hi);
    }
}

#[test]
fn reading_the_same_text_twice_gives_equal_data_sets() {
    let text = b"7\n-2\n7\n0\n";
    let a = readset("f", text);
    let b = readset("f", text);
    assert_eq!(a.points, b.points);
    assert_eq!((a.sy(), a.syy()), (b.sy(), b.syy()));
    assert_eq!(a.points, vec![-2, 0, 7, 7]);
}

#[test]
fn two_cpu_pieces_of_small_file_sort_like_the_whole() {

    let text = b"1234\n5\n";
    let plan = plan_work(2, text.len()).unwrap();
    let pieces = align_intervals_to_delim(plan, text, text.len(), b'\n');
    assert_eq!(pieces, vec![(0, 4), (5, 6)]);
    let parts: Vec<Vec<i32>> = pieces.iter().map(|&(s, e)| sorted_values(&text[s..e + 1])).collect();
    assert_eq!(sorted_concat(&parts), vec![5, 1234]);
    assert_eq!(sorted_concat(&parts), sorted_values(text));
}
