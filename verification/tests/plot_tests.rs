use ministat::plot::bar_height;

#[test]
fn bar_height_counts_tallest_stack() {
    // points {2, 3, 10} fall into buckets 0, 0 and 2: tallest stack 2, plus one row
    assert_eq!(bar_height(&[0, 0, 2], 0), 3);
    // a taller plot keeps its height
    assert_eq!(bar_height(&[0, 0, 2], 7), 7);
    // no points: one row, plus one
    assert_eq!(bar_height(&[], 0), 2);
    // a run of the starting marker counts like any other
    assert_eq!(bar_height(&[-1, -1, -1], 1), 4);
    // runs separated by other buckets do not add up
    assert_eq!(bar_height(&[1, 1, 2, 1, 1], 0), 3);
}

#[test]
fn longest_run_len_counts_equal_neighbours() {
    use_longest(&[], 0);
    use_longest(&[4], 1);
    use_longest(&[0, 0, 2], 2);
    use_longest(&[1, 1, 2, 1, 1, 1], 3);
    use_longest(&[-1, -1], 2);
}

fn use_longest(ids: &[i64], expected: usize) {
    assert_eq!(ministat::plot::longest_run_len(ids), expected);
}
