use ministat::dataset::DataSet;

#[test]
fn add_points_works() {
    let mut ds = DataSet::new("foo");
    ds.add_points(&[1, 2, 3]);
    assert!(ds.len() == 3);
    assert!(ds.sy() == 6);
    assert!(ds.syy() == 14);
}

#[test]
fn test() {
    let a = vec!['a', 'b', 'c'];
    let b: String = a.into_iter().collect();
    assert_eq!(b, "abc");
}

#[test]
fn new_data_set_is_empty() {
    let ds = DataSet::new("empty");
    assert_eq!(ds.len(), 0);
    assert_eq!(ds.sy(), 0);
    assert_eq!(ds.syy(), 0);
    assert_eq!(ds.min(), None);
    assert_eq!(ds.max(), None);
    assert_eq!(ds.median(), None);
}

#[test]
fn statistics_of_small_sample() {
    // sample {2, 3, 10}: mean 5, median 3, variance 19
    let mut ds = DataSet::new("ds1");
    ds.add_points(&[10, 2, 3]);
    ds.sort();
    assert_eq!(ds.points, vec![2, 3, 10]);
    assert_eq!(ds.min(), Some(&2));
    assert_eq!(ds.max(), Some(&10));
    assert_eq!(ds.median(), Some(&3));
    assert_eq!(ds.avg(), 5);
    assert_eq!(ds.var(), 19);
    // sorting leaves the running sums alone
    assert_eq!(ds.sy(), 15);
    assert_eq!(ds.syy(), 113);
}

#[test]
fn avg_rounds_toward_zero() {
    let mut ds = DataSet::new("neg");
    ds.add_points(&[-1, -2]);
    assert_eq!(ds.avg(), -1);
    let mut ds2 = DataSet::new("pos");
    ds2.add_points(&[1, 2]);
    assert_eq!(ds2.avg(), 1);
}

#[test]
fn var_of_constant_sample_is_zero() {
    let mut ds = DataSet::new("flat");
    ds.add_points(&[7, 7, 7, 7]);
    assert_eq!(ds.var(), 0);
}

#[test]
fn avg_lies_between_min_and_max() {
    let mut ds = DataSet::new("spread");
    ds.add_points(&[-9, 4, -3, 100, 0]);
    ds.sort();
    let avg = ds.avg();
    assert!(*ds.min().unwrap() as i128 <= avg && avg <= *ds.max().unwrap() as i128);
    assert_eq!(avg, 18);
    assert!(ds.var() >= 0);
}

#[test]
fn median_of_even_count_is_upper_middle() {
    let mut ds = DataSet::new("even");
    ds.add_points(&[1, 2, 3, 4]);
    assert_eq!(ds.median(), Some(&3));
}

#[test]
fn add_points_accumulates_over_calls() {
    let mut ds = DataSet::new("twice");
    ds.add_points(&[1, 2]);
    ds.add_points(&[-3]);
    assert_eq!(ds.points, vec![1, 2, -3]);
    assert_eq!(ds.sy(), 0);
    assert_eq!(ds.syy(), 14);
}

#[test]
fn student_row_picks_degrees_of_freedom() {
    let mut a = DataSet::new("a");
    a.add_points(&[1, 2, 3]);
    let mut b = DataSet::new("b");
    b.add_points(&[4, 5]);
    assert_eq!(a.student_row(&b), 3);
    let mut big = DataSet::new("big");
    let many: Vec<i64> = (0..200).collect();
    big.add_points(&many);
    assert_eq!(big.student_row(&b), 0);
    let mut edge = DataSet::new("edge");
    let hundred: Vec<i64> = (0..100).collect();
    edge.add_points(&hundred);
    assert_eq!(edge.student_row(&b), 100);
}

#[test]
fn pooled_sum_of_squares_weights_variances() {
    let mut a = DataSet::new("a");
    a.add_points(&[2, 3, 10]);
    let mut b = DataSet::new("b");
    b.add_points(&[1, 3]);
    // var(a) = 19, var(b) = 2
    assert_eq!(a.pooled_sum_of_squares(&b), 2 * 19 + 1 * 2);
}

#[test]
fn adding_in_two_steps_is_adding_the_concatenation() {
    let a = [3, -7, 12];
    let b = [5, 0];
    let mut ds1 = DataSet::new("one");
    ds1.add_points(&a);
    ds1.add_points(&b);
    let mut ds3 = DataSet::new("one");
    ds3.add_points(&[&a[..], &b[..]].concat());
    assert_eq!(ds1.points, ds3.points);
    assert_eq!((ds1.sy(), ds1.syy()), (ds3.sy(), ds3.syy()));
    // adding nothing changes nothing
    ds3.add_points(&[]);
    assert_eq!(ds3.points, vec![3, -7, 12, 5, 0]);
    assert_eq!((ds3.sy(), ds3.syy()), (13, 227));
}

#[test]
fn adding_one_point_updates_sums() {
    let mut ds = DataSet::new("one");
    ds.add_points(&[4]);
    ds.add_points(&[-3037000499]);
    assert_eq!(ds.points(), &vec![4, -3037000499]);
    assert_eq!(ds.sy(), 4 - 3037000499);
    assert_eq!(ds.syy(), 16 + 3037000499i128 * 3037000499);
}
