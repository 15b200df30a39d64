use closure_store::stats::{histogram, max_value, mean, median, median_headlines_per_path, min_value, mode, pct, sort_counts, total};

#[test]
fn the_median_of_an_odd_count_is_the_middle_one() {
    assert_eq!(median(&vec![3, 1, 2]), Some(2));
    assert_eq!(median(&vec![7]), Some(7));
}

#[test]
fn the_median_of_an_even_count_is_the_midpoint_rounded_down() {
    assert_eq!(median(&vec![1, 2, 3, 4]), Some(2));
    assert_eq!(median(&vec![4, 10]), Some(7));
    assert_eq!(median(&Vec::new()), None);
}

#[test]
fn the_mean_and_percentage_are_integer_divisions() {
    assert_eq!(mean(10, 4), 2);
    assert_eq!(mean(5, 0), 0);
    assert_eq!(pct(1, 3), 33);
    assert_eq!(pct(2, 2), 100);
    assert_eq!(pct(1, 0), 0);
}

#[test]
fn the_mode_prefers_the_lowest_of_equally_common_counts() {
    assert_eq!(mode(&vec![3, 3, 2, 2, 1]), Some(2));
    assert_eq!(mode(&vec![5, 1, 5]), Some(5));
    assert_eq!(mode(&Vec::new()), None);
}

#[test]
fn the_histogram_counts_each_value() {
    assert_eq!(histogram(&vec![3, 1, 3]), vec![(1, 1), (3, 2)]);
    assert!(histogram(&Vec::new()).is_empty());
}

#[test]
fn extremes_and_totals() {
    let v = vec![4, 9, 1];
    assert_eq!(max_value(&v), Some(9));
    assert_eq!(min_value(&v), Some(1));
    assert_eq!(total(&v), 14);
    assert_eq!(sort_counts(&v), vec![1, 4, 9]);
    assert_eq!(max_value(&Vec::new()), None);
}

#[test]
fn the_median_headline_count_per_file_is_the_lower_middle() {
    assert_eq!(median_headlines_per_path(&vec![1, 3]), Some(1));
    assert_eq!(median_headlines_per_path(&vec![4, 1, 3, 2]), Some(2));
    assert_eq!(median_headlines_per_path(&vec![5, 1, 9]), Some(5));
    assert_eq!(median_headlines_per_path(&Vec::new()), None);
}
