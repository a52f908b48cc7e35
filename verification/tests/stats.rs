use line_stats::sorting::sorted_copy;
use line_stats::stats::{largest, median_twice, scaled_variance, smallest_above_one, total};
use line_stats::Stats;

fn mean(stats: &Stats) -> f64 {
    stats.total as f64 / stats.lines.len() as f64
}

fn median(stats: &Stats) -> f64 {
    stats.median_twice as f64 / 2.0
}

fn deviation(stats: &Stats) -> f64 {
    (stats.scaled_variance.unwrap() as f64).sqrt() / stats.lines.len() as f64
}

fn floats(lines: &[usize]) -> Vec<f64> {
    lines.iter().map(|&n| n as f64).collect()
}

#[test]
fn three_lines_have_these_figures() {
    let stats = Stats::from(vec![3, 5, 7]);
    assert_eq!(stats.lines, vec![3, 5, 7]);
    assert_eq!(stats.max, 7);
    assert_eq!(stats.min, 3);
    assert_eq!(stats.total, 15);
    assert_eq!(stats.median_twice, 10);
    assert_eq!(stats.scaled_variance, Some(24));
    assert_eq!(mean(&stats), 5.0);
    assert_eq!(median(&stats), 5.0);
}

#[test]
fn two_lines_have_these_figures() {
    let stats = Stats::from(vec![10, 2]);
    assert_eq!(stats.max, 10);
    assert_eq!(stats.min, 2);
    assert_eq!(stats.total, 12);
    assert_eq!(stats.median_twice, 12);
    assert_eq!(stats.scaled_variance, Some(64));
    assert_eq!(mean(&stats), 6.0);
    assert_eq!(median(&stats), 6.0);
    assert_eq!(deviation(&stats), 4.0);
}

#[test]
fn five_lines_have_these_figures() {
    let stats = Stats::from(vec![3, 5, 7, 10, 2]);
    assert_eq!(stats.max, 10);
    assert_eq!(stats.min, 2);
    assert_eq!(stats.total, 27);
    assert_eq!(stats.median_twice, 10);
    assert_eq!(stats.scaled_variance, Some(206));
    assert_eq!(mean(&stats), 5.4);
    assert_eq!(median(&stats), 5.0);
    assert!((deviation(&stats) - 2.87).abs() < 0.005);
}

#[test]
fn lengths_of_one_do_not_set_the_minimum() {
    let stats = Stats::from(vec![1, 1]);
    assert_eq!(stats.lines, vec![1, 1]);
    assert_eq!(stats.min, 0);
    assert_eq!(stats.max, 1);
    assert_eq!(stats.total, 2);
    assert_eq!(stats.median_twice, 2);
    assert_eq!(stats.scaled_variance, Some(0));
}

#[test]
fn lengths_of_zero_and_one_are_passed_over_by_the_minimum() {
    assert_eq!(Stats::from(vec![0, 1, 9, 4, 1]).min, 4);
    assert_eq!(Stats::from(vec![0, 0, 0]).min, 0);
    assert_eq!(Stats::from(vec![2, 1]).min, 2);
    assert_eq!(smallest_above_one(&vec![7, 1, 3, 0, 3]), 3);
}

#[test]
fn no_lines_have_figures_of_zero() {
    let stats = Stats::from(Vec::new());
    assert!(stats.lines.is_empty());
    assert_eq!(stats.max, 0);
    assert_eq!(stats.min, 0);
    assert_eq!(stats.total, 0);
    assert_eq!(stats.median_twice, 0);
    assert_eq!(stats.scaled_variance, Some(0));
}

#[test]
fn default_is_the_statistics_of_no_lines() {
    let stats = Stats::default();
    let none = Stats::from(Vec::new());
    assert_eq!(stats.lines, none.lines);
    assert_eq!(stats.max, none.max);
    assert_eq!(stats.min, none.min);
    assert_eq!(stats.total, none.total);
    assert_eq!(stats.median_twice, none.median_twice);
    assert_eq!(stats.scaled_variance, none.scaled_variance);
}

#[test]
fn a_single_line_is_its_own_median() {
    let stats = Stats::from(vec![42]);
    assert_eq!(stats.max, 42);
    assert_eq!(stats.min, 42);
    assert_eq!(stats.total, 42);
    assert_eq!(stats.median_twice, 84);
    assert_eq!(stats.scaled_variance, Some(0));
}

#[test]
fn median_of_an_even_number_is_between_the_middle_two() {
    assert_eq!(median_twice(&vec![8, 1, 4, 3]), 7);
    assert_eq!(median_twice(&vec![1, 2]), 3);
    assert_eq!(median_twice(&vec![9, 9, 1, 1, 5, 5]), 10);
}

#[test]
fn median_of_an_odd_number_is_the_middle_one() {
    assert_eq!(median_twice(&vec![9, 1, 5]), 10);
    assert_eq!(median_twice(&vec![5, 4, 3, 2, 1]), 6);
}

#[test]
fn sorted_copy_orders_and_keeps_every_value() {
    let v = vec![5, 3, 9, 3, 0, 12, 7, 7, 1];
    assert_eq!(sorted_copy(&v), vec![0, 1, 3, 3, 5, 7, 7, 9, 12]);
    assert_eq!(v, vec![5, 3, 9, 3, 0, 12, 7, 7, 1]);
    assert_eq!(sorted_copy(&Vec::new()), Vec::<usize>::new());
    assert_eq!(sorted_copy(&vec![4]), vec![4]);
    assert_eq!(sorted_copy(&vec![2, 1]), vec![1, 2]);
}

#[test]
fn sorted_copy_agrees_with_the_standard_sort() {
    let mut v: Vec<usize> = Vec::new();
    let mut x: usize = 12345;
    for _ in 0..1000 {
        x = (x * 1103515245 + 12345) % 2147483648;
        v.push(x % 500);
    }
    let mut expected = v.clone();
    expected.sort();
    assert_eq!(sorted_copy(&v), expected);
}

#[test]
fn identical_lengths_have_no_deviation() {
    for &(value, count) in &[(1usize, 2usize), (80, 5), (7, 1), (0, 3), (1000, 100)] {
        let stats = Stats::from(vec![value; count]);
        assert_eq!(stats.scaled_variance, Some(0));
        assert_eq!(deviation(&stats), 0.0);
        assert_eq!(stats.total, (value * count) as u128);
        assert_eq!(stats.median_twice, 2 * value as u128);
    }
}

#[test]
fn different_lengths_have_a_deviation() {
    assert_eq!(scaled_variance(&vec![1, 2]), Some(1));
    assert_eq!(scaled_variance(&vec![2, 4, 4, 4, 5, 5, 7, 9]), Some(256));
    let stats = Stats::from(vec![2, 4, 4, 4, 5, 5, 7, 9]);
    assert_eq!(deviation(&stats), 2.0);
}

#[test]
fn scaled_variance_is_none_when_it_does_not_fit() {
    assert_eq!(scaled_variance(&vec![usize::MAX, usize::MAX]), None);
    assert_eq!(scaled_variance(&vec![usize::MAX, 0, 0]), None);
    let stats = Stats::from(vec![usize::MAX, usize::MAX]);
    assert_eq!(stats.scaled_variance, None);
    assert_eq!(stats.total, 2 * (usize::MAX as u128));
    assert_eq!(stats.median_twice, 2 * (usize::MAX as u128));
    assert_eq!(stats.max, usize::MAX);
    assert_eq!(stats.min, usize::MAX);
}

#[test]
fn scaled_variance_of_one_huge_value_fits() {
    assert_eq!(scaled_variance(&vec![usize::MAX]), Some(0));
}

#[test]
fn total_and_largest_take_every_value() {
    assert_eq!(total(&vec![1, 2, 3, 4]), 10);
    assert_eq!(total(&Vec::new()), 0);
    assert_eq!(largest(&vec![1, 9, 3]), 9);
    assert_eq!(largest(&vec![9, 1]), 9);
    assert_eq!(largest(&Vec::new()), 0);
}

#[test]
fn min_median_max_are_in_order_when_short_lines_are_few() {
    let cases: Vec<Vec<usize>> = vec![
        vec![3, 5, 7],
        vec![10, 2],
        vec![1, 5, 7],
        vec![1, 1, 4, 6, 8],
        vec![2, 2],
        vec![0, 3, 3],
        vec![12, 80, 1, 33, 2, 79],
    ];
    for lines in cases {
        let short = lines.iter().filter(|&&n| n < 2).count();
        assert!(2 * short < lines.len());
        let stats = Stats::from(lines);
        assert!(2 * stats.min as u128 <= stats.median_twice);
        assert!(stats.median_twice <= 2 * stats.max as u128);
    }
}

#[test]
fn median_is_below_min_when_half_of_the_lines_are_short() {
    let stats = Stats::from(vec![1, 1, 1, 5]);
    assert_eq!(stats.min, 5);
    assert_eq!(stats.median_twice, 2);
    let stats = Stats::from(vec![1, 5]);
    assert_eq!(stats.min, 5);
    assert_eq!(stats.median_twice, 6);
    assert!(stats.median_twice < 2 * stats.min as u128);
}

#[test]
fn figures_do_not_depend_on_the_order_of_the_lines() {
    let a = Stats::from(vec![3, 5, 7, 10, 2, 1, 1, 40]);
    let b = Stats::from(vec![40, 1, 2, 10, 7, 1, 5, 3]);
    assert_eq!(a.max, b.max);
    assert_eq!(a.min, b.min);
    assert_eq!(a.total, b.total);
    assert_eq!(a.median_twice, b.median_twice);
    assert_eq!(a.scaled_variance, b.scaled_variance);
}

#[test]
fn exact_figures_agree_with_floating_point_ones() {
    let cases: Vec<Vec<usize>> = vec![
        vec![3, 5, 7],
        vec![10, 2],
        vec![3, 5, 7, 10, 2],
        vec![1, 1],
        vec![80, 1, 17, 17, 120, 3, 64, 9],
    ];
    for lines in cases {
        let f = floats(&lines);
        let stats = Stats::from(lines);
        assert!((mean(&stats) - statistical::mean(&f)).abs() < 1e-9);
        assert!((median(&stats) - statistical::median(&f)).abs() < 1e-9);
        assert!(
            (deviation(&stats) - statistical::population_standard_deviation(&f, None)).abs()
                < 1e-9
        );
    }
}

#[test]
fn many_lines_of_few_lengths_are_sorted() {
    let mut v: Vec<usize> = Vec::new();
    for i in 0..300_000usize {
        v.push((i * 7919) % 101);
    }
    let sorted = sorted_copy(&v);
    assert_eq!(sorted.len(), v.len());
    assert!(sorted.windows(2).all(|pair| pair[0] <= pair[1]));
    let stats = Stats::from(v);
    assert_eq!(stats.max, 100);
    assert_eq!(stats.min, 2);
    assert_eq!(stats.median_twice, 100);
    assert!(stats.scaled_variance.is_some());
    let equal = Stats::from(vec![80; 300_000]);
    assert_eq!(equal.median_twice, 160);
    assert_eq!(equal.scaled_variance, Some(0));
}
