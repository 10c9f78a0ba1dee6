use contamination::coverage::{check_threshold, coverage};
use contamination::threshold::Threshold;
use contamination::decide::{decide, merge_matches};
use contamination::error::PipelineError;
use contamination::groups::{DocGroups, LineGroups};
use contamination::intervals::merge_intervals;
use dashmap::DashMap;

fn threshold(fraction: f64) -> Threshold {
    Threshold::from_f64_bits(fraction.to_bits()).unwrap()
}

fn half() -> Threshold {
    threshold(0.5)
}

#[test]
fn merge_joins_overlapping_and_touching_intervals() {
    assert_eq!(merge_intervals(vec![(0, 3), (3, 6)], false), vec![(0, 6)]);
    assert_eq!(merge_intervals(vec![(0, 3), (2, 5)], false), vec![(0, 5)]);
    assert_eq!(merge_intervals(vec![(0, 10), (2, 5)], false), vec![(0, 10)]);
}

#[test]
fn merge_keeps_a_gap() {
    assert_eq!(merge_intervals(vec![(0, 3), (4, 6)], false), vec![(0, 3), (4, 6)]);
}

#[test]
fn merge_sorts_first() {
    assert_eq!(merge_intervals(vec![(10, 12), (3, 6), (0, 3), (5, 7)], false), vec![(0, 7), (10, 12)]);
    assert_eq!(merge_intervals(vec![(4, 6), (0, 3)], false), vec![(0, 3), (4, 6)]);
}

#[test]
fn merge_of_sorted_input_skips_the_sort() {
    assert_eq!(merge_intervals(vec![(0, 3), (3, 6), (8, 9)], true), vec![(0, 6), (8, 9)]);
}

#[test]
fn merge_of_nothing_and_of_one() {
    assert_eq!(merge_intervals(vec![], false), vec![]);
    assert_eq!(merge_intervals(vec![(5, 9)], false), vec![(5, 9)]);
}

#[test]
fn merge_ignores_repeats() {
    assert_eq!(merge_intervals(vec![(1, 4), (1, 4), (1, 4)], false), vec![(1, 4)]);
}

#[test]
fn coverage_counts_each_byte_once() {
    assert_eq!(coverage(&vec![0, 3], 3), 6);
    assert_eq!(coverage(&vec![0, 1, 2], 3), 5);
    assert_eq!(coverage(&vec![0, 10], 3), 6);
    assert_eq!(coverage(&vec![], 3), 0);
    assert_eq!(coverage(&vec![7], 3), 3);
    assert_eq!(coverage(&vec![7, 8], 0), 0);
}

#[test]
fn coverage_ignores_order_and_repeats() {
    let base = coverage(&vec![0, 2, 9], 4);
    assert_eq!(base, 10);
    assert_eq!(coverage(&vec![9, 0, 2], 4), base);
    assert_eq!(coverage(&vec![2, 9, 0, 0, 9, 2, 2], 4), base);
}

#[test]
fn coverage_stays_within_its_bounds() {
    let lists: Vec<Vec<u64>> = vec![vec![5], vec![0, 0, 0], vec![0, 1, 2, 3], vec![0, 100, 200], vec![3, 1, 4, 1, 5, 9, 2, 6]];
    for starts in lists {
        for match_size in [1usize, 2, 5, 50] {
            let covered = coverage(&starts, match_size);
            assert!(covered <= (starts.len() * match_size) as u128);
            assert!(covered >= match_size as u128);
        }
    }
}

#[test]
fn coverage_does_not_overflow() {
    assert_eq!(coverage(&vec![u64::MAX, u64::MAX - 1], usize::MAX), usize::MAX as u128 + 1);
}

#[test]
fn check_threshold_compares_coverage_with_what_is_required() {
    assert!(check_threshold(&vec![0, 3], 3, 6, &half()));
    assert!(check_threshold(&vec![0, 3], 3, 6, &threshold(1.0)));
    assert!(!check_threshold(&vec![0], 3, 6, &threshold(0.6)));
    assert!(check_threshold(&vec![0], 3, 6, &half()));
    assert!(check_threshold(&vec![], 3, 6, &threshold(0.0)));
    assert!(!check_threshold(&vec![], 3, 6, &half()));
}

#[test]
fn merge_matches_keeps_the_lines_that_cover_enough() {
    let lines: LineGroups = DashMap::new();
    lines.insert((0, 0), vec![0, 3]);
    lines.insert((0, 1), vec![0]);
    lines.insert((2, 7), vec![1, 1, 1]);
    lines.insert((3, 0), vec![4, 2, 0]);
    let mut records = merge_matches(9, &lines, 3, 6, &threshold(0.6));
    records.sort();
    assert_eq!(records, vec![(9, 0, 0), (9, 3, 0)]);
    let mut records = merge_matches(9, &lines, 3, 6, &half());
    records.sort();
    assert_eq!(records, vec![(9, 0, 0), (9, 0, 1), (9, 2, 7), (9, 3, 0)]);
    assert_eq!(merge_matches(9, &DashMap::new(), 3, 6, &half()), vec![]);
}

#[test]
fn decide_goes_through_every_document() {
    let groups: DocGroups = DashMap::new();
    let first: LineGroups = DashMap::new();
    first.insert((0, 0), vec![0, 3]);
    first.insert((1, 5), vec![0]);
    let second: LineGroups = DashMap::new();
    second.insert((0, 0), vec![0]);
    second.insert((4, 4), vec![0, 3, 6, 9]);
    groups.insert((0, 6), first);
    groups.insert((1, 12), second);
    let mut records = decide(groups, 3, &threshold(0.6));
    records.sort();
    assert_eq!(records, vec![(0, 0, 0), (1, 4, 4)]);
}

#[test]
fn decide_on_nothing() {
    assert_eq!(decide(DashMap::new(), 3, &half()), vec![]);
}

#[test]
fn a_float_between_zero_and_one_is_a_threshold() {
    assert_eq!((threshold(0.5).significand(), threshold(0.5).places()), (1 << 52, 53));
    assert_eq!((threshold(1.0).significand(), threshold(1.0).places()), (1 << 52, 52));
    assert_eq!((threshold(0.75).significand(), threshold(0.75).places()), (3 << 51, 53));
    assert_eq!((threshold(0.6).significand(), threshold(0.6).places()), (0x13_3333_3333_3333, 53));
    assert_eq!((threshold(0.0).significand(), threshold(0.0).places()), (0, 1074));
    assert_eq!((threshold(-0.0).significand(), threshold(-0.0).places()), (0, 1074));
    let smallest = f64::from_bits(1);
    assert_eq!((threshold(smallest).significand(), threshold(smallest).places()), (1, 1074));
    assert_eq!((threshold(f64::MIN_POSITIVE).significand(), threshold(f64::MIN_POSITIVE).places()), (1 << 52, 1074));
}

#[test]
fn other_floats_are_no_threshold() {
    for fraction in [1.5, -0.5, f64::NAN, f64::INFINITY, f64::NEG_INFINITY, 1.0 + f64::EPSILON, -f64::from_bits(1), 2.0] {
        assert!(matches!(Threshold::from_f64_bits(fraction.to_bits()), Err(PipelineError::Config)));
    }
    assert!(Threshold::from_f64_bits((1.0 - f64::EPSILON / 2.0).to_bits()).is_ok());
}

#[test]
fn required_coverage_rounds_up() {
    assert_eq!(half().required_coverage(6), 3);
    assert_eq!(half().required_coverage(7), 4);
    assert_eq!(threshold(1.0).required_coverage(6), 6);
    assert_eq!(threshold(0.6).required_coverage(6), 4);
    assert_eq!(threshold(0.25).required_coverage(10), 3);
    assert_eq!(threshold(0.0).required_coverage(1000), 0);
    assert_eq!(half().required_coverage(0), 0);
    assert_eq!(threshold(f64::from_bits(1)).required_coverage(12), 1);
    assert_eq!(threshold(1e-300).required_coverage(usize::MAX), 1);
}

#[test]
fn required_coverage_rounds_the_product_as_floats_do() {
    assert_eq!(threshold(0.1).required_coverage(10), 1);
    assert_eq!(threshold(0.8).required_coverage(1000), 800);
    assert_eq!(threshold(0.2).required_coverage(5), 1);
    assert_eq!(threshold(0.4).required_coverage(5), 2);
    assert_eq!(threshold(0.7).required_coverage(10), 7);
    assert_eq!(threshold(0.07).required_coverage(100), 8);
    assert_eq!(threshold(0.29).required_coverage(100), 29);
    assert_eq!(threshold(0.58).required_coverage(100), 58);
    assert_eq!(threshold(1.0).required_coverage(usize::MAX), usize::MAX);
    assert_eq!(threshold(0.5).required_coverage((1 << 53) + 3), (1 << 52) + 2);
}

#[test]
fn required_coverage_agrees_with_float_arithmetic() {
    let mut fractions = vec![0.0, 1.0, 0.5, 0.1, 0.2, 0.3, 0.6, 0.7, 0.8, 0.9, 0.01, 0.99, 1e-9, 1e-20, 1e-300, 1.0 / 3.0];
    for step in 1..200u64 {
        fractions.push(step as f64 / 200.0);
        fractions.push(f64::from_bits(0x3fe0_0000_0000_0000 + step * 0x0000_1234_5678_9abc));
    }
    let mut sizes: Vec<usize> = (0..300).collect();
    for shift in [20u32, 40, 52, 53, 54, 60, 63] {
        for delta in 0..6usize {
            sizes.push((1usize << shift) + delta);
            sizes.push((1usize << shift) - delta);
            sizes.push((1usize << shift) * 3 + delta * 7);
        }
    }
    sizes.push(usize::MAX);
    sizes.push(usize::MAX - 1024);
    for fraction in &fractions {
        let library = threshold(*fraction);
        for size in &sizes {
            let floats = ((*size as f64) * fraction).ceil() as usize;
            assert_eq!(library.required_coverage(*size), floats);
        }
    }
}

#[test]
fn raising_the_threshold_never_adds_a_pass() {
    let starts = vec![0u64, 2, 9];
    let fractions = [0.0, 0.1, 0.25, 0.5, 0.6, 0.9, 1.0];
    for doc_size in 0..30usize {
        let mut passed_before = true;
        for fraction in fractions {
            let passes = check_threshold(&starts, 4, doc_size, &threshold(fraction));
            assert!(passed_before || !passes);
            passed_before = passes;
        }
    }
}

#[test]
fn one_match_of_one_byte_meets_a_tenth_of_ten_bytes() {
    assert!(check_threshold(&vec![0], 1, 10, &threshold(0.1)));
    let lines: LineGroups = DashMap::new();
    lines.insert((0, 0), vec![0]);
    assert_eq!(merge_matches(0, &lines, 1, 10, &threshold(0.1)), vec![(0, 0, 0)]);
}
