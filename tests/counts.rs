use featscan::counts::{
    detail_percentages, has_cpuid_usage, item_total, map_counts, percent, percentages, shares_in,
    sort_details, sort_list, Count,
    Detail,
};
use featscan::labels::CPUID_FEATURE;

fn pairs(items: &[Count]) -> Vec<(usize, u64)> {
    items.iter().map(|c| (c.id, c.count)).collect()
}

#[test]
fn zero_counters_are_left_out() {
    let r = map_counts(&vec![0, 3, 0, 0, 1, 0]);
    assert_eq!(pairs(&r), vec![(1, 3), (4, 1)]);
    assert!(map_counts(&vec![0, 0]).is_empty());
    assert!(map_counts(&vec![]).is_empty());
}

#[test]
fn sort_is_stable_and_descending() {
    let mut v = vec![
        Count::new(0, 2),
        Count::new(1, 5),
        Count::new(2, 2),
        Count::new(3, 7),
        Count::new(4, 5),
        Count::new(5, 2),
    ];
    sort_list(&mut v);
    assert_eq!(pairs(&v), vec![(3, 7), (1, 5), (4, 5), (0, 2), (2, 2), (5, 2)]);

    let mut empty: Vec<Count> = Vec::new();
    sort_list(&mut empty);
    assert!(empty.is_empty());
}

#[test]
fn sort_keeps_input_order_of_equal_counts_whatever_the_ids() {
    let mut v = vec![Count::new(9, 1), Count::new(2, 1), Count::new(5, 1)];
    sort_list(&mut v);
    assert_eq!(pairs(&v), vec![(9, 1), (2, 1), (5, 1)]);
}

#[test]
fn details_sort_at_both_levels() {
    let mut v = vec![
        Detail { id: 1, count: 3, mnemonics: vec![Count::new(10, 1), Count::new(11, 2)] },
        Detail { id: 2, count: 4, mnemonics: vec![Count::new(12, 2), Count::new(13, 2)] },
    ];
    sort_details(&mut v);
    assert_eq!(v[0].id(), 2);
    assert_eq!(pairs(v[0].mnemonics()), vec![(12, 2), (13, 2)]);
    assert_eq!(v[1].id(), 1);
    assert_eq!(pairs(v[1].mnemonics()), vec![(11, 2), (10, 1)]);
}

#[test]
fn percentages_in_hundredths() {
    assert_eq!(percent(1, 2), 5000);
    assert_eq!(percent(1, 3), 3333);
    assert_eq!(percent(2, 3), 6667);
    assert_eq!(percent(1, 8), 1250);
    assert_eq!(percent(0, 5), 0);
    assert_eq!(percent(5, 5), 10000);
    assert_eq!(percent(u64::MAX, u64::MAX), 10000);
}

#[test]
fn percentages_of_a_report_sum_to_a_hundred() {
    let mut v = map_counts(&vec![1, 1, 1, 0, 4]);
    sort_list(&mut v);
    let total = item_total(&v).unwrap();
    assert_eq!(total, 7);
    let sum: u64 = v.iter().map(|c| percent(c.count, total)).sum();
    assert!(sum >= 10000 - v.len() as u64 && sum <= 10000 + v.len() as u64);
    assert_eq!(sum, 10001);
}

#[test]
fn total_overflow_is_reported() {
    let v = vec![Count::new(0, u64::MAX), Count::new(1, 1)];
    assert_eq!(item_total(&v), None);
    let v = vec![Count::new(0, u64::MAX - 1), Count::new(1, 1)];
    assert_eq!(item_total(&v), Some(u64::MAX));
    let empty: Vec<Count> = Vec::new();
    assert_eq!(item_total(&empty), Some(0));
}

#[test]
fn cpuid_usage_in_a_report() {
    assert!(has_cpuid_usage(&[Count::new(3, 1), Count::new(CPUID_FEATURE, 2)]));
    assert!(!has_cpuid_usage(&[Count::new(3, 1)]));
    assert!(!has_cpuid_usage(&[]));
    assert!(Count::new(CPUID_FEATURE, 1).is_cpuid());
}

#[test]
fn report_percentages() {
    let v = vec![Count::new(4, 3), Count::new(1, 1)];
    assert_eq!(percentages(&v), Some((4, vec![7500, 2500])));
    let zeros = vec![Count::new(0, 0), Count::new(1, 0)];
    assert_eq!(percentages(&zeros), Some((0, vec![0, 0])));
    let empty: Vec<Count> = Vec::new();
    assert_eq!(percentages(&empty), Some((0, vec![])));
    let big = vec![Count::new(0, u64::MAX), Count::new(1, 1)];
    assert_eq!(percentages(&big), None);
}

#[test]
fn mnemonic_shares_are_taken_of_the_feature_total() {
    let details = vec![
        Detail { id: 1, count: 3, mnemonics: vec![Count::new(10, 1), Count::new(11, 2)] },
        Detail { id: 2, count: 1, mnemonics: vec![Count::new(12, 1)] },
    ];
    let (total, features, mnemonics) = detail_percentages(&details).unwrap();
    assert_eq!(total, 4);
    assert_eq!(features, vec![7500, 2500]);
    assert_eq!(mnemonics, vec![vec![2500, 5000], vec![2500]]);
    assert_eq!(shares_in(&details[0].mnemonics, 8), vec![1250, 2500]);
}
