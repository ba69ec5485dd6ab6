use std::collections::HashMap;

use aoc2024::stones::{compute_n, compute_recursive, stone_count};

#[test]
fn stones_after_blinks() {
    assert_eq!(stone_count(&vec![0, 1, 10, 99, 999], 1), Some(7));
    assert_eq!(stone_count(&vec![125, 17], 6), Some(22));
    assert_eq!(stone_count(&vec![125, 17], 25), Some(55312));
    assert_eq!(stone_count(&vec![125, 17], 75), Some(65601038650482));
    assert_eq!(stone_count(&vec![], 75), Some(0));
    assert_eq!(stone_count(&vec![7], 0), Some(1));
}

#[test]
fn stones_that_overflow() {
    assert_eq!(stone_count(&vec![u64::MAX], 1), Some(2));
    assert_eq!(stone_count(&vec![1_000_000_000_000_000_000], 1), None);
}

#[test]
fn memo_is_shared() {
    let mut m = HashMap::new();
    assert_eq!(compute_n(&mut m, 125, 6, 0), Some(7));
    assert_eq!(compute_recursive(&mut m, &vec![125, 17], 6, 0), Some(22));
    assert!(!m.is_empty());
}
