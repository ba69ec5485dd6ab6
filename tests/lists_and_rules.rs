use aoc2024::calibration::{permute_recursive, solve};
use aoc2024::lists::{list_distance, similarity, total_distance};
use aoc2024::printing::{
    deps_are_satisfied, fill_in_next, is_correctly_ordered, reorder, sum_correct_middles, sum_fixed_middles,
};

#[test]
fn list_distance_pairs_sorted_entries() {
    let left = vec![3, 4, 2, 1, 3, 3];
    let right = vec![4, 3, 5, 3, 9, 3];
    assert_eq!(list_distance(&left, &right), 11);
    assert_eq!(total_distance(&left, &right), 1 + 1 + 3 + 2 + 6 + 0);
    assert_eq!(list_distance(&vec![-5], &vec![5]), 10);
    assert_eq!(list_distance(&vec![], &vec![]), 0);
}

#[test]
fn similarity_counts_occurrences() {
    let left = vec![3, 4, 2, 1, 3, 3];
    let right = vec![4, 3, 5, 3, 9, 3];
    assert_eq!(similarity(&left, &right), 31);
    assert_eq!(similarity(&vec![-2], &vec![-2, -2]), -4);
}

fn example_rules() -> Vec<(i32, i32)> {
    vec![
        (47, 53), (97, 13), (97, 61), (97, 47), (75, 29), (61, 13), (75, 53), (29, 13), (97, 29), (53, 29), (61, 53),
        (97, 53), (61, 29), (47, 13), (75, 47), (97, 75), (47, 61), (75, 61), (47, 29), (75, 13), (53, 13),
    ]
}

fn example_updates() -> Vec<Vec<i32>> {
    vec![
        vec![75, 47, 61, 53, 29],
        vec![97, 61, 53, 29, 13],
        vec![75, 29, 13],
        vec![75, 97, 47, 61, 53],
        vec![61, 13, 29],
        vec![97, 13, 75, 29, 47],
    ]
}

#[test]
fn updates_in_order() {
    let rules = example_rules();
    let ok: Vec<bool> = example_updates().iter().map(|u| is_correctly_ordered(&rules, u)).collect();
    assert_eq!(ok, vec![true, true, true, false, false, false]);
    assert_eq!(sum_correct_middles(&rules, &example_updates()), 143);
}

#[test]
fn updates_reordered() {
    let rules = example_rules();
    assert_eq!(reorder(&rules, &vec![75, 97, 47, 61, 53]), Some(vec![97, 75, 47, 61, 53]));
    assert_eq!(reorder(&rules, &vec![61, 13, 29]), Some(vec![61, 29, 13]));
    assert_eq!(reorder(&rules, &vec![97, 13, 75, 29, 47]), Some(vec![97, 75, 47, 29, 13]));
    assert_eq!(sum_fixed_middles(&rules, &example_updates()), Some(123));
}

#[test]
fn cyclic_rules_cannot_be_reordered() {
    let rules = vec![(1, 2), (2, 1)];
    assert_eq!(reorder(&rules, &vec![1, 2]), None);
    assert_eq!(sum_fixed_middles(&rules, &vec![vec![1, 2]]), None);
}

#[test]
fn dependencies_and_next_page() {
    let rules = example_rules();
    assert!(!deps_are_satisfied(&rules, 13, &vec![97], &vec![97, 13, 75]));
    assert!(deps_are_satisfied(&rules, 13, &vec![97, 75], &vec![13, 97, 75]));
    let mut update = vec![61, 13, 29];
    let mut new_update = vec![];
    let mut printed = vec![];
    assert!(fill_in_next(&rules, &mut update, &mut new_update, &mut printed));
    assert_eq!(update, vec![13, 29]);
    assert_eq!(new_update, vec![61]);
    assert_eq!(printed, vec![61]);
}

fn equations() -> (Vec<u64>, Vec<Vec<u64>>) {
    (
        vec![190, 3267, 83, 156, 7290, 161011, 192, 21037, 292],
        vec![
            vec![10, 19],
            vec![81, 40, 27],
            vec![17, 5],
            vec![15, 6],
            vec![6, 8, 6, 15],
            vec![16, 10, 13],
            vec![17, 8, 14],
            vec![9, 7, 18, 13],
            vec![11, 6, 16, 20],
        ],
    )
}

#[test]
fn calibration_with_add_and_multiply() {
    let (targets, operands) = equations();
    assert_eq!(solve(&targets, &operands, false), 3749);
    assert_eq!(permute_recursive(190, &vec![10, 19], 1, 10, false), 190);
    assert_eq!(permute_recursive(83, &vec![17, 5], 1, 17, false), 0);
}

#[test]
fn calibration_with_concatenation() {
    let (targets, operands) = equations();
    assert_eq!(solve(&targets, &operands, true), 11387);
    assert_eq!(permute_recursive(156, &vec![15, 6], 1, 15, true), 156);
    assert_eq!(permute_recursive(156, &vec![15, 6], 1, 15, false), 0);
}

#[test]
fn calibration_overflow_is_not_a_solution() {
    assert_eq!(permute_recursive(u64::MAX, &vec![u64::MAX, 2], 1, u64::MAX, true), 0);
    assert_eq!(permute_recursive(u64::MAX, &vec![u64::MAX, 1], 1, u64::MAX, false), u64::MAX);
}
