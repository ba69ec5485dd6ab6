use aoc2024::days::{run, Puzzle};
use aoc2024::locks::{count_fitting_pairs, key_can_fit_lock};
use aoc2024::reports::{count_safe, is_safe_as_is, is_safe_part2};
use aoc2024::secrets::{best_bananas, get_next_secret, nth_secret, sum_of_secrets};

#[test]
fn days_select_their_puzzle() {
    assert_eq!(run(1), Puzzle::HistorianHysteria);
    assert_eq!(run(16), Puzzle::ReindeerMaze);
    assert_eq!(run(18), Puzzle::RamRun);
    assert_eq!(run(25), Puzzle::CodeChronicle);
}

fn example_reports() -> Vec<Vec<u8>> {
    vec![
        vec![7, 6, 4, 2, 1],
        vec![1, 2, 7, 8, 9],
        vec![9, 7, 6, 2, 1],
        vec![1, 3, 2, 4, 5],
        vec![8, 6, 4, 4, 1],
        vec![1, 3, 6, 7, 9],
    ]
}

#[test]
fn reports_safe_as_is() {
    let r = example_reports();
    let safe: Vec<bool> = r.iter().map(|x| is_safe_as_is(x)).collect();
    assert_eq!(safe, vec![true, false, false, false, false, true]);
    assert!(is_safe_as_is(&[]));
    assert!(is_safe_as_is(&[4]));
    assert!(!is_safe_as_is(&[4, 4]));
    assert_eq!(count_safe(&r, false), 2);
}

#[test]
fn reports_safe_with_dampener() {
    let r = example_reports();
    let safe: Vec<bool> = r.iter().map(|x| is_safe_part2(x)).collect();
    assert_eq!(safe, vec![true, false, false, true, true, true]);
    assert!(is_safe_part2(&[4, 4]));
    assert!(is_safe_part2(&[9, 1, 2, 3]));
    assert_eq!(count_safe(&r, true), 4);
}

#[test]
fn keys_and_locks() {
    let locks = vec![[0, 5, 3, 4, 3], [1, 2, 0, 5, 3]];
    let keys = vec![[5, 0, 2, 1, 3], [4, 3, 4, 0, 2], [3, 0, 2, 0, 1]];
    assert!(!key_can_fit_lock(locks[0], keys[0]));
    assert!(key_can_fit_lock(locks[0], keys[2]));
    assert_eq!(count_fitting_pairs(&locks, &keys), 3);
    assert_eq!(count_fitting_pairs(&vec![], &keys), 0);
}

#[test]
fn secrets_evolve() {
    assert_eq!(get_next_secret(123), 15887950);
    assert_eq!(get_next_secret(15887950), 16495136);
    assert_eq!(nth_secret(123, 10), 5908254);
    assert_eq!(nth_secret(1, 2000), 8685429);
    assert_eq!(nth_secret(77, 0), 77);
    assert_eq!(sum_of_secrets(&vec![1, 10, 100, 2024], 2000), 37327623);
}

#[test]
fn best_sequence_of_changes() {
    assert_eq!(best_bananas(&vec![1, 2, 3, 2024], 2000), 23);
    assert_eq!(best_bananas(&vec![123], 9), 6);
    assert_eq!(best_bananas(&vec![123], 3), 0);
    assert_eq!(best_bananas(&vec![], 2000), 0);
}
