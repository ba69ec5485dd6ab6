use aoc2024::trails::{count_summits, find_trail_head_and_search, search, summit_score};

fn grid(rows: &[&str]) -> Vec<Vec<i8>> {
    rows.iter().map(|r| r.chars().map(|c| c.to_digit(10).unwrap() as i8).collect()).collect()
}

fn example() -> Vec<Vec<i8>> {
    grid(&["89010123", "78121874", "87430965", "96549874", "45678903", "32019012", "01329801", "10456732"])
}

#[test]
fn trailhead_scores() {
    assert_eq!(count_summits(&example()), 36);
    let small = grid(&["0123", "1234", "8765", "9876"]);
    assert_eq!(count_summits(&small), 1);
    assert_eq!(summit_score(&small, 0, 0), 1);
    assert_eq!(summit_score(&small, 1, 0), 0);
}

#[test]
fn trailhead_ratings() {
    assert_eq!(find_trail_head_and_search(&example()), 81);
    let small = grid(&["0123", "1234", "8765", "9876"]);
    assert_eq!(find_trail_head_and_search(&small), 16);
    assert_eq!(search(&small, 0, 0, -1), 16);
    assert_eq!(search(&small, -1, 0, -1), 0);
    assert_eq!(search(&small, 3, 3, 5), 1);
}
