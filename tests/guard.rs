use aoc2024::guard::{check_for_loop, count_loop_spots, count_patrolled};

fn example() -> Vec<u8> {
    [
        "....#.....",
        ".........#",
        "..........",
        "..#.......",
        ".......#..",
        "..........",
        ".#..^.....",
        "........#.",
        "#.........",
        "......#...",
    ]
    .iter()
    .flat_map(|r| r.bytes())
    .collect()
}

#[test]
fn patrolled_cells() {
    assert_eq!(count_patrolled(&example(), 10), Some(41));
    assert_eq!(count_patrolled(&b"....".to_vec(), 2), None);
    assert_eq!(count_patrolled(&b".^.".to_vec(), 3), Some(1));
}

#[test]
fn loop_spots() {
    assert_eq!(count_loop_spots(&example(), 10), Some(6));
}

#[test]
fn loops_are_detected() {
    let mut grid = example();
    grid[6 * 10 + 3] = b'#';
    let (trapped, visited) = check_for_loop(&grid, 10, 6 * 10 + 4);
    assert!(trapped);
    assert!(visited[6 * 10 + 4]);
    let (trapped, visited) = check_for_loop(&example(), 10, 6 * 10 + 4);
    assert!(!trapped);
    assert_eq!(visited.iter().filter(|v| **v).count(), 41);
    let boxed: Vec<u8> = ".#.#^#.#.".bytes().collect();
    let (trapped, _) = check_for_loop(&boxed, 3, 4);
    assert!(trapped);
}
