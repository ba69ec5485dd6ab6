use aoc2024::words::{count_part1, count_x_mas, count_xmas};

fn example() -> Vec<Vec<u8>> {
    [
        "MMMSXXMASM",
        "MSAMXMSMSA",
        "AMXSXMAAMM",
        "MSAMASMSMX",
        "XMASAMXAMM",
        "XXAMMXXAMA",
        "SMSMSASXSS",
        "SAXAMASAAA",
        "MAMMMXMMMM",
        "MXMXAXMASX",
    ]
    .iter()
    .map(|r| r.as_bytes().to_vec())
    .collect()
}

#[test]
fn xmas_in_every_direction() {
    assert_eq!(count_xmas(&example()), 18);
    let line = vec![b"XMASAMX".to_vec()];
    assert_eq!(count_part1(&line, 0, 1), 1);
    assert_eq!(count_part1(&line, 0, -1), 1);
    assert_eq!(count_part1(&line, 1, 0), 0);
    assert_eq!(count_xmas(&vec![]), 0);
}

#[test]
fn crossed_mas() {
    assert_eq!(count_x_mas(&example()), 9);
    let x = vec![b"M.S".to_vec(), b".A.".to_vec(), b"M.S".to_vec()];
    assert_eq!(count_x_mas(&x), 1);
    let not_x = vec![b"M.M".to_vec(), b".A.".to_vec(), b"M.S".to_vec()];
    assert_eq!(count_x_mas(&not_x), 0);
}
