use aoc2024::antennas::{count_antinodes, find_antennas};

fn example() -> Vec<Vec<u8>> {
    [
        "............",
        "........0...",
        ".....0......",
        ".......0....",
        "....0.......",
        "......A.....",
        "............",
        "............",
        "........A...",
        ".........A..",
        "............",
        "............",
    ]
    .iter()
    .map(|r| r.as_bytes().to_vec())
    .collect()
}

#[test]
fn antennas_are_found() {
    let ants = find_antennas(&example());
    assert_eq!(ants.len(), 7);
    assert_eq!(ants[0], (8, 1, b'0'));
    assert_eq!(ants[6], (9, 9, b'A'));
}

#[test]
fn antinodes_of_pairs() {
    let ants = find_antennas(&example());
    assert_eq!(count_antinodes(&ants, 12, 12, false), 14);
    let two = vec![(4, 3, b'a'), (5, 5, b'a')];
    assert_eq!(count_antinodes(&two, 10, 10, false), 2);
    let other_freq = vec![(4, 3, b'a'), (5, 5, b'b')];
    assert_eq!(count_antinodes(&other_freq, 10, 10, false), 0);
}

#[test]
fn resonant_antinodes() {
    let ants = find_antennas(&example());
    assert_eq!(count_antinodes(&ants, 12, 12, true), 34);
    let t = vec![(0, 0, b'T'), (3, 1, b'T'), (1, 2, b'T')];
    assert_eq!(count_antinodes(&t, 10, 10, true), 9);
}
