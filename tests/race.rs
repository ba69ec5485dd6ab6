use aoc2024::dijkstra::Dijkstrable;
use aoc2024::race::{compute_cheats_20, count_long_cheats, count_short_cheats, track_from_end, track_space};

fn example() -> (usize, Vec<u8>) {
    let rows = [
        "###############",
        "#...#...#.....#",
        "#.#.#.#.#.###.#",
        "#S#...#.#.#...#",
        "#######.#.#.###",
        "#######.#.#...#",
        "#######.#.###.#",
        "###..E#...#...#",
        "###.#######.###",
        "#...###...#...#",
        "#.#####.#.###.#",
        "#.#...#.#.#...#",
        "#.#.#.#.#.#.###",
        "#...#...#...###",
        "###############",
    ];
    (15, rows.iter().flat_map(|r| r.bytes()).collect())
}

#[test]
fn track_distances_from_end() {
    let (w, cells) = example();
    let (e, g) = track_from_end(w, &cells).unwrap();
    assert_eq!(e, 7 * 15 + 5);
    assert_eq!(g.dist(e), Some(0));
    assert_eq!(g.dist(3 * 15 + 1), Some(84));
    assert_eq!(g.dist(0), None);
    assert!(track_from_end(3, &b"...".to_vec()).is_none());
    assert_eq!(track_space(3, &b"#..".to_vec()).dist(1), None);
}

#[test]
fn two_step_cheats() {
    let (w, cells) = example();
    let (_, g) = track_from_end(w, &cells).unwrap();
    assert_eq!(count_short_cheats(&g, &cells, 1), 44);
    assert_eq!(count_short_cheats(&g, &cells, 20), 5);
    assert_eq!(count_short_cheats(&g, &cells, 64), 1);
    assert_eq!(count_short_cheats(&g, &cells, 65), 0);
}

#[test]
fn long_cheats() {
    let (w, cells) = example();
    let (_, g) = track_from_end(w, &cells).unwrap();
    assert_eq!(count_long_cheats(&g, &cells, 20, 50), 285);
    assert_eq!(count_long_cheats(&g, &cells, 20, 76), 3);
    assert_eq!(count_long_cheats(&g, &cells, 2, 1), 44);
    // All three cheats that save 76 steps start on the start tile.
    assert_eq!(compute_cheats_20(&g, &cells, 3 * 15 + 1, 84, 20, 76), 3);
    assert_eq!(compute_cheats_20(&g, &cells, 3 * 15 + 1, 84, 20, 77), 0);
}
