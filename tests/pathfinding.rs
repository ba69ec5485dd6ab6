use aoc2024::dijkstra::{dijkstra, relax, Dijkstrable};
use aoc2024::dir::{cell_step, dir_to_usize, Direction};
use aoc2024::maze::{find_start_end, lowest_score, neighbours, neighbours_reverse, MazeMap, END, START};
use aoc2024::memory::{fall, first_blocking_byte, min_steps, MemorySpace};

fn searched(width: usize, height: usize, bytes: &Vec<(usize, usize)>) -> MemorySpace {
    let mut g = fall(width, height, bytes, bytes.len());
    dijkstra(&mut g, 0, 0);
    g
}

fn all_dists<G: Dijkstrable>(g: &G, n: usize) -> Vec<Option<u64>> {
    (0..n).map(|p| g.dist(p)).collect()
}

#[test]
fn open_grid_distances_are_manhattan() {
    let g = searched(5, 5, &vec![]);
    assert_eq!(g.dist(4 * 5 + 4), Some(8));
    assert_eq!(g.dist(4 * 5), Some(4));
    assert_eq!(g.dist(0), Some(0));
    assert_eq!(g.dist(2 * 5 + 3), Some(5));
    assert_eq!(min_steps(5, 5, &vec![], 0), Some(8));
}

#[test]
fn wall_row_with_gap_routes_through_gap() {
    let wall = vec![(0, 2), (1, 2), (3, 2), (4, 2)];
    let g = searched(5, 5, &wall);
    assert_eq!(g.dist(2 * 5 + 2), Some(4));
    assert_eq!(g.dist(4 * 5 + 4), Some(8));
    // The bottom-left corner is 4 steps away in the open grid, 8 through the gap.
    assert_eq!(g.dist(4 * 5), Some(8));
    assert_eq!(g.dist(3 * 5), Some(7));
    assert_eq!(g.dist(2 * 5), None);
    assert_eq!(min_steps(5, 5, &wall, 4), Some(8));
}

#[test]
fn fewer_turns_beat_fewer_steps() {
    let rows = [
        "#########",
        "#......E#",
        "#..#.#.##",
        "#.####..#",
        "#...#...#",
        "##....###",
        "#...#####",
        "#S.#.#..#",
        "#########",
    ];
    let cells: Vec<u8> = rows.iter().flat_map(|r| r.bytes()).collect();
    // The cheapest route takes 14 steps and 4 turns; a 12-step route exists
    // but needs more turns.
    assert_eq!(lowest_score(9, &cells), Some(4014));
}

#[test]
fn maze_example_lowest_score() {
    let rows = [
        "###############",
        "#.......#....E#",
        "#.#.###.#.###.#",
        "#.....#.#...#.#",
        "#.###.#####.#.#",
        "#.#.#.......#.#",
        "#.#.#####.###.#",
        "#...........#.#",
        "###.#.#####.#.#",
        "#...#.....#.#.#",
        "#.#.#.###.#.#.#",
        "#.....#...#.#.#",
        "#.###.#.#.#.#.#",
        "#S..#.....#...#",
        "###############",
    ];
    let cells: Vec<u8> = rows.iter().flat_map(|r| r.bytes()).collect();
    assert_eq!(lowest_score(15, &cells), Some(7036));
}

#[test]
fn maze_without_end_has_no_score() {
    let cells: Vec<u8> = "#####S...#####".bytes().collect();
    assert_eq!(lowest_score(7, &cells), None);
}

#[test]
fn enclosed_source_sets_only_itself() {
    let g = searched(3, 3, &vec![(1, 0), (0, 1)]);
    assert_eq!(g.dist(0), Some(0));
    for p in 1..9 {
        assert_eq!(g.dist(p), None);
    }
    assert_eq!(min_steps(3, 3, &vec![(1, 0), (0, 1)], 2), None);
}

#[test]
fn unreachable_points_stay_undiscovered() {
    let g = searched(3, 3, &vec![(1, 0), (1, 1), (1, 2)]);
    assert_eq!(g.dist(2), None);
    assert_eq!(g.dist(8), None);
    assert_eq!(g.dist(6), Some(2));
}

#[test]
fn second_search_changes_nothing() {
    let wall = vec![(0, 2), (1, 2), (3, 2), (4, 2), (2, 4)];
    let mut g = searched(5, 5, &wall);
    let first = all_dists(&g, 25);
    dijkstra(&mut g, 0, 0);
    assert_eq!(all_dists(&g, 25), first);
}

#[test]
fn relax_only_lowers() {
    let mut g = fall(2, 2, &vec![], 0);
    assert!(relax(&mut g, 3, 10));
    assert_eq!(g.dist(3), Some(10));
    assert!(!relax(&mut g, 3, 10));
    assert!(!relax(&mut g, 3, 12));
    assert_eq!(g.dist(3), Some(10));
    assert!(relax(&mut g, 3, 7));
    assert_eq!(g.dist(3), Some(7));
    assert!(!relax(&mut g, 0, 5));
    assert_eq!(g.dist(0), Some(0));
}

#[test]
fn ram_run_example() {
    let bytes: Vec<(usize, usize)> = vec![
        (5, 4), (4, 2), (4, 5), (3, 0), (2, 1), (6, 3), (2, 4), (1, 5), (0, 6), (3, 3), (2, 6), (5, 1),
        (1, 2), (5, 5), (2, 5), (6, 5), (1, 4), (0, 4), (6, 4), (1, 1), (6, 1), (1, 0), (0, 5), (1, 6),
        (2, 0),
    ];
    assert_eq!(min_steps(7, 7, &bytes, 12), Some(22));
    let k = first_blocking_byte(7, 7, &bytes, 12).unwrap();
    assert_eq!(bytes[k], (6, 1));
}

#[test]
fn no_blocking_byte_when_path_survives() {
    assert_eq!(first_blocking_byte(3, 3, &vec![(1, 1), (2, 0)], 0), None);
}

#[test]
fn directions_turn_and_step() {
    assert_eq!(Direction::Up.rotate_right(), Direction::Right);
    assert_eq!(Direction::Up.rotate_left(), Direction::Left);
    assert_eq!(Direction::Left.opposite(), Direction::Right);
    assert_eq!(dir_to_usize(Direction::Up), 3);
    assert_eq!(Direction::from_index(1), Direction::Down);
    assert_eq!(cell_step(4, Direction::Up, 3, 9), Some(1));
    assert_eq!(cell_step(4, Direction::Right, 3, 9), Some(5));
    assert_eq!(cell_step(5, Direction::Right, 3, 9), None);
    assert_eq!(cell_step(7, Direction::Down, 3, 9), None);
    assert_eq!(cell_step(3, Direction::Left, 3, 9), None);
}

#[test]
fn maze_neighbours_turn_or_step() {
    // Tile 4 of a 3-wide, 9-tile maze, facing right (point 16).
    assert_eq!(neighbours(16, 3, 9), vec![(17, 1000), (19, 1000), (20, 1)]);
    assert_eq!(neighbours_reverse(16, 3, 9), vec![(17, 1000), (19, 1000), (12, 1)]);
    // Facing up from the top row: no step.
    assert_eq!(neighbours(3, 3, 9), vec![(0, 1000), (2, 1000)]);
}

#[test]
fn start_and_end_are_found() {
    let cells: Vec<u8> = "#S.E#E".bytes().collect();
    assert_eq!(find_start_end(&cells, START), Some(1));
    assert_eq!(find_start_end(&cells, END), Some(3));
    assert_eq!(find_start_end(&cells, b'x'), None);
    let m = MazeMap::new(2, &cells);
    assert_eq!(m.nodes.len(), 24);
    assert!(m.is_impossible(0));
    assert!(!m.is_impossible(4));
}
