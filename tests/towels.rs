use aoc2024::towels::{count_designs, count_possibilities_rec};

fn towels() -> Vec<Vec<u8>> {
    ["r", "wr", "b", "g", "bwu", "rb", "gb", "br"].iter().map(|t| t.as_bytes().to_vec()).collect()
}

fn designs() -> Vec<Vec<u8>> {
    ["brwrr", "bggr", "gbbr", "rrbgbr", "ubwu", "bwurrg", "brgr", "bbrgwb"]
        .iter()
        .map(|d| d.as_bytes().to_vec())
        .collect()
}

#[test]
fn ways_to_make_designs() {
    let ways: Vec<Option<u64>> = designs().iter().map(|d| count_possibilities_rec(&towels(), d)).collect();
    assert_eq!(ways, vec![Some(2), Some(1), Some(4), Some(6), Some(0), Some(1), Some(2), Some(0)]);
    assert_eq!(count_possibilities_rec(&towels(), &vec![]), Some(1));
}

#[test]
fn designs_possible_and_total() {
    assert_eq!(count_designs(&towels(), &designs()), (6, Some(16)));
    let dup: Vec<Vec<u8>> = vec![b"r".to_vec(), b"r".to_vec()];
    assert_eq!(count_designs(&dup, &vec![b"rr".to_vec()]), (1, Some(1)));
}

#[test]
fn too_many_ways() {
    let ones: Vec<Vec<u8>> = vec![b"a".to_vec(), b"aa".to_vec()];
    let long = vec![b'a'; 100];
    assert_eq!(count_possibilities_rec(&ones, &long), None);
    let short = vec![b'a'; 10];
    assert_eq!(count_possibilities_rec(&ones, &short), Some(89));
}
