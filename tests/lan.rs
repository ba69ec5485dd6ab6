use aoc2024::lan::{count_chief_triangles, link_matrix};

const EXAMPLE: &str = "kh-tc qp-kh de-cg ka-co yn-aq qp-ub cg-tb vc-aq tb-ka wh-tc yn-cg kh-ub ta-co de-co tc-td tb-wq \
wh-td ta-ka td-qp aq-cg wq-ub ub-vc de-ta wq-aq wq-vc wh-yn ka-de kh-ta co-tc wh-qp tb-vc td-yn";

fn index_of(names: &mut Vec<Vec<u8>>, name: &str) -> usize {
    match names.iter().position(|n| n == name.as_bytes()) {
        Some(i) => i,
        None => {
            names.push(name.as_bytes().to_vec());
            names.len() - 1
        }
    }
}

fn network() -> (Vec<Vec<u8>>, Vec<(usize, usize)>) {
    let mut names = Vec::new();
    let mut links = Vec::new();
    for pair in EXAMPLE.split_whitespace() {
        let (a, b) = pair.split_once('-').unwrap();
        let (ia, ib) = (index_of(&mut names, a), index_of(&mut names, b));
        links.push((ia, ib));
    }
    (names, links)
}

#[test]
fn triangles_with_a_chief() {
    let (names, links) = network();
    assert_eq!(count_chief_triangles(names.len(), &links, &names), 7);
    let names3 = vec![b"ab".to_vec(), b"cd".to_vec(), b"ef".to_vec()];
    assert_eq!(count_chief_triangles(3, &vec![(0, 1), (1, 2), (2, 0)], &names3), 0);
    let names3t = vec![b"ab".to_vec(), b"td".to_vec(), b"ef".to_vec()];
    assert_eq!(count_chief_triangles(3, &vec![(0, 1), (1, 2), (2, 0)], &names3t), 1);
    assert_eq!(count_chief_triangles(3, &vec![(0, 1), (1, 2)], &names3t), 0);
}

#[test]
fn links_are_symmetric() {
    let m = link_matrix(3, &vec![(0, 2)]);
    assert_eq!(m, vec![false, false, true, false, false, false, true, false, false]);
}
