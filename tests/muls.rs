use aoc2024::muls::{find_and_eval_muls_part1, find_and_eval_muls_part2, sum_enabled_products, sum_products};

fn group(s: &str) -> Option<Vec<u8>> {
    Some(s.as_bytes().to_vec())
}

#[test]
fn muls_in_corrupted_memory() {
    let line = "xmul(2,4)%&mul[3,7]!@^do_not_mul(5,5)+mul(32,64]then(mul(11,8)mul(8,5))";
    assert_eq!(find_and_eval_muls_part1(line), Some(161));
    assert_eq!(find_and_eval_muls_part1("mul(1234,2)mul(12,3)"), Some(36));
    assert_eq!(find_and_eval_muls_part1(""), Some(0));
}

#[test]
fn muls_with_do_and_dont() {
    let line = "xmul(2,4)&mul[3,7]!^don't()_mul(5,5)+mul(32,64](mul(11,8)undo()?mul(8,5))";
    assert_eq!(find_and_eval_muls_part2(line, true), Some((48, true)));
    assert_eq!(find_and_eval_muls_part2("mul(2,3)don't()", false), Some((0, false)));
    assert_eq!(find_and_eval_muls_part2("mul(2,3)don't()", true), Some((6, false)));
}

#[test]
fn products_of_captured_groups() {
    let caps = vec![
        vec![group("mul(2,4)"), group("2"), group("4")],
        vec![group("mul(x,4)"), group("x"), group("4")],
        vec![group("mul(999,999)"), group("999"), group("999")],
    ];
    assert_eq!(sum_products(&caps), 8 + 998001);
    let caps2 = vec![
        vec![group("mul(2,4)"), group("mul(2,4)"), group("2"), group("4"), None, None],
        vec![group("don't()"), None, None, None, None, group("don't()")],
        vec![group("mul(5,5)"), group("mul(5,5)"), group("5"), group("5"), None, None],
        vec![group("do()"), None, None, None, group("do()"), None],
        vec![group("mul(8,5)"), group("mul(8,5)"), group("8"), group("5"), None, None],
    ];
    assert_eq!(sum_enabled_products(&caps2, true), (48, true));
    assert_eq!(sum_enabled_products(&caps2[..2].to_vec(), false), (0, false));
}
