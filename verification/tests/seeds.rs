use seed_finder::seeds::{label_results, parse_seed_list, search_bounds};
use seed_finder::utils::find_chinese_collision;

#[test]
fn seeds_from_text() {
    let text = "a 12\nfoo\t-5\r\n+7\nx y z\n99999999999\n  42  \n\n-2147483648\n2147483648\n1 2 3\n-\n12a\n";
    assert_eq!(parse_seed_list(text), vec![12, -5, 7, 42, i32::MIN, 3]);
    assert!(parse_seed_list("").is_empty());
    assert_eq!(parse_seed_list("0007"), vec![7]);
}

#[test]
fn seeds_match_the_standard_parser() {
    let text = "seed 100\n名字 -300\n  \n+ 5\n--4\n+-4\n2147483647\n4294967296\n";
    let expected: Vec<i32> = text.lines().filter_map(|l| l.split_whitespace().next_back()?.parse().ok()).collect();
    assert_eq!(parse_seed_list(text), expected);
}

#[test]
fn search_range() {
    assert_eq!(search_bounds(0, 100_000_000), (0, 100_000_000, 100_000_001));
    assert_eq!(search_bounds(10, 3), (3, 10, 8));
    assert_eq!(search_bounds(5, 5), (5, 5, 1));
    assert_eq!(search_bounds(i32::MIN, i32::MAX), (i32::MIN, i32::MAX, i32::MAX as usize));
    assert_eq!(search_bounds(-1, i32::MAX - 1), (-1, i32::MAX - 1, i32::MAX as usize));
}

#[test]
fn result_rows() {
    let r: Vec<(i32, usize)> = (0..60).map(|i| (i * 3, 1000 - i as usize)).collect();
    let rows = label_results(&r, true);
    assert_eq!(rows.len(), 50);
    assert_eq!(rows[7].0, 21);
    assert_eq!(rows[7].1, 993);
    assert_eq!(rows[7].2, find_chinese_collision(21).unwrap());
    assert_eq!(label_results(&r, false).len(), 60);
    assert_eq!(label_results(&r[..3].to_vec(), true).len(), 3);
}
