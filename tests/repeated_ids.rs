use aoc2025::repeated_ids::{compose, digits, parse_range, part_one, part_two, prefix, sum_invalids, Range};
use std::collections::HashSet;

#[test]
fn test_digits() {
    assert_eq!(digits(0), 0);
    assert_eq!(digits(1), 1);
    assert_eq!(digits(1234), 4);
}

#[test]
fn test_prefix() {
    assert_eq!(prefix(0, 1), 0);
    assert_eq!(prefix(1, 1), 1);
    assert_eq!(prefix(1234, 1), 1);
    assert_eq!(prefix(1234, 2), 12);
    assert_eq!(prefix(1234, 3), 123);
    assert_eq!(prefix(1234, 4), 1234);
}

#[test]
fn test_compose() {
    assert_eq!(compose(1, 1, 0), 1);
    assert_eq!(compose(1, 1, 1), 1);
    assert_eq!(compose(1, 1, 2), 11);
    assert_eq!(compose(123, 3, 1), 123);
    assert_eq!(compose(123, 3, 2), 123123);
    assert_eq!(compose(123, 3, 3), 123123123);
    assert_eq!(compose(123, 3, 4), 123123123123);
}

#[test]
fn test_edge_case() {
    let r = Range {
        start: 200,
        end: 1100,
    };

    assert_eq!(sum_invalids(&r, 2, &mut None), 1010);
}

#[test]
fn repeated_twice_in_small_range() {
    let r = Range { start: 11, end: 22 };
    assert_eq!(sum_invalids(&r, 2, &mut None), 33);
}

#[test]
fn tracked_set_counts_each_number_once() {
    let r = Range { start: 111110, end: 111112 };
    let mut set = Some(HashSet::new());
    // 111111 is three copies of 11 and two copies of 111.
    assert_eq!(sum_invalids(&r, 2, &mut set), 111111);
    assert_eq!(sum_invalids(&r, 3, &mut set), 0);
    assert!(set.unwrap().contains(&111111));
}

#[test]
fn untracked_counts_again() {
    let r = Range { start: 111110, end: 111112 };
    assert_eq!(sum_invalids(&r, 2, &mut None), 111111);
    assert_eq!(sum_invalids(&r, 3, &mut None), 111111);
}

const EXAMPLE: &str = "11-22,95-115,998-1012,1188511880-1188511890,222220-222224,1698522-1698528,446443-446449,38593856-38593862,565653-565659,824824821-824824827,2121212118-2121212124\n";

#[test]
fn ids_example_part_one() {
    assert_eq!(part_one(EXAMPLE), Some(1227775554));
}

#[test]
fn ids_example_part_two() {
    assert_eq!(part_two(EXAMPLE), Some(4174379265));
}

#[test]
fn parse_range_pieces() {
    assert_eq!(parse_range(b"11-22"), Some(Range { start: 11, end: 22 }));
    assert_eq!(parse_range(b"11"), None);
    assert_eq!(parse_range(b"a-2"), None);
}

#[test]
fn ids_need_a_line() {
    assert_eq!(part_one(""), None);
}
