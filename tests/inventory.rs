use aoc2025::inventory::{contains_id, merge_ranges, parse_range, part_one, part_two, read_inventory};

const EXAMPLE: &str = "3-5\n10-14\n16-20\n12-18\n\n1\n5\n8\n11\n17\n32\n";

#[test]
fn inventory_example_part_one() {
    assert_eq!(part_one(EXAMPLE), Some(3));
}

#[test]
fn inventory_example_part_two() {
    assert_eq!(part_two(EXAMPLE), Some(14));
}

#[test]
fn merging_joins_overlaps_and_drops_empty() {
    let sorted = vec![(3, 5), (5, 7), (9, 8), (10, 14), (12, 18), (16, 20)];
    let merged = merge_ranges(&sorted);
    assert_eq!(merged, vec![(3, 7), (10, 20)]);
    assert!(contains_id(&merged, 7));
    assert!(!contains_id(&merged, 8));
    assert!(contains_id(&merged, 10));
    assert!(!contains_id(&merged, 21));
    assert!(!contains_id(&merged, 2));
}

#[test]
fn reading_splits_at_blank_line() {
    let (ranges, ids) = read_inventory("1-2\n\n7\n").unwrap();
    assert_eq!(ranges, vec![(1, 2)]);
    assert_eq!(ids, vec![7]);
    assert!(read_inventory("1-x\n\n7\n").is_none());
    assert!(read_inventory("1-2\n\nseven\n").is_none());
    assert_eq!(parse_range(b"4-9"), Some((4, 9)));
}

#[test]
fn whole_identifier_space_overflows() {
    assert_eq!(part_two("0-18446744073709551615\n\n"), None);
    assert_eq!(part_two("1-18446744073709551615\n\n"), Some(18446744073709551615));
}
