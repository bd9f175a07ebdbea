use aoc2025::joltage::{bank_joltage, part_one, part_two, solve_joltage};

const EXAMPLE: &str = "987654321111111\n811111111111119\n234234234234278\n818181911112111\n";

#[test]
fn joltage_example_part_one() {
    assert_eq!(part_one(EXAMPLE), Some(357));
}

#[test]
fn joltage_example_part_two() {
    assert_eq!(part_two(EXAMPLE), Some(3121910778619));
}

#[test]
fn first_largest_digit_is_taken() {
    assert_eq!(bank_joltage(b"818181911112111", 2), Some(92));
    assert_eq!(bank_joltage(b"811111111111119", 2), Some(89));
    assert_eq!(bank_joltage(b"9919", 3), Some(999));
}

#[test]
fn short_or_bad_bank() {
    assert_eq!(bank_joltage(b"9", 2), None);
    assert_eq!(bank_joltage(b"9x9", 2), None);
    assert_eq!(solve_joltage("12\n3\n", 2), None);
}

#[test]
fn zero_batteries() {
    assert_eq!(solve_joltage("12\n34\n", 0), Some(0));
}

#[test]
fn too_many_digits_overflow() {
    assert_eq!(bank_joltage(b"999999999999999999999", 21), None);
}
