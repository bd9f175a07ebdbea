use aoc2025::dial::{parse_rotations, part_one, part_two, solve, State};

const EXAMPLE: &str = "L68\nL30\nR48\nL5\nR60\nL55\nL1\nL99\nR14\nL82\n";

#[test]
fn dial_example_part_one() {
    assert_eq!(part_one(EXAMPLE), Some(3));
}

#[test]
fn dial_example_part_two() {
    assert_eq!(part_two(EXAMPLE), Some(6));
}

#[test]
fn dial_rejects_bad_line() {
    assert_eq!(part_one("L68\nX\n"), None);
    assert_eq!(part_two("R\n"), None);
}

#[test]
fn parse_left_and_right() {
    assert_eq!(parse_rotations(b"L68"), Some(-68));
    assert_eq!(parse_rotations(b"R48"), Some(48));
    assert_eq!(parse_rotations(b""), None);
}

#[test]
fn long_rotation_counts_every_pass() {
    let mut s = State::new(100, 50);
    s.rotate(1000);
    assert_eq!(s.times_crosses_zero(), 10);
    assert_eq!(s.times_ends_at_zero(), 0);
    s.rotate(-50);
    assert_eq!(s.times_crosses_zero(), 11);
    assert_eq!(s.times_ends_at_zero(), 1);
}

#[test]
fn left_from_zero_does_not_count_start() {
    let mut s = State::new(100, 0);
    assert_eq!(s.reversed_position(), 0);
    s.rotate(-5);
    assert_eq!(s.times_crosses_zero(), 0);
    assert_eq!(s.reversed_position(), 5);
}

#[test]
fn solve_applies_each_line() {
    let mut s = State::new(100, 50);
    assert!(solve(&mut s, "R50\nL100\n"));
    assert_eq!(s.times_ends_at_zero(), 2);
    assert_eq!(s.times_crosses_zero(), 2);
}
