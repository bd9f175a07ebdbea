use aoc2025::tiles::{get_points, part_one, part_two, Point};

const EXAMPLE: &str = "7,1\n11,1\n11,7\n9,7\n9,5\n2,5\n2,3\n7,3\n";

#[test]
fn tiles_example_part_one() {
    assert_eq!(part_one(EXAMPLE), Some(50));
}

#[test]
fn tiles_part_two_has_no_answer() {
    assert_eq!(part_two(EXAMPLE), None);
}

#[test]
fn area_counts_border_tiles() {
    let a = Point::new(2, 5);
    let b = Point::new(11, 1);
    assert_eq!(a.area(&b), 50);
    assert_eq!(b.area(&a), 50);
    assert_eq!(a.abs_dif(&b), Point::new(9, 4));
}

#[test]
fn single_point_has_no_pair() {
    assert_eq!(part_one("3,4\n"), Some(0));
}

#[test]
fn huge_rectangle_is_rejected() {
    assert_eq!(part_one("-9223372036854775808,0\n9223372036854775807,0\n"), None);
    assert_eq!(Point::new(0, 0).checked_area(&Point::new(3, 3)), Some(16));
}

#[test]
fn bad_point_line() {
    assert!(get_points("1;2\n").is_none());
}
