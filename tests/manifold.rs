use aoc2025::manifold::{inside, nextl, part_one, part_two, read_manifold, CellType, Coord};

const EXAMPLE: &str = ".......S.......
...............
.......^.......
...............
......^.^......
...............
.....^.^.^.....
...............
....^.^...^....
...............
...^.^...^.^...
...............
..^...^.....^..
...............
.^.^.^.^.^...^.
...............
";

#[test]
fn manifold_example_part_one() {
    assert_eq!(part_one(EXAMPLE), Some(21));
}

#[test]
fn manifold_example_part_two() {
    assert_eq!(part_two(EXAMPLE), Some(40));
}

#[test]
fn reading_finds_source() {
    let (mat, start) = read_manifold("..\n.S\n").unwrap();
    assert_eq!(start, Coord { i: 1, j: 1 });
    assert_eq!(mat.m, 2);
    assert_eq!(mat.n, 2);
    assert!(read_manifold("..\n.\n").is_none());
    assert!(read_manifold(".x\n..\n").is_none());
    assert_eq!(CellType::from_byte(b'^'), Some(CellType::Splitter));
}

#[test]
fn left_of_column_zero_is_outside() {
    let c = nextl(&Coord { i: 0, j: 0 });
    assert!(!inside(&c, 5, 5));
}

#[test]
fn splitter_at_edge_loses_a_path() {
    assert_eq!(part_two("S.\n^.\n..\n"), Some(1));
    assert_eq!(part_one("S.\n^.\n..\n"), Some(1));
}
