use aoc2025::paper::{adjs, count_adjacent, inside, part_one, part_two, read_matrix, CellType};

const EXAMPLE: &str = "..@@.@@@@.
@@@.@.@.@@
@@@@@.@.@@
@.@@@@..@.
@@.@@@@.@@
.@@@@@@@.@
.@.@.@.@@@
@.@@@.@@@@
.@@@@@@@@.
@.@.@@@.@.
";

#[test]
fn paper_example_part_one() {
    assert_eq!(part_one(EXAMPLE), Some(13));
}

#[test]
fn paper_example_part_two() {
    assert_eq!(part_two(EXAMPLE), Some(43));
}

#[test]
fn neighbours_of_a_corner() {
    let mut v = adjs(0, 0, 3, 3);
    v.sort();
    assert_eq!(v, vec![(0, 1), (1, 0), (1, 1)]);
    assert_eq!(adjs(1, 1, 3, 3).len(), 8);
    assert!(!inside(-1, 0, 3, 3));
    assert!(inside(2, 2, 3, 3));
}

#[test]
fn counts_follow_the_rolls() {
    let mut g = read_matrix("@@\n@.\n").unwrap();
    count_adjacent(&mut g);
    assert_eq!(g.cells[0].adj, 2);
    assert_eq!(g.cells[3].adj, 3);
    assert_eq!(g.cells[3].kind, CellType::Empty);
}

#[test]
fn bad_grid_is_rejected() {
    assert!(read_matrix("@@\n@\n").is_none());
    assert_eq!(part_one("@x\n"), None);
}

#[test]
fn dense_block_keeps_its_core() {
    // In a full 3x3 block only the corners have fewer than four neighbours
    // at first; once they go, every remaining roll is exposed.
    assert_eq!(part_one("@@@\n@@@\n@@@\n"), Some(4));
    assert_eq!(part_two("@@@\n@@@\n@@@\n"), Some(9));
}
