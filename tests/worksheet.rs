use aoc2025::worksheet::{fold_batch, part_one, part_two, read_cells, to_batches, words, Op};

const EXAMPLE: &str = "123 328  51 64 \n 45 64  387 23 \n  6 98  215 314\n*   +   *   +  \n";

#[test]
fn worksheet_example_part_one() {
    assert_eq!(part_one(EXAMPLE), Some(4277556));
}

#[test]
fn worksheet_example_part_two() {
    assert_eq!(part_two(EXAMPLE), Some(3263827));
}

#[test]
fn words_skip_runs_of_spaces() {
    assert_eq!(words(b"  12  3 "), vec![b"12".to_vec(), b"3".to_vec()]);
}

#[test]
fn cells_stop_at_operations() {
    assert_eq!(read_cells(b"1 2"), vec![Some(1), None, Some(2)]);
    assert_eq!(read_cells(b"*  +"), Vec::<Option<u8>>::new());
}

#[test]
fn batches_split_at_blank_columns() {
    let mat = vec![vec![Some(1), None, Some(3)], vec![Some(2), None, None]];
    assert_eq!(to_batches(&mat, 3), Some(vec![vec![12], vec![3]]));
}

#[test]
fn fold_batch_adds_or_multiplies() {
    assert_eq!(fold_batch(&vec![2, 3, 4], Op::Add), Some(9));
    assert_eq!(fold_batch(&vec![2, 3, 4], Op::Mul), Some(24));
    assert_eq!(fold_batch(&vec![], Op::Mul), Some(1));
    assert_eq!(fold_batch(&vec![u64::MAX, 2], Op::Mul), None);
}

#[test]
fn worksheet_rejects_unknown_operation() {
    assert_eq!(part_one("1 2\n+ -\n"), None);
    assert_eq!(part_one(""), None);
}
