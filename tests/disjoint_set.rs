use aoc2025::union_find::DisjointSet;
use aoc2025::selector::{LargestK, SmallestK};

#[test]
fn union_by_size_and_find() {
    let mut ds = DisjointSet::new(5);
    ds.union(0, 1);
    ds.union(2, 3);
    ds.union(3, 1);
    let r = ds.find(0);
    assert_eq!(ds.find(r), r);
    assert_eq!(ds.find(2), r);
    assert_eq!(ds.cluster_size(3), 4);
    assert_eq!(ds.cluster_size(4), 1);
    assert_ne!(ds.find(4), r);
}

#[test]
fn equal_sizes_attach_second_under_first() {
    let mut ds = DisjointSet::new(2);
    ds.union(1, 0);
    assert_eq!(ds.find(0), 1);
}

#[test]
fn smallest_k_keeps_smallest() {
    let mut s = SmallestK::with_capacity(2);
    s.offer((5, 0, 1));
    s.offer((3, 0, 2));
    s.offer((4, 1, 2));
    s.offer((4, 1, 3));
    assert_eq!(s.peek(), Some((4, 1, 2)));
    assert_eq!(s.into_sorted_vec(), vec![(3, 0, 2), (4, 1, 2)]);
}

#[test]
fn largest_k_keeps_largest() {
    let mut s = LargestK::with_capacity(2);
    s.offer(1);
    s.offer(5);
    s.offer(3);
    s.offer(2);
    assert_eq!(s.into_vec(), vec![5, 3]);
}
