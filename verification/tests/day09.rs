use puzzle_solvers::day09::{check_sum, expand, solve};

const EXAMPLE_INPUT: &[u8] = b"2333133121414131402";

const DISK_IMAGE: &[i64] = &[
    0, 0, -1, -1, -1, 1, 1, 1, -1, -1, -1, 2, -1, -1, -1, 3, 3, 3, -1, 4, 4, -1, 5, 5, 5, 5,
    -1, 6, 6, 6, 6, -1, 7, 7, 7, -1, 8, 8, 8, 8, 9, 9,
];

const MOVED_EXAMPLE: &[i64] = &[
    0, 0, 9, 9, 8, 1, 1, 1, 8, 8, 8, 2, 7, 7, 7, 3, 3, 3, 6, 4, 4, 6, 5, 5, 5, 5, 6, 6,
];

#[test]
fn test_expand() {
    assert_eq!(expand(&EXAMPLE_INPUT), DISK_IMAGE);
}

#[test]
fn test_check_sum() {
    assert_eq!(check_sum(&MOVED_EXAMPLE), 1928);
}

#[test]
fn day09_test_move() {
    solve("2333133121414131402");
}

#[test]
fn day09_expand_pairs_lengths() {
    assert_eq!(expand(b"12345"), vec![0, -1, -1, 1, 1, 1, -1, -1, -1, -1, 2, 2, 2, 2, 2]);
    assert_eq!(expand(b"1234"), vec![0, -1, -1, 1, 1, 1, -1, -1, -1, -1]);
    assert_eq!(expand(b""), Vec::<i64>::new());
    assert_eq!(expand(b"0"), Vec::<i64>::new());
}

#[test]
fn day09_check_sum_skips_free_blocks() {
    assert_eq!(check_sum(&[-1, 3, -1, 2]), 3 + 6);
    assert_eq!(check_sum(&[]), 0);
    assert_eq!(check_sum(DISK_IMAGE), 4116);
}
