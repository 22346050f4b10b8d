use puzzle_solvers::day25::{count_things, get_schematics, match_keys, parse, solve, Key, Lock};
use puzzle_solvers::error::PuzzleError;

const EXAMPLE: &str = "#####
.####
.####
.####
.#.#.
.#...
.....

#####
##.##
.#.##
...##
...#.
...#.
.....

.....
#....
#....
#...#
#.#.#
#.###
#####

.....
.....
#.#..
###..
###.#
###.#
#####

.....
.....
.....
#....
#.#..
#.#.#
#####";

#[test]
fn day25_test_parse() {
    let input = parse(EXAMPLE);
    let (keys, locks) = get_schematics(&input);
    assert_eq!(match_keys(&keys, &locks), 3);
}

#[test]
fn day25_solve() {
    assert_eq!(solve(EXAMPLE), Ok(3));
    assert_eq!(solve("#####\n#...\n"), Err(PuzzleError::MalformedInput));
    assert_eq!(solve(""), Err(PuzzleError::MalformedInput));
}

#[test]
fn day25_heights() {
    let input = parse(EXAMPLE);
    assert_eq!(input.len(), 5);
    assert_eq!(count_things(&input[0]), vec![1, 6, 4, 5, 4]);
    assert_eq!(count_things(&input[2]), vec![6, 1, 3, 2, 4]);
    let (keys, locks) = get_schematics(&input);
    assert_eq!(keys, vec![Key(vec![1, 6, 4, 5, 4]), Key(vec![2, 3, 1, 6, 4])]);
    assert_eq!(
        locks,
        vec![Lock(vec![6, 1, 3, 2, 4]), Lock(vec![5, 4, 5, 1, 3]), Lock(vec![4, 1, 3, 1, 2])]
    );
}

#[test]
fn day25_fitting() {
    let key = |h: [usize; 5]| Key(h.to_vec());
    let lock = |h: [usize; 5]| Lock(h.to_vec());
    assert_eq!(match_keys(&vec![key([1, 1, 1, 1, 1])], &vec![lock([6, 6, 6, 6, 6])]), 1);
    assert_eq!(match_keys(&vec![key([1, 1, 1, 1, 2])], &vec![lock([6, 6, 6, 6, 6])]), 0);
    assert_eq!(match_keys(&vec![], &vec![lock([6, 6, 6, 6, 6])]), 0);
    assert_eq!(
        match_keys(
            &vec![key([0, 0, 0, 0, 0]), key([7, 7, 7, 7, 7])],
            &vec![lock([0, 0, 0, 0, 0]), lock([1, 0, 0, 0, 0]), lock([7, 0, 0, 0, 0])]
        ),
        4
    );
    assert_eq!(match_keys(&vec![Key(vec![usize::MAX])], &vec![Lock(vec![usize::MAX])]), 0);
}
