use puzzle_solvers::day05::{check_if_sorted, parse, solve, solve_1, solve_2};
use puzzle_solvers::error::PuzzleError;

const EXAMPLE: &str = "47|53
97|13
97|61
97|47
75|29
61|13
75|53
29|13
97|29
53|29
61|53
97|53
61|29
47|13
75|47
97|75
47|61
75|61
47|29
75|13
53|13

75,47,61,53,29
97,61,53,29,13
75,29,13
75,97,47,61,53
61,13,29
97,13,75,29,47";

fn example_locations() -> (Vec<(u32, u32)>, Vec<Vec<u32>>) {
    let mut set = Vec::new();
    set.push((47, 53));
    set.push((97, 13));
    set.push((97, 61));
    set.push((97, 47));
    set.push((75, 29));
    set.push((61, 13));
    set.push((75, 53));
    set.push((29, 13));
    set.push((97, 29));
    set.push((53, 29));
    set.push((61, 53));
    set.push((97, 53));
    set.push((61, 29));
    set.push((47, 13));
    set.push((75, 47));
    set.push((97, 75));
    set.push((47, 61));
    set.push((75, 61));
    set.push((47, 29));
    set.push((75, 13));
    set.push((53, 13));

    let vec = vec![
        vec![75, 47, 61, 53, 29],
        vec![97, 61, 53, 29, 13],
        vec![75, 29, 13],
        vec![75, 97, 47, 61, 53],
        vec![61, 13, 29],
        vec![97, 13, 75, 29, 47],
    ];

    (set, vec)
}

#[test]
fn day05_parse_example() {
    assert_eq!(parse(EXAMPLE).unwrap(), example_locations());
}

#[test]
fn test_is_sorted() {
    let (order, pages) = example_locations();
    assert!(check_if_sorted(&pages[0], &order));
    assert!(check_if_sorted(&pages[1], &order));
    assert!(check_if_sorted(&pages[2], &order));
    assert!(!check_if_sorted(&pages[3], &order));
    assert!(!check_if_sorted(&pages[4], &order));
    assert!(!check_if_sorted(&pages[5], &order));
}

#[test]
fn day05_both_sums() {
    let (order, pages) = example_locations();
    assert_eq!(solve_1(&pages, &order), 143);
    assert_eq!(solve_2(&pages, &order), 123);
    assert_eq!(solve(EXAMPLE), Ok((143, 123)));
}

#[test]
fn day05_middle_of_what_is_put_in_order() {
    let order = vec![(1, 2), (1, 3), (2, 3)];
    assert_eq!(solve_2(&vec![vec![3, 2, 1]], &order), 2);
    assert_eq!(solve_2(&vec![vec![3, 1, 2], vec![2, 1, 3]], &order), 4);
    assert_eq!(solve_2(&vec![vec![1, 2, 3]], &order), 0);
    assert_eq!(solve_1(&vec![vec![1, 2, 3], vec![1, 3], vec![2]], &order), 2 + 3 + 2);
    // Without a rule between its pages an update is out of order, and no
    // page comes to stand in its middle.
    assert_eq!(solve_2(&vec![vec![7, 8, 9]], &order), 0);
    // Copies of a page stand side by side.
    assert_eq!(solve_2(&vec![vec![3, 3, 1, 3, 2]], &order), 3);
}

#[test]
fn day05_short_updates() {
    let order = vec![(1, 2)];
    assert!(check_if_sorted(&[], &order));
    assert!(check_if_sorted(&[5], &order));
    assert!(check_if_sorted(&[5, 5], &order));
    assert!(check_if_sorted(&[1, 2], &order));
    assert!(!check_if_sorted(&[2, 1], &order));
    assert!(!check_if_sorted(&[1, 3], &order));
}

#[test]
fn day05_errors() {
    assert_eq!(parse("1|2\n3|4"), Err(PuzzleError::MalformedInput));
    assert_eq!(parse("1|2\n3\n\n1,2"), Err(PuzzleError::MalformedInput));
    assert_eq!(parse("1|x\n\n1,2"), Err(PuzzleError::MalformedInput));
    assert_eq!(parse("1|2\n\n1,,2"), Err(PuzzleError::MalformedInput));
    assert_eq!(parse("1|2\n\n1,2\n"), Ok((vec![(1, 2)], vec![vec![1, 2]])));
}
