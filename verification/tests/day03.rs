use puzzle_solvers::day03::{
    apply_operation, checked_total, clean_input, cut_out, get_operations, operations_from, solve,
    total_in, Operation,
};
use puzzle_solvers::error::PuzzleError;

const EXAMPLE: &str = "mul(832,177)";
const EXAMPLE2: &str = "xmul(2,4)&mul[3,7]!^don't()_mul(5,5)+mul(32,64](mul(11,8)undo()?mul(8,5))";
const EXAMPLE1: &str = "xmul(2,4)%&mul[3,7]!@^do_not_mul(5,5)+mul(32,64]then(mul(11,8)mul(8,5))";

fn text(s: &str) -> Option<Vec<char>> {
    Some(s.chars().collect())
}

#[test]
fn day03_parse_example() {
    assert_eq!(get_operations(EXAMPLE).unwrap(), vec![Operation { left: 832, right: 177 }]);
}

#[test]
fn test_apply_operation() {
    assert_eq!(apply_operation(&[Operation { left: 832, right: 177 }]), 832 * 177);
}

#[test]
fn test_clean() {
    assert_eq!(
        apply_operation(&get_operations(&clean_input("do()mul(832,177)").unwrap()).unwrap()),
        832 * 177
    );
    assert_eq!(
        apply_operation(&get_operations(&clean_input("don't()mul(10,17)").unwrap()).unwrap()),
        0
    );
    assert_eq!(apply_operation(&get_operations(&clean_input(EXAMPLE2).unwrap()).unwrap()), 48);
}

#[test]
fn day03_finds_every_multiplication_in_order() {
    assert_eq!(
        get_operations(EXAMPLE1).unwrap(),
        vec![
            Operation { left: 2, right: 4 },
            Operation { left: 5, right: 5 },
            Operation { left: 11, right: 8 },
            Operation { left: 8, right: 5 },
        ]
    );
    assert_eq!(get_operations("mul(1, 2) mul (3,4) mul(5,6] Mul(7,8)").unwrap(), vec![]);
}

#[test]
fn day03_number_too_large_is_malformed() {
    assert_eq!(
        get_operations("mul(99999999999999999999999,1)"),
        Err(PuzzleError::MalformedInput)
    );
    assert_eq!(total_in("mul(99999999999999999999999,1)"), None);
}

#[test]
fn day03_operations_from_groups() {
    let found = vec![
        vec![text("mul(3,4)"), text("3"), text("4")],
        vec![text("mul(10,20)"), text("10"), text("20")],
    ];
    assert_eq!(
        operations_from(&found).unwrap(),
        vec![Operation { left: 3, right: 4 }, Operation { left: 10, right: 20 }]
    );
    assert_eq!(
        operations_from(&vec![vec![text("mul(3,4)"), text("3")]]),
        Err(PuzzleError::MalformedInput)
    );
    assert_eq!(
        operations_from(&vec![vec![text("mul(3,4)"), None, text("4")]]),
        Err(PuzzleError::MalformedInput)
    );
    assert_eq!(
        operations_from(&vec![vec![text("mul(3,x)"), text("3"), text("x")]]),
        Err(PuzzleError::MalformedInput)
    );
    assert_eq!(operations_from(&vec![]).unwrap(), vec![]);
}

#[test]
fn day03_clean_removes_switched_off_parts() {
    assert_eq!(clean_input("abc").unwrap(), "abcdo()");
    assert_eq!(clean_input("a don't() b do() c").unwrap(), "a  cdo()");
    assert_eq!(clean_input("a don't() b\n do() c don't() d").unwrap(), "a  c ");
    assert_eq!(clean_input("ädon't()ö do()ü").unwrap(), "äüdo()");
    assert_eq!(clean_input(EXAMPLE2).unwrap(), "xmul(2,4)&mul[3,7]!^?mul(8,5))do()");
}

#[test]
fn day03_cut_out_takes_a_range_of_characters() {
    assert_eq!(cut_out("hello", 1, 3), "hlo");
    assert_eq!(cut_out("hello", 0, 5), "");
    assert_eq!(cut_out("hello", 2, 2), "hello");
    assert_eq!(cut_out("äöü", 1, 2), "äü");
}

#[test]
fn day03_checked_total() {
    assert_eq!(checked_total(&[]), Some(0));
    assert_eq!(
        checked_total(&[Operation { left: 2, right: 4 }, Operation { left: 5, right: 5 }]),
        Some(33)
    );
    assert_eq!(checked_total(&[Operation { left: u64::MAX, right: 2 }]), None);
    assert_eq!(
        checked_total(&[Operation { left: u64::MAX, right: 1 }, Operation { left: 1, right: 1 }]),
        None
    );
    assert_eq!(checked_total(&[Operation { left: u64::MAX, right: 1 }]), Some(u64::MAX));
}

#[test]
fn day03_solve_examples() {
    assert_eq!(solve(EXAMPLE1), Ok((161, 161)));
    assert_eq!(solve(EXAMPLE2), Ok((161, 48)));
    assert_eq!(solve(""), Ok((0, 0)));
    assert_eq!(solve("mul(18446744073709551615,2)"), Err(PuzzleError::MalformedInput));
}
