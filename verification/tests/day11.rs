use puzzle_solvers::day11::{apply_rule, manipulate_stone, next_generation_cached, parse, solve};
use puzzle_solvers::error::PuzzleError;
use std::collections::HashMap;

fn get_example() -> Vec<u64> {
    vec![125, 17]
}

#[test]
fn test_get_stone_state() {
    assert_eq!(manipulate_stone(&get_example(), 25), 55312);
}

#[test]
fn day11_rules() {
    assert_eq!(apply_rule(0), vec![1]);
    assert_eq!(apply_rule(1), vec![2024]);
    assert_eq!(apply_rule(10), vec![1, 0]);
    assert_eq!(apply_rule(99), vec![9, 9]);
    assert_eq!(apply_rule(999), vec![2021976]);
    assert_eq!(apply_rule(1000), vec![10, 0]);
    assert_eq!(apply_rule(253000), vec![253, 0]);
    assert_eq!(apply_rule(512072), vec![512, 72]);
    assert_eq!(apply_rule(12345678901234567890), vec![1234567890, 1234567890]);
}

#[test]
fn day11_blink_by_blink() {
    let mut stones = vec![125, 17];
    let mut counts = vec![];
    for blinks in 0..7 {
        assert_eq!(manipulate_stone(&vec![125, 17], blinks), stones.len() as u64);
        counts.push(stones.len());
        stones = stones.iter().flat_map(|&s| apply_rule(s)).collect();
    }
    assert_eq!(counts, vec![2, 3, 4, 5, 9, 13, 22]);
    assert_eq!(stones.len(), 31);
}

#[test]
fn day11_many_blinks() {
    assert_eq!(manipulate_stone(&get_example(), 75), 65601038650482);
    assert_eq!(manipulate_stone(&vec![], 75), 0);
    assert_eq!(solve("125 17"), Ok((55312, 65601038650482)));
    assert_eq!(solve("125 x"), Err(PuzzleError::MalformedInput));
}

#[test]
fn day11_cache_keeps_what_was_worked_out() {
    let mut cache = HashMap::new();
    assert_eq!(next_generation_cached(125, 6, &mut cache), 7);
    let entries = cache.len();
    assert!(entries > 0);
    assert_eq!(next_generation_cached(125, 6, &mut cache), 7);
    assert_eq!(cache.len(), entries);
    assert_eq!(next_generation_cached(17, 6, &mut cache), 15);
}

#[test]
fn day11_parse() {
    assert_eq!(parse("2 54 992917\n0"), Ok(vec![2, 54, 992917, 0]));
    assert_eq!(parse(""), Ok(vec![]));
}
