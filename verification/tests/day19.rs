use puzzle_solvers::day19::{
    count_arrangements, create_catalogue, how_many_times_producable, parse, solve,
    try_count_arrangements, Cache, Shelf,
};
use puzzle_solvers::error::PuzzleError;

const EXAMPLE: &str = "r, wr, b, g, bwu, rb, gb, br

brwrr
bggr
gbbr
rrbgbr
ubwu
bwurrg
brgr
bbrgwb";

const EXAMPLE2: &str = "b, wu, bw, u

bwu";

fn text(design: &Vec<char>) -> String {
    design.iter().collect()
}

#[test]
fn test_is_producable() {
    let (towels, _) = parse(EXAMPLE).unwrap();
    let catalogue = create_catalogue(&towels);

    assert!(how_many_times_producable(&catalogue, "brwrr", &mut Cache::new()) > 0);
    assert!(how_many_times_producable(&catalogue, "bggr", &mut Cache::new()) > 0);
    assert!(how_many_times_producable(&catalogue, "gbbr", &mut Cache::new()) > 0);
    assert!(how_many_times_producable(&catalogue, "rrbgbr", &mut Cache::new()) > 0);
    assert_eq!(how_many_times_producable(&catalogue, "ubwu", &mut Cache::new()), 0);
    assert!(how_many_times_producable(&catalogue, "bwurrg", &mut Cache::new()) > 0);
    assert!(how_many_times_producable(&catalogue, "brgr", &mut Cache::new()) > 0);
    assert_eq!(how_many_times_producable(&catalogue, "bbrgwb", &mut Cache::new()), 0);
}

#[test]
fn day19_test_solve_2() {
    let (towels, stacks) = parse(EXAMPLE2).unwrap();
    let catalogue = create_catalogue(&towels);

    assert_eq!(
        stacks
            .iter()
            .map(|item| how_many_times_producable(&catalogue, &text(item), &mut Cache::new()))
            .sum::<usize>(),
        2
    );
}

#[test]
fn day19_test_solve_1() {
    let (towels, stacks) = parse(EXAMPLE).unwrap();
    let catalogue = create_catalogue(&towels);

    assert_eq!(
        stacks
            .iter()
            .filter(|&item| how_many_times_producable(&catalogue, &text(item), &mut Cache::new()) > 0)
            .count(),
        6
    );
}

#[test]
fn test_solve_22() {
    let (towels, stacks) = parse(EXAMPLE).unwrap();
    let catalogue = create_catalogue(&towels);

    assert_eq!(
        stacks
            .iter()
            .map(|item| how_many_times_producable(&catalogue, &text(item), &mut Cache::new()))
            .sum::<usize>(),
        16
    );
}

#[test]
fn day19_solve() {
    assert_eq!(solve(EXAMPLE), Ok((6, 16)));
    assert_eq!(solve(EXAMPLE2), Ok((1, 2)));
    assert_eq!(solve("r, b"), Err(PuzzleError::MalformedInput));
    assert_eq!(solve("r, , b\n\nrb"), Err(PuzzleError::MalformedInput));
    // A line feed at the end makes one more design, an empty one, which
    // can be laid in one way: with no towel.
    assert_eq!(solve("r, b\n\nrb\n"), Ok((2, 2)));
}

#[test]
fn day19_ways_per_design() {
    let (towels, stacks) = parse(EXAMPLE).unwrap();
    let ways: Vec<usize> = stacks.iter().map(|d| count_arrangements(&towels, d)).collect();
    assert_eq!(ways, vec![2, 1, 4, 6, 0, 1, 2, 0]);
    let none: Vec<Vec<char>> = vec![];
    assert_eq!(count_arrangements(&none, &vec![]), 1);
    assert_eq!(count_arrangements(&none, &vec!['a']), 0);
    let a: Vec<Vec<char>> = vec![vec!['a'], vec!['a', 'a'], vec![]];
    assert_eq!(count_arrangements(&a, &vec!['a'; 10]), 89);
    let same: Vec<Vec<char>> = vec![vec!['a'], vec!['a']];
    assert_eq!(count_arrangements(&same, &vec!['a'; 3]), 8);
}

#[test]
fn day19_catalogue() {
    let (towels, _) = parse(EXAMPLE).unwrap();
    let catalogue = create_catalogue(&towels);
    let shelf = |stripe: char, towels: &[&str]| Shelf {
        stripe,
        towels: towels.iter().map(|t| t.chars().collect()).collect(),
    };
    assert_eq!(
        catalogue,
        vec![
            shelf('r', &["r", "rb"]),
            shelf('w', &["wr"]),
            shelf('b', &["b", "bwu", "br"]),
            shelf('g', &["g", "gb"]),
        ]
    );
    assert_eq!(create_catalogue(&vec![]), vec![]);
}

#[test]
fn day19_cache_holds_the_design_afterwards() {
    let towels: Vec<Vec<char>> =
        ["b", "wu", "bw", "u"].iter().map(|t| t.chars().collect()).collect();
    let catalogue = create_catalogue(&towels);
    let mut cache = Cache::new();
    assert_eq!(how_many_times_producable(&catalogue, "bwu", &mut cache), 2);
    assert_eq!(cache.get(&"bwu".chars().collect()), Some(2));
    assert_eq!(cache.designs.len(), 1);
    assert_eq!(how_many_times_producable(&catalogue, "bwu", &mut cache), 2);
    assert_eq!(cache.designs.len(), 1);
    assert_eq!(how_many_times_producable(&catalogue, "", &mut cache), 1);
    assert_eq!(how_many_times_producable(&catalogue, "x", &mut cache), 0);
    assert_eq!(cache.get(&vec![]), Some(1));
    assert_eq!(cache.get(&vec!['x']), Some(0));
    assert_eq!(cache.get(&vec!['b']), None);
    assert_eq!(cache.counts, vec![2, 1, 0]);
}

#[test]
fn day19_cache_keeps_each_design_once() {
    let mut cache = Cache::new();
    assert!(!cache.contains_key(&vec!['a']));
    cache.insert(vec!['a'], 3);
    cache.insert(vec!['b'], 4);
    cache.insert(vec!['a'], 5);
    assert_eq!(cache.designs, vec![vec!['a'], vec!['b']]);
    assert_eq!(cache.counts, vec![5, 4]);
    assert_eq!(cache.find(&vec!['b']), Some(1));
    assert_eq!(cache.find(&vec!['c']), None);
}

#[test]
fn day19_count_that_does_not_fit_is_none() {
    let same: Vec<Vec<char>> = vec![vec!['a'], vec!['a'], vec!['a'], vec!['a']];
    assert_eq!(try_count_arrangements(&same, &vec!['a'; 3]), Some(64));
    assert_eq!(try_count_arrangements(&same, &vec!['a'; 31]), Some(1 << 62));
    assert_eq!(try_count_arrangements(&same, &vec!['a'; 32]), None);
    assert_eq!(try_count_arrangements(&same, &vec!['a'; 200]), None);
    assert_eq!(try_count_arrangements(&same, &vec![]), Some(1));
    assert_eq!(try_count_arrangements(&vec![], &vec!['a']), Some(0));
}
