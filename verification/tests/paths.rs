use puzzle_solvers::day06;
use puzzle_solvers::day16;
use puzzle_solvers::day18;
use puzzle_solvers::error::PuzzleError;
use puzzle_solvers::explorer::StateCache;
use puzzle_solvers::maze::{parse, Elem, Tile};
use puzzle_solvers::paths::{
    find_cell, remove_finished_paths_calc_score, remove_inefficient_paths, visit_next, visited,
};

const RING: &str = "#####\n#..E#\n#.#.#\n#S..#\n#####";
const SMALL: &str = "S.#\n..E";
const OPEN: &str = "S...\n....\n...E";
const CLOSED: &str = "S.#E\n..#.";

fn open(row: i64, col: i64) -> Elem {
    Elem { row, col, tile: Tile::Empty }
}

fn start(row: i64, col: i64) -> Elem {
    Elem { row, col, tile: Tile::Start }
}

fn end(row: i64, col: i64) -> Elem {
    Elem { row, col, tile: Tile::End }
}

fn all_finished_paths(grid: &Vec<Elem>) -> Vec<Vec<Elem>> {
    let first = *grid.iter().find(|e| e.tile == Tile::Start).unwrap();
    let mut paths = vec![vec![first]];
    let mut done = vec![];
    while !paths.is_empty() {
        paths = visit_next(grid, &paths);
        done.extend(paths.iter().filter(|p| p.last().unwrap().tile == Tile::End).cloned());
    }
    done
}

fn fewest_steps_by_enumeration(grid: &Vec<Elem>) -> usize {
    let first = *grid.iter().find(|e| e.tile == Tile::Start).unwrap();
    let mut paths = vec![vec![first]];
    let mut minimum = usize::MAX;
    while !paths.is_empty() {
        paths = visit_next(grid, &paths);
        minimum = minimum.min(remove_finished_paths_calc_score(&paths));
    }
    minimum
}

#[test]
fn paths_visit_next_extends_every_path_by_fresh_neighbours() {
    let grid = parse(SMALL).unwrap();
    assert_eq!(grid, vec![start(0, 0), open(0, 1), open(1, 0), open(1, 1), end(1, 2)]);
    let first = visit_next(&grid, &vec![vec![start(0, 0)]]);
    assert_eq!(first, vec![vec![start(0, 0), open(0, 1)], vec![start(0, 0), open(1, 0)]]);
    let second = visit_next(&grid, &first);
    assert_eq!(
        second,
        vec![
            vec![start(0, 0), open(0, 1), open(1, 1)],
            vec![start(0, 0), open(1, 0), open(1, 1)],
        ]
    );
    let third = visit_next(&grid, &second);
    assert_eq!(
        third,
        vec![
            vec![start(0, 0), open(0, 1), open(1, 1), open(1, 0)],
            vec![start(0, 0), open(0, 1), open(1, 1), end(1, 2)],
            vec![start(0, 0), open(1, 0), open(1, 1), open(0, 1)],
            vec![start(0, 0), open(1, 0), open(1, 1), end(1, 2)],
        ]
    );
    assert_eq!(visit_next(&grid, &third), Vec::<Vec<Elem>>::new());
    assert_eq!(visit_next(&grid, &vec![]), Vec::<Vec<Elem>>::new());
}

#[test]
fn paths_shortest_finished_path() {
    let paths = vec![
        vec![start(0, 0), open(0, 1), open(1, 1), open(1, 0)],
        vec![start(0, 0), open(0, 1), open(1, 1), end(1, 2)],
        vec![start(0, 0), end(1, 2)],
        vec![start(0, 0), open(1, 1), end(1, 2)],
    ];
    assert_eq!(remove_finished_paths_calc_score(&paths), 2);
    assert_eq!(remove_finished_paths_calc_score(&paths[..1].to_vec()), usize::MAX);
    assert_eq!(remove_finished_paths_calc_score(&vec![]), usize::MAX);
    assert_eq!(remove_finished_paths_calc_score(&vec![vec![]]), usize::MAX);
}

#[test]
fn paths_cache_keeps_the_path_that_comes_first() {
    let grid = parse(SMALL).unwrap();
    let mut cache = StateCache::new(grid.len());
    let mut paths = vec![
        vec![start(0, 0), open(0, 1), open(1, 1)],
        vec![start(0, 0), open(1, 0), open(1, 1)],
        vec![start(0, 0), open(1, 0)],
        vec![open(1, 1)],
    ];
    remove_inefficient_paths(&grid, &mut cache, &mut paths);
    assert_eq!(
        paths,
        vec![
            vec![start(0, 0), open(0, 1), open(1, 1)],
            vec![start(0, 0), open(1, 0)],
            vec![open(1, 1)],
        ]
    );
    assert_eq!(cache.lookup(3), Some(1));
    assert_eq!(cache.lookup(2), Some(2));
    assert_eq!(cache.lookup(0), None);
    let mut again = vec![vec![open(1, 1)], vec![start(0, 0), open(1, 0)]];
    remove_inefficient_paths(&grid, &mut cache, &mut again);
    assert_eq!(again, Vec::<Vec<Elem>>::new());
}

#[test]
fn paths_cells_are_found_by_value() {
    let grid = parse(SMALL).unwrap();
    assert_eq!(find_cell(&grid, &open(1, 1)), 3);
    assert_eq!(find_cell(&grid, &end(1, 2)), 4);
    assert_eq!(find_cell(&grid, &open(1, 2)), 5);
    assert!(visited(&grid, &start(0, 0)));
    assert!(!visited(&grid, &open(0, 0)));
    assert!(!visited(&vec![], &open(0, 0)));
}

#[test]
fn paths_enumeration_agrees_with_the_search_by_steps() {
    for (maze, steps) in [(RING, 4), (SMALL, 3), (OPEN, 5)] {
        let grid = parse(maze).unwrap();
        assert_eq!(fewest_steps_by_enumeration(&grid), steps + 1);
        assert_eq!(day18::solve_1(&grid), Ok(steps));
    }
    let grid = parse(CLOSED).unwrap();
    assert_eq!(fewest_steps_by_enumeration(&grid), usize::MAX);
    assert_eq!(day18::solve_1(&grid), Err(PuzzleError::NoSolution));
}

#[test]
fn paths_enumeration_agrees_with_the_search_by_cost() {
    for (maze, cost, count) in [(RING, 1004, 2), (SMALL, 2003, 2), (OPEN, 1005, 38)] {
        let grid = parse(maze).unwrap();
        let done = all_finished_paths(&grid);
        assert_eq!(done.len(), count);
        let cheapest = done.iter().map(|p| day16::calc_score(p).0).min().unwrap();
        assert_eq!(cheapest, cost);
        assert_eq!(day16::solve_1(&grid).unwrap().0, cost as u64);
    }
    let grid = parse(CLOSED).unwrap();
    assert!(all_finished_paths(&grid).is_empty());
    assert_eq!(day16::solve_1(&grid), Err(PuzzleError::NoSolution));
}

#[test]
fn day06_path_follows_the_guard() {
    let (state, grid) = day06::parse("....\n.#..\n.^..\n....").unwrap();
    assert_eq!(day06::find_starting_point(&grid), Some((2, 1)));
    let path = day06::get_path(state, &grid, 100);
    let cells: Vec<(usize, usize)> = path.iter().map(|s| (s.row, s.col)).collect();
    assert_eq!(cells, vec![(2, 1), (2, 2), (2, 3)]);
    assert_eq!(day06::get_path(state, &grid, 2).len(), 2);
    assert_eq!(day06::get_path(state, &grid, 0).len(), 0);
    let (_, empty) = day06::parse("^").unwrap();
    assert_eq!(day06::find_starting_point(&empty), Some((0, 0)));
}

#[test]
fn day06_path_of_a_loop_is_as_long_as_asked() {
    let (state, grid) = day06::parse(".#..\n...#\n#^..\n..#.").unwrap();
    assert!(day06::is_loop(state, &grid));
    assert_eq!(day06::get_path(state, &grid, 50).len(), 50);
}
