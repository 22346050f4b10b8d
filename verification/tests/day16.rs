use puzzle_solvers::day16::{calc_score, remove_inefficient_paths, solve, solve_1};
use puzzle_solvers::explorer::StateCache;
use puzzle_solvers::error::PuzzleError;
use puzzle_solvers::maze::{parse, Elem, Tile};

const EXAMPLE: &str = "###############
#.......#....E#
#.#.###.#.###.#
#.....#.#...#.#
#.###.#####.#.#
#.#.#.......#.#
#.#.#####.###.#
#...........#.#
###.#.#####.#.#
#...#.....#.#.#
#.#.#.###.#.#.#
#.....#...#.#.#
#.###.#.#.#.#.#
#S..#.....#...#
###############";

const EXAMPLE2: &str = "#################
#...#...#...#..E#
#.#.#.#.#.#.#.#.#
#.#.#.#...#...#.#
#.#.#.#.###.#.#.#
#...#.#.#.....#.#
#.#.#.#.#.#####.#
#.#...#.#.#.....#
#.#.#####.#.###.#
#.#.#.......#...#
#.#.###.#####.###
#.#.#...#.....#.#
#.#.#.#####.###.#
#.#.#.........#.#
#.#.#.#########.#
#S#.............#
#################";

#[test]
fn day16_test_solve() {
    assert_eq!(solve_1(&parse(EXAMPLE).unwrap()).unwrap().0, 7036);
}

#[test]
fn test_solve2() {
    assert_eq!(solve_1(&parse(EXAMPLE2).unwrap()).unwrap().0, 11048);
}

#[test]
fn test_solve_tiles_on_best_path() {
    assert_eq!(solve_1(&parse(EXAMPLE).unwrap()).unwrap().1, 45);
}

#[test]
fn test_solve_tiles_on_best_path2() {
    assert_eq!(solve_1(&parse(EXAMPLE2).unwrap()).unwrap().1, 64);
}

#[test]
fn day16_solve_reads_the_drawing() {
    assert_eq!(solve(EXAMPLE), Ok((7036, 45)));
    assert_eq!(solve(EXAMPLE2), Ok((11048, 64)));
}

#[test]
fn day16_two_runs_agree() {
    let grid = parse(EXAMPLE).unwrap();
    let first = solve_1(&grid);
    let second = solve_1(&grid);
    assert_eq!(first, second);
    assert_eq!(grid, parse(EXAMPLE).unwrap());
}

fn cheapest_by_enumeration(grid: &Vec<Elem>, path: &mut Vec<Elem>, best: &mut Option<usize>) {
    let last = *path.last().unwrap();
    if last.tile == Tile::End {
        let score = calc_score(path).0;
        if best.map_or(true, |b| score < b) {
            *best = Some(score);
        }
        return;
    }
    for next in last.get_direct_neighbors(grid) {
        if !path.contains(&next) {
            path.push(next);
            cheapest_by_enumeration(grid, path, best);
            path.pop();
        }
    }
}

fn enumerate(drawing: &str) -> Option<usize> {
    let grid = parse(drawing).unwrap();
    let start = *grid.iter().find(|e| e.tile == Tile::Start).unwrap();
    let mut best = None;
    cheapest_by_enumeration(&grid, &mut vec![start], &mut best);
    best
}

#[test]
fn day16_agrees_with_enumeration_of_all_simple_paths() {
    let fixtures = [
        "S.E",
        "S..\n.#.\n..E",
        "E..\n...\n..S",
        "....\n.##.\nS..E",
        "S.#\n.#.\n..E\n...",
        ".E.\n...\nS..",
        "S...\n.#..\n...E",
    ];
    for drawing in fixtures {
        let found = solve_1(&parse(drawing).unwrap()).unwrap().0;
        assert_eq!(Some(found as usize), enumerate(drawing), "{}", drawing);
    }
}

#[test]
fn day16_exact_costs() {
    assert_eq!(solve("S.E"), Ok((2, 3)));
    assert_eq!(solve("S\n.\nE"), Ok((1001 + 1, 3)));
    assert_eq!(solve("S#\n.E"), Ok((1001 + 1001, 3)));
    assert_eq!(solve("S.\n.E"), Ok((1 + 1001, 3)));
    assert_eq!(solve("SE"), Ok((1, 2)));
}

#[test]
fn day16_ties_count_every_cell() {
    // Both ways round the block turn once when they start along the row,
    // but only the upper one starts along the row.
    assert_eq!(solve("S..\n.#.\n..E"), Ok((1 + 1 + 1001 + 1, 5)));
    // Four cells in a square, the end opposite the start.
    assert_eq!(solve("S.\n.E"), Ok((1002, 3)));
}

#[test]
fn day16_missing_start() {
    assert_eq!(solve("..E"), Err(PuzzleError::MissingSeed));
    assert_eq!(solve("#.#\n#E#"), Err(PuzzleError::MissingSeed));
}

#[test]
fn day16_drawing_that_is_no_rectangle_is_malformed() {
    assert_eq!(solve(""), Err(PuzzleError::MalformedInput));
    assert_eq!(solve("S..\n.E"), Err(PuzzleError::MalformedInput));
    assert_eq!(solve("S.E\n\n..."), Err(PuzzleError::MalformedInput));
    assert_eq!(parse(""), Err(PuzzleError::MalformedInput));
    assert_eq!(parse("S.\n.E\n."), Err(PuzzleError::MalformedInput));
    assert_eq!(parse("Sx\n.E\n."), Err(PuzzleError::MalformedInput));
}

#[test]
fn day16_unknown_character_is_an_invalid_cell() {
    assert_eq!(solve("SxE"), Err(PuzzleError::InvalidCell));
    assert_eq!(solve("S.E\n.. "), Err(PuzzleError::InvalidCell));
    assert_eq!(parse("SxE"), Err(PuzzleError::InvalidCell));
    assert_eq!(parse("S.E\n..e"), Err(PuzzleError::InvalidCell));
    assert_eq!(
        parse("S#E"),
        Ok(vec![
            Elem { row: 0, col: 0, tile: Tile::Start },
            Elem { row: 0, col: 2, tile: Tile::End },
        ])
    );
}

#[test]
fn day16_no_way_to_the_end() {
    assert_eq!(solve("S#E"), Err(PuzzleError::NoSolution));
    assert_eq!(solve("S.."), Err(PuzzleError::NoSolution));
}

#[test]
fn day16_calc_score_follows_the_turns() {
    let cell = |row, col| Elem { row, col, tile: Tile::Empty };
    assert_eq!(calc_score(&vec![]), (0, 0));
    assert_eq!(calc_score(&vec![cell(0, 0)]), (0, 0));
    assert_eq!(calc_score(&vec![cell(0, 0), cell(0, 1)]), (1, 0));
    assert_eq!(calc_score(&vec![cell(0, 0), cell(1, 0)]), (1001, 1));
    assert_eq!(calc_score(&vec![cell(0, 0), cell(1, 0), cell(2, 0)]), (1002, 1));
    assert_eq!(calc_score(&vec![cell(0, 0), cell(1, 0), cell(1, 1)]), (2002, 0));
    assert_eq!(calc_score(&vec![cell(0, 0), cell(5, 5)]), (0, 0));
}

#[test]
fn day16_pruning_keeps_ties_and_drops_dearer_paths() {
    let grid = parse("S.\n.E").unwrap();
    let start = grid[0];
    let right = grid[1];
    let down = grid[2];
    let end = grid[3];
    let over = vec![start, right, end];
    let under = vec![start, down, end];
    let detour = vec![start, down, start, right, end];
    let short = vec![start, right];
    assert_eq!(calc_score(&over), (1002, 1));
    assert_eq!(calc_score(&under), (2002, 0));
    assert_eq!(calc_score(&detour), (3004, 1));
    let mut cache = StateCache::new(2 * grid.len());
    let paths = vec![over.clone(), under.clone(), over.clone(), detour.clone(), short.clone()];
    let kept = remove_inefficient_paths(&grid, &mut cache, &paths);
    assert_eq!(kept, vec![over.clone(), under.clone(), over.clone(), short.clone()]);
    assert_eq!(cache.lookup(7), Some(1002));
    assert_eq!(cache.lookup(6), Some(2002));
    assert_eq!(cache.lookup(2), Some(1));
    assert_eq!(cache.lookup(0), None);
    let again = remove_inefficient_paths(&grid, &mut cache, &vec![detour, over.clone()]);
    assert_eq!(again, vec![over]);
    assert_eq!(cache.lookup(7), Some(1002));
    assert_eq!(remove_inefficient_paths(&grid, &mut cache, &vec![]), Vec::<Vec<Elem>>::new());
}
