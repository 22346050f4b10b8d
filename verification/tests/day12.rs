use puzzle_solvers::day12::{
    calculate_perimeter, count_corners, segment, solve, total_price, total_price_bulk_discount,
    Direction, Position,
};
use puzzle_solvers::error::PuzzleError;
use puzzle_solvers::grid::Grid;

const EXAMPLE: &str = "AAAA
BBCD
BBCC
EEEC";

const EXAMPLE2: &str = "AAAA";

#[test]
fn day12_test_example() {
    let grid = Grid::new(EXAMPLE).unwrap();
    assert_eq!(total_price(&grid), 140);
}

#[test]
fn test_segment() {
    let grid = Grid::new(EXAMPLE).unwrap();
    assert_eq!(segment(&grid).len(), 5);
}

#[test]
fn test_calculate_perimeter() {
    let grid = Grid::new(EXAMPLE2).unwrap();
    let segment = segment(&grid);
    assert_eq!(calculate_perimeter(&segment.iter().next().unwrap()), 10);
}

#[test]
fn test_bulk_discount() {
    let grid = Grid::new(EXAMPLE).unwrap();
    assert_eq!(total_price_bulk_discount(&grid), 80);
}

#[test]
fn day12_solve_gives_both_prices() {
    assert_eq!(solve(EXAMPLE), Ok((140, 80)));
    assert_eq!(solve("AAAA"), Ok((40, 16)));
    assert_eq!(solve("A"), Ok((4, 4)));
    assert_eq!(solve("AB\nA"), Err(PuzzleError::MalformedInput));
}

#[test]
fn day12_regions_of_the_example() {
    let at = |row, col| Position { row, col };
    let regions = segment(&Grid::new(EXAMPLE).unwrap());
    assert_eq!(
        regions,
        vec![
            vec![at(0, 0), at(0, 1), at(0, 2), at(0, 3)],
            vec![at(1, 0), at(1, 1), at(2, 0), at(2, 1)],
            vec![at(1, 2), at(2, 2), at(2, 3), at(3, 3)],
            vec![at(1, 3)],
            vec![at(3, 0), at(3, 1), at(3, 2)],
        ]
    );
    let fences: Vec<usize> = regions.iter().map(calculate_perimeter).collect();
    assert_eq!(fences, vec![10, 8, 10, 4, 8]);
    let sides: Vec<usize> = regions.iter().map(count_corners).collect();
    assert_eq!(sides, vec![4, 4, 8, 4, 4]);
}

#[test]
fn day12_regions_inside_regions() {
    let text = "OOOOO\nOXOXO\nOOOOO\nOXOXO\nOOOOO";
    let grid = Grid::new(text).unwrap();
    assert_eq!(segment(&grid).len(), 5);
    assert_eq!(total_price(&grid), 772);
    assert_eq!(total_price_bulk_discount(&grid), 436);
}

#[test]
fn day12_larger_examples() {
    let e_shape = "EEEEE\nEXXXX\nEEEEE\nEXXXX\nEEEEE";
    assert_eq!(solve(e_shape).unwrap().1, 236);
    let touching = "AAAAAA\nAAABBA\nAAABBA\nABBAAA\nABBAAA\nAAAAAA";
    assert_eq!(solve(touching).unwrap().1, 368);
    let big = "RRRRIICCFF\nRRRRIICCCF\nVVRRRCCFFF\nVVRCCCJFFF\nVVVVCJJCFE\nVVIVCCJJEE\nVVIIICJJEE\nMIIIIIJJEE\nMIIISIJEEE\nMMMISSJEEE";
    assert_eq!(solve(big), Ok((1930, 1206)));
}

#[test]
fn day12_every_cell_is_in_one_region() {
    let grid = Grid::new("ABBA\nABAA\nBBAB").unwrap();
    let regions = segment(&grid);
    let mut seen = vec![0; 12];
    for region in &regions {
        assert!(!region.is_empty());
        let letter = grid.get_at(region[0].row as usize, region[0].col as usize);
        for p in region {
            assert_eq!(grid.get_at(p.row as usize, p.col as usize), letter);
            seen[(p.row * 4 + p.col) as usize] += 1;
        }
    }
    assert_eq!(seen, vec![1; 12]);
    assert_eq!(regions.len(), 4);
}

#[test]
fn day12_neighbours() {
    let at = |row, col| Position { row, col };
    assert_eq!(at(0, 0).get_direct_neighbors(), vec![at(-1, 0), at(1, 0), at(0, -1), at(0, 1)]);
    assert_eq!(
        at(i64::MIN, i64::MAX).get_direct_neighbors(),
        vec![at(i64::MIN + 1, i64::MAX), at(i64::MIN, i64::MAX - 1)]
    );
    assert_eq!(at(5, 5).get_neighbor(Direction::NorthWest), at(4, 4));
    assert_eq!(at(5, 5).get_neighbor(Direction::North), at(4, 5));
    assert_eq!(at(5, 5).get_neighbor(Direction::NorthEast), at(4, 6));
    assert_eq!(at(5, 5).get_neighbor(Direction::East), at(5, 6));
    assert_eq!(at(5, 5).get_neighbor(Direction::SouthEast), at(6, 6));
    assert_eq!(at(5, 5).get_neighbor(Direction::South), at(6, 5));
    assert_eq!(at(5, 5).get_neighbor(Direction::SouthWest), at(6, 4));
    assert_eq!(at(5, 5).get_neighbor(Direction::West), at(5, 4));
}

#[test]
fn day12_fence_of_any_group() {
    let at = |row, col| Position { row, col };
    assert_eq!(calculate_perimeter(&vec![]), 0);
    assert_eq!(calculate_perimeter(&vec![at(-3, 7)]), 4);
    assert_eq!(calculate_perimeter(&vec![at(0, 0), at(5, 5)]), 8);
    assert_eq!(calculate_perimeter(&vec![at(0, 0), at(0, 1), at(1, 0), at(1, 1)]), 8);
    assert_eq!(count_corners(&vec![at(0, 0), at(0, 1), at(1, 0)]), 6);
    assert_eq!(count_corners(&vec![at(i64::MIN, i64::MIN)]), 4);
}

fn region_of(grid: &Grid, row: i64, col: i64) -> Vec<Position> {
    segment(grid).into_iter().find(|cells| cells.contains(&Position { row, col })).unwrap()
}

#[test]
fn day12_region_grows_when_cells_take_its_letter() {
    let fewer = Grid::new("ABA\nBAB\nABA").unwrap();
    let more = Grid::new("AAA\nBAB\nABA").unwrap();
    let most = Grid::new("AAA\nAAA\nAAA").unwrap();
    let small = region_of(&fewer, 0, 0);
    let larger = region_of(&more, 0, 0);
    let whole = region_of(&most, 0, 0);
    assert_eq!(small, vec![Position { row: 0, col: 0 }]);
    assert_eq!(
        larger,
        vec![
            Position { row: 0, col: 0 },
            Position { row: 0, col: 1 },
            Position { row: 0, col: 2 },
            Position { row: 1, col: 1 },
        ]
    );
    assert_eq!(whole.len(), 9);
    assert!(small.iter().all(|cell| larger.contains(cell)));
    assert!(larger.iter().all(|cell| whole.contains(cell)));
}
