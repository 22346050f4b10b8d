use puzzle_solvers::error::PuzzleError;
use puzzle_solvers::grid::Grid;

#[test]
fn grid_is_built_row_after_row() {
    let grid = Grid::new("ab\ncd\nef").unwrap();
    assert_eq!(grid.width, 2);
    assert_eq!(grid.height, 3);
    assert_eq!(grid.data, vec!['a', 'b', 'c', 'd', 'e', 'f']);
    let same = Grid::new("ab\r\ncd\r\nef\r\n").unwrap();
    assert_eq!(same.data, grid.data);
}

#[test]
fn grid_rejects_what_is_no_rectangle() {
    assert_eq!(Grid::new("").unwrap_err(), PuzzleError::MalformedInput);
    assert_eq!(Grid::new("\n\n").unwrap_err(), PuzzleError::MalformedInput);
    assert_eq!(Grid::new("ab\nc").unwrap_err(), PuzzleError::MalformedInput);
    assert_eq!(Grid::new("a\nbc").unwrap_err(), PuzzleError::MalformedInput);
    assert_eq!(Grid::from_rows(&vec![]).unwrap_err(), PuzzleError::MalformedInput);
}

#[test]
fn grid_lookup_outside_is_absent() {
    let grid = Grid::new("ab\ncd\nef").unwrap();
    for row in 0..6 {
        for col in 0..6 {
            let inside = row < 3 && col < 2;
            assert_eq!(grid.get(Some(row), Some(col)).is_some(), inside);
            assert_eq!(grid.get_at(row, col).is_some(), inside);
        }
    }
    assert_eq!(grid.get(Some(2), Some(1)), Some('f'));
    assert_eq!(grid.get(None, Some(0)), None);
    assert_eq!(grid.get(Some(0), None), None);
    assert_eq!(grid.get(None, None), None);
    assert_eq!(grid.get(Some(usize::MAX), Some(0)), None);
    assert_eq!(grid.get(Some(0), Some(usize::MAX)), None);
    assert_eq!(grid.get_at(3, 0), None);
    assert_eq!(grid.get_at(0, 2), None);
}

#[test]
fn grid_lookup_by_offset() {
    let grid = Grid::new("ab\ncd\nef").unwrap();
    assert_eq!(grid.get_offset(1, 0, 1, 1), Some('f'));
    assert_eq!(grid.get_offset(1, 0, -1, 0), Some('a'));
    assert_eq!(grid.get_offset(0, 0, -1, 0), None);
    assert_eq!(grid.get_offset(0, 0, 0, -1), None);
    assert_eq!(grid.get_offset(2, 1, 1, 0), None);
    assert_eq!(grid.get_offset(usize::MAX, usize::MAX, i64::MAX, i64::MAX), None);
}

#[test]
fn grid_set_changes_one_cell() {
    let mut grid = Grid::new("ab\ncd\nef").unwrap();
    grid.set(1, 1, 'x');
    assert_eq!(grid.data, vec!['a', 'b', 'c', 'x', 'e', 'f']);
    assert_eq!(grid.get_at(1, 1), Some('x'));
    let copy = grid.duplicate();
    grid.set(0, 0, 'y');
    assert_eq!(copy.data, vec!['a', 'b', 'c', 'x', 'e', 'f']);
}

#[test]
fn grid_finds_the_first_of_a_kind() {
    let grid = Grid::new("ab\ncb\neb").unwrap();
    assert_eq!(grid.find_first('b'), Some((0, 1)));
    assert_eq!(grid.find_first('e'), Some((2, 0)));
    assert_eq!(grid.find_first('z'), None);
}
