//! A word search: how often `XMAS` can be read in any of the eight
//! directions, and how often two `MAS` cross at their `A`.
use vstd::prelude::*;
use crate::counting::{count_below, lemma_count_bound, lemma_sum_grows, sum_below};
use crate::error::PuzzleError;
use crate::grid::{lemma_index_cell, letter, rectangular, Grid};
use crate::text::lines;

verus! {

/// The eight directions, each as rows down and columns to the right.
pub open spec fn direction(d: int) -> (int, int) {
    if d == 0 {
        (0, 1)
    } else if d == 1 {
        (1, 0)
    } else if d == 2 {
        (1, 1)
    } else if d == 3 {
        (-1, -1)
    } else if d == 4 {
        (0, -1)
    } else if d == 5 {
        (-1, 0)
    } else if d == 6 {
        (-1, 1)
    } else {
        (1, -1)
    }
}

/// Whether `MAS` can be read from the cell next to a position on, in a direction.
pub open spec fn spells(ls: Seq<Seq<char>>, row: int, col: int, down: int, right: int) -> bool {
    &&& letter(ls, row + down, col + right) == Some('M')
    &&& letter(ls, row + 2 * down, col + 2 * right) == Some('A')
    &&& letter(ls, row + 3 * down, col + 3 * right) == Some('S')
}

/// The directions in which `MAS` can be read from a position on.
pub open spec fn spells_toward(ls: Seq<Seq<char>>, row: int, col: int) -> spec_fn(int) -> bool {
    |d: int| spells(ls, row, col, direction(d).0, direction(d).1)
}

/// How often `XMAS` starts at the `k`-th cell, counting row after row.
pub open spec fn xmas_from(ls: Seq<Seq<char>>) -> spec_fn(int) -> int {
    |k: int|
        {
            let row = k / (ls[0].len() as int);
            let col = k % (ls[0].len() as int);
            if letter(ls, row, col) == Some('X') {
                count_below(8, spells_toward(ls, row, col)) as int
            } else {
                0
            }
        }
}

/// How often `XMAS` can be read in a rectangle of letters.
pub open spec fn xmas_count(ls: Seq<Seq<char>>) -> int {
    sum_below((ls.len() * ls[0].len()) as int, xmas_from(ls))
}

/// Whether a diagonal through a position reads `MAS` one way or the other;
/// `rising` picks the diagonal from the lower left to the upper right.
pub open spec fn diagonal(ls: Seq<Seq<char>>, row: int, col: int, rising: bool) -> bool {
    let side = if rising {
        -1
    } else {
        1int
    };
    let a = letter(ls, row - 1, col - side);
    let b = letter(ls, row + 1, col + side);
    (a == Some('M') && b == Some('S')) || (a == Some('S') && b == Some('M'))
}

/// Whether the `k`-th cell, counting row after row, is an `A` at which two
/// `MAS` cross.
pub open spec fn crossing(ls: Seq<Seq<char>>) -> spec_fn(int) -> bool {
    |k: int|
        {
            let row = k / (ls[0].len() as int);
            let col = k % (ls[0].len() as int);
            letter(ls, row, col) == Some('A') && diagonal(ls, row, col, false) && diagonal(
                ls,
                row,
                col,
                true,
            )
        }
}

/// How many crossings of two `MAS` a rectangle of letters has.
pub open spec fn mas_count(ls: Seq<Seq<char>>) -> int {
    count_below((ls.len() * ls[0].len()) as int, crossing(ls)) as int
}

/// Whether `MAS` can be read from the cell next to a position on.
fn reads_mas(grid: &Grid, row: usize, col: usize, down: i64, right: i64, Ghost(ls): Ghost<
    Seq<Seq<char>>,
>) -> (r: bool)
    requires
        grid.shows(ls),
        -1 <= down <= 1,
        -1 <= right <= 1,
    ensures
        r == spells(ls, row as int, col as int, down as int, right as int),
{
    proof {
        grid.lemma_shows_letter(ls, row + down, col + right);
        grid.lemma_shows_letter(ls, row + 2 * down, col + 2 * right);
        grid.lemma_shows_letter(ls, row + 3 * down, col + 3 * right);
    }
    let m = grid.get_offset(row, col, down, right);
    let a = grid.get_offset(row, col, 2 * down, 2 * right);
    let s = grid.get_offset(row, col, 3 * down, 3 * right);
    is_letter(m, 'M') && is_letter(a, 'A') && is_letter(s, 'S')
}

/// Whether a cell holds a given letter.
fn is_letter(cell: Option<char>, wanted: char) -> (r: bool)
    ensures
        r == (cell == Some(wanted)),
{
    match cell {
        Some(c) => c == wanted,
        None => false,
    }
}

/// Whether a diagonal through a position reads `MAS` one way or the other.
fn reads_diagonal(grid: &Grid, row: usize, col: usize, rising: bool, Ghost(ls): Ghost<
    Seq<Seq<char>>,
>) -> (r: bool)
    requires
        grid.shows(ls),
    ensures
        r == diagonal(ls, row as int, col as int, rising),
{
    let side: i64 = if rising {
        -1
    } else {
        1
    };
    proof {
        grid.lemma_shows_letter(ls, row - 1, col - side);
        grid.lemma_shows_letter(ls, row + 1, col + side);
    }
    let a = grid.get_offset(row, col, -1, -side);
    let b = grid.get_offset(row, col, 1, side);
    (is_letter(a, 'M') && is_letter(b, 'S')) || (is_letter(a, 'S') && is_letter(b, 'M'))
}

/// Counts how often `XMAS` can be read in the text, forwards, backwards,
/// up, down and along both diagonals. Fails when the lines of the text do
/// not make a rectangle.
pub fn count_xmas(input: &str) -> (r: Result<usize, PuzzleError>)
    requires
        rectangular(lines(input@)) ==> xmas_count(lines(input@)) <= usize::MAX,
    ensures
        match r {
            Ok(n) => rectangular(lines(input@)) && n == xmas_count(lines(input@)),
            Err(e) => e == PuzzleError::MalformedInput && !rectangular(lines(input@)),
        },
{
    let grid = match Grid::new(input) {
        Ok(g) => g,
        Err(e) => {
            return Err(e);
        },
    };
    let ghost ls = lines(input@);
    let cells = grid.data.len();
    assert(cells == ls.len() * ls[0].len()) by {
        assert(grid.width * grid.height == grid.height * grid.width) by (nonlinear_arith);
    }
    let mut total: usize = 0;
    let mut k: usize = 0;
    while k < cells
        invariant
            k <= cells,
            cells == grid.data.len(),
            cells == ls.len() * ls[0].len(),
            grid.shows(ls),
            xmas_count(ls) <= usize::MAX,
            total == sum_below(k as int, xmas_from(ls)),
        decreases cells - k,
    {
        let row = k / grid.width;
        let col = k % grid.width;
        proof {
            assert(grid.width * grid.height == grid.height * grid.width) by (nonlinear_arith);
            lemma_index_cell(k as int, grid.height as int, grid.width as int);
            grid.lemma_shows_letter(ls, row as int, col as int);
            assert forall|i: int| 0 <= i < cells implies 0 <= #[trigger] xmas_from(ls)(i) by {}
            lemma_sum_grows(k + 1, cells as int, xmas_from(ls));
        }
        if is_letter(grid.get_at(row, col), 'X') {
            let mut count: usize = 0;
            let mut d: usize = 0;
            while d < 8
                invariant
                    d <= 8,
                    grid.shows(ls),
                    count == count_below(d as int, spells_toward(ls, row as int, col as int)),
                    count <= d,
                decreases 8 - d,
            {
                let (down, right): (i64, i64) = if d == 0 {
                    (0, 1)
                } else if d == 1 {
                    (1, 0)
                } else if d == 2 {
                    (1, 1)
                } else if d == 3 {
                    (-1, -1)
                } else if d == 4 {
                    (0, -1)
                } else if d == 5 {
                    (-1, 0)
                } else if d == 6 {
                    (-1, 1)
                } else {
                    (1, -1)
                };
                if reads_mas(&grid, row, col, down, right, Ghost(ls)) {
                    count += 1;
                }
                d += 1;
            }
            total += count;
        }
        k += 1;
    }
    Ok(total)
}

/// Counts the cells at which two `MAS` cross, each along one diagonal and
/// in either direction. Fails when the lines of the text do not make a
/// rectangle.
pub fn count_mas(input: &str) -> (r: Result<usize, PuzzleError>)
    ensures
        match r {
            Ok(n) => rectangular(lines(input@)) && n == mas_count(lines(input@)),
            Err(e) => e == PuzzleError::MalformedInput && !rectangular(lines(input@)),
        },
{
    let grid = match Grid::new(input) {
        Ok(g) => g,
        Err(e) => {
            return Err(e);
        },
    };
    let ghost ls = lines(input@);
    let cells = grid.data.len();
    assert(cells == ls.len() * ls[0].len()) by {
        assert(grid.width * grid.height == grid.height * grid.width) by (nonlinear_arith);
    }
    let mut total: usize = 0;
    let mut k: usize = 0;
    while k < cells
        invariant
            k <= cells,
            cells == grid.data.len(),
            cells == ls.len() * ls[0].len(),
            grid.shows(ls),
            total == count_below(k as int, crossing(ls)),
        decreases cells - k,
    {
        let row = k / grid.width;
        let col = k % grid.width;
        proof {
            assert(grid.width * grid.height == grid.height * grid.width) by (nonlinear_arith);
            lemma_index_cell(k as int, grid.height as int, grid.width as int);
            grid.lemma_shows_letter(ls, row as int, col as int);
            lemma_count_bound(k as int, crossing(ls));
        }
        if is_letter(grid.get_at(row, col), 'A') && reads_diagonal(
            &grid,
            row,
            col,
            false,
            Ghost(ls),
        ) && reads_diagonal(&grid, row, col, true, Ghost(ls)) {
            total += 1;
        }
        k += 1;
    }
    Ok(total)
}

/// Both answers for a word search given as text.
pub fn solve(input: &str) -> (r: Result<(usize, usize), PuzzleError>)
    requires
        rectangular(lines(input@)) ==> xmas_count(lines(input@)) <= usize::MAX,
    ensures
        match r {
            Ok((words, crossings)) => {
                &&& rectangular(lines(input@))
                &&& words == xmas_count(lines(input@))
                &&& crossings == mas_count(lines(input@))
            },
            Err(e) => e == PuzzleError::MalformedInput && !rectangular(lines(input@)),
        },
{
    let words = match count_xmas(input) {
        Ok(n) => n,
        Err(e) => {
            return Err(e);
        },
    };
    let crossings = match count_mas(input) {
        Ok(n) => n,
        Err(e) => {
            return Err(e);
        },
    };
    Ok((words, crossings))
}

} // verus!
