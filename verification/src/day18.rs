//! A square memory space into which bytes fall, one per line of the input,
//! each blocking a cell: the shortest way from one corner to the opposite
//! one, and the first byte that cuts the corners off from each other.
use vstd::prelude::*;
use crate::error::PuzzleError;
use crate::grid::lemma_cell_index;
use crate::maze::{fewest_steps, first_with, no_way, reaches_end, shortest_walk, Elem, Tile};
use crate::text::{
    chars_of, integer64, lines, parse_i64, pieces, rows, split_char, split_lines,
};

verus! {

/// The width and height of the memory space.
pub const SIDE: usize = 71;

/// The number of bytes that have fallen before the search for the first
/// blocking byte begins.
pub const SETTLED: usize = 1024;

/// The cell that a line names: its column, a comma, its row. Anything after
/// a second comma is not looked at.
pub open spec fn coordinate_of(line: Seq<char>) -> Option<(i64, i64)> {
    let p = pieces(line, ',');
    if p.len() >= 2 && integer64(p[0]) is Some && integer64(p[1]) is Some {
        Some((integer64(p[0]).unwrap(), integer64(p[1]).unwrap()))
    } else {
        None
    }
}

/// How many lines are read when `k` are asked for.
pub open spec fn taken(text: Seq<char>, k: int) -> int {
    if k <= lines(text).len() {
        k
    } else {
        lines(text).len() as int
    }
}

/// Whether each of the first `k` lines names a cell.
pub open spec fn readable(text: Seq<char>, k: int) -> bool {
    forall|i: int| 0 <= i < taken(text, k) ==> coordinate_of(#[trigger] lines(text)[i]) is Some
}

/// The cells that the first `k` lines name, each as column and row.
pub open spec fn fallen(text: Seq<char>, k: int) -> Seq<(i64, i64)> {
    Seq::new(taken(text, k) as nat, |i: int| coordinate_of(lines(text)[i]).unwrap())
}

/// Whether a byte has fallen on the cell in row `row` and column `col`.
pub open spec fn hit(dropped: Seq<(i64, i64)>, row: int, col: int) -> bool {
    exists|i: int| 0 <= i < dropped.len() && #[trigger] dropped[i] == (col as i64, row as i64)
}

/// What stands on a cell of the memory space: the end in the last corner,
/// the start in the first, nothing elsewhere.
pub open spec fn tile_at(side: int, row: int, col: int) -> Tile {
    if row == side - 1 && col == side - 1 {
        Tile::End
    } else if row == 0 && col == 0 {
        Tile::Start
    } else {
        Tile::Empty
    }
}

/// The open cells among the first `n` cells of the memory space, counted
/// row after row.
pub open spec fn memory(side: int, dropped: Seq<(i64, i64)>, n: int) -> Seq<Elem>
    decreases n,
{
    if n <= 0 {
        Seq::empty()
    } else {
        let row = (n - 1) / side;
        let col = (n - 1) % side;
        if hit(dropped, row, col) {
            memory(side, dropped, n - 1)
        } else {
            memory(side, dropped, n - 1).push(
                Elem { row: row as i64, col: col as i64, tile: tile_at(side, row, col) },
            )
        }
    }
}

/// The open cells of a memory space of the given side after the first `k`
/// bytes of `text` have fallen.
pub open spec fn cells_after(text: Seq<char>, k: int, side: int) -> Seq<Elem> {
    memory(side, fallen(text, k), side * side)
}

/// Reads the cell that a line names.
fn parse_coordinate(line: &Vec<char>) -> (r: Option<(i64, i64)>)
    ensures
        r == coordinate_of(line@),
{
    let p = split_char(line, ',');
    if p.len() < 2 {
        assert(rows(p@).len() == p.len());
        return None;
    }
    assert(rows(p@)[0] == p[0]@ && rows(p@)[1] == p[1]@);
    match (parse_i64(&p[0]), parse_i64(&p[1])) {
        (Some(col), Some(row)) => Some((col, row)),
        _ => None,
    }
}

/// Whether a byte has fallen on a cell.
fn is_hit(dropped: &Vec<(i64, i64)>, row: i64, col: i64) -> (r: bool)
    ensures
        r == hit(dropped@, row as int, col as int),
{
    let mut i: usize = 0;
    while i < dropped.len()
        invariant
            i <= dropped.len(),
            forall|k: int| 0 <= k < i ==> #[trigger] dropped[k] != (col, row),
        decreases dropped.len() - i,
    {
        let (c, r) = dropped[i];
        if c == col && r == row {
            return true;
        }
        i += 1;
    }
    false
}

/// Lays out a memory space of the given side after the first
/// `lines_to_read` bytes of the input have fallen. Fails when one of those
/// lines does not name a cell.
pub fn parse_in(input: &str, lines_to_read: usize, side: usize) -> (r: Result<
    Vec<Elem>,
    PuzzleError,
>)
    requires
        side <= i64::MAX,
    ensures
        match r {
            Ok(grid) => readable(input@, lines_to_read as int) && grid@ == cells_after(
                input@,
                lines_to_read as int,
                side as int,
            ),
            Err(e) => e == PuzzleError::MalformedInput && !readable(input@, lines_to_read as int),
        },
{
    let text = chars_of(input);
    let all = split_lines(&text);
    let count = if lines_to_read <= all.len() {
        lines_to_read
    } else {
        all.len()
    };
    let mut dropped: Vec<(i64, i64)> = Vec::new();
    let mut i: usize = 0;
    while i < count
        invariant
            i <= count <= all.len(),
            count == taken(input@, lines_to_read as int),
            rows(all@) == lines(input@),
            dropped.len() == i,
            forall|k: int|
                0 <= k < i ==> coordinate_of(#[trigger] lines(input@)[k]) == Some(dropped[k]),
        decreases count - i,
    {
        assert(lines(input@)[i as int] == all[i as int]@);
        match parse_coordinate(&all[i]) {
            Some(c) => {
                dropped.push(c);
            },
            None => {
                return Err(PuzzleError::MalformedInput);
            },
        }
        i += 1;
    }
    assert(dropped@ =~= fallen(input@, lines_to_read as int));
    let mut grid: Vec<Elem> = Vec::new();
    let mut row: usize = 0;
    while row < side
        invariant
            row <= side <= i64::MAX,
            grid@ == memory(side as int, dropped@, row * side),
        decreases side - row,
    {
        let mut col: usize = 0;
        while col < side
            invariant
                row < side <= i64::MAX,
                col <= side,
                grid@ == memory(side as int, dropped@, row * side + col),
            decreases side - col,
        {
            proof {
                lemma_cell_index(row as int, col as int, side as int, side as int);
            }
            if !is_hit(&dropped, row as i64, col as i64) {
                let tile = if row == side - 1 && col == side - 1 {
                    Tile::End
                } else if row == 0 && col == 0 {
                    Tile::Start
                } else {
                    Tile::Empty
                };
                grid.push(Elem { row: row as i64, col: col as i64, tile });
            }
            col += 1;
        }
        assert((row + 1) * side == row * side + side) by (nonlinear_arith);
        row += 1;
    }
    Ok(grid)
}

/// Lays out the memory space after the first `lines_to_read` bytes of the
/// input have fallen.
pub fn parse(input: &str, lines_to_read: usize) -> (r: Result<Vec<Elem>, PuzzleError>)
    ensures
        match r {
            Ok(grid) => readable(input@, lines_to_read as int) && grid@ == cells_after(
                input@,
                lines_to_read as int,
                SIDE as int,
            ),
            Err(e) => e == PuzzleError::MalformedInput && !readable(input@, lines_to_read as int),
        },
{
    parse_in(input, lines_to_read, SIDE)
}

/// The number of steps of a shortest walk from the start cell to an end cell.
///
/// Fails with `MissingSeed` when the grid has no start cell, and with
/// `NoSolution` when no end cell is reached.
pub fn solve_1(grid: &Vec<Elem>) -> (r: Result<usize, PuzzleError>)
    ensures
        match r {
            Ok(steps) => first_with(grid@, Tile::Start, 0) < grid.len() && fewest_steps(
                grid@,
                steps as int,
            ),
            Err(e) => if first_with(grid@, Tile::Start, 0) >= grid.len() {
                e == PuzzleError::MissingSeed
            } else {
                e == PuzzleError::NoSolution && no_way(grid@)
            },
        },
{
    match shortest_walk(grid) {
        Ok(path) => Ok(path.len() - 1),
        Err(e) => Err(e),
    }
}

/// What becomes of the search once the first `k` bytes have fallen.
pub enum Outlook {
    /// One of the lines does not name a cell.
    Unreadable,
    /// A byte fell on the start cell.
    Buried,
    /// No way leads from the start cell to the end cell.
    Blocked,
    /// A way leads from the start cell to the end cell.
    Open,
}

/// What becomes of the search once the first `k` bytes of `text` have
/// fallen into a memory space of the given side.
pub open spec fn outlook(text: Seq<char>, k: int, side: int) -> Outlook {
    let cells = cells_after(text, k, side);
    if !readable(text, k) {
        Outlook::Unreadable
    } else if first_with(cells, Tile::Start, 0) >= cells.len() {
        Outlook::Buried
    } else if no_way(cells) {
        Outlook::Blocked
    } else {
        Outlook::Open
    }
}

/// The last number of bytes that is worth trying: all of them, or `from`
/// if the input has fewer lines than that.
pub open spec fn last_try(text: Seq<char>, from: int) -> int {
    if from >= lines(text).len() {
        from
    } else {
        lines(text).len() as int
    }
}

/// Finds the smallest number of bytes, at least `from`, after which no way
/// leads from the start cell to the end cell of a memory space of the given
/// side.
///
/// Fails with `MalformedInput` or `MissingSeed` when, before any such
/// number, a line does not name a cell or a byte falls on the start cell,
/// and with `NoSolution` when a way is left after all bytes have fallen.
pub fn first_blocking(input: &str, from: usize, side: usize) -> (r: Result<usize, PuzzleError>)
    requires
        side <= i64::MAX,
    ensures
        match r {
            Ok(k) => {
                &&& from <= k <= last_try(input@, from as int)
                &&& outlook(input@, k as int, side as int) is Blocked
                &&& forall|j: int| from <= j < k ==> #[trigger] outlook(input@, j, side as int) is Open
            },
            Err(e) => if e == PuzzleError::NoSolution {
                forall|j: int|
                    from <= j <= last_try(input@, from as int) ==> #[trigger] outlook(
                        input@,
                        j,
                        side as int,
                    ) is Open
            } else {
                exists|k: int|
                    {
                        &&& from <= k <= last_try(input@, from as int)
                        &&& forall|j: int|
                            from <= j < k ==> #[trigger] outlook(input@, j, side as int) is Open
                        &&& if e == PuzzleError::MalformedInput {
                            #[trigger] outlook(input@, k, side as int) is Unreadable
                        } else {
                            e == PuzzleError::MissingSeed && outlook(input@, k, side as int) is Buried
                        }
                    }
            },
        },
{
    let text = chars_of(input);
    let all = split_lines(&text);
    assert(rows(all@).len() == all.len());
    let last = if from >= all.len() {
        from
    } else {
        all.len()
    };
    let mut k: usize = from;
    loop
        invariant
            side <= i64::MAX,
            from <= k <= last,
            last == last_try(input@, from as int),
            forall|j: int| from <= j < k ==> #[trigger] outlook(input@, j, side as int) is Open,
        decreases last - k,
    {
        let grid = match parse_in(input, k, side) {
            Ok(g) => g,
            Err(e) => {
                assert(outlook(input@, k as int, side as int) is Unreadable);
                return Err(e);
            },
        };
        match solve_1(&grid) {
            Ok(steps) => {
                proof {
                    let t = choose|t: crate::explorer::Trail| #[trigger]
                        crate::maze::reaches_end(grid@, t) && t.fees.len() == steps;
                    assert(reaches_end(grid@, t));
                }
            },
            Err(e) => {
                if e == PuzzleError::NoSolution {
                    return Ok(k);
                }
                assert(outlook(input@, k as int, side as int) is Buried);
                return Err(e);
            },
        }
        if k == last {
            return Err(PuzzleError::NoSolution);
        }
        k += 1;
    }
}

/// The number of the first byte after which no way leads from the first
/// corner of the memory space to the last, counting from the bytes that
/// have settled.
pub fn solve(input: &str) -> (r: Result<usize, PuzzleError>)
    ensures
        match r {
            Ok(k) => {
                &&& SETTLED <= k <= last_try(input@, SETTLED as int)
                &&& outlook(input@, k as int, SIDE as int) is Blocked
                &&& forall|j: int|
                    SETTLED <= j < k ==> #[trigger] outlook(input@, j, SIDE as int) is Open
            },
            Err(e) => if e == PuzzleError::NoSolution {
                forall|j: int|
                    SETTLED <= j <= last_try(input@, SETTLED as int) ==> #[trigger] outlook(
                        input@,
                        j,
                        SIDE as int,
                    ) is Open
            } else {
                exists|k: int|
                    {
                        &&& SETTLED <= k <= last_try(input@, SETTLED as int)
                        &&& forall|j: int|
                            SETTLED <= j < k ==> #[trigger] outlook(input@, j, SIDE as int) is Open
                        &&& if e == PuzzleError::MalformedInput {
                            #[trigger] outlook(input@, k, SIDE as int) is Unreadable
                        } else {
                            e == PuzzleError::MissingSeed && outlook(input@, k, SIDE as int) is Buried
                        }
                    }
            },
        },
{
    first_blocking(input, SETTLED, SIDE)
}

} // verus!
