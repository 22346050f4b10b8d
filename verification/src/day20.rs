//! A race through a maze in which the rules may be bent once: from a cell
//! of the course the racer may jump, through walls, to a cell further along
//! the course. Counted are the jumps that save at least a given number of steps.
use vstd::prelude::*;
use crate::counting::{count_below, sum_below};
use crate::error::PuzzleError;
use crate::grid::rectangular;
use crate::maze::{
    addressable, all_known, distance, drawn, first_with, is_shortest_walk, no_way, shortest_walk,
    span_within, two_apart, Elem, Tile,
};
use crate::text::lines;

verus! {

/// The number of steps that a jump has to save to be counted.
pub const WORTHWHILE: usize = 100;

/// How far a long jump may reach.
pub const REACH: u64 = 20;

/// The place of a cell on the course: the last index below `n` at which
/// `path` holds `e`.
pub open spec fn place(path: Seq<Elem>, e: Elem, n: int) -> Option<int>
    decreases n,
{
    if n <= 0 {
        None
    } else if path[n - 1] == e {
        Some(n - 1)
    } else {
        place(path, e, n - 1)
    }
}

/// Whether the jump from the `i`-th cell of the course to the cell `target`,
/// of length `length`, lands at least `saving` steps further along the
/// course than walking `length` steps would.
pub open spec fn pays(path: Seq<Elem>, i: int, target: Elem, length: int, saving: int) -> bool {
    match place(path, target, path.len() as int) {
        Some(p) => p >= i + length + saving,
        None => false,
    }
}

/// The cells of `grid`, by index, to which a jump over one cell from the
/// `i`-th cell of the course pays.
pub open spec fn short_jump_pays(grid: Seq<Elem>, path: Seq<Elem>, saving: int, i: int) -> spec_fn(
    int,
) -> bool {
    |g: int| two_apart(path[i], grid[g]) && pays(path, i, grid[g], 2, saving)
}

/// The number of short jumps from the `i`-th cell of the course that pay.
pub open spec fn short_jumps_from(grid: Seq<Elem>, path: Seq<Elem>, saving: int) -> spec_fn(
    int,
) -> int {
    |i: int| count_below(grid.len() as int, short_jump_pays(grid, path, saving, i)) as int
}

/// The number of short jumps from cells of the course that pay.
pub open spec fn short_jumps(grid: Seq<Elem>, path: Seq<Elem>, saving: int) -> int {
    sum_below(path.len() as int, short_jumps_from(grid, path, saving))
}

/// The cells of `grid`, by index, to which a jump of at most `reach` steps
/// from the `i`-th cell of the course pays.
pub open spec fn long_jump_pays(
    grid: Seq<Elem>,
    path: Seq<Elem>,
    reach: int,
    saving: int,
    i: int,
) -> spec_fn(int) -> bool {
    |g: int|
        distance(path[i], grid[g]) <= reach && pays(
            path,
            i,
            grid[g],
            distance(path[i], grid[g]),
            saving,
        )
}

/// The number of long jumps from the `i`-th cell of the course that pay.
pub open spec fn long_jumps_from(grid: Seq<Elem>, path: Seq<Elem>, reach: int, saving: int) -> spec_fn(
    int,
) -> int {
    |i: int| count_below(grid.len() as int, long_jump_pays(grid, path, reach, saving, i)) as int
}

/// The number of long jumps from cells of the course that pay.
pub open spec fn long_jumps(grid: Seq<Elem>, path: Seq<Elem>, reach: int, saving: int) -> int {
    sum_below(path.len() as int, long_jumps_from(grid, path, reach, saving))
}

/// The cells that a walk given by indices comes through.
pub open spec fn cells_along(grid: Seq<Elem>, walk: Seq<usize>) -> Seq<Elem> {
    Seq::new(walk.len(), |i: int| grid[walk[i] as int])
}

/// Finds the place of a cell on the course.
fn find_place(path: &Vec<Elem>, e: &Elem) -> (r: Option<usize>)
    ensures
        match r {
            Some(p) => place(path@, *e, path.len() as int) == Some(p as int),
            None => place(path@, *e, path.len() as int) is None,
        },
{
    let mut n: usize = path.len();
    while n > 0
        invariant
            n <= path.len(),
            place(path@, *e, path.len() as int) == place(path@, *e, n as int),
        decreases n,
    {
        if path[n - 1] == *e {
            return Some(n - 1);
        }
        n -= 1;
    }
    None
}

/// The place on the course of every cell of the grid.
fn places(grid: &Vec<Elem>, path: &Vec<Elem>) -> (r: Vec<Option<usize>>)
    ensures
        r.len() == grid.len(),
        forall|g: int|
            0 <= g < grid.len() ==> match #[trigger] r[g] {
                Some(p) => place(path@, grid[g], path.len() as int) == Some(p as int),
                None => place(path@, grid[g], path.len() as int) is None,
            },
{
    let mut out: Vec<Option<usize>> = Vec::new();
    let mut g: usize = 0;
    while g < grid.len()
        invariant
            g <= grid.len(),
            out.len() == g,
            forall|k: int|
                0 <= k < g ==> match #[trigger] out[k] {
                    Some(p) => place(path@, grid[k], path.len() as int) == Some(p as int),
                    None => place(path@, grid[k], path.len() as int) is None,
                },
        decreases grid.len() - g,
    {
        out.push(find_place(path, &grid[g]));
        g += 1;
    }
    out
}

/// Whether a jump of the given length from the `i`-th cell of the course
/// to a cell at place `p` pays.
fn lands_ahead(p: Option<usize>, i: usize, length: u64, saving: usize) -> (r: bool)
    ensures
        r == match p {
            Some(q) => q >= i + length + saving,
            None => false,
        },
{
    match p {
        Some(q) => (q as u128) >= (i as u128) + (length as u128) + (saving as u128),
        None => false,
    }
}

/// Counts the jumps over one cell, from a cell of the course `path` to a
/// cell of `grid`, that land at least `saving` steps further along the
/// course than two steps on foot would.
pub fn count_short_jumps(grid: &Vec<Elem>, path: &Vec<Elem>, saving: usize) -> (r: usize)
    requires
        path.len() * grid.len() <= usize::MAX,
    ensures
        r == short_jumps(grid@, path@, saving as int),
{
    let table = places(grid, path);
    let mut total: usize = 0;
    let mut i: usize = 0;
    while i < path.len()
        invariant
            i <= path.len(),
            path.len() * grid.len() <= usize::MAX,
            table.len() == grid.len(),
            forall|g: int|
                0 <= g < grid.len() ==> match #[trigger] table[g] {
                    Some(p) => place(path@, grid[g], path.len() as int) == Some(p as int),
                    None => place(path@, grid[g], path.len() as int) is None,
                },
            total == sum_below(i as int, short_jumps_from(grid@, path@, saving as int)),
            total <= i * grid.len(),
        decreases path.len() - i,
    {
        let mut count: usize = 0;
        let mut g: usize = 0;
        while g < grid.len()
            invariant
                g <= grid.len(),
                i < path.len(),
                table.len() == grid.len(),
                forall|g: int|
                    0 <= g < grid.len() ==> match #[trigger] table[g] {
                        Some(p) => place(path@, grid[g], path.len() as int) == Some(p as int),
                        None => place(path@, grid[g], path.len() as int) is None,
                    },
                count == count_below(
                    g as int,
                    short_jump_pays(grid@, path@, saving as int, i as int),
                ),
                count <= g,
            decreases grid.len() - g,
        {
            let apart = match (
                span_within(path[i].row, grid[g].row, 2),
                span_within(path[i].col, grid[g].col, 2),
            ) {
                (Some(dr), Some(dc)) => (dr == 2 && dc == 0) || (dr == 0 && dc == 2),
                _ => false,
            };
            assert(table[g as int] is Some || table[g as int] is None);
            if apart && lands_ahead(table[g], i, 2, saving) {
                count += 1;
            }
            g += 1;
        }
        proof {
            assert((i + 1) * grid.len() == i * grid.len() + grid.len()) by (nonlinear_arith);
            assert((i + 1) * grid.len() <= path.len() * grid.len()) by (nonlinear_arith)
                requires
                    i + 1 <= path.len(),
            ;
        }
        total += count;
        i += 1;
    }
    total
}

/// Counts the jumps of at most `reach` steps, from a cell of the course
/// `path` to a cell of `grid`, that land at least `saving` steps further
/// along the course than as many steps on foot would.
pub fn count_long_jumps(grid: &Vec<Elem>, path: &Vec<Elem>, reach: u64, saving: usize) -> (r: usize)
    requires
        path.len() * grid.len() <= usize::MAX,
        2 * reach <= u64::MAX,
    ensures
        r == long_jumps(grid@, path@, reach as int, saving as int),
{
    let table = places(grid, path);
    let mut total: usize = 0;
    let mut i: usize = 0;
    while i < path.len()
        invariant
            i <= path.len(),
            path.len() * grid.len() <= usize::MAX,
            2 * reach <= u64::MAX,
            table.len() == grid.len(),
            forall|g: int|
                0 <= g < grid.len() ==> match #[trigger] table[g] {
                    Some(p) => place(path@, grid[g], path.len() as int) == Some(p as int),
                    None => place(path@, grid[g], path.len() as int) is None,
                },
            total == sum_below(i as int, long_jumps_from(grid@, path@, reach as int, saving as int)),
            total <= i * grid.len(),
        decreases path.len() - i,
    {
        let mut count: usize = 0;
        let mut g: usize = 0;
        while g < grid.len()
            invariant
                g <= grid.len(),
                i < path.len(),
                2 * reach <= u64::MAX,
                table.len() == grid.len(),
                forall|g: int|
                    0 <= g < grid.len() ==> match #[trigger] table[g] {
                        Some(p) => place(path@, grid[g], path.len() as int) == Some(p as int),
                        None => place(path@, grid[g], path.len() as int) is None,
                    },
                count == count_below(
                    g as int,
                    long_jump_pays(grid@, path@, reach as int, saving as int, i as int),
                ),
                count <= g,
            decreases grid.len() - g,
        {
            let length = match (
                span_within(path[i].row, grid[g].row, reach),
                span_within(path[i].col, grid[g].col, reach),
            ) {
                (Some(dr), Some(dc)) => if dr + dc <= reach {
                    Some(dr + dc)
                } else {
                    None
                },
                _ => None,
            };
            assert(table[g as int] is Some || table[g as int] is None);
            let hit = match length {
                Some(d) => lands_ahead(table[g], i, d, saving),
                None => false,
            };
            if hit {
                count += 1;
            }
            g += 1;
        }
        proof {
            assert((i + 1) * grid.len() == i * grid.len() + grid.len()) by (nonlinear_arith);
            assert((i + 1) * grid.len() <= path.len() * grid.len()) by (nonlinear_arith)
                requires
                    i + 1 <= path.len(),
            ;
        }
        total += count;
        i += 1;
    }
    total
}

/// Finds a shortest course from the start cell to an end cell: the number
/// of its steps, and its cells from the start on.
///
/// Fails with `MissingSeed` when the grid has no start cell, and with
/// `NoSolution` when no end cell is reached.
pub fn solve_1(grid: &Vec<Elem>) -> (r: Result<(usize, Vec<Elem>), PuzzleError>)
    ensures
        match r {
            Ok((steps, course)) => {
                &&& first_with(grid@, Tile::Start, 0) < grid.len()
                &&& steps == course.len() - 1
                &&& course.len() <= grid.len()
                &&& exists|walk: Seq<usize>| #[trigger]
                    is_shortest_walk(grid@, walk) && course@ == cells_along(grid@, walk)
            },
            Err(e) => if first_with(grid@, Tile::Start, 0) >= grid.len() {
                e == PuzzleError::MissingSeed
            } else {
                e == PuzzleError::NoSolution && no_way(grid@)
            },
        },
{
    let walk = match shortest_walk(grid) {
        Ok(w) => w,
        Err(e) => {
            return Err(e);
        },
    };
    let mut course: Vec<Elem> = Vec::new();
    let mut i: usize = 0;
    while i < walk.len()
        invariant
            i <= walk.len(),
            forall|k: int| 0 <= k < walk.len() ==> (#[trigger] walk[k]) < grid.len(),
            course.len() == i,
            forall|k: int| 0 <= k < i ==> course[k] == grid[walk[k] as int],
        decreases walk.len() - i,
    {
        course.push(grid[walk[i]]);
        i += 1;
    }
    assert(course@ =~= cells_along(grid@, walk@));
    Ok((walk.len() - 1, course))
}

/// Counts, along a shortest course through the maze, the jumps over one
/// cell that save at least a hundred steps.
pub fn do_sth(grid: &Vec<Elem>) -> (r: Result<usize, PuzzleError>)
    requires
        grid.len() * grid.len() <= usize::MAX,
    ensures
        match r {
            Ok(n) => exists|walk: Seq<usize>| #[trigger]
                is_shortest_walk(grid@, walk) && n == short_jumps(
                    grid@,
                    cells_along(grid@, walk),
                    WORTHWHILE as int,
                ),
            Err(e) => if first_with(grid@, Tile::Start, 0) >= grid.len() {
                e == PuzzleError::MissingSeed
            } else {
                e == PuzzleError::NoSolution && no_way(grid@)
            },
        },
{
    match solve_1(grid) {
        Ok((_, course)) => {
            assert(course.len() * grid.len() <= grid.len() * grid.len()) by (nonlinear_arith)
                requires
                    course.len() <= grid.len(),
            ;
            Ok(count_short_jumps(grid, &course, WORTHWHILE))
        },
        Err(e) => Err(e),
    }
}

/// Counts, along a shortest course through the maze, the jumps of at most
/// twenty steps that save at least a hundred steps.
pub fn do_sth2(grid: &Vec<Elem>) -> (r: Result<usize, PuzzleError>)
    requires
        grid.len() * grid.len() <= usize::MAX,
    ensures
        match r {
            Ok(n) => exists|walk: Seq<usize>| #[trigger]
                is_shortest_walk(grid@, walk) && n == long_jumps(
                    grid@,
                    cells_along(grid@, walk),
                    REACH as int,
                    WORTHWHILE as int,
                ),
            Err(e) => if first_with(grid@, Tile::Start, 0) >= grid.len() {
                e == PuzzleError::MissingSeed
            } else {
                e == PuzzleError::NoSolution && no_way(grid@)
            },
        },
{
    match solve_1(grid) {
        Ok((_, course)) => {
            assert(course.len() * grid.len() <= grid.len() * grid.len()) by (nonlinear_arith)
                requires
                    course.len() <= grid.len(),
            ;
            Ok(count_long_jumps(grid, &course, REACH, WORTHWHILE))
        },
        Err(e) => Err(e),
    }
}

/// Both answers for a race track given as a drawing: the number of short
/// jumps and the number of long jumps that save at least a hundred steps
/// on a shortest course from `S` to `E`.
///
/// Fails with `MalformedInput` when the lines of the text do not make a
/// rectangle, with `InvalidCell` when they hold a character that no track
/// is drawn with, with `MissingSeed` when there is no start, and with
/// `NoSolution` when no course leads from the start to the end.
pub fn solve(input: &str) -> (r: Result<(usize, usize), PuzzleError>)
    requires
        addressable(input@),
        drawn(input@).len() * drawn(input@).len() <= usize::MAX,
    ensures
        match r {
            Ok((short, long)) => {
                &&& rectangular(lines(input@))
                &&& all_known(input@)
                &&& exists|walk: Seq<usize>| #[trigger]
                    is_shortest_walk(drawn(input@), walk) && short == short_jumps(
                        drawn(input@),
                        cells_along(drawn(input@), walk),
                        WORTHWHILE as int,
                    )
                &&& exists|walk: Seq<usize>| #[trigger]
                    is_shortest_walk(drawn(input@), walk) && long == long_jumps(
                        drawn(input@),
                        cells_along(drawn(input@), walk),
                        REACH as int,
                        WORTHWHILE as int,
                    )
            },
            Err(e) => if !rectangular(lines(input@)) {
                e == PuzzleError::MalformedInput
            } else if !all_known(input@) {
                e == PuzzleError::InvalidCell
            } else if first_with(drawn(input@), Tile::Start, 0) >= drawn(input@).len() {
                e == PuzzleError::MissingSeed
            } else {
                e == PuzzleError::NoSolution && no_way(drawn(input@))
            },
        },
{
    let grid = match crate::maze::parse(input) {
        Ok(g) => g,
        Err(e) => {
            return Err(e);
        },
    };
    let short = match do_sth(&grid) {
        Ok(n) => n,
        Err(e) => {
            return Err(e);
        },
    };
    let long = match do_sth2(&grid) {
        Ok(n) => n,
        Err(e) => {
            return Err(e);
        },
    };
    Ok((short, long))
}

} // verus!
