//! Search over lists of whole paths through a maze: every path of a round
//! is taken one step further in every way that does not cross it, the
//! paths that reach the end are measured, and those that come to a cell
//! no sooner than an earlier path are dropped.
use vstd::prelude::*;
use crate::counting::lemma_filter_step;
use crate::explorer::{weight, StateCache};
use crate::maze::{next_to, Elem, Tile};

verus! {

/// The paths of a list, as plain values.
pub open spec fn paths_of(paths: Seq<Vec<Elem>>) -> Seq<Seq<Elem>> {
    Seq::new(paths.len(), |i: int| paths[i]@)
}

/// The cells that a path has not visited.
pub open spec fn fresh_for(path: Seq<Elem>) -> spec_fn(Elem) -> bool {
    |e: Elem| !path.contains(e)
}

/// A path taken one step further to each of the given cells that it has
/// not visited, in their order.
pub open spec fn extended(path: Seq<Elem>, cells: Seq<Elem>) -> Seq<Seq<Elem>> {
    Seq::new(
        cells.filter(fresh_for(path)).len(),
        |i: int| path.push(cells.filter(fresh_for(path))[i]),
    )
}

/// Whether a path has reached the end of the maze.
pub open spec fn finished(path: Seq<Elem>) -> bool {
    path.len() > 0 && path.last().tile == Tile::End
}

/// The paths that go one step further than a path: none where it has
/// reached the end, and else one to every cell next to its last that it
/// has not visited, in the order of the grid.
pub open spec fn grown(grid: Seq<Elem>, path: Seq<Elem>) -> Seq<Seq<Elem>> {
    if path.len() == 0 || finished(path) {
        seq![]
    } else {
        extended(path, grid.filter(next_to(path.last())))
    }
}

/// The paths that go one step further than one of the first `n` paths of
/// a list, in the order of the list.
pub open spec fn all_grown(grid: Seq<Elem>, paths: Seq<Seq<Elem>>, n: int) -> Seq<Seq<Elem>>
    decreases n,
{
    if n <= 0 {
        seq![]
    } else {
        all_grown(grid, paths, n - 1) + grown(grid, paths[n - 1])
    }
}

/// The length of the shortest of the first `n` paths of a list that has
/// reached the end; the largest number where none has.
pub open spec fn shortest_finished(paths: Seq<Seq<Elem>>, n: int) -> int
    decreases n,
{
    if n <= 0 {
        usize::MAX as int
    } else if finished(paths[n - 1]) && paths[n - 1].len() < shortest_finished(paths, n - 1) {
        paths[n - 1].len() as int
    } else {
        shortest_finished(paths, n - 1)
    }
}

/// The index of the first cell of a grid, at or after `from`, that is a
/// given cell; the length of the grid if there is none.
pub open spec fn place_of(grid: Seq<Elem>, e: Elem, from: int) -> int
    decreases grid.len() - from,
{
    if from >= grid.len() {
        grid.len() as int
    } else if grid[from] == e {
        from
    } else {
        place_of(grid, e, from + 1)
    }
}

/// The first place of a cell, sought from `from` on, is not before `from`
/// and not beyond the grid.
pub proof fn lemma_place_in_grid(grid: Seq<Elem>, e: Elem, from: int)
    requires
        0 <= from,
    ensures
        place_of(grid, e, from) <= grid.len(),
        from <= grid.len() ==> from <= place_of(grid, e, from),
    decreases grid.len() - from,
{
    if from < grid.len() && grid[from] != e {
        lemma_place_in_grid(grid, e, from + 1);
    }
}

/// Whether a path comes to its last cell sooner than the cache has seen.
pub open spec fn sooner(grid: Seq<Elem>, best: Seq<Option<u64>>, path: Seq<Elem>) -> bool {
    path.len() < weight(best[place_of(grid, path.last(), 0)])
}

/// What the cache holds after the first `n` paths of a list have been
/// offered to it, one after the other.
pub open spec fn cache_after(
    grid: Seq<Elem>,
    best: Seq<Option<u64>>,
    paths: Seq<Seq<Elem>>,
    n: int,
) -> Seq<Option<u64>>
    decreases n,
{
    if n <= 0 {
        best
    } else if sooner(grid, cache_after(grid, best, paths, n - 1), paths[n - 1]) {
        cache_after(grid, best, paths, n - 1).update(
            place_of(grid, paths[n - 1].last(), 0),
            Some(paths[n - 1].len() as u64),
        )
    } else {
        cache_after(grid, best, paths, n - 1)
    }
}

/// The paths among the first `n` of a list that the cache has accepted.
pub open spec fn kept_after(
    grid: Seq<Elem>,
    best: Seq<Option<u64>>,
    paths: Seq<Seq<Elem>>,
    n: int,
) -> Seq<Seq<Elem>>
    decreases n,
{
    if n <= 0 {
        seq![]
    } else if sooner(grid, cache_after(grid, best, paths, n - 1), paths[n - 1]) {
        kept_after(grid, best, paths, n - 1).push(paths[n - 1])
    } else {
        kept_after(grid, best, paths, n - 1)
    }
}

/// Whether every path of a list has a cell, and its last cell is one of
/// the grid.
pub open spec fn end_on(grid: Seq<Elem>, paths: Seq<Seq<Elem>>) -> bool {
    forall|i: int|
        0 <= i < paths.len() ==> (#[trigger] paths[i]).len() > 0 && place_of(
            grid,
            paths[i].last(),
            0,
        ) < grid.len()
}

/// Whether a cell is on a path.
pub fn visited(path: &Vec<Elem>, e: &Elem) -> (r: bool)
    ensures
        r == path@.contains(*e),
{
    let mut i: usize = 0;
    while i < path.len()
        invariant
            i <= path.len(),
            forall|k: int| 0 <= k < i ==> path[k] != *e,
        decreases path.len() - i,
    {
        if path[i].row == e.row && path[i].col == e.col && path[i].tile == e.tile {
            return true;
        }
        i += 1;
    }
    false
}

/// A path with one cell more.
fn lengthened(path: &Vec<Elem>, e: Elem) -> (out: Vec<Elem>)
    ensures
        out@ == path@.push(e),
{
    let mut out: Vec<Elem> = Vec::new();
    let mut i: usize = 0;
    while i < path.len()
        invariant
            i <= path.len(),
            out@ == path@.take(i as int),
        decreases path.len() - i,
    {
        out.push(path[i]);
        i += 1;
        assert(out@ =~= path@.take(i as int));
    }
    assert(path@.take(path.len() as int) =~= path@);
    out.push(e);
    out
}

/// Filtering a list to which an item is added either adds the item to
/// what was filtered or changes nothing.
proof fn lemma_extended_step(path: Seq<Elem>, cells: Seq<Elem>, k: int)
    requires
        0 <= k < cells.len(),
    ensures
        extended(path, cells.take(k + 1)) == if path.contains(cells[k]) {
            extended(path, cells.take(k))
        } else {
            extended(path, cells.take(k)).push(path.push(cells[k]))
        },
{
    lemma_filter_step(cells, k, fresh_for(path));
    if path.contains(cells[k]) {
        assert(extended(path, cells.take(k + 1)) =~= extended(path, cells.take(k)));
    } else {
        assert(extended(path, cells.take(k + 1)) =~= extended(path, cells.take(k)).push(
            path.push(cells[k]),
        ));
    }
}

/// Takes every path of a list one step further, in every way that does
/// not cross it: a path that has reached the end is left out, and every
/// other gives one path for each cell next to its last that it has not
/// visited.
pub fn visit_next(grid: &Vec<Elem>, possible_paths: &Vec<Vec<Elem>>) -> (out: Vec<Vec<Elem>>)
    requires
        forall|i: int| 0 <= i < possible_paths.len() ==> (#[trigger] possible_paths[i]).len() > 0,
    ensures
        paths_of(out@) == all_grown(
            grid@,
            paths_of(possible_paths@),
            possible_paths.len() as int,
        ),
{
    let ghost all = paths_of(possible_paths@);
    let mut current_paths: Vec<Vec<Elem>> = Vec::new();
    let mut i: usize = 0;
    assert(paths_of(current_paths@) =~= all_grown(grid@, all, 0));
    while i < possible_paths.len()
        invariant
            i <= possible_paths.len(),
            all == paths_of(possible_paths@),
            forall|i: int|
                0 <= i < possible_paths.len() ==> (#[trigger] possible_paths[i]).len() > 0,
            paths_of(current_paths@) == all_grown(grid@, all, i as int),
        decreases possible_paths.len() - i,
    {
        let current_path = &possible_paths[i];
        let last = current_path[current_path.len() - 1];
        assert(all[i as int] == current_path@);
        assert(last == current_path@.last());
        if last.tile == Tile::End {
            assert(paths_of(current_paths@) =~= all_grown(grid@, all, i + 1));
        } else {
            let neighbors = last.get_direct_neighbors(grid);
            let ghost base = paths_of(current_paths@);
            let mut k: usize = 0;
            assert(neighbors@.take(0).filter(fresh_for(current_path@)) =~= Seq::<Elem>::empty())
                by {
                reveal(Seq::filter);
            }
            assert(paths_of(current_paths@) =~= base + extended(
                current_path@,
                neighbors@.take(0),
            ));
            while k < neighbors.len()
                invariant
                    k <= neighbors.len(),
                    paths_of(current_paths@) == base + extended(
                        current_path@,
                        neighbors@.take(k as int),
                    ),
                decreases neighbors.len() - k,
            {
                proof {
                    lemma_extended_step(current_path@, neighbors@, k as int);
                }
                let ghost before = paths_of(current_paths@);
                if !visited(current_path, &neighbors[k]) {
                    current_paths.push(lengthened(current_path, neighbors[k]));
                    assert(paths_of(current_paths@) =~= before.push(
                        current_path@.push(neighbors@[k as int]),
                    ));
                }
                k += 1;
                assert(paths_of(current_paths@) =~= base + extended(
                    current_path@,
                    neighbors@.take(k as int),
                ));
            }
            assert(neighbors@.take(neighbors.len() as int) =~= neighbors@);
        }
        i += 1;
    }
    current_paths
}

/// The length of the shortest path of a list that has reached the end;
/// the largest number where none has.
pub fn remove_finished_paths_calc_score(paths: &Vec<Vec<Elem>>) -> (r: usize)
    ensures
        r == shortest_finished(paths_of(paths@), paths.len() as int),
{
    let mut min_score: usize = usize::MAX;
    let mut i: usize = 0;
    while i < paths.len()
        invariant
            i <= paths.len(),
            min_score == shortest_finished(paths_of(paths@), i as int),
        decreases paths.len() - i,
    {
        let path = &paths[i];
        assert(paths_of(paths@)[i as int] == path@);
        if path.len() > 0 && path[path.len() - 1].tile == Tile::End && path.len() < min_score {
            min_score = path.len();
        }
        i += 1;
    }
    min_score
}

/// The index of the first cell of a grid that is a given cell.
pub fn find_cell(grid: &Vec<Elem>, e: &Elem) -> (r: usize)
    ensures
        r == place_of(grid@, *e, 0),
        r <= grid.len(),
{
    let mut i: usize = 0;
    while i < grid.len()
        invariant
            i <= grid.len(),
            place_of(grid@, *e, 0) == place_of(grid@, *e, i as int),
        decreases grid.len() - i,
    {
        if grid[i].row == e.row && grid[i].col == e.col && grid[i].tile == e.tile {
            return i;
        }
        i += 1;
    }
    i
}

/// Offers every path of a list to the cache, at the price of its length
/// and for its last cell, and keeps the paths that the cache accepts:
/// those that come to their last cell sooner than every path before them.
pub fn remove_inefficient_paths(
    grid: &Vec<Elem>,
    cache: &mut StateCache,
    current_paths: &mut Vec<Vec<Elem>>,
)
    requires
        old(cache).best.len() == grid.len(),
        end_on(grid@, paths_of(old(current_paths)@)),
    ensures
        final(cache).best@ == cache_after(
            grid@,
            old(cache).best@,
            paths_of(old(current_paths)@),
            old(current_paths).len() as int,
        ),
        paths_of(final(current_paths)@) == kept_after(
            grid@,
            old(cache).best@,
            paths_of(old(current_paths)@),
            old(current_paths).len() as int,
        ),
{
    let ghost all = paths_of(current_paths@);
    let ghost start = cache.best@;
    let mut next_paths: Vec<Vec<Elem>> = Vec::new();
    let mut i: usize = 0;
    assert(paths_of(next_paths@) =~= kept_after(grid@, start, all, 0));
    while i < current_paths.len()
        invariant
            i <= current_paths.len(),
            all == paths_of(current_paths@),
            end_on(grid@, all),
            cache.best.len() == grid.len(),
            cache.best@ == cache_after(grid@, start, all, i as int),
            paths_of(next_paths@) == kept_after(grid@, start, all, i as int),
        decreases current_paths.len() - i,
    {
        let current_path = &current_paths[i];
        assert(all[i as int] == current_path@);
        let current_loc = current_path[current_path.len() - 1];
        let at = find_cell(grid, &current_loc);
        let new_score = current_path.len() as u64;
        let ghost kept = paths_of(next_paths@);
        if cache.consider_candidate(at, new_score) {
            next_paths.push(copy_path(current_path));
            assert(paths_of(next_paths@) =~= kept.push(current_path@));
        }
        i += 1;
    }
    *current_paths = next_paths;
}

/// A copy of a path.
pub fn copy_path(path: &Vec<Elem>) -> (out: Vec<Elem>)
    ensures
        out@ == path@,
{
    let mut out: Vec<Elem> = Vec::new();
    let mut i: usize = 0;
    while i < path.len()
        invariant
            i <= path.len(),
            out@ == path@.take(i as int),
        decreases path.len() - i,
    {
        out.push(path[i]);
        i += 1;
        assert(out@ =~= path@.take(i as int));
    }
    assert(path@.take(path.len() as int) =~= path@);
    out
}

/// Whether `longer` goes one step further than `path`: to a cell of the
/// grid that is next to the last cell of `path` and not on it.
pub open spec fn one_step_on(grid: Seq<Elem>, path: Seq<Elem>, longer: Seq<Elem>) -> bool {
    &&& longer.len() == path.len() + 1
    &&& longer.drop_last() == path
    &&& grid.contains(longer.last())
    &&& next_to(path.last())(longer.last())
    &&& !path.contains(longer.last())
}

/// What is left of a list by a filter is of the list and passes the filter.
proof fn lemma_filtered(cells: Seq<Elem>, pred: spec_fn(Elem) -> bool, i: int)
    requires
        0 <= i < cells.filter(pred).len(),
    ensures
        cells.contains(cells.filter(pred)[i]),
        pred(cells.filter(pred)[i]),
    decreases cells.len(),
{
    reveal(Seq::filter);
    if cells.len() > 0 {
        let rest = cells.drop_last();
        if i < rest.filter(pred).len() {
            lemma_filtered(rest, pred, i);
            let k = choose|k: int| 0 <= k < rest.len() && rest[k] == rest.filter(pred)[i];
            assert(cells[k] == cells.filter(pred)[i]);
        } else {
            assert(cells[cells.len() - 1] == cells.filter(pred)[i]);
        }
    }
}

/// The paths that go one step further than a path that has not reached
/// the end are the paths with one cell more, that cell being any cell of
/// the grid next to the last that the path has not visited.
pub proof fn lemma_grown_is_every_step(grid: Seq<Elem>, path: Seq<Elem>, longer: Seq<Elem>)
    requires
        path.len() > 0,
        !finished(path),
    ensures
        grown(grid, path).contains(longer) <==> one_step_on(grid, path, longer),
{
    let near = grid.filter(next_to(path.last()));
    let steps = near.filter(fresh_for(path));
    if grown(grid, path).contains(longer) {
        let i = choose|i: int| 0 <= i < grown(grid, path).len() && grown(grid, path)[i] == longer;
        assert(longer == path.push(steps[i]));
        assert(longer.drop_last() =~= path);
        lemma_filtered(near, fresh_for(path), i);
        let k = choose|k: int| 0 <= k < near.len() && near[k] == steps[i];
        lemma_filtered(grid, next_to(path.last()), k);
    }
    if one_step_on(grid, path, longer) {
        let e = longer.last();
        let g = choose|g: int| 0 <= g < grid.len() && grid[g] == e;
        grid.lemma_filter_contains(next_to(path.last()), g);
        let k = choose|k: int| 0 <= k < near.len() && near[k] == e;
        near.lemma_filter_contains(fresh_for(path), k);
        let i = choose|i: int| 0 <= i < steps.len() && steps[i] == e;
        assert(grown(grid, path)[i] =~= longer);
    }
}

} // verus!
