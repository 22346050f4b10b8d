//! The reindeer maze: the cheapest way from start to end when a step costs
//! one and a quarter turn a thousand, and the cells that lie on a cheapest way.
//!
//! A state of the search is a cell together with the axis along which the
//! cell was entered. The reindeer starts on the start cell, heading along its row.
use vstd::prelude::*;
use crate::counting::count_below;
use crate::error::PuzzleError;
use crate::counting::lemma_count_bound;
use crate::explorer::{
    charted, explore, flipped, head, is_trail, joined, lemma_cut, lemma_flip, lemma_join,
    lemma_total_counts_moves, linked_in, runs, tail, total, weight, StateCache, StateSpace, Step,
    Trail,
};
use crate::grid::rectangular;
use crate::maze::{
    addressable, adjacent, all_known, drawn, find_tile, first_with, span, touches, Elem, Tile,
};
use crate::paths::{copy_path, end_on, find_cell, lemma_place_in_grid, paths_of, place_of};
use crate::text::lines;

verus! {

/// The price of a step straight on.
pub const STEP: u64 = 1;

/// The price of a step after a quarter turn.
pub const TURN_AND_STEP: u64 = 1001;

/// The axis of a step between two cells that share an edge: 0 along the
/// row, 1 along the column.
pub open spec fn heading(a: Elem, b: Elem) -> int {
    if a.row == b.row {
        0
    } else {
        1
    }
}

/// Whether the maze has a move from state `a` to state `b` at price `c`.
/// State `2 * i + h` stands for cell `i` of the grid, entered along axis `h`.
pub open spec fn maze_link(grid: Seq<Elem>, a: int, b: int, c: int) -> bool {
    &&& 0 <= a < 2 * grid.len()
    &&& 0 <= b < 2 * grid.len()
    &&& adjacent(grid[a / 2], grid[b / 2])
    &&& b % 2 == heading(grid[a / 2], grid[b / 2])
    &&& c == if a % 2 == b % 2 {
        STEP as int
    } else {
        TURN_AND_STEP as int
    }
}

/// The moves of the maze as a relation.
pub open spec fn maze_links(grid: Seq<Elem>) -> spec_fn(int, int, int) -> bool {
    |a: int, b: int, c: int| maze_link(grid, a, b, c)
}

/// The moves of the maze, each taken backwards.
pub open spec fn maze_links_back(grid: Seq<Elem>) -> spec_fn(int, int, int) -> bool {
    |a: int, b: int, c: int| maze_link(grid, b, a, c)
}

/// Whether `g` is a state on an end cell.
pub open spec fn is_goal(grid: Seq<Elem>, g: int) -> bool {
    0 <= g < 2 * grid.len() && grid[g / 2].tile == Tile::End
}

/// The state in which the reindeer starts: on the first start cell of the
/// grid, heading along the row.
pub open spec fn start_states(grid: Seq<Elem>) -> Seq<usize> {
    seq![(2 * first_with(grid, Tile::Start, 0)) as usize]
}

/// Whether `t` is a walk through the maze from the start to an end cell.
pub open spec fn finishes(grid: Seq<Elem>, t: Trail) -> bool {
    &&& t.states.len() > 0
    &&& is_goal(grid, t.states.last())
    &&& runs(maze_links(grid), start_states(grid), t, t.states.last())
}

/// Whether `cost` is what the cheapest walk from the start to an end cell costs.
pub open spec fn cheapest_finish(grid: Seq<Elem>, cost: int) -> bool {
    &&& exists|t: Trail| #[trigger] finishes(grid, t) && total(t.fees) == cost
    &&& forall|t: Trail| #[trigger] finishes(grid, t) ==> cost <= total(t.fees)
}

/// Whether no walk leads from the start to an end cell.
pub open spec fn no_finish(grid: Seq<Elem>) -> bool {
    forall|t: Trail| !#[trigger] finishes(grid, t)
}

/// Every state of a walk from the start to an end cell is a state of the maze.
pub proof fn lemma_walk_in_maze(grid: Seq<Elem>, t: Trail, i: int)
    requires
        finishes(grid, t),
        0 <= i < t.states.len(),
    ensures
        0 <= t.states[i] < 2 * grid.len(),
{
    if i < t.fees.len() {
        assert(maze_links(grid)(t.states[i], t.states[i + 1], t.fees[i]));
    }
}

/// Whether the walk `t` comes through the cell with index `cell`.
pub open spec fn visits(t: Trail, cell: int) -> bool {
    exists|m: int| 0 <= m < t.states.len() && #[trigger] t.states[m] / 2 == cell
}

/// Whether a cell lies on some walk from the start to an end cell that
/// costs `cost`.
pub open spec fn on_best(grid: Seq<Elem>, cost: int) -> spec_fn(int) -> bool {
    |cell: int|
        exists|t: Trail| #[trigger] finishes(grid, t) && total(t.fees) == cost && visits(t, cell)
}

/// Whether `list` holds a move to `b` at price `c`.
pub open spec fn holds(list: Seq<Step>, b: int, c: int) -> bool {
    exists|k: int| 0 <= k < list.len() && (#[trigger] list[k]).to == b && list[k].cost == c
}

/// Lays out the states and moves of a maze.
fn build_space(grid: &Vec<Elem>) -> (space: StateSpace)
    requires
        2 * grid.len() <= usize::MAX,
    ensures
        space.wf(),
        space.positive(),
        space.moves.len() == 2 * grid.len(),
        space.links() == maze_links(grid@),
        space.backward_links() == maze_links_back(grid@),
{
    let n = grid.len();
    let mut moves: Vec<Vec<Step>> = Vec::new();
    let mut i: usize = 0;
    while i < n
        invariant
            i <= n,
            n == grid.len(),
            2 * n <= usize::MAX,
            moves.len() == 2 * i,
            forall|v: int, k: int|
                0 <= v < moves.len() && 0 <= k < moves[v].len() ==> (#[trigger] moves[v][k]).to < 2
                    * n && moves[v][k].cost >= 1,
            forall|a: int, b: int, c: int|
                #![trigger linked_in(moves@, a, b, c)]
                linked_in(moves@, a, b, c) <==> (maze_link(grid@, a, b, c) && a < 2 * i),
        decreases n - i,
    {
        let mut along: Vec<Step> = Vec::new();
        let mut across: Vec<Step> = Vec::new();
        let mut j: usize = 0;
        while j < n
            invariant
                j <= n,
                i < n,
                n == grid.len(),
                2 * n <= usize::MAX,
                forall|k: int|
                    0 <= k < along.len() ==> (#[trigger] along[k]).to < 2 * n && along[k].cost >= 1,
                forall|k: int|
                    0 <= k < across.len() ==> (#[trigger] across[k]).to < 2 * n && across[k].cost
                        >= 1,
                forall|b: int, c: int|
                    #![trigger holds(along@, b, c)]
                    holds(along@, b, c) <==> (maze_link(grid@, 2 * i, b, c) && b / 2 < j),
                forall|b: int, c: int|
                    #![trigger holds(across@, b, c)]
                    holds(across@, b, c) <==> (maze_link(grid@, 2 * i + 1, b, c) && b / 2 < j),
            decreases n - j,
        {
            let ghost along0 = along@;
            let ghost across0 = across@;
            if touches(&grid[i], &grid[j]) {
                if grid[i].row == grid[j].row {
                    along.push(Step { to: 2 * j, cost: STEP });
                    across.push(Step { to: 2 * j, cost: TURN_AND_STEP });
                } else {
                    along.push(Step { to: 2 * j + 1, cost: TURN_AND_STEP });
                    across.push(Step { to: 2 * j + 1, cost: STEP });
                }
            }
            proof {
                assert(along@ == along0 || (along@.len() == along0.len() + 1
                    && along@.drop_last() =~= along0));
                assert(across@ == across0 || (across@.len() == across0.len() + 1
                    && across@.drop_last() =~= across0));
                assert forall|b: int, c: int| #![trigger holds(along@, b, c)] holds(along@, b, c) <==> (
                maze_link(grid@, 2 * i, b, c) && b / 2 < j + 1) by {
                    lemma_grown(along0, along@, b, c);
                    if along@.len() > along0.len() {
                        assert(along@.last() == along@[along0.len() as int]);
                    }
                }
                assert forall|b: int, c: int| #![trigger holds(across@, b, c)] holds(across@, b, c) <==> (
                maze_link(grid@, 2 * i + 1, b, c) && b / 2 < j + 1) by {
                    lemma_grown(across0, across@, b, c);
                    if across@.len() > across0.len() {
                        assert(across@.last() == across@[across0.len() as int]);
                    }
                }
            }
            j += 1;
        }
        let ghost before = moves@;
        let ghost along_view = along@;
        let ghost across_view = across@;
        moves.push(along);
        moves.push(across);
        proof {
            assert(moves@[2 * i]@ == along_view);
            assert(moves@[2 * i + 1]@ == across_view);
            assert forall|a: int, b: int, c: int|
                #![trigger linked_in(moves@, a, b, c)]
                linked_in(moves@, a, b, c) <==> (maze_link(grid@, a, b, c) && a < 2 * (i + 1)) by {
                if 0 <= a < 2 * i {
                    assert(moves@[a] == before[a]);
                    assert(linked_in(moves@, a, b, c) == linked_in(before, a, b, c));
                } else if a == 2 * i {
                    assert(linked_in(moves@, a, b, c) == holds(along_view, b, c));
                } else if a == 2 * i + 1 {
                    assert(linked_in(moves@, a, b, c) == holds(across_view, b, c));
                }
            }
            assert forall|v: int, k: int|
                0 <= v < moves.len() && 0 <= k < moves[v].len() implies (#[trigger] moves[v][k]).to
                < 2 * n && moves[v][k].cost >= 1 by {
                if v < 2 * i {
                    assert(moves@[v] == before[v]);
                }
            }
        }
        i += 1;
    }
    let space = StateSpace { moves };
    proof {
        assert forall|a: int, b: int, c: int| space.linked(a, b, c) == maze_link(grid@, a, b, c) by {
            assert(space.linked(a, b, c) == linked_in(space.moves@, a, b, c));
        }
        assert(space.links() =~= maze_links(grid@));
        assert(space.backward_links() =~= maze_links_back(grid@));
    }
    space
}

/// What a list of moves holds after one more move may have been appended.
proof fn lemma_grown(before: Seq<Step>, after: Seq<Step>, b: int, c: int)
    requires
        after == before || (after.len() == before.len() + 1 && after.drop_last() == before),
    ensures
        holds(after, b, c) <==> (holds(before, b, c) || (after.len() > before.len()
            && after.last().to == b && after.last().cost == c)),
{
    if after.len() > before.len() {
        if holds(before, b, c) {
            let k = choose|k: int|
                0 <= k < before.len() && (#[trigger] before[k]).to == b && before[k].cost == c;
            assert(after[k] == after.drop_last()[k]);
        }
        if holds(after, b, c) {
            let k = choose|k: int|
                0 <= k < after.len() && (#[trigger] after[k]).to == b && after[k].cost == c;
            if k < before.len() {
                assert(before[k] == after.drop_last()[k]);
            }
        }
    }
}

/// Whether the cheapest way from the start to state `s` and the cheapest
/// way on from `s` to an end cell cost `cost` together.
pub open spec fn balanced(forth: Seq<Option<u64>>, home: Seq<Option<u64>>, s: int, cost: int) -> bool {
    &&& 0 <= s < forth.len()
    &&& s < home.len()
    &&& forth[s] is Some
    &&& home[s] is Some
    &&& forth[s]->0 + home[s]->0 == cost
}

/// Whether `goals` lists the states on end cells, and only those.
pub open spec fn lists_goals(grid: Seq<Elem>, goals: Seq<usize>) -> bool {
    &&& forall|i: int| 0 <= i < goals.len() ==> is_goal(grid, #[trigger] goals[i] as int)
    &&& forall|g: int| #[trigger] is_goal(grid, g) ==> goals.contains(g as usize)
}

/// A state that is reached from the start and from which an end cell is
/// reached lies on a walk from the start to an end cell that costs the sum
/// of the two cheapest costs.
proof fn lemma_through(
    grid: Seq<Elem>,
    goals: Seq<usize>,
    forth: Seq<Option<u64>>,
    home: Seq<Option<u64>>,
    s: int,
) -> (t: Trail)
    requires
        charted(maze_links(grid), start_states(grid), forth),
        charted(maze_links_back(grid), goals, home),
        lists_goals(grid, goals),
        0 <= s < forth.len(),
        s < home.len(),
        forth[s] is Some,
        home[s] is Some,
    ensures
        finishes(grid, t),
        total(t.fees) == forth[s]->0 + home[s]->0,
        visits(t, s / 2),
{
    let links = maze_links(grid);
    let back = maze_links_back(grid);
    let t1 = choose|t: Trail| #[trigger]
        runs(links, start_states(grid), t, s) && total(t.fees) == forth[s]->0;
    let t2 = choose|t: Trail| #[trigger] runs(back, goals, t, s) && total(t.fees) == home[s]->0;
    lemma_flip(back, links, t2);
    let f = flipped(t2);
    lemma_join(links, t1, f);
    let j = joined(t1, f);
    let i = choose|i: int| 0 <= i < goals.len() && #[trigger] goals[i] == t2.states[0];
    assert(is_goal(grid, goals[i] as int));
    assert(j.states[t1.states.len() - 1] == s);
    j
}

/// A cell lies on a cheapest walk exactly when one of its two states is balanced.
proof fn lemma_on_best(
    grid: Seq<Elem>,
    goals: Seq<usize>,
    forth: Seq<Option<u64>>,
    home: Seq<Option<u64>>,
    cost: int,
    cell: int,
)
    requires
        2 * grid.len() <= usize::MAX,
        forth.len() == 2 * grid.len(),
        home.len() == 2 * grid.len(),
        charted(maze_links(grid), start_states(grid), forth),
        charted(maze_links_back(grid), goals, home),
        lists_goals(grid, goals),
        cheapest_finish(grid, cost),
        0 <= cost <= u64::MAX,
        0 <= cell < grid.len(),
    ensures
        on_best(grid, cost)(cell) <==> (balanced(forth, home, 2 * cell, cost) || balanced(
            forth,
            home,
            2 * cell + 1,
            cost,
        )),
{
    let links = maze_links(grid);
    let back = maze_links_back(grid);
    if balanced(forth, home, 2 * cell, cost) {
        let t = lemma_through(grid, goals, forth, home, 2 * cell);
        assert(finishes(grid, t) && total(t.fees) == cost && visits(t, cell));
    }
    if balanced(forth, home, 2 * cell + 1, cost) {
        let t = lemma_through(grid, goals, forth, home, 2 * cell + 1);
        assert(finishes(grid, t) && total(t.fees) == cost && visits(t, cell));
    }
    if on_best(grid, cost)(cell) {
        let t = choose|t: Trail| #[trigger]
            finishes(grid, t) && total(t.fees) == cost && visits(t, cell);
        let m = choose|m: int| 0 <= m < t.states.len() && #[trigger] t.states[m] / 2 == cell;
        let s = t.states[m];
        lemma_cut(links, t, m);
        let h = head(t, m);
        let l = tail(t, m);
        assert forall|a: int, b: int, c: int| #[trigger] links(a, b, c) implies c >= 1 by {}
        lemma_total_counts_moves(links, h);
        lemma_total_counts_moves(links, l);
        assert(runs(links, start_states(grid), h, s));
        lemma_flip(links, back, l);
        let f = flipped(l);
        let g = t.states.last();
        assert(goals.contains(g as usize));
        let i = choose|i: int| 0 <= i < goals.len() && goals[i] == g as usize;
        assert(goals[i] == f.states[0]);
        assert(runs(back, goals, f, s));
        let through = lemma_through(grid, goals, forth, home, s);
        assert(balanced(forth, home, s, cost));
    }
}

/// Lists the states on end cells and finds the cheapest cost that the
/// cache holds for any of them.
fn collect_goals(grid: &Vec<Elem>, forth: &StateCache) -> (r: (Vec<usize>, Option<u64>))
    requires
        2 * grid.len() <= usize::MAX,
        forth.best.len() == 2 * grid.len(),
    ensures
        lists_goals(grid@, r.0@),
        match r.1 {
            Some(c) => {
                &&& exists|g: int| #[trigger] is_goal(grid@, g) && forth.best[g] == Some(c)
                &&& forall|g: int| #[trigger] is_goal(grid@, g) ==> weight(forth.best[g]) >= c
            },
            None => forall|g: int| #[trigger] is_goal(grid@, g) ==> forth.best[g] is None,
        },
{
    let n = grid.len();
    let mut goals: Vec<usize> = Vec::new();
    let mut best: Option<u64> = None;
    let mut i: usize = 0;
    while i < n
        invariant
            i <= n,
            n == grid.len(),
            2 * n <= usize::MAX,
            forth.best.len() == 2 * n,
            forall|k: int| 0 <= k < goals.len() ==> is_goal(grid@, #[trigger] goals[k] as int),
            forall|g: int| #[trigger] is_goal(grid@, g) && g / 2 < i ==> goals@.contains(g as usize),
            match best {
                Some(c) => {
                    &&& exists|g: int| #[trigger] is_goal(grid@, g) && forth.best[g] == Some(c)
                    &&& forall|g: int|
                        #[trigger] is_goal(grid@, g) && g / 2 < i ==> weight(forth.best[g]) >= c
                },
                None => forall|g: int|
                    #[trigger] is_goal(grid@, g) && g / 2 < i ==> forth.best[g] is None,
            },
        decreases n - i,
    {
        if grid[i].tile == Tile::End {
            let ghost before = goals@;
            goals.push(2 * i);
            goals.push(2 * i + 1);
            proof {
                assert(is_goal(grid@, 2 * i));
                assert(is_goal(grid@, 2 * i + 1));
                assert(goals@[before.len() as int] == 2 * i);
                assert(goals@[before.len() as int + 1] == 2 * i + 1);
                assert forall|g: int| #[trigger] is_goal(grid@, g) && g / 2 < i + 1 implies goals@.contains(
                    g as usize,
                ) by {
                    if g / 2 < i {
                        assert(before.contains(g as usize));
                        let k = choose|k: int| 0 <= k < before.len() && before[k] == g as usize;
                        assert(goals@[k] == before[k]);
                    }
                }
            }
            let first = forth.lookup(2 * i);
            let second = forth.lookup(2 * i + 1);
            best = lower(best, first);
            best = lower(best, second);
        }
        i += 1;
    }
    (goals, best)
}

/// The lower of two costs, where `None` stands for no cost at all.
fn lower(a: Option<u64>, b: Option<u64>) -> (r: Option<u64>)
    ensures
        r == a || r == b,
        weight(r) <= weight(a),
        weight(r) <= weight(b),
{
    match (a, b) {
        (Some(x), Some(y)) => if y < x {
            b
        } else {
            a
        },
        (None, _) => b,
        (_, None) => a,
    }
}

/// Whether state `s` is balanced.
fn is_balanced(forth: &StateCache, home: &StateCache, s: usize, cost: u64) -> (r: bool)
    ensures
        r == balanced(forth.best@, home.best@, s as int, cost as int),
{
    match (forth.lookup(s), home.lookup(s)) {
        (Some(x), Some(y)) => x <= cost && y == cost - x,
        _ => false,
    }
}

/// Finds the cost of the cheapest walk from the start cell to an end cell,
/// and counts the cells that lie on a walk of that cost.
///
/// Fails with `MissingSeed` when the grid has no start cell, and with
/// `NoSolution` when no end cell is reached.
pub fn solve_1(grid: &Vec<Elem>) -> (r: Result<(u64, usize), PuzzleError>)
    requires
        2 * TURN_AND_STEP * grid.len() <= usize::MAX,
    ensures
        match r {
            Ok((cost, tiles)) => {
                &&& first_with(grid@, Tile::Start, 0) < grid.len()
                &&& cheapest_finish(grid@, cost as int)
                &&& tiles == count_below(grid.len() as int, on_best(grid@, cost as int))
            },
            Err(e) => if first_with(grid@, Tile::Start, 0) >= grid.len() {
                e == PuzzleError::MissingSeed
            } else {
                e == PuzzleError::NoSolution && no_finish(grid@)
            },
        },
{
    let start = match find_tile(grid, Tile::Start) {
        Some(i) => i,
        None => {
            return Err(PuzzleError::MissingSeed);
        },
    };
    assert(2 * grid.len() <= 2 * TURN_AND_STEP * grid.len()) by (nonlinear_arith);
    let space = build_space(grid);
    let mut seeds: Vec<usize> = Vec::new();
    seeds.push(2 * start);
    assert(seeds@ =~= start_states(grid@));
    let forth = explore(&space, &seeds);
    assert(charted(maze_links(grid@), start_states(grid@), forth.best@));
    let (goals, best) = collect_goals(grid, &forth);
    let cost = match best {
        Some(c) => c,
        None => {
            proof {
                let links = maze_links(grid@);
                assert forall|t: Trail| !#[trigger] finishes(grid@, t) by {
                    if finishes(grid@, t) {
                        assert forall|i: int| 0 <= i < t.states.len() implies 0
                            <= #[trigger] t.states[i] < 2 * grid.len() by {
                            lemma_walk_in_maze(grid@, t, i);
                        }
                        let s = crate::explorer::lemma_shorten(links, t, 2 * grid.len());
                        assert forall|a: int, b: int, c: int| #[trigger] links(a, b, c) implies c
                            <= TURN_AND_STEP by {}
                        crate::explorer::lemma_total_at_most(links, s, TURN_AND_STEP as int);
                        assert(TURN_AND_STEP * s.fees.len() <= 2 * TURN_AND_STEP * grid.len())
                            by (nonlinear_arith)
                            requires
                                s.fees.len() <= 2 * grid.len(),
                        ;
                        assert(runs(links, start_states(grid@), s, s.states.last()));
                        assert(is_goal(grid@, s.states.last()));
                        assert(forth.best[s.states.last()] is None);
                    }
                }
            }
            return Err(PuzzleError::NoSolution);
        },
    };
    proof {
        let g = choose|g: int| #[trigger] is_goal(grid@, g) && forth.best[g] == Some(cost);
        let t = choose|t: Trail| #[trigger]
            runs(maze_links(grid@), start_states(grid@), t, g) && total(t.fees) == cost;
        assert(finishes(grid@, t));
        assert forall|t: Trail| #[trigger] finishes(grid@, t) implies cost <= total(t.fees) by {
            let end = t.states.last();
            assert(weight(forth.best[end]) >= cost);
        }
    }
    let back = space.reversed();
    proof {
        assert forall|a: int, b: int, c: int| back.linked(a, b, c) == maze_link(grid@, b, a, c) by {
            assert(back.linked(a, b, c) == space.linked(b, a, c));
            assert(space.links()(b, a, c) == maze_links(grid@)(b, a, c));
        }
        assert(back.links() =~= maze_links_back(grid@));
    }
    let home = explore(&back, &goals);
    assert(charted(maze_links_back(grid@), goals@, home.best@));
    let mut tiles: usize = 0;
    let mut i: usize = 0;
    while i < grid.len()
        invariant
            i <= grid.len(),
            2 * grid.len() <= usize::MAX,
            forth.best.len() == 2 * grid.len(),
            home.best.len() == 2 * grid.len(),
            charted(maze_links(grid@), start_states(grid@), forth.best@),
            charted(maze_links_back(grid@), goals@, home.best@),
            lists_goals(grid@, goals@),
            cheapest_finish(grid@, cost as int),
            tiles == count_below(i as int, on_best(grid@, cost as int)),
        decreases grid.len() - i,
    {
        proof {
            lemma_on_best(grid@, goals@, forth.best@, home.best@, cost as int, i as int);
            lemma_count_bound(i as int, on_best(grid@, cost as int));
        }
        if is_balanced(&forth, &home, 2 * i, cost) || is_balanced(&forth, &home, 2 * i + 1, cost) {
            tiles += 1;
        }
        i += 1;
    }
    Ok((cost, tiles))
}

/// How far a walk has come and along which axis it is heading after the
/// first `n` cells of `path`: the price of its steps so far, a step being
/// `STEP` when it keeps the axis and `TURN_AND_STEP` when it changes it,
/// and the axis of the last step. The walk starts out along the row.
/// Two cells in a row that do not share an edge cost nothing.
pub open spec fn scored(path: Seq<Elem>, n: int) -> (int, int)
    decreases n,
{
    if n <= 1 {
        (0, 0)
    } else {
        let (score, axis) = scored(path, n - 1);
        let prev = path[n - 2];
        let next = path[n - 1];
        if span(next.col, prev.col) == 1 {
            (
                score + if axis == 0 {
                    STEP as int
                } else {
                    TURN_AND_STEP as int
                },
                0,
            )
        } else if span(next.row, prev.row) == 1 {
            (
                score + if axis == 1 {
                    STEP as int
                } else {
                    TURN_AND_STEP as int
                },
                1,
            )
        } else {
            (score, axis)
        }
    }
}

/// The score of a walk never exceeds the price of a turn for each of its cells.
pub proof fn lemma_scored_bound(path: Seq<Elem>, n: int)
    ensures
        0 <= scored(path, n).0 <= TURN_AND_STEP * if n < 0 {
            0
        } else {
            n
        },
        0 <= scored(path, n).1 <= 1,
    decreases n,
{
    if n > 1 {
        lemma_scored_bound(path, n - 1);
    }
}

/// The price of walking along `path`, and the axis of its last step.
pub fn calc_score(path: &Vec<Elem>) -> (r: (usize, usize))
    requires
        TURN_AND_STEP * path.len() <= usize::MAX,
    ensures
        r.0 == scored(path@, path.len() as int).0,
        r.1 == scored(path@, path.len() as int).1,
{
    let mut score: usize = 0;
    let mut axis: usize = 0;
    if path.len() == 0 {
        return (score, axis);
    }
    let mut n: usize = 1;
    while n < path.len()
        invariant
            1 <= n <= path.len(),
            TURN_AND_STEP * path.len() <= usize::MAX,
            score == scored(path@, n as int).0,
            axis == scored(path@, n as int).1,
        decreases path.len() - n,
    {
        proof {
            lemma_scored_bound(path@, n as int);
            lemma_scored_bound(path@, n + 1);
        }
        let prev = path[n - 1];
        let next = path[n];
        if differ_by_one(next.col, prev.col) {
            if axis == 0 {
                score += 1;
            } else {
                score += 1001;
            }
            axis = 0;
        } else if differ_by_one(next.row, prev.row) {
            if axis == 1 {
                score += 1;
            } else {
                score += 1001;
            }
            axis = 1;
        }
        n += 1;
    }
    (score, axis)
}

/// The state in which a path ends: twice the index of its last cell in
/// the grid, and one more when its last step went along the column.
pub open spec fn end_state(grid: Seq<Elem>, path: Seq<Elem>) -> int {
    2 * place_of(grid, path.last(), 0) + scored(path, path.len() as int).1
}

/// Whether a path comes to its last state at no higher price than the
/// cache has seen.
pub open spec fn no_dearer(grid: Seq<Elem>, best: Seq<Option<u64>>, path: Seq<Elem>) -> bool {
    scored(path, path.len() as int).0 <= weight(best[end_state(grid, path)])
}

/// What the cache holds after the first `n` paths of a list have been
/// offered to it, one after the other, ties accepted.
pub open spec fn cache_with_ties(
    grid: Seq<Elem>,
    best: Seq<Option<u64>>,
    paths: Seq<Seq<Elem>>,
    n: int,
) -> Seq<Option<u64>>
    decreases n,
{
    if n <= 0 {
        best
    } else if no_dearer(grid, cache_with_ties(grid, best, paths, n - 1), paths[n - 1]) {
        cache_with_ties(grid, best, paths, n - 1).update(
            end_state(grid, paths[n - 1]),
            Some(scored(paths[n - 1], paths[n - 1].len() as int).0 as u64),
        )
    } else {
        cache_with_ties(grid, best, paths, n - 1)
    }
}

/// The paths among the first `n` of a list that the cache has accepted,
/// ties accepted, in the order of the list.
pub open spec fn kept_with_ties(
    grid: Seq<Elem>,
    best: Seq<Option<u64>>,
    paths: Seq<Seq<Elem>>,
    n: int,
) -> Seq<Seq<Elem>>
    decreases n,
{
    if n <= 0 {
        seq![]
    } else if no_dearer(grid, cache_with_ties(grid, best, paths, n - 1), paths[n - 1]) {
        kept_with_ties(grid, best, paths, n - 1).push(paths[n - 1])
    } else {
        kept_with_ties(grid, best, paths, n - 1)
    }
}

/// Whether the score of every path of a list can be counted in a machine
/// word.
pub open spec fn scorable(paths: Seq<Seq<Elem>>) -> bool {
    forall|i: int| 0 <= i < paths.len() ==> TURN_AND_STEP * (#[trigger] paths[i]).len() <= usize::MAX
}

/// Offers every path of a list to the cache, at the price of its score and
/// for the state in which it ends, its last cell and the axis of its last
/// step, and gives back the paths that the cache accepts, in their order.
/// A path is accepted when its state was not seen before or at no lower
/// price: of paths that come to a state at the same price all are kept.
pub fn remove_inefficient_paths(
    grid: &Vec<Elem>,
    cache: &mut StateCache,
    paths: &Vec<Vec<Elem>>,
) -> (kept: Vec<Vec<Elem>>)
    requires
        old(cache).best.len() == 2 * grid.len(),
        end_on(grid@, paths_of(paths@)),
        scorable(paths_of(paths@)),
    ensures
        final(cache).best@ == cache_with_ties(
            grid@,
            old(cache).best@,
            paths_of(paths@),
            paths.len() as int,
        ),
        paths_of(kept@) == kept_with_ties(
            grid@,
            old(cache).best@,
            paths_of(paths@),
            paths.len() as int,
        ),
{
    let ghost all = paths_of(paths@);
    let ghost start = cache.best@;
    let mut next_paths: Vec<Vec<Elem>> = Vec::new();
    let mut i: usize = 0;
    assert(paths_of(next_paths@) =~= kept_with_ties(grid@, start, all, 0));
    while i < paths.len()
        invariant
            i <= paths.len(),
            all == paths_of(paths@),
            end_on(grid@, all),
            scorable(all),
            cache.best.len() == 2 * grid.len(),
            cache.best@ == cache_with_ties(grid@, start, all, i as int),
            paths_of(next_paths@) == kept_with_ties(grid@, start, all, i as int),
        decreases paths.len() - i,
    {
        let path = &paths[i];
        assert(all[i as int] == path@);
        let current_pos = path[path.len() - 1];
        let at = find_cell(grid, &current_pos);
        let (new_score, last_orientation) = calc_score(path);
        proof {
            lemma_scored_bound(path@, path.len() as int);
        }
        let ghost before = paths_of(next_paths@);
        if cache.consider_candidate_or_tie(2 * at + last_orientation, new_score as u64) {
            next_paths.push(copy_path(path));
            assert(paths_of(next_paths@) =~= before.push(path@));
        }
        i += 1;
    }
    next_paths
}

/// Offering paths to the cache never raises a price: after any number of
/// offers the cache has as many states as before, and holds for every
/// state at most what it held.
pub proof fn lemma_offers_only_lower(
    grid: Seq<Elem>,
    best: Seq<Option<u64>>,
    paths: Seq<Seq<Elem>>,
    n: int,
)
    requires
        0 <= n <= paths.len(),
        best.len() == 2 * grid.len(),
        end_on(grid, paths),
    ensures
        cache_with_ties(grid, best, paths, n).len() == best.len(),
        forall|s: int|
            0 <= s < best.len() ==> weight(#[trigger] cache_with_ties(grid, best, paths, n)[s])
                <= weight(best[s]),
    decreases n,
{
    if n > 0 {
        lemma_offers_only_lower(grid, best, paths, n - 1);
        let before = cache_with_ties(grid, best, paths, n - 1);
        let after = cache_with_ties(grid, best, paths, n);
        lemma_scored_bound(paths[n - 1], paths[n - 1].len() as int);
        assert(0 <= place_of(grid, paths[n - 1].last(), 0) < grid.len()) by {
            lemma_place_in_grid(grid, paths[n - 1].last(), 0);
        }
        assert forall|s: int| 0 <= s < best.len() implies weight(#[trigger] after[s]) <= weight(
            best[s],
        ) by {
            assert(weight(before[s]) <= weight(best[s]));
        }
    }
}

/// Whether two numbers differ by exactly one.
fn differ_by_one(a: i64, b: i64) -> (r: bool)
    ensures
        r == (span(a, b) == 1),
{
    (a < i64::MAX && a + 1 == b) || (b < i64::MAX && b + 1 == a)
}

/// Both answers for a maze given as a drawing: the cost of the cheapest
/// walk from `S` to `E`, and the number of cells on walks of that cost.
///
/// Fails with `MalformedInput` when the lines of the text do not make a
/// rectangle, with `InvalidCell` when they hold a character that no maze
/// is drawn with, with `MissingSeed` when there is no start, and with
/// `NoSolution` when no walk leads from the start to an end.
pub fn solve(input: &str) -> (r: Result<(u64, usize), PuzzleError>)
    requires
        addressable(input@),
        2 * TURN_AND_STEP * drawn(input@).len() <= usize::MAX,
    ensures
        match r {
            Ok((cost, tiles)) => {
                &&& rectangular(lines(input@))
                &&& all_known(input@)
                &&& first_with(drawn(input@), Tile::Start, 0) < drawn(input@).len()
                &&& cheapest_finish(drawn(input@), cost as int)
                &&& tiles == count_below(
                    drawn(input@).len() as int,
                    on_best(drawn(input@), cost as int),
                )
            },
            Err(e) => if !rectangular(lines(input@)) {
                e == PuzzleError::MalformedInput
            } else if !all_known(input@) {
                e == PuzzleError::InvalidCell
            } else if first_with(drawn(input@), Tile::Start, 0) >= drawn(input@).len() {
                e == PuzzleError::MissingSeed
            } else {
                e == PuzzleError::NoSolution && no_finish(drawn(input@))
            },
        },
{
    let grid = match crate::maze::parse(input) {
        Ok(g) => g,
        Err(e) => {
            return Err(e);
        },
    };
    solve_1(&grid)
}

/// What `solve_1` promises of its result on `grid`.
pub open spec fn answers(grid: Seq<Elem>, r: Result<(u64, usize), PuzzleError>) -> bool {
    match r {
        Ok((cost, tiles)) => {
            &&& first_with(grid, Tile::Start, 0) < grid.len()
            &&& cheapest_finish(grid, cost as int)
            &&& tiles == count_below(grid.len() as int, on_best(grid, cost as int))
        },
        Err(e) => if first_with(grid, Tile::Start, 0) >= grid.len() {
            e == PuzzleError::MissingSeed
        } else {
            e == PuzzleError::NoSolution && no_finish(grid)
        },
    }
}

/// The search is repeatable: two runs on the same grid give the same
/// cheapest cost and mark the same cells as lying on a cheapest walk, or
/// fail in the same way.
pub proof fn lemma_search_is_repeatable(
    grid: Seq<Elem>,
    first: Result<(u64, usize), PuzzleError>,
    second: Result<(u64, usize), PuzzleError>,
)
    requires
        answers(grid, first),
        answers(grid, second),
    ensures
        first == second,
        first is Ok ==> on_best(grid, first->Ok_0.0 as int) == on_best(
            grid,
            second->Ok_0.0 as int,
        ),
{
    if first is Ok && second is Ok {
        let a = first->Ok_0.0 as int;
        let b = second->Ok_0.0 as int;
        let ta = choose|t: Trail| #[trigger] finishes(grid, t) && total(t.fees) == a;
        let tb = choose|t: Trail| #[trigger] finishes(grid, t) && total(t.fees) == b;
        assert(a <= total(tb.fees) && b <= total(ta.fees));
    } else if first is Ok {
        let a = first->Ok_0.0 as int;
        let ta = choose|t: Trail| #[trigger] finishes(grid, t) && total(t.fees) == a;
        assert(finishes(grid, ta));
    } else if second is Ok {
        let b = second->Ok_0.0 as int;
        let tb = choose|t: Trail| #[trigger] finishes(grid, t) && total(t.fees) == b;
        assert(finishes(grid, tb));
    }
}

/// Whether `walk` lists indices of cells of `grid`, starting at the start
/// cell, each cell sharing an edge with the one before it.
pub open spec fn is_route(grid: Seq<Elem>, walk: Seq<int>) -> bool {
    &&& walk.len() >= 1
    &&& walk[0] == first_with(grid, Tile::Start, 0)
    &&& forall|i: int| 0 <= i < walk.len() ==> 0 <= #[trigger] walk[i] < grid.len()
    &&& forall|i: int|
        0 <= i < walk.len() - 1 ==> adjacent(grid[#[trigger] walk[i]], grid[walk[i + 1]])
}

/// The cells that a route comes through, in order.
pub open spec fn cells_of(grid: Seq<Elem>, walk: Seq<int>) -> Seq<Elem> {
    Seq::new(walk.len(), |i: int| grid[walk[i]])
}

/// The walk through the state space that the first `n` cells of a route make.
pub open spec fn trail_of(grid: Seq<Elem>, walk: Seq<int>, n: int) -> Trail
    decreases n,
{
    if n <= 1 {
        Trail { states: seq![2 * walk[0]], fees: Seq::empty() }
    } else {
        let t = trail_of(grid, walk, n - 1);
        let axis = heading(grid[walk[n - 2]], grid[walk[n - 1]]);
        let fee = if scored(cells_of(grid, walk), n - 1).1 == axis {
            STEP as int
        } else {
            TURN_AND_STEP as int
        };
        Trail { states: t.states.push(2 * walk[n - 1] + axis), fees: t.fees.push(fee) }
    }
}

/// The score of a route is the cost of the walk that it makes through the
/// state space.
pub proof fn lemma_route_is_trail(grid: Seq<Elem>, walk: Seq<int>, n: int)
    requires
        is_route(grid, walk),
        1 <= n <= walk.len(),
    ensures
        is_trail(maze_links(grid), trail_of(grid, walk, n)),
        trail_of(grid, walk, n).states.len() == n,
        trail_of(grid, walk, n).states[0] == 2 * walk[0],
        trail_of(grid, walk, n).states.last() == 2 * walk[n - 1] + scored(
            cells_of(grid, walk),
            n,
        ).1,
        total(trail_of(grid, walk, n).fees) == scored(cells_of(grid, walk), n).0,
        0 <= scored(cells_of(grid, walk), n).1 <= 1,
    decreases n,
{
    if n > 1 {
        lemma_route_is_trail(grid, walk, n - 1);
        let t = trail_of(grid, walk, n - 1);
        let longer = trail_of(grid, walk, n);
        let prev = grid[walk[n - 2]];
        let next = grid[walk[n - 1]];
        assert(adjacent(grid[walk[n - 2]], grid[walk[n - 2 + 1]]));
        assert(cells_of(grid, walk)[n - 2] == prev);
        assert(cells_of(grid, walk)[n - 1] == next);
        let axis = heading(prev, next);
        assert(longer.fees.drop_last() =~= t.fees);
        assert(maze_link(grid, t.states.last(), 2 * walk[n - 1] + axis, longer.fees.last()));
        assert forall|i: int| 0 <= i < longer.fees.len() implies maze_links(grid)(
            longer.states[i],
            longer.states[i + 1],
            #[trigger] longer.fees[i],
        ) by {
            if i < t.fees.len() {
                assert(maze_links(grid)(t.states[i], t.states[i + 1], t.fees[i]));
            }
        }
    }
}

/// No route from the start to an end cell scores less than the cheapest
/// cost that the search finds.
pub proof fn lemma_no_route_is_cheaper(grid: Seq<Elem>, walk: Seq<int>, cost: int)
    requires
        2 * grid.len() <= usize::MAX,
        cheapest_finish(grid, cost),
        is_route(grid, walk),
        grid[walk.last()].tile == Tile::End,
    ensures
        cost <= scored(cells_of(grid, walk), walk.len() as int).0,
{
    lemma_route_is_trail(grid, walk, walk.len() as int);
    let t = trail_of(grid, walk, walk.len() as int);
    assert(start_states(grid)[0] == t.states[0]);
    assert(finishes(grid, t));
}

/// The cells that a walk through the state space comes through, in order,
/// as indices into the grid.
pub open spec fn route_of(t: Trail) -> Seq<int> {
    Seq::new(t.states.len(), |i: int| t.states[i] / 2)
}

/// The first `n` cells of a walk from the start score what the walk has
/// cost so far, and the axis of the score is the axis of the state.
proof fn lemma_trail_scores(grid: Seq<Elem>, t: Trail, n: int)
    requires
        is_trail(maze_links(grid), t),
        t.states[0] == 2 * first_with(grid, Tile::Start, 0),
        first_with(grid, Tile::Start, 0) < grid.len(),
        1 <= n <= t.states.len(),
    ensures
        scored(cells_of(grid, route_of(t)), n).0 == total(t.fees.take(n - 1)),
        scored(cells_of(grid, route_of(t)), n).1 == t.states[n - 1] % 2,
    decreases n,
{
    let cells = cells_of(grid, route_of(t));
    if n == 1 {
        assert(t.fees.take(0) =~= Seq::<int>::empty());
    } else {
        lemma_trail_scores(grid, t, n - 1);
        assert(maze_links(grid)(t.states[n - 2], t.states[n - 1], t.fees[n - 2]));
        assert(cells[n - 2] == grid[t.states[n - 2] / 2]);
        assert(cells[n - 1] == grid[t.states[n - 1] / 2]);
        assert(t.fees.take(n - 1).drop_last() =~= t.fees.take(n - 2));
        assert(t.fees.take(n - 1).last() == t.fees[n - 2]);
    }
}

/// A walk from the start to an end cell comes through a route, cell by
/// cell, that ends on that end cell and scores what the walk costs.
pub proof fn lemma_trail_is_route(grid: Seq<Elem>, t: Trail)
    requires
        2 * grid.len() <= usize::MAX,
        finishes(grid, t),
        0 <= first_with(grid, Tile::Start, 0) < grid.len(),
    ensures
        is_route(grid, route_of(t)),
        grid[route_of(t).last()].tile == Tile::End,
        scored(cells_of(grid, route_of(t)), route_of(t).len() as int).0 == total(t.fees),
{
    let walk = route_of(t);
    let i = choose|i: int|
        0 <= i < start_states(grid).len() && #[trigger] start_states(grid)[i] == t.states[0];
    assert(start_states(grid)[i] == 2 * first_with(grid, Tile::Start, 0));
    assert(walk[0] == first_with(grid, Tile::Start, 0));
    assert forall|i: int| 0 <= i < walk.len() implies 0 <= #[trigger] walk[i] < grid.len() by {
        lemma_walk_in_maze(grid, t, i);
    }
    assert forall|i: int| 0 <= i < walk.len() - 1 implies adjacent(
        grid[#[trigger] walk[i]],
        grid[walk[i + 1]],
    ) by {
        assert(maze_links(grid)(t.states[i], t.states[i + 1], t.fees[i]));
    }
    lemma_trail_scores(grid, t, t.states.len() as int);
    assert(t.fees.take(t.states.len() - 1) =~= t.fees);
}

/// The cheapest cost is the least score of a route: some route from the
/// start to an end cell scores it, and none scores less.
pub proof fn lemma_cheapest_is_least_score(grid: Seq<Elem>, cost: int)
    requires
        2 * grid.len() <= usize::MAX,
        0 <= first_with(grid, Tile::Start, 0) < grid.len(),
        cheapest_finish(grid, cost),
    ensures
        exists|walk: Seq<int>|
            #![trigger is_route(grid, walk)]
            is_route(grid, walk) && grid[walk.last()].tile == Tile::End && scored(
                cells_of(grid, walk),
                walk.len() as int,
            ).0 == cost,
        forall|walk: Seq<int>|
            #![trigger is_route(grid, walk)]
            is_route(grid, walk) && grid[walk.last()].tile == Tile::End ==> cost <= scored(
                cells_of(grid, walk),
                walk.len() as int,
            ).0,
{
    let t = choose|t: Trail| #[trigger] finishes(grid, t) && total(t.fees) == cost;
    lemma_trail_is_route(grid, t);
    assert(is_route(grid, route_of(t)));
    assert forall|walk: Seq<int>|
        #![trigger is_route(grid, walk)]
        is_route(grid, walk) && grid[walk.last()].tile == Tile::End implies cost <= scored(
        cells_of(grid, walk),
        walk.len() as int,
    ).0 by {
        lemma_no_route_is_cheaper(grid, walk, cost);
    }
}

} // verus!
