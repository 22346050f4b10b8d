//! State-space search: a graph of numbered states with priced moves, a
//! cache of the cheapest cost seen for every state, and an explorer that
//! expands a frontier until no cheaper way to any state is left.
use vstd::prelude::*;
use crate::counting::{count_below, lemma_count_bound, lemma_count_grows, lemma_count_monotone};

verus! {

/// A move into the state `to` at the price `cost`.
#[derive(Debug, Clone, Copy, PartialEq, Eq, Structural)]
pub struct Step {
    pub to: usize,
    pub cost: u64,
}

/// A finite state space: `moves[s]` lists the moves that leave state `s`.
#[derive(Debug)]
pub struct StateSpace {
    pub moves: Vec<Vec<Step>>,
}

/// A state on the frontier together with what it cost to get there.
#[derive(Debug, Clone, Copy, PartialEq, Eq, Structural)]
pub struct SearchState {
    pub state: usize,
    pub cost: u64,
}

/// The cheapest cost seen so far for every state; `None` for a state not seen.
#[derive(Debug)]
pub struct StateCache {
    pub best: Vec<Option<u64>>,
}

/// A walk through a state space: the states it visits, and what each of
/// its moves costs.
pub ghost struct Trail {
    pub states: Seq<int>,
    pub fees: Seq<int>,
}

/// The sum of a list of fees.
pub open spec fn total(fees: Seq<int>) -> int
    decreases fees.len(),
{
    if fees.len() == 0 {
        0
    } else {
        total(fees.drop_last()) + fees.last()
    }
}

/// Whether `t` is a walk along `links`, where `links(a, b, c)` says that a
/// move from `a` to `b` at price `c` exists.
pub open spec fn is_trail(links: spec_fn(int, int, int) -> bool, t: Trail) -> bool {
    &&& t.states.len() == t.fees.len() + 1
    &&& forall|i: int|
        0 <= i < t.fees.len() ==> links(t.states[i], t.states[i + 1], #[trigger] t.fees[i])
}

/// Whether `t` is a walk from one of the `seeds` to `goal`.
pub open spec fn runs(
    links: spec_fn(int, int, int) -> bool,
    seeds: Seq<usize>,
    t: Trail,
    goal: int,
) -> bool {
    &&& is_trail(links, t)
    &&& exists|i: int| 0 <= i < seeds.len() && #[trigger] seeds[i] == t.states[0]
    &&& t.states.last() == goal
}

/// Whether some walk from a seed to `goal` costs exactly `c`.
pub open spec fn attainable(
    links: spec_fn(int, int, int) -> bool,
    seeds: Seq<usize>,
    goal: int,
    c: int,
) -> bool {
    exists|t: Trail| #[trigger] runs(links, seeds, t, goal) && total(t.fees) == c
}

/// Whether `c` is the cost of the cheapest walk from a seed to `goal`.
pub open spec fn is_cheapest(
    links: spec_fn(int, int, int) -> bool,
    seeds: Seq<usize>,
    goal: int,
    c: int,
) -> bool {
    &&& attainable(links, seeds, goal, c)
    &&& forall|t: Trail| #[trigger] runs(links, seeds, t, goal) ==> c <= total(t.fees)
}

/// Whether every walk from a seed to `goal`, if there is one, costs more
/// than 64 bits can hold.
pub open spec fn out_of_reach(
    links: spec_fn(int, int, int) -> bool,
    seeds: Seq<usize>,
    goal: int,
) -> bool {
    forall|t: Trail| #[trigger] runs(links, seeds, t, goal) ==> total(t.fees) > u64::MAX
}

/// What a cache entry weighs: its cost, or more than any cost if there is none.
pub open spec fn weight(b: Option<u64>) -> nat {
    match b {
        Some(c) => c as nat,
        None => 0x1_0000_0000_0000_0000,
    }
}

/// The sum of the weights of all entries of a cache.
pub open spec fn potential(best: Seq<Option<u64>>) -> nat
    decreases best.len(),
{
    if best.len() == 0 {
        0
    } else {
        potential(best.drop_last()) + weight(best.last())
    }
}

/// Replacing one entry changes the potential by the difference of the weights.
pub proof fn lemma_potential_update(best: Seq<Option<u64>>, v: int, b: Option<u64>)
    requires
        0 <= v < best.len(),
    ensures
        potential(best.update(v, b)) + weight(best[v]) == potential(best) + weight(b),
    decreases best.len(),
{
    if v == best.len() - 1 {
        assert(best.update(v, b).drop_last() =~= best.drop_last());
    } else {
        assert(best.update(v, b).drop_last() =~= best.drop_last().update(v, b));
        lemma_potential_update(best.drop_last(), v, b);
    }
}

/// A walk that is extended by one move costs the price of that move more.
pub proof fn lemma_extend(
    links: spec_fn(int, int, int) -> bool,
    seeds: Seq<usize>,
    from: int,
    c: int,
    to: int,
    fee: int,
)
    requires
        attainable(links, seeds, from, c),
        links(from, to, fee),
    ensures
        attainable(links, seeds, to, c + fee),
{
    let t = choose|t: Trail| #[trigger] runs(links, seeds, t, from) && total(t.fees) == c;
    let longer = Trail { states: t.states.push(to), fees: t.fees.push(fee) };
    assert(longer.fees.drop_last() =~= t.fees);
    assert(runs(links, seeds, longer, to));
}

/// A walk that makes no move costs nothing.
pub proof fn lemma_stay(links: spec_fn(int, int, int) -> bool, seeds: Seq<usize>, i: int)
    requires
        0 <= i < seeds.len(),
    ensures
        attainable(links, seeds, seeds[i] as int, 0),
{
    let t = Trail { states: seq![seeds[i] as int], fees: Seq::empty() };
    assert(runs(links, seeds, t, seeds[i] as int));
}

impl StateSpace {
    /// Every move leads to a state of the space.
    pub open spec fn wf(&self) -> bool {
        forall|s: int, k: int|
            0 <= s < self.moves.len() && 0 <= k < self.moves[s].len() ==> (
            #[trigger] self.moves[s][k]).to < self.moves.len()
    }

    /// Whether the space has a move from `a` to `b` at price `c`.
    pub open spec fn linked(&self, a: int, b: int, c: int) -> bool {
        0 <= a < self.moves.len() && exists|k: int|
            0 <= k < self.moves[a].len() && (#[trigger] self.moves[a][k]).to == b
                && self.moves[a][k].cost == c
    }

    /// The moves of the space, each taken backwards, as a relation.
    pub open spec fn backward_links(&self) -> spec_fn(int, int, int) -> bool {
        |a: int, b: int, c: int| self.linked(b, a, c)
    }

    /// Every move costs at least one.
    pub open spec fn positive(&self) -> bool {
        forall|s: int, k: int|
            0 <= s < self.moves.len() && 0 <= k < self.moves[s].len() ==> (
            #[trigger] self.moves[s][k]).cost >= 1
    }

    /// Whether this space has exactly the moves of `other`, each turned round.
    pub open spec fn mirrors(&self, other: StateSpace) -> bool {
        &&& self.moves.len() == other.moves.len()
        &&& forall|a: int, b: int, c: int|
            #![trigger self.linked(b, a, c)]
            #![trigger other.linked(a, b, c)]
            self.linked(b, a, c) <==> other.linked(a, b, c)
    }

    /// The moves of the space as a relation.
    pub open spec fn links(&self) -> spec_fn(int, int, int) -> bool {
        |a: int, b: int, c: int| self.linked(a, b, c)
    }
}

impl StateCache {
    /// A cache for `n` states that has seen none of them.
    pub fn new(n: usize) -> (r: StateCache)
        ensures
            r.best.len() == n,
            forall|i: int| 0 <= i < n ==> #[trigger] r.best[i] is None,
    {
        let mut best: Vec<Option<u64>> = Vec::new();
        let mut i: usize = 0;
        while i < n
            invariant
                i <= n,
                best.len() == i,
                forall|k: int| 0 <= k < i ==> #[trigger] best[k] is None,
            decreases n - i,
        {
            best.push(None);
            i += 1;
        }
        StateCache { best }
    }

    /// Offers a way into `state` at price `cost`. The offer is accepted, and
    /// the cache updated, when the state was not seen before or only at a
    /// higher price; a tie is rejected. A rejected offer leaves the cache as it was.
    pub fn consider_candidate(&mut self, state: usize, cost: u64) -> (accepted: bool)
        requires
            state < old(self).best.len(),
        ensures
            accepted == (cost < weight(old(self).best[state as int])),
            accepted ==> final(self).best@ == old(self).best@.update(state as int, Some(cost)),
            !accepted ==> final(self).best@ == old(self).best@,
    {
        let better = match self.best[state] {
            Some(known) => cost < known,
            None => true,
        };
        if better {
            self.best[state] = Some(cost);
        }
        better
    }

    /// Offers a way into `state` at price `cost` where ways of equal price
    /// are all wanted: the offer is accepted, and the cache updated, when
    /// the state was not seen before or at no lower price; a tie is
    /// accepted. A rejected offer leaves the cache as it was.
    pub fn consider_candidate_or_tie(&mut self, state: usize, cost: u64) -> (accepted: bool)
        requires
            state < old(self).best.len(),
        ensures
            accepted == (cost <= weight(old(self).best[state as int])),
            accepted ==> final(self).best@ == old(self).best@.update(state as int, Some(cost)),
            !accepted ==> final(self).best@ == old(self).best@,
    {
        let no_worse = match self.best[state] {
            Some(known) => cost <= known,
            None => true,
        };
        if no_worse {
            self.best[state] = Some(cost);
        }
        no_worse
    }

    /// The cheapest cost seen for `state`, if it was seen.
    pub fn lookup(&self, state: usize) -> (r: Option<u64>)
        ensures
            r == if state < self.best.len() {
                self.best[state as int]
            } else {
                None
            },
    {
        if state < self.best.len() {
            self.best[state]
        } else {
            None
        }
    }
}

/// Whether `next` is what the `k`-th move out of `entry`'s state leads to.
pub open spec fn follows(space: StateSpace, entry: SearchState, k: int, next: SearchState) -> bool {
    &&& 0 <= entry.state < space.moves.len()
    &&& 0 <= k < space.moves[entry.state as int].len()
    &&& next.state == space.moves[entry.state as int][k].to
    &&& next.cost == entry.cost + space.moves[entry.state as int][k].cost
}

/// Whether `out` holds what the `k`-th move out of `entry`'s state leads to.
pub open spec fn covered(space: StateSpace, entry: SearchState, k: int, out: Seq<SearchState>) -> bool {
    exists|j: int| 0 <= j < out.len() && follows(space, entry, k, #[trigger] out[j])
}

/// Whether `next` comes from some entry of `frontier` by one move.
pub open spec fn derived(space: StateSpace, frontier: Seq<SearchState>, next: SearchState) -> bool {
    exists|i: int, k: int| 0 <= i < frontier.len() && #[trigger] follows(space, frontier[i], k, next)
}

/// Expands a frontier: every state that one move leads to from a state on
/// the frontier, with the cost of getting there that way. A move whose
/// cost would not fit in 64 bits is left out.
pub fn expand(space: &StateSpace, frontier: &Vec<SearchState>) -> (out: Vec<SearchState>)
    requires
        space.wf(),
        forall|i: int| 0 <= i < frontier.len() ==> (#[trigger] frontier[i]).state < space.moves.len(),
    ensures
        forall|j: int| 0 <= j < out.len() ==> (#[trigger] out[j]).state < space.moves.len(),
        forall|j: int| 0 <= j < out.len() ==> derived(*space, frontier@, #[trigger] out[j]),
        forall|i: int, k: int|
            0 <= i < frontier.len() && 0 <= k < space.moves[frontier[i].state as int].len()
                && frontier[i].cost + space.moves[frontier[i].state as int][k].cost <= u64::MAX
                ==> #[trigger] covered(*space, frontier[i], k, out@),
{
    let mut out: Vec<SearchState> = Vec::new();
    let mut i: usize = 0;
    while i < frontier.len()
        invariant
            i <= frontier.len(),
            space.wf(),
            forall|i: int|
                0 <= i < frontier.len() ==> (#[trigger] frontier[i]).state < space.moves.len(),
            forall|j: int| 0 <= j < out.len() ==> (#[trigger] out[j]).state < space.moves.len(),
            forall|j: int| 0 <= j < out.len() ==> derived(*space, frontier@, #[trigger] out[j]),
            forall|a: int, k: int|
                0 <= a < i && 0 <= k < space.moves[frontier[a].state as int].len()
                    && frontier[a].cost + space.moves[frontier[a].state as int][k].cost
                    <= u64::MAX ==> #[trigger] covered(*space, frontier[a], k, out@),
        decreases frontier.len() - i,
    {
        let entry = frontier[i];
        let steps = &space.moves[entry.state];
        let mut k: usize = 0;
        while k < steps.len()
            invariant
                k <= steps.len(),
                i < frontier.len(),
                entry == frontier[i as int],
                entry.state < space.moves.len(),
                steps == space.moves[entry.state as int],
                space.wf(),
                forall|j: int| 0 <= j < out.len() ==> (#[trigger] out[j]).state < space.moves.len(),
                forall|j: int| 0 <= j < out.len() ==> derived(*space, frontier@, #[trigger] out[j]),
                forall|a: int, b: int|
                    0 <= a < i && 0 <= b < space.moves[frontier[a].state as int].len()
                        && frontier[a].cost + space.moves[frontier[a].state as int][b].cost
                        <= u64::MAX ==> #[trigger] covered(*space, frontier[a], b, out@),
                forall|b: int|
                    0 <= b < k && entry.cost + steps[b].cost <= u64::MAX ==> #[trigger] covered(
                        *space,
                        entry,
                        b,
                        out@,
                    ),
            decreases steps.len() - k,
        {
            let step = steps[k];
            assert(step == space.moves[entry.state as int][k as int]);
            if entry.cost <= u64::MAX - step.cost {
                let next = SearchState { state: step.to, cost: entry.cost + step.cost };
                let ghost before = out@;
                out.push(next);
                proof {
                    assert(follows(*space, frontier[i as int], k as int, next));
                    assert(derived(*space, frontier@, next));
                    assert forall|a: int, b: int|
                        0 <= a < i && 0 <= b < space.moves[frontier[a].state as int].len()
                            && frontier[a].cost + space.moves[frontier[a].state as int][b].cost
                            <= u64::MAX implies #[trigger] covered(*space, frontier[a], b, out@) by {
                        assert(covered(*space, frontier[a], b, before));
                        let j = choose|j: int|
                            0 <= j < before.len() && follows(*space, frontier[a], b, #[trigger] before[j]);
                        assert(out@[j] == before[j]);
                    }
                    assert forall|b: int|
                        0 <= b < k + 1 && entry.cost + steps[b].cost
                            <= u64::MAX implies #[trigger] covered(*space, entry, b, out@) by {
                        if b < k {
                            assert(covered(*space, entry, b, before));
                            let j = choose|j: int|
                                0 <= j < before.len() && follows(*space, entry, b, #[trigger] before[j]);
                            assert(out@[j] == before[j]);
                        } else {
                            assert(out@[before.len() as int] == next);
                        }
                    }
                }
            }
            k += 1;
        }
        i += 1;
    }
    out
}

/// Offers every candidate to the cache, in order, and keeps the ones that
/// the cache accepts: those that reach a state for the first time or more
/// cheaply than anything before them.
pub fn prune(cache: &mut StateCache, candidates: &Vec<SearchState>) -> (kept: Vec<SearchState>)
    requires
        forall|j: int|
            0 <= j < candidates.len() ==> (#[trigger] candidates[j]).state < old(cache).best.len(),
    ensures
        final(cache).best.len() == old(cache).best.len(),
        forall|v: int|
            0 <= v < old(cache).best.len() ==> weight(#[trigger] final(cache).best[v]) <= weight(
                old(cache).best[v],
            ),
        forall|j: int|
            0 <= j < candidates.len() ==> weight(final(cache).best[candidates[j].state as int])
                <= (#[trigger] candidates[j]).cost,
        forall|v: int|
            0 <= v < old(cache).best.len() && #[trigger] final(cache).best[v] != old(cache).best[v]
                ==> final(cache).best[v] is Some && kept@.contains(
                SearchState { state: v as usize, cost: final(cache).best[v]->0 },
            ),
        forall|v: int|
            0 <= v < old(cache).best.len() && #[trigger] final(cache).best[v] != old(cache).best[v]
                ==> candidates@.contains(
                SearchState { state: v as usize, cost: final(cache).best[v]->0 },
            ),
        forall|a: int| 0 <= a < kept.len() ==> candidates@.contains(#[trigger] kept[a]),
        potential(final(cache).best@) + kept.len() <= potential(old(cache).best@),
{
    let mut kept: Vec<SearchState> = Vec::new();
    let ghost start = cache.best@;
    let mut j: usize = 0;
    while j < candidates.len()
        invariant
            j <= candidates.len(),
            cache.best.len() == start.len(),
            forall|a: int|
                0 <= a < candidates.len() ==> (#[trigger] candidates[a]).state < start.len(),
            forall|v: int|
                0 <= v < start.len() ==> weight(#[trigger] cache.best[v]) <= weight(start[v]),
            forall|a: int|
                0 <= a < j ==> weight(cache.best[candidates[a].state as int]) <= (
                #[trigger] candidates[a]).cost,
            forall|v: int|
                0 <= v < start.len() && #[trigger] cache.best[v] != start[v] ==> cache.best[v] is Some
                    && kept@.contains(SearchState { state: v as usize, cost: cache.best[v]->0 }),
            forall|v: int|
                0 <= v < start.len() && #[trigger] cache.best[v] != start[v]
                    ==> candidates@.contains(
                    SearchState { state: v as usize, cost: cache.best[v]->0 },
                ),
            forall|a: int| 0 <= a < kept.len() ==> candidates@.contains(#[trigger] kept[a]),
            potential(cache.best@) + kept.len() <= potential(start),
        decreases candidates.len() - j,
    {
        let candidate = candidates[j];
        let ghost before = cache.best@;
        let ghost kept_before = kept@;
        let accepted = cache.consider_candidate(candidate.state, candidate.cost);
        if accepted {
            kept.push(candidate);
            proof {
                lemma_potential_update(before, candidate.state as int, Some(candidate.cost));
                assert(kept@[kept_before.len() as int] == candidate);
                assert(candidates@[j as int] == candidate);
                assert forall|v: int|
                    0 <= v < start.len() && #[trigger] cache.best[v] != start[v] implies cache.best[v] is Some
                        && kept@.contains(
                        SearchState { state: v as usize, cost: cache.best[v]->0 },
                    ) by {
                    if v == candidate.state {
                        assert(kept@[kept_before.len() as int] == SearchState {
                            state: v as usize,
                            cost: cache.best[v]->0,
                        });
                    } else {
                        let e = SearchState { state: v as usize, cost: before[v]->0 };
                        assert(kept_before.contains(e));
                        let a = choose|a: int| 0 <= a < kept_before.len() && kept_before[a] == e;
                        assert(kept@[a] == e);
                    }
                }
                assert forall|a: int| 0 <= a < kept.len() implies candidates@.contains(
                    #[trigger] kept[a],
                ) by {
                    if a < kept_before.len() {
                        assert(kept@[a] == kept_before[a]);
                    }
                }
            }
        }
        j += 1;
    }
    kept
}

/// Whether the `k`-th move out of state `u` can no longer make anything
/// cheaper: its cost does not fit in 64 bits, or its target is already known
/// at no more than that cost, or `u` still waits on the frontier.
pub open spec fn pending_or_relaxed(
    space: StateSpace,
    best: Seq<Option<u64>>,
    frontier: Seq<SearchState>,
    u: int,
    k: int,
) -> bool {
    let step = space.moves[u][k];
    ||| best[u]->0 + step.cost > u64::MAX
    ||| weight(best[step.to as int]) <= best[u]->0 + step.cost
    ||| frontier.contains(SearchState { state: u as usize, cost: best[u]->0 })
}

/// Whether every move out of every state seen so far is relaxed or waits
/// on the frontier.
pub open spec fn settled(space: StateSpace, best: Seq<Option<u64>>, frontier: Seq<SearchState>) -> bool {
    forall|u: int, k: int|
        0 <= u < space.moves.len() && 0 <= k < space.moves[u].len() && best[u] is Some
            ==> #[trigger] pending_or_relaxed(space, best, frontier, u, k)
}

/// Whether every cost in the cache is the cost of some walk from a seed.
pub open spec fn sound(
    links: spec_fn(int, int, int) -> bool,
    seeds: Seq<usize>,
    best: Seq<Option<u64>>,
) -> bool {
    forall|v: int|
        0 <= v < best.len() && (#[trigger] best[v]) is Some ==> attainable(
            links,
            seeds,
            v,
            best[v]->0 as int,
        )
}

/// Whether every entry of the frontier is a state of the space, at a cost
/// that some walk from a seed has.
pub open spec fn sound_frontier(
    space: StateSpace,
    seeds: Seq<usize>,
    frontier: Seq<SearchState>,
) -> bool {
    forall|i: int|
        0 <= i < frontier.len() ==> (#[trigger] frontier[i]).state < space.moves.len()
            && attainable(space.links(), seeds, frontier[i].state as int, frontier[i].cost as int)
}

/// Whether every seed is a state of the space and is cached at cost zero.
pub open spec fn seeded(seeds: Seq<usize>, best: Seq<Option<u64>>) -> bool {
    forall|i: int| 0 <= i < seeds.len() ==> (#[trigger] seeds[i]) < best.len() && best[seeds[i] as int] == Some(0u64)
}

/// One round of expanding and pruning keeps every move relaxed or pending.
proof fn lemma_round(
    space: StateSpace,
    best0: Seq<Option<u64>>,
    frontier0: Seq<SearchState>,
    candidates: Seq<SearchState>,
    best1: Seq<Option<u64>>,
    kept: Seq<SearchState>,
)
    requires
        space.wf(),
        best0.len() == space.moves.len(),
        best1.len() == space.moves.len(),
        settled(space, best0, frontier0),
        forall|i: int| 0 <= i < frontier0.len() ==> (#[trigger] frontier0[i]).state < space.moves.len(),
        forall|i: int, k: int|
            0 <= i < frontier0.len() && 0 <= k < space.moves[frontier0[i].state as int].len()
                && frontier0[i].cost + space.moves[frontier0[i].state as int][k].cost <= u64::MAX
                ==> #[trigger] covered(space, frontier0[i], k, candidates),
        forall|v: int| 0 <= v < best0.len() ==> weight(#[trigger] best1[v]) <= weight(best0[v]),
        forall|j: int|
            0 <= j < candidates.len() ==> weight(best1[candidates[j].state as int]) <= (
            #[trigger] candidates[j]).cost,
        forall|v: int|
            0 <= v < best0.len() && #[trigger] best1[v] != best0[v] ==> best1[v] is Some
                && kept.contains(SearchState { state: v as usize, cost: best1[v]->0 }),
    ensures
        settled(space, best1, kept),
{
    assert forall|u: int, k: int|
        0 <= u < space.moves.len() && 0 <= k < space.moves[u].len()
            && best1[u] is Some implies #[trigger] pending_or_relaxed(space, best1, kept, u, k) by {
        let step = space.moves[u][k];
        assert(step.to < space.moves.len());
        if best1[u] == best0[u] {
            assert(pending_or_relaxed(space, best0, frontier0, u, k));
            let entry = SearchState { state: u as usize, cost: best0[u]->0 };
            if best0[u]->0 + step.cost <= u64::MAX && !(weight(best0[step.to as int])
                <= best0[u]->0 + step.cost) {
                assert(frontier0.contains(entry));
                let i = choose|i: int| 0 <= i < frontier0.len() && frontier0[i] == entry;
                assert(covered(space, frontier0[i], k, candidates));
                let j = choose|j: int|
                    0 <= j < candidates.len() && follows(space, entry, k, #[trigger] candidates[j]);
                assert(weight(best1[candidates[j].state as int]) <= candidates[j].cost);
            } else if best0[u]->0 + step.cost <= u64::MAX {
                assert(weight(best1[step.to as int]) <= weight(best0[step.to as int]));
            }
        }
    }
}

/// Once nothing waits on the frontier, the cached cost of a state is at most
/// the cost of any walk to it that 64 bits can hold.
proof fn lemma_lower_bound(
    space: StateSpace,
    seeds: Seq<usize>,
    best: Seq<Option<u64>>,
    t: Trail,
    goal: int,
)
    requires
        space.wf(),
        best.len() == space.moves.len(),
        settled(space, best, Seq::empty()),
        seeded(seeds, best),
        runs(space.links(), seeds, t, goal),
        total(t.fees) <= u64::MAX,
    ensures
        0 <= goal < space.moves.len(),
        weight(best[goal]) <= total(t.fees),
    decreases t.fees.len(),
{
    if t.fees.len() == 0 {
        let i = choose|i: int| 0 <= i < seeds.len() && #[trigger] seeds[i] == t.states[0];
        assert(best[seeds[i] as int] == Some(0u64));
    } else {
        let shorter = Trail { states: t.states.drop_last(), fees: t.fees.drop_last() };
        let n = t.fees.len() as int;
        let u = t.states[n - 1];
        let fee = t.fees[n - 1];
        assert(space.links()(t.states[n - 1], t.states[n], t.fees[n - 1]));
        assert(space.linked(u, goal, fee));
        let k = choose|k: int|
            0 <= k < space.moves[u].len() && (#[trigger] space.moves[u][k]).to == goal
                && space.moves[u][k].cost == fee;
        assert forall|i: int| 0 <= i < shorter.fees.len() implies space.links()(
            shorter.states[i],
            shorter.states[i + 1],
            #[trigger] shorter.fees[i],
        ) by {
            assert(space.links()(t.states[i], t.states[i + 1], t.fees[i]));
        }
        assert(runs(space.links(), seeds, shorter, u));
        lemma_lower_bound(space, seeds, best, shorter, u);
        assert(pending_or_relaxed(space, best, Seq::empty(), u, k));
    }
}

/// Finds the cheapest cost of reaching every state from one of the seeds,
/// each seed being free to start at.
///
/// The explorer expands the frontier round by round. A state enters the
/// next frontier whenever the cache accepts a cheaper way into it, so it is
/// expanded again with its lower cost, and the search ends when a round
/// makes nothing cheaper. An entry `Some(c)` of the result says that the
/// cheapest walk to that state costs `c`; `None` says that no walk whose
/// cost fits in 64 bits leads there.
pub fn explore(space: &StateSpace, seeds: &Vec<usize>) -> (cache: StateCache)
    requires
        space.wf(),
        forall|i: int| 0 <= i < seeds.len() ==> (#[trigger] seeds[i]) < space.moves.len(),
    ensures
        cache.best.len() == space.moves.len(),
        forall|v: int|
            0 <= v < space.moves.len() ==> match #[trigger] cache.best[v] {
                Some(c) => is_cheapest(space.links(), seeds@, v, c as int),
                None => out_of_reach(space.links(), seeds@, v),
            },
        forall|t: Trail, v: int| #[trigger]
            runs(space.links(), seeds@, t, v) ==> 0 <= v < space.moves.len(),
{
    let n = space.moves.len();
    let mut cache = StateCache::new(n);
    let mut frontier: Vec<SearchState> = Vec::new();
    let mut i: usize = 0;
    while i < seeds.len()
        invariant
            i <= seeds.len(),
            n == space.moves.len(),
            cache.best.len() == n,
            forall|i: int| 0 <= i < seeds.len() ==> (#[trigger] seeds[i]) < n,
            forall|a: int| 0 <= a < i ==> cache.best[(#[trigger] seeds[a]) as int] == Some(0u64),
            forall|v: int|
                0 <= v < n && (#[trigger] cache.best[v]) is Some ==> cache.best[v] == Some(0u64)
                    && frontier@.contains(SearchState { state: v as usize, cost: 0 }),
            sound(space.links(), seeds@, cache.best@),
            sound_frontier(*space, seeds@, frontier@),
        decreases seeds.len() - i,
    {
        let seed = seeds[i];
        let ghost before = frontier@;
        let ghost best_before = cache.best@;
        if cache.consider_candidate(seed, 0) {
            frontier.push(SearchState { state: seed, cost: 0 });
            proof {
                lemma_stay(space.links(), seeds@, i as int);
                assert(frontier@[before.len() as int] == SearchState { state: seed, cost: 0 });
                assert forall|v: int|
                    0 <= v < n && (#[trigger] cache.best[v]) is Some implies cache.best[v] == Some(
                    0u64,
                ) && frontier@.contains(SearchState { state: v as usize, cost: 0 }) by {
                    if v != seed {
                        let e = SearchState { state: v as usize, cost: 0 };
                        assert(best_before[v] is Some);
                        assert(before.contains(e));
                        let a = choose|a: int| 0 <= a < before.len() && before[a] == e;
                        assert(frontier@[a] == e);
                    }
                }
                assert forall|a: int| 0 <= a < frontier.len() implies (#[trigger] frontier[a]).state
                    < space.moves.len() && attainable(
                    space.links(),
                    seeds@,
                    frontier[a].state as int,
                    frontier[a].cost as int,
                ) by {
                    if a < before.len() {
                        assert(frontier@[a] == before[a]);
                    }
                }
            }
        }
        i += 1;
    }
    assert(settled(*space, cache.best@, frontier@));
    assert(seeded(seeds@, cache.best@));
    while frontier.len() > 0
        invariant
            space.wf(),
            n == space.moves.len(),
            cache.best.len() == n,
            seeded(seeds@, cache.best@),
            sound(space.links(), seeds@, cache.best@),
            sound_frontier(*space, seeds@, frontier@),
            settled(*space, cache.best@, frontier@),
        decreases potential(cache.best@), frontier.len(),
    {
        let candidates = expand(space, &frontier);
        let ghost best0 = cache.best@;
        let ghost frontier0 = frontier@;
        let kept = prune(&mut cache, &candidates);
        proof {
            lemma_round(*space, best0, frontier0, candidates@, cache.best@, kept@);
            assert forall|j: int| 0 <= j < candidates.len() implies attainable(
                space.links(),
                seeds@,
                (#[trigger] candidates[j]).state as int,
                candidates[j].cost as int,
            ) by {
                let c = candidates[j];
                assert(derived(*space, frontier0, c));
                let (a, k) = choose|a: int, k: int|
                    0 <= a < frontier0.len() && #[trigger] follows(*space, frontier0[a], k, c);
                let e = frontier0[a];
                assert(space.linked(
                    e.state as int,
                    c.state as int,
                    space.moves[e.state as int][k].cost as int,
                ));
                lemma_extend(
                    space.links(),
                    seeds@,
                    e.state as int,
                    e.cost as int,
                    c.state as int,
                    space.moves[e.state as int][k].cost as int,
                );
            }
            assert forall|v: int|
                0 <= v < cache.best.len() && (#[trigger] cache.best[v]) is Some implies attainable(
                space.links(),
                seeds@,
                v,
                cache.best[v]->0 as int,
            ) by {
                if cache.best[v] != best0[v] {
                    let e = SearchState { state: v as usize, cost: cache.best[v]->0 };
                    assert(candidates@.contains(e));
                    let j = choose|j: int| 0 <= j < candidates.len() && candidates[j] == e;
                    assert(candidates[j].state == v);
                }
            }
            assert forall|a: int| 0 <= a < kept.len() implies (#[trigger] kept[a]).state
                < space.moves.len() && attainable(
                space.links(),
                seeds@,
                kept[a].state as int,
                kept[a].cost as int,
            ) by {
                assert(candidates@.contains(kept[a]));
                let j = choose|j: int| 0 <= j < candidates.len() && candidates[j] == kept[a];
                assert(candidates[j].state < space.moves.len());
            }
            assert forall|a: int| 0 <= a < seeds.len() implies (#[trigger] seeds[a]) < cache.best.len()
                && cache.best[seeds[a] as int] == Some(0u64) by {
                assert(weight(cache.best[seeds[a] as int]) <= weight(best0[seeds[a] as int]));
            }
        }
        frontier = kept;
    }
    proof {
        assert(frontier@ =~= Seq::empty());
        assert forall|v: int| 0 <= v < space.moves.len() implies match #[trigger] cache.best[v] {
            Some(c) => is_cheapest(space.links(), seeds@, v, c as int),
            None => out_of_reach(space.links(), seeds@, v),
        } by {
            assert forall|t: Trail| #[trigger]
                runs(space.links(), seeds@, t, v) && total(t.fees) <= u64::MAX implies weight(
                cache.best[v],
            ) <= total(t.fees) by {
                lemma_lower_bound(*space, seeds@, cache.best@, t, v);
            }
        }
        assert forall|t: Trail, v: int| #[trigger]
            runs(space.links(), seeds@, t, v) implies 0 <= v < space.moves.len() by {
            lemma_trail_stays_inside(*space, seeds@, t, v);
        }
    }
    cache
}

/// A walk from a seed inside the space ends inside the space.
pub proof fn lemma_trail_stays_inside(space: StateSpace, seeds: Seq<usize>, t: Trail, goal: int)
    requires
        space.wf(),
        forall|i: int| 0 <= i < seeds.len() ==> (#[trigger] seeds[i]) < space.moves.len(),
        runs(space.links(), seeds, t, goal),
    ensures
        0 <= goal < space.moves.len(),
{
    if t.fees.len() > 0 {
        let n = t.fees.len() as int;
        assert(space.links()(t.states[n - 1], t.states[n], t.fees[n - 1]));
    }
}

/// Whether `moves[a]` holds a move to `b` at price `c`.
pub open spec fn linked_in(moves: Seq<Vec<Step>>, a: int, b: int, c: int) -> bool {
    0 <= a < moves.len() && exists|k: int|
        0 <= k < moves[a].len() && (#[trigger] moves[a][k]).to == b && moves[a][k].cost == c
}

/// Whether `moves[a]` holds a move to `b` at price `c` before the `k`-th
/// move of state `u`, counting state by state.
pub open spec fn linked_before(moves: Seq<Vec<Step>>, a: int, b: int, c: int, u: int, k: int) -> bool {
    0 <= a < moves.len() && exists|j: int|
        0 <= j < moves[a].len() && (#[trigger] moves[a][j]).to == b && moves[a][j].cost == c && (a
            < u || (a == u && j < k))
}

impl StateSpace {
    /// The space with every move turned round: a move from `a` to `b`
    /// becomes a move from `b` to `a` at the same price.
    pub fn reversed(&self) -> (r: StateSpace)
        requires
            self.wf(),
        ensures
            r.wf(),
            r.mirrors(*self),
            self.positive() ==> r.positive(),
    {
        let n = self.moves.len();
        let mut moves: Vec<Vec<Step>> = Vec::new();
        let mut i: usize = 0;
        while i < n
            invariant
                i <= n,
                moves.len() == i,
                forall|v: int| 0 <= v < i ==> (#[trigger] moves[v]).len() == 0,
            decreases n - i,
        {
            moves.push(Vec::new());
            i += 1;
        }
        let mut u: usize = 0;
        while u < n
            invariant
                u <= n,
                n == self.moves.len(),
                moves.len() == n,
                self.wf(),
                forall|v: int, j: int|
                    0 <= v < n && 0 <= j < moves[v].len() ==> (#[trigger] moves[v][j]).to < n,
                self.positive() ==> forall|v: int, j: int|
                    0 <= v < n && 0 <= j < moves[v].len() ==> (#[trigger] moves[v][j]).cost >= 1,
                forall|a: int, b: int, c: int|
                    #![trigger linked_in(moves@, b, a, c)]
                    #![trigger linked_before(self.moves@, a, b, c, u as int, 0)]
                    linked_in(moves@, b, a, c) <==> linked_before(self.moves@, a, b, c, u as int, 0),
            decreases n - u,
        {
            let mut k: usize = 0;
            while k < self.moves[u].len()
                invariant
                    u < n,
                    k <= self.moves[u as int].len(),
                    n == self.moves.len(),
                    moves.len() == n,
                    self.wf(),
                    forall|v: int, j: int|
                        0 <= v < n && 0 <= j < moves[v].len() ==> (#[trigger] moves[v][j]).to < n,
                    self.positive() ==> forall|v: int, j: int|
                        0 <= v < n && 0 <= j < moves[v].len() ==> (#[trigger] moves[v][j]).cost
                            >= 1,
                    forall|a: int, b: int, c: int|
                        #![trigger linked_in(moves@, b, a, c)]
                        #![trigger linked_before(self.moves@, a, b, c, u as int, k as int)]
                        linked_in(moves@, b, a, c) <==> linked_before(
                            self.moves@,
                            a,
                            b,
                            c,
                            u as int,
                            k as int,
                        ),
                decreases self.moves[u as int].len() - k,
            {
                let step = self.moves[u][k];
                assert(step == self.moves[u as int][k as int]);
                let ghost before = moves@;
                let back = Step { to: u, cost: step.cost };
                moves[step.to].push(back);
                proof {
                    let target = step.to as int;
                    assert forall|a: int, b: int, c: int|
                        #![trigger linked_in(moves@, b, a, c)]
                        #![trigger linked_before(self.moves@, a, b, c, u as int, k + 1)]
                        linked_in(moves@, b, a, c) <==> linked_before(
                            self.moves@,
                            a,
                            b,
                            c,
                            u as int,
                            k + 1,
                        ) by {
                        if linked_in(moves@, b, a, c) {
                            let j = choose|j: int|
                                0 <= j < moves[b].len() && (#[trigger] moves[b][j]).to == a
                                    && moves[b][j].cost == c;
                            if b == target && j == before[b].len() {
                                assert(self.moves[u as int][k as int].to == b);
                                assert(linked_before(self.moves@, a, b, c, u as int, k + 1));
                            } else {
                                assert(before[b][j] == moves[b][j]);
                                assert(linked_in(before, b, a, c));
                                assert(linked_before(self.moves@, a, b, c, u as int, k as int));
                                let m = choose|m: int|
                                    0 <= m < self.moves[a].len() && (#[trigger] self.moves[a][m]).to
                                        == b && self.moves[a][m].cost == c && (a < u || (a == u
                                        && m < k));
                                assert(linked_before(self.moves@, a, b, c, u as int, k + 1));
                            }
                        }
                        if linked_before(self.moves@, a, b, c, u as int, k + 1) {
                            let m = choose|m: int|
                                0 <= m < self.moves[a].len() && (#[trigger] self.moves[a][m]).to == b
                                    && self.moves[a][m].cost == c && (a < u || (a == u && m < k
                                    + 1));
                            if a == u && m == k {
                                assert(moves[b][before[b].len() as int] == back);
                                assert(linked_in(moves@, b, a, c));
                            } else {
                                assert(linked_before(self.moves@, a, b, c, u as int, k as int));
                                assert(linked_in(before, b, a, c));
                                let j = choose|j: int|
                                    0 <= j < before[b].len() && (#[trigger] before[b][j]).to == a
                                        && before[b][j].cost == c;
                                assert(moves[b][j] == before[b][j]);
                                assert(linked_in(moves@, b, a, c));
                            }
                        }
                    }
                    assert forall|v: int, j: int|
                        0 <= v < n && 0 <= j < moves[v].len() implies (#[trigger] moves[v][j]).to
                        < n by {
                        if v == target && j == before[v].len() {
                        } else {
                            assert(moves[v][j] == before[v][j]);
                        }
                    }
                    if self.positive() {
                        assert forall|v: int, j: int|
                            0 <= v < n && 0 <= j < moves[v].len() implies (
                        #[trigger] moves[v][j]).cost >= 1 by {
                            if v == target && j == before[v].len() {
                            } else {
                                assert(moves[v][j] == before[v][j]);
                            }
                        }
                    }
                }
                k += 1;
            }
            proof {
                assert forall|a: int, b: int, c: int|
                    #![trigger linked_in(moves@, b, a, c)]
                    #![trigger linked_before(self.moves@, a, b, c, u + 1, 0)]
                    linked_in(moves@, b, a, c) <==> linked_before(self.moves@, a, b, c, u + 1, 0) by {
                    if linked_before(self.moves@, a, b, c, u as int, k as int) {
                        let m = choose|m: int|
                            0 <= m < self.moves[a].len() && (#[trigger] self.moves[a][m]).to == b
                                && self.moves[a][m].cost == c && (a < u || (a == u && m < k));
                        assert(linked_before(self.moves@, a, b, c, u + 1, 0));
                    }
                    if linked_before(self.moves@, a, b, c, u + 1, 0) {
                        let m = choose|m: int|
                            0 <= m < self.moves[a].len() && (#[trigger] self.moves[a][m]).to == b
                                && self.moves[a][m].cost == c && (a < u + 1 || (a == u + 1 && m
                                < 0));
                        assert(linked_before(self.moves@, a, b, c, u as int, k as int));
                    }
                }
            }
            u += 1;
        }
        let r = StateSpace { moves };
        proof {
            assert forall|a: int, b: int, c: int|
                #![trigger r.linked(b, a, c)]
                #![trigger self.linked(a, b, c)]
                r.linked(b, a, c) <==> self.linked(a, b, c) by {
                assert(r.linked(b, a, c) == linked_in(r.moves@, b, a, c));
                if self.linked(a, b, c) {
                    let m = choose|m: int|
                        0 <= m < self.moves[a].len() && (#[trigger] self.moves[a][m]).to == b
                            && self.moves[a][m].cost == c;
                    assert(linked_before(self.moves@, a, b, c, n as int, 0));
                }
                if linked_before(self.moves@, a, b, c, n as int, 0) {
                    let m = choose|m: int|
                        0 <= m < self.moves[a].len() && (#[trigger] self.moves[a][m]).to == b
                            && self.moves[a][m].cost == c && (a < n || (a == n && m < 0));
                    assert(self.linked(a, b, c));
                }
            }
        }
        r
    }
}

/// A walk taken backwards.
pub open spec fn flipped(t: Trail) -> Trail {
    Trail {
        states: Seq::new(t.states.len(), |i: int| t.states[t.states.len() - 1 - i]),
        fees: Seq::new(t.fees.len(), |i: int| t.fees[t.fees.len() - 1 - i]),
    }
}

/// The walk `first` followed by the walk `second`, which starts where `first` ends.
pub open spec fn joined(first: Trail, second: Trail) -> Trail {
    Trail { states: first.states + second.states.drop_first(), fees: first.fees + second.fees }
}

/// The first `m` moves of a walk.
pub open spec fn head(t: Trail, m: int) -> Trail {
    Trail { states: t.states.take(m + 1), fees: t.fees.take(m) }
}

/// A walk without its first `m` moves.
pub open spec fn tail(t: Trail, m: int) -> Trail {
    Trail { states: t.states.skip(m), fees: t.fees.skip(m) }
}

/// A single fee adds up to itself.
pub proof fn lemma_total_single(fee: int)
    ensures
        total(seq![fee]) == fee,
{
    let s = seq![fee];
    assert(s.drop_last().len() == 0);
    assert(total(s.drop_last()) == 0);
    assert(s.last() == fee);
}

/// The fees of two lists add up.
pub proof fn lemma_total_concat(a: Seq<int>, b: Seq<int>)
    ensures
        total(a + b) == total(a) + total(b),
    decreases b.len(),
{
    if b.len() == 0 {
        assert(a + b =~= a);
    } else {
        assert((a + b).drop_last() =~= a + b.drop_last());
        lemma_total_concat(a, b.drop_last());
    }
}

/// A list of fees adds up to the same in either direction.
pub proof fn lemma_total_flipped(a: Seq<int>)
    ensures
        total(Seq::new(a.len(), |i: int| a[a.len() - 1 - i])) == total(a),
    decreases a.len(),
{
    let r = Seq::new(a.len(), |i: int| a[a.len() - 1 - i]);
    if a.len() > 0 {
        let shorter = a.drop_last();
        let rs = Seq::new(shorter.len(), |i: int| shorter[shorter.len() - 1 - i]);
        lemma_total_flipped(shorter);
        assert(r =~= seq![a.last()] + rs);
        lemma_total_concat(seq![a.last()], rs);
        lemma_total_single(a.last());
    }
}

/// A walk along moves that cost at least one costs at least as much as it has moves.
pub proof fn lemma_total_counts_moves(links: spec_fn(int, int, int) -> bool, t: Trail)
    requires
        is_trail(links, t),
        forall|a: int, b: int, c: int| #[trigger] links(a, b, c) ==> c >= 1,
    ensures
        total(t.fees) >= t.fees.len(),
    decreases t.fees.len(),
{
    if t.fees.len() > 0 {
        let n = t.fees.len() as int;
        let shorter = Trail { states: t.states.drop_last(), fees: t.fees.drop_last() };
        assert(links(t.states[n - 1], t.states[n], t.fees[n - 1]));
        assert forall|i: int| 0 <= i < shorter.fees.len() implies links(
            shorter.states[i],
            shorter.states[i + 1],
            #[trigger] shorter.fees[i],
        ) by {
            assert(links(t.states[i], t.states[i + 1], t.fees[i]));
        }
        lemma_total_counts_moves(links, shorter);
    }
}

/// A walk taken backwards is a walk along the reversed moves, at the same cost.
pub proof fn lemma_flip(
    links: spec_fn(int, int, int) -> bool,
    back: spec_fn(int, int, int) -> bool,
    t: Trail,
)
    requires
        is_trail(links, t),
        forall|a: int, b: int, c: int| #[trigger] links(a, b, c) ==> back(b, a, c),
    ensures
        is_trail(back, flipped(t)),
        total(flipped(t).fees) == total(t.fees),
        flipped(t).states[0] == t.states.last(),
        flipped(t).states.last() == t.states[0],
{
    let f = flipped(t);
    let n = t.fees.len() as int;
    assert forall|i: int| 0 <= i < f.fees.len() implies back(
        f.states[i],
        f.states[i + 1],
        #[trigger] f.fees[i],
    ) by {
        assert(links(t.states[n - 1 - i], t.states[n - i], t.fees[n - 1 - i]));
    }
    lemma_total_flipped(t.fees);
}

/// Two walks that meet make one walk, and their costs add up.
pub proof fn lemma_join(links: spec_fn(int, int, int) -> bool, first: Trail, second: Trail)
    requires
        is_trail(links, first),
        is_trail(links, second),
        first.states.last() == second.states[0],
    ensures
        is_trail(links, joined(first, second)),
        total(joined(first, second).fees) == total(first.fees) + total(second.fees),
        joined(first, second).states[0] == first.states[0],
        joined(first, second).states.last() == second.states.last(),
        forall|i: int|
            0 <= i < first.states.len() ==> joined(first, second).states[i] == first.states[i],
{
    let j = joined(first, second);
    let n = first.fees.len() as int;
    assert forall|i: int| 0 <= i < j.fees.len() implies links(
        j.states[i],
        j.states[i + 1],
        #[trigger] j.fees[i],
    ) by {
        if i < n {
            assert(links(first.states[i], first.states[i + 1], first.fees[i]));
        } else {
            assert(links(second.states[i - n], second.states[i - n + 1], second.fees[i - n]));
        }
    }
    lemma_total_concat(first.fees, second.fees);
}

/// A walk cut at one of its states gives two walks whose costs add up.
pub proof fn lemma_cut(links: spec_fn(int, int, int) -> bool, t: Trail, m: int)
    requires
        is_trail(links, t),
        0 <= m < t.states.len(),
    ensures
        is_trail(links, head(t, m)),
        is_trail(links, tail(t, m)),
        total(head(t, m).fees) + total(tail(t, m).fees) == total(t.fees),
        head(t, m).states[0] == t.states[0],
        head(t, m).states.last() == t.states[m],
        tail(t, m).states[0] == t.states[m],
        tail(t, m).states.last() == t.states.last(),
{
    let h = head(t, m);
    let l = tail(t, m);
    assert forall|i: int| 0 <= i < h.fees.len() implies links(
        h.states[i],
        h.states[i + 1],
        #[trigger] h.fees[i],
    ) by {
        assert(links(t.states[i], t.states[i + 1], t.fees[i]));
    }
    assert forall|i: int| 0 <= i < l.fees.len() implies links(
        l.states[i],
        l.states[i + 1],
        #[trigger] l.fees[i],
    ) by {
        assert(links(t.states[i + m], t.states[i + m + 1], t.fees[i + m]));
    }
    assert(t.fees =~= h.fees + l.fees);
    lemma_total_concat(h.fees, l.fees);
}

/// Whether the cache holds, for every state, the cheapest cost of reaching
/// it from a seed along `links`.
pub open spec fn charted(
    links: spec_fn(int, int, int) -> bool,
    seeds: Seq<usize>,
    best: Seq<Option<u64>>,
) -> bool {
    &&& forall|v: int|
        0 <= v < best.len() ==> match #[trigger] best[v] {
            Some(c) => is_cheapest(links, seeds, v, c as int),
            None => out_of_reach(links, seeds, v),
        }
    &&& forall|t: Trail, v: int| #[trigger] runs(links, seeds, t, v) ==> 0 <= v < best.len()
}

/// In a charted space whose moves cost at least one, every state that is
/// reached at a positive cost has a predecessor from which the last move
/// makes up exactly the difference.
pub proof fn lemma_tight_predecessor(
    links: spec_fn(int, int, int) -> bool,
    seeds: Seq<usize>,
    best: Seq<Option<u64>>,
    v: int,
) -> (r: (int, int))
    requires
        charted(links, seeds, best),
        forall|a: int, b: int, c: int| #[trigger] links(a, b, c) ==> c >= 1,
        0 <= v < best.len(),
        best[v] is Some,
        best[v]->0 > 0,
    ensures
        links(r.0, v, r.1),
        0 <= r.0 < best.len(),
        best[r.0] == Some((best[v]->0 - r.1) as u64),
        1 <= r.1 <= best[v]->0,
{
    let c = best[v]->0 as int;
    let t = choose|t: Trail| #[trigger] runs(links, seeds, t, v) && total(t.fees) == c;
    let n = t.fees.len() as int;
    assert(n > 0);
    let u = t.states[n - 1];
    let fee = t.fees[n - 1];
    assert(links(t.states[n - 1], t.states[n], t.fees[n - 1]));
    lemma_cut(links, t, n - 1);
    let h = head(t, n - 1);
    let l = tail(t, n - 1);
    assert(l.fees =~= seq![fee]);
    lemma_total_single(fee);
    lemma_total_counts_moves(links, h);
    assert(runs(links, seeds, h, u));
    assert(best[u] is Some);
    lemma_extend(links, seeds, u, best[u]->0 as int, v, fee);
    let longer = choose|x: Trail| #[trigger]
        runs(links, seeds, x, v) && total(x.fees) == best[u]->0 + fee;
    assert(c <= total(longer.fees));
    (u, fee)
}

/// Whether the `k`-th backward move out of `v` comes from a state whose
/// cheapest cost, plus the price of the move, is `c`.
pub open spec fn tight(back: StateSpace, best: Seq<Option<u64>>, v: int, c: int, k: int) -> bool {
    &&& 0 <= k < back.moves[v].len()
    &&& back.moves[v][k].cost <= c
    &&& best[back.moves[v][k].to as int] == Some((c - back.moves[v][k].cost) as u64)
}

/// Finds a move by which a cheapest walk can enter `state`.
fn find_tight(back: &StateSpace, cache: &StateCache, state: usize, cost: u64) -> (k: usize)
    requires
        back.wf(),
        cache.best.len() == back.moves.len(),
        state < back.moves.len(),
        exists|j: int| #[trigger] tight(*back, cache.best@, state as int, cost as int, j),
    ensures
        tight(*back, cache.best@, state as int, cost as int, k as int),
{
    let steps = &back.moves[state];
    let mut k: usize = 0;
    loop
        invariant
            back.wf(),
            cache.best.len() == back.moves.len(),
            state < back.moves.len(),
            steps == back.moves[state as int],
            exists|j: int| j >= k && #[trigger] tight(*back, cache.best@, state as int, cost as int, j),
        decreases steps.len() - k,
    {
        let step = steps[k];
        if step.cost <= cost {
            match cache.best[step.to] {
                Some(before) => {
                    if before == cost - step.cost {
                        return k;
                    }
                },
                None => {},
            }
        }
        k += 1;
    }
}

/// Reads a cheapest walk to `goal` off a charted cache, by stepping back
/// from `goal` to a seed along the reversed moves `back`. The result lists
/// the states of the walk from the seed to `goal`.
pub fn trace_back(back: &StateSpace, cache: &StateCache, seeds: &Vec<usize>, goal: usize) -> (path:
    Vec<usize>)
    requires
        back.wf(),
        back.positive(),
        cache.best.len() == back.moves.len(),
        goal < back.moves.len(),
        cache.best[goal as int] is Some,
        charted(back.backward_links(), seeds@, cache.best@),
    ensures
        path.len() >= 1,
        exists|t: Trail| #[trigger]
            runs(back.backward_links(), seeds@, t, goal as int) && total(t.fees)
                == cache.best[goal as int]->0 && t.states.len() == path.len() && forall|i: int|
                0 <= i < path.len() ==> path[i] == t.states[i],
{
    let ghost links = back.backward_links();
    let mut reverse: Vec<usize> = Vec::new();
    reverse.push(goal);
    let mut current = goal;
    let mut cost: u64 = match cache.best[goal] {
        Some(c) => c,
        None => 0,
    };
    let ghost mut rest = Trail { states: seq![goal as int], fees: Seq::empty() };
    proof {
        assert forall|a: int, b: int, c: int| #[trigger] links(a, b, c) implies c >= 1 by {
            assert(back.linked(b, a, c));
        }
    }
    while cost > 0
        invariant
            back.wf(),
            back.positive(),
            links == back.backward_links(),
            forall|a: int, b: int, c: int| #[trigger] links(a, b, c) ==> c >= 1,
            cache.best.len() == back.moves.len(),
            goal < back.moves.len(),
            cache.best[goal as int] is Some,
            charted(links, seeds@, cache.best@),
            current < back.moves.len(),
            cache.best[current as int] == Some(cost),
            is_trail(links, rest),
            rest.states[0] == current,
            rest.states.last() == goal,
            total(rest.fees) + cost == cache.best[goal as int]->0,
            reverse.len() == rest.states.len(),
            forall|i: int|
                0 <= i < reverse.len() ==> reverse[i] == rest.states[rest.states.len() - 1 - i],
        decreases cost,
    {
        proof {
            let (u, fee) = lemma_tight_predecessor(links, seeds@, cache.best@, current as int);
            assert(back.linked(current as int, u, fee));
            let j = choose|j: int|
                0 <= j < back.moves[current as int].len() && (
                #[trigger] back.moves[current as int][j]).to == u
                    && back.moves[current as int][j].cost == fee;
            assert(tight(*back, cache.best@, current as int, cost as int, j));
        }
        let k = find_tight(back, cache, current, cost);
        let step = back.moves[current][k];
        proof {
            let longer = Trail {
                states: seq![step.to as int] + rest.states,
                fees: seq![step.cost as int] + rest.fees,
            };
            assert(back.linked(current as int, step.to as int, step.cost as int));
            assert forall|i: int| 0 <= i < longer.fees.len() implies links(
                longer.states[i],
                longer.states[i + 1],
                #[trigger] longer.fees[i],
            ) by {
                if i > 0 {
                    assert(links(rest.states[i - 1], rest.states[i], rest.fees[i - 1]));
                }
            }
            lemma_total_concat(seq![step.cost as int], rest.fees);
            lemma_total_single(step.cost as int);
            rest = longer;
        }
        reverse.push(step.to);
        current = step.to;
        cost = cost - step.cost;
    }
    proof {
        let t0 = choose|t: Trail| #[trigger]
            runs(links, seeds@, t, current as int) && total(t.fees) == 0;
        lemma_total_counts_moves(links, t0);
        assert(runs(links, seeds@, rest, goal as int));
    }
    let mut path: Vec<usize> = Vec::new();
    let mut i: usize = reverse.len();
    while i > 0
        invariant
            i <= reverse.len(),
            reverse.len() == rest.states.len(),
            path.len() == reverse.len() - i,
            forall|a: int|
                0 <= a < reverse.len() ==> reverse[a] == rest.states[rest.states.len() - 1 - a],
            forall|a: int| 0 <= a < path.len() ==> path[a] == rest.states[a],
        decreases i,
    {
        i -= 1;
        path.push(reverse[i]);
    }
    path
}

/// Whether the cache has seen the state with a given number.
pub open spec fn seen(best: Seq<Option<u64>>) -> spec_fn(int) -> bool {
    |v: int| 0 <= v < best.len() && best[v] is Some
}

impl StateCache {
    /// How many states the cache has seen.
    pub fn count_seen(&self) -> (r: usize)
        ensures
            r == count_below(self.best.len() as int, seen(self.best@)),
    {
        let mut count: usize = 0;
        let mut i: usize = 0;
        while i < self.best.len()
            invariant
                i <= self.best.len(),
                count == count_below(i as int, seen(self.best@)),
            decreases self.best.len() - i,
        {
            proof {
                lemma_count_bound(i as int, seen(self.best@));
            }
            if self.best[i].is_some() {
                count += 1;
            }
            i += 1;
        }
        count
    }
}

/// Counts the states that can be reached from one of the seeds at a cost
/// that fits in 64 bits.
pub fn count_reachable(space: &StateSpace, seeds: &Vec<usize>) -> (r: usize)
    requires
        space.wf(),
        forall|i: int| 0 <= i < seeds.len() ==> (#[trigger] seeds[i]) < space.moves.len(),
    ensures
        exists|best: Seq<Option<u64>>|
            best.len() == space.moves.len() && #[trigger] charted(space.links(), seeds@, best) && r
                == count_below(best.len() as int, seen(best)),
{
    let cache = explore(space, seeds);
    assert(charted(space.links(), seeds@, cache.best@));
    cache.count_seen()
}

/// Reachability only grows when moves are added: a search over more moves
/// and at least as many states, from the same seeds, sees every state that
/// the search over fewer moves sees, and so counts at least as many.
pub proof fn lemma_more_moves_reach_more(
    fewer: spec_fn(int, int, int) -> bool,
    more: spec_fn(int, int, int) -> bool,
    seeds: Seq<usize>,
    before: Seq<Option<u64>>,
    after: Seq<Option<u64>>,
)
    requires
        charted(fewer, seeds, before),
        charted(more, seeds, after),
        before.len() <= after.len(),
        forall|a: int, b: int, c: int| #[trigger] fewer(a, b, c) ==> more(a, b, c),
    ensures
        forall|v: int| #[trigger] seen(before)(v) ==> seen(after)(v),
        count_below(before.len() as int, seen(before)) <= count_below(
            after.len() as int,
            seen(after),
        ),
{
    assert forall|v: int| #[trigger] seen(before)(v) implies seen(after)(v) by {
        let c = before[v]->0 as int;
        let t = choose|t: Trail| #[trigger] runs(fewer, seeds, t, v) && total(t.fees) == c;
        assert forall|i: int| 0 <= i < t.fees.len() implies more(
            t.states[i],
            t.states[i + 1],
            #[trigger] t.fees[i],
        ) by {
            assert(fewer(t.states[i], t.states[i + 1], t.fees[i]));
        }
        assert(runs(more, seeds, t, v));
    }
    lemma_count_monotone(before.len() as int, seen(before), seen(after));
    lemma_count_grows(before.len() as int, after.len() as int, seen(after));
}

/// A walk can be shortened to one between the same two states that comes
/// through no state twice. Such a walk has no more states than there are
/// numbers to name them.
pub proof fn lemma_shorten(links: spec_fn(int, int, int) -> bool, t: Trail, n: int) -> (s: Trail)
    requires
        is_trail(links, t),
        forall|i: int| 0 <= i < t.states.len() ==> 0 <= #[trigger] t.states[i] < n,
    ensures
        is_trail(links, s),
        s.states[0] == t.states[0],
        s.states.last() == t.states.last(),
        s.states.no_duplicates(),
        s.states.len() <= n,
        s.states.len() <= t.states.len(),
        forall|i: int| 0 <= i < s.states.len() ==> 0 <= #[trigger] s.states[i] < n,
    decreases t.states.len(),
{
    if t.states.no_duplicates() {
        t.states.unique_seq_to_set();
        assert(0 <= t.states[0] < n);
        vstd::set_lib::lemma_int_range(0, n);
        assert forall|x: int| t.states.to_set().contains(x) implies vstd::set_lib::set_int_range(
            0,
            n,
        ).contains(x) by {
            let i = choose|i: int| 0 <= i < t.states.len() && t.states[i] == x;
            assert(0 <= t.states[i] < n);
        }
        vstd::set_lib::lemma_len_subset(t.states.to_set(), vstd::set_lib::set_int_range(0, n));
        t
    } else {
        let (a, b) = choose|a: int, b: int|
            0 <= a < t.states.len() && 0 <= b < t.states.len() && a != b && t.states[a]
                == t.states[b];
        let i = if a < b {
            a
        } else {
            b
        };
        let j = if a < b {
            b
        } else {
            a
        };
        lemma_cut(links, t, i);
        lemma_cut(links, t, j);
        let h = head(t, i);
        let l = tail(t, j);
        lemma_join(links, h, l);
        let shorter = joined(h, l);
        assert forall|k: int| 0 <= k < shorter.states.len() implies 0 <= #[trigger] shorter.states[k]
            < n by {
            if k < h.states.len() {
                assert(shorter.states[k] == t.states[k]);
            } else {
                assert(shorter.states[k] == t.states[k - i + j]);
            }
        }
        lemma_shorten(links, shorter, n)
    }
}

/// A walk along moves that cost at most `limit` costs at most `limit` for
/// each of its moves.
pub proof fn lemma_total_at_most(links: spec_fn(int, int, int) -> bool, t: Trail, limit: int)
    requires
        is_trail(links, t),
        forall|a: int, b: int, c: int| #[trigger] links(a, b, c) ==> c <= limit,
    ensures
        total(t.fees) <= limit * t.fees.len(),
    decreases t.fees.len(),
{
    if t.fees.len() > 0 {
        let n = t.fees.len() as int;
        let shorter = Trail { states: t.states.drop_last(), fees: t.fees.drop_last() };
        assert(links(t.states[n - 1], t.states[n], t.fees[n - 1]));
        assert forall|i: int| 0 <= i < shorter.fees.len() implies links(
            shorter.states[i],
            shorter.states[i + 1],
            #[trigger] shorter.fees[i],
        ) by {
            assert(links(t.states[i], t.states[i + 1], t.fees[i]));
        }
        lemma_total_at_most(links, shorter, limit);
        assert(limit * (n - 1) + limit == limit * n) by (nonlinear_arith);
    } else {
        assert(limit * 0 == 0);
    }
}

/// Whether every move along `links` costs one and stays among the first `n` states.
pub open spec fn unit_links(links: spec_fn(int, int, int) -> bool, n: int) -> bool {
    forall|a: int, b: int, c: int| #[trigger] links(a, b, c) ==> c == 1 && 0 <= a < n && 0 <= b < n
}

/// A walk whose moves cost one each costs as much as it has moves.
pub proof fn lemma_unit_cost(links: spec_fn(int, int, int) -> bool, n: int, t: Trail)
    requires
        unit_links(links, n),
        is_trail(links, t),
    ensures
        total(t.fees) == t.fees.len(),
    decreases t.fees.len(),
{
    if t.fees.len() > 0 {
        let m = t.fees.len() as int;
        let shorter = Trail { states: t.states.drop_last(), fees: t.fees.drop_last() };
        assert(links(t.states[m - 1], t.states[m], t.fees[m - 1]));
        assert forall|i: int| 0 <= i < shorter.fees.len() implies links(
            shorter.states[i],
            shorter.states[i + 1],
            #[trigger] shorter.fees[i],
        ) by {
            assert(links(t.states[i], t.states[i + 1], t.fees[i]));
        }
        lemma_unit_cost(links, n, shorter);
    }
}

/// Where every move costs one, the cache of a finished search has seen
/// exactly the states to which a walk leads from a seed.
pub proof fn lemma_seen_is_reached(
    links: spec_fn(int, int, int) -> bool,
    seeds: Seq<usize>,
    best: Seq<Option<u64>>,
    u: int,
)
    requires
        charted(links, seeds, best),
        unit_links(links, best.len() as int),
        best.len() <= u64::MAX,
        0 <= u < best.len(),
        forall|i: int| 0 <= i < seeds.len() ==> (#[trigger] seeds[i]) < best.len(),
    ensures
        best[u] is Some <==> exists|t: Trail| #[trigger] runs(links, seeds, t, u),
{
    if best[u] is Some {
        let t = choose|t: Trail| #[trigger] runs(links, seeds, t, u) && total(t.fees) == best[u]->0;
        assert(runs(links, seeds, t, u));
    }
    if exists|t: Trail| #[trigger] runs(links, seeds, t, u) {
        let t = choose|t: Trail| #[trigger] runs(links, seeds, t, u);
        assert forall|i: int| 0 <= i < t.states.len() implies 0 <= #[trigger] t.states[i]
            < best.len() by {
            if i > 0 {
                assert(links(t.states[i - 1], t.states[i], t.fees[i - 1]));
            } else {
                let k = choose|k: int| 0 <= k < seeds.len() && #[trigger] seeds[k] == t.states[0];
            }
        }
        let s = lemma_shorten(links, t, best.len() as int);
        lemma_unit_cost(links, best.len() as int, s);
        assert(runs(links, seeds, s, u));
    }
}

/// Whether `list` holds a move to `b`.
pub open spec fn leads_to(list: Seq<Step>, b: int) -> bool {
    exists|k: int| 0 <= k < list.len() && (#[trigger] list[k]).to == b
}

/// Whether the moves laid out so far, one list for each of the first
/// states, are the moves that `links` has out of those states, each at
/// price one.
pub open spec fn laid_out(moves: Seq<Vec<Step>>, links: spec_fn(int, int, int) -> bool) -> bool {
    &&& forall|v: int, k: int|
        0 <= v < moves.len() && 0 <= k < moves[v].len() ==> (#[trigger] moves[v][k]).cost == 1
    &&& forall|a: int, y: int|
        #![trigger linked_in(moves, a, y, 1)]
        linked_in(moves, a, y, 1) <==> (links(a, y, 1) && 0 <= a < moves.len())
}

/// Appends a move to `to` at price one if it is wanted.
pub fn offer(out: &mut Vec<Step>, wanted: bool, to: usize)
    requires
        forall|k: int| 0 <= k < old(out).len() ==> (#[trigger] old(out)[k]).cost == 1,
    ensures
        forall|y: int|
            #![trigger leads_to(final(out)@, y)]
            leads_to(final(out)@, y) <==> (leads_to(old(out)@, y) || (wanted && y == to)),
        forall|k: int| 0 <= k < final(out).len() ==> (#[trigger] final(out)[k]).cost == 1,
{
    let ghost before = out@;
    if wanted {
        out.push(Step { to, cost: 1 });
    }
    proof {
        assert forall|y: int| #![trigger leads_to(out@, y)] leads_to(out@, y) <==> (leads_to(
            before,
            y,
        ) || (wanted && y == to)) by {
            if leads_to(before, y) {
                let k = choose|k: int| 0 <= k < before.len() && (#[trigger] before[k]).to == y;
                assert(out@[k] == before[k]);
            }
            if wanted && y == to {
                assert(out@[before.len() as int].to == y);
            }
            if leads_to(out@, y) {
                let k = choose|k: int| 0 <= k < out@.len() && (#[trigger] out@[k]).to == y;
                if k < before.len() {
                    assert(before[k] == out@[k]);
                }
            }
        }
        assert forall|k: int| 0 <= k < out.len() implies (#[trigger] out[k]).cost == 1 by {
            if k < before.len() {
                assert(out[k] == before[k]);
            }
        }
    }
}

/// Lays out the moves of the next state.
pub fn add_state(moves: &mut Vec<Vec<Step>>, out: Vec<Step>, Ghost(links): Ghost<
    spec_fn(int, int, int) -> bool,
>)
    requires
        laid_out(old(moves)@, links),
        forall|k: int| 0 <= k < out.len() ==> (#[trigger] out[k]).cost == 1,
        forall|y: int|
            #![trigger leads_to(out@, y)]
            leads_to(out@, y) <==> links(old(moves).len() as int, y, 1),
    ensures
        final(moves).len() == old(moves).len() + 1,
        laid_out(final(moves)@, links),
{
    let ghost before = moves@;
    let ghost out_view = out@;
    let ghost x = moves.len() as int;
    moves.push(out);
    proof {
        assert(moves@[x]@ == out_view);
        assert forall|a: int, y: int|
            #![trigger linked_in(moves@, a, y, 1)]
            linked_in(moves@, a, y, 1) <==> (links(a, y, 1) && 0 <= a < moves.len()) by {
            if 0 <= a < x {
                assert(moves@[a] == before[a]);
                assert(linked_in(moves@, a, y, 1) == linked_in(before, a, y, 1));
            } else if a == x {
                if linked_in(moves@, a, y, 1) {
                    let k = choose|k: int|
                        0 <= k < moves[a].len() && (#[trigger] moves[a][k]).to == y
                            && moves[a][k].cost == 1;
                    assert(out_view[k].to == y);
                    assert(leads_to(out_view, y));
                }
                if links(a, y, 1) {
                    assert(leads_to(out_view, y));
                    let k = choose|k: int| 0 <= k < out_view.len() && (#[trigger] out_view[k]).to == y;
                    assert(moves[a][k].to == y && moves[a][k].cost == 1);
                }
            }
        }
        assert forall|v: int, k: int|
            0 <= v < moves.len() && 0 <= k < moves[v].len() implies (#[trigger] moves[v][k]).cost
            == 1 by {
            if v < x {
                assert(moves@[v] == before[v]);
            }
        }
    }
}

/// Makes a state space of moves that have been laid out for every state.
pub fn close_space(moves: Vec<Vec<Step>>, Ghost(links): Ghost<spec_fn(int, int, int) -> bool>) -> (space:
    StateSpace)
    requires
        laid_out(moves@, links),
        unit_links(links, moves.len() as int),
    ensures
        space.moves == moves,
        space.wf(),
        space.positive(),
        space.links() == links,
{
    let space = StateSpace { moves };
    proof {
        assert forall|a: int, y: int, c: int| space.linked(a, y, c) == links(a, y, c) by {
            assert(space.linked(a, y, c) == linked_in(space.moves@, a, y, c));
            if space.linked(a, y, c) {
                let k = choose|k: int|
                    0 <= k < space.moves[a].len() && (#[trigger] space.moves[a][k]).to == y
                        && space.moves[a][k].cost == c;
                assert(c == 1);
            }
            if links(a, y, c) {
                assert(linked_in(space.moves@, a, y, 1));
            }
        }
        assert(space.links() =~= links);
        assert forall|s: int, k: int|
            0 <= s < space.moves.len() && 0 <= k < space.moves[s].len() implies (
        #[trigger] space.moves[s][k]).to < space.moves.len() by {
            assert(linked_in(space.moves@, s, space.moves[s][k].to as int, 1));
        }
    }
    space
}

} // verus!
