use puzzle_solvers::explorer::{
    count_reachable, expand, explore, prune, trace_back, SearchState, StateCache, StateSpace, Step,
};

fn step(to: usize, cost: u64) -> Step {
    Step { to, cost }
}

fn diamond() -> StateSpace {
    // 0 -> 1 -> 3 costs 1 + 5, 0 -> 2 -> 3 costs 2 + 2, and 4 stands alone.
    StateSpace {
        moves: vec![
            vec![step(1, 1), step(2, 2)],
            vec![step(3, 5)],
            vec![step(3, 2)],
            vec![],
            vec![step(0, 1)],
        ],
    }
}

#[test]
fn cache_accepts_first_and_strictly_better_offers() {
    let mut cache = StateCache::new(3);
    assert_eq!(cache.best, vec![None, None, None]);
    assert!(cache.consider_candidate(1, 10));
    assert_eq!(cache.best, vec![None, Some(10), None]);
    assert!(!cache.consider_candidate(1, 10));
    assert!(!cache.consider_candidate(1, 11));
    assert_eq!(cache.best, vec![None, Some(10), None]);
    assert!(cache.consider_candidate(1, 9));
    assert_eq!(cache.best, vec![None, Some(9), None]);
    assert_eq!(cache.lookup(1), Some(9));
    assert_eq!(cache.lookup(0), None);
    assert_eq!(cache.lookup(7), None);
    assert_eq!(cache.count_seen(), 1);
}

#[test]
fn cache_costs_never_rise() {
    let mut cache = StateCache::new(1);
    let mut last = u64::MAX;
    for offer in [7, 9, 3, 3, 8, 1, 2] {
        cache.consider_candidate(0, offer);
        let now = cache.lookup(0).unwrap();
        assert!(now <= last);
        last = now;
    }
    assert_eq!(last, 1);
}

#[test]
fn expand_lists_every_move_of_every_entry() {
    let frontier = vec![SearchState { state: 0, cost: 10 }, SearchState { state: 2, cost: 1 }];
    assert_eq!(
        expand(&diamond(), &frontier),
        vec![
            SearchState { state: 1, cost: 11 },
            SearchState { state: 2, cost: 12 },
            SearchState { state: 3, cost: 3 },
        ]
    );
}

#[test]
fn expand_leaves_out_a_cost_that_does_not_fit() {
    let frontier = vec![SearchState { state: 1, cost: u64::MAX - 4 }];
    assert_eq!(expand(&diamond(), &frontier), vec![]);
    let frontier = vec![SearchState { state: 1, cost: u64::MAX - 5 }];
    assert_eq!(expand(&diamond(), &frontier), vec![SearchState { state: 3, cost: u64::MAX }]);
}

#[test]
fn prune_keeps_what_the_cache_accepts() {
    let mut cache = StateCache::new(4);
    let offers = vec![
        SearchState { state: 3, cost: 6 },
        SearchState { state: 3, cost: 4 },
        SearchState { state: 3, cost: 4 },
        SearchState { state: 1, cost: 1 },
        SearchState { state: 3, cost: 5 },
    ];
    let kept = prune(&mut cache, &offers);
    assert_eq!(
        kept,
        vec![
            SearchState { state: 3, cost: 6 },
            SearchState { state: 3, cost: 4 },
            SearchState { state: 1, cost: 1 },
        ]
    );
    assert_eq!(cache.best, vec![None, Some(1), None, Some(4)]);
}

#[test]
fn explore_finds_the_cheapest_costs() {
    let cache = explore(&diamond(), &vec![0]);
    assert_eq!(cache.best, vec![Some(0), Some(1), Some(2), Some(4), None]);
    let cache = explore(&diamond(), &vec![4]);
    assert_eq!(cache.best, vec![Some(1), Some(2), Some(3), Some(5), Some(0)]);
    let cache = explore(&diamond(), &vec![1, 2]);
    assert_eq!(cache.best, vec![None, Some(0), Some(0), Some(2), None]);
    let cache = explore(&diamond(), &vec![]);
    assert_eq!(cache.best, vec![None, None, None, None, None]);
}

#[test]
fn explore_takes_a_longer_walk_when_it_is_cheaper() {
    let space = StateSpace {
        moves: vec![vec![step(3, 100), step(1, 1)], vec![step(2, 1)], vec![step(3, 1)], vec![]],
    };
    assert_eq!(explore(&space, &vec![0]).best, vec![Some(0), Some(1), Some(2), Some(3)]);
}

#[test]
fn explore_does_not_report_a_cost_beyond_64_bits() {
    let space = StateSpace { moves: vec![vec![step(1, u64::MAX)], vec![step(2, 1)], vec![]] };
    assert_eq!(explore(&space, &vec![0]).best, vec![Some(0), Some(u64::MAX), None]);
}

#[test]
fn reversed_turns_every_move_round() {
    let back = diamond().reversed();
    assert_eq!(
        back.moves,
        vec![vec![step(4, 1)], vec![step(0, 1)], vec![step(0, 2)], vec![step(1, 5), step(2, 2)], vec![]]
    );
}

#[test]
fn trace_back_reads_a_cheapest_walk() {
    let space = diamond();
    let seeds = vec![0];
    let cache = explore(&space, &seeds);
    let back = space.reversed();
    assert_eq!(trace_back(&back, &cache, &seeds, 3), vec![0, 2, 3]);
    assert_eq!(trace_back(&back, &cache, &seeds, 1), vec![0, 1]);
    assert_eq!(trace_back(&back, &cache, &seeds, 0), vec![0]);
}

#[test]
fn reach_grows_with_the_moves() {
    let seeds = vec![0];
    let mut space = StateSpace { moves: vec![vec![], vec![], vec![], vec![]] };
    let mut last = count_reachable(&space, &seeds);
    assert_eq!(last, 1);
    for (from, to) in [(1, 2), (0, 1), (2, 0), (2, 3), (3, 3)] {
        space.moves[from].push(step(to, 1));
        let now = count_reachable(&space, &seeds);
        assert!(now >= last);
        last = now;
    }
    assert_eq!(last, 4);
}

#[test]
fn cache_with_ties_accepts_an_equal_price() {
    let mut cache = StateCache::new(3);
    assert!(cache.consider_candidate_or_tie(1, 10));
    assert!(cache.consider_candidate_or_tie(1, 10));
    assert!(!cache.consider_candidate_or_tie(1, 11));
    assert_eq!(cache.lookup(1), Some(10));
    assert!(cache.consider_candidate_or_tie(1, 9));
    assert_eq!(cache.lookup(1), Some(9));
    assert!(cache.consider_candidate_or_tie(2, u64::MAX));
    assert!(cache.consider_candidate_or_tie(2, u64::MAX));
    assert_eq!(cache.lookup(0), None);
}
