use ptsa::engine::PtsaAlgorithm;
use ptsa::error::{ConfigError, InvalidMutation};
use ptsa::helpers::CountUnique;
use ptsa::matrix::DistanceMatrix;
use ptsa::params::{Params, SCALE};
use ptsa::solution::Solution;
use ptsa::state::{
    acceptance, initialize_transition_function_types, window_length_of, ComputedSolution, State,
    StatesContainer,
};
use ptsa::temp::TemperatureBounds;

fn is_permutation(path: &[usize]) -> bool {
    let mut seen = vec![false; path.len()];
    for &c in path {
        if c >= path.len() || seen[c] {
            return false;
        }
        seen[c] = true;
    }
    true
}

fn four_cities() -> DistanceMatrix {
    DistanceMatrix::new(vec![
        vec![0, 1, 2, 3],
        vec![1, 0, 4, 5],
        vec![2, 4, 0, 6],
        vec![3, 5, 6, 0],
    ])
    .unwrap()
}

/// Cities on a line at positions 0, 10, 20, ...: distance is the gap.
fn line(n: usize) -> DistanceMatrix {
    let rows = (0..n)
        .map(|i| (0..n).map(|j| 10 * (i as i64 - j as i64).unsigned_abs()).collect())
        .collect();
    DistanceMatrix::new(rows).unwrap()
}

fn params() -> Params {
    Params {
        number_of_states: 6,
        number_of_repeats: 2,
        number_of_concurrent_threads: 2,
        min_temperature: 1,
        max_temperature: 100,
        probability_of_shuffle: SCALE / 2,
        probability_of_heuristic: SCALE / 2,
        temp_beta_a: 2 * SCALE,
        temp_beta_b: 5 * SCALE,
        max_length_percent_of_cycle: SCALE / 4,
        swap_states_probability: SCALE / 2,
        closeness: SCALE + SCALE / 20,
        cooling_rate: 999_000,
    }
}

fn pool_of(tours: Vec<Vec<usize>>, temps: Vec<u64>, shuffle: bool, dm: DistanceMatrix) -> StatesContainer {
    let mut pool = StatesContainer::new(TemperatureBounds::new(1, 100).unwrap(), dm);
    for (path, t) in tours.into_iter().zip(temps) {
        pool.add(State { solution: Solution::new(path), temperature: t, is_transion_shuffle: shuffle });
    }
    pool
}

#[test]
fn nearest_neighbor_four_cities() {
    let dm = four_cities();
    let tour = Solution::nearest_neightbor_solution(&dm, 0);
    assert_eq!(tour.path, vec![0, 1, 2, 3]);
    assert_eq!(tour.cost(&dm), 14);
}

#[test]
fn nearest_neighbor_starts_at_start_and_visits_all() {
    let dm = line(7);
    for start in 0..7 {
        let tour = Solution::nearest_neightbor_solution(&dm, start);
        assert_eq!(tour.path[0], start);
        assert!(is_permutation(&tour.path));
        let back = Solution::backwards_nearest_neightbor_solution(&dm, start);
        assert_eq!(back.path[0], start);
        assert!(is_permutation(&back.path));
    }
}

#[test]
fn nearest_neighbor_ties_take_lowest_index() {
    let dm = DistanceMatrix::new(vec![vec![0, 5, 5], vec![5, 0, 5], vec![5, 5, 0]]).unwrap();
    assert_eq!(Solution::nearest_neightbor_solution(&dm, 2).path, vec![2, 0, 1]);
}

#[test]
fn backward_nearest_neighbor_reads_transposed_weights() {
    // Leaving 0 the nearest is 1; arriving at 0 the nearest is 2.
    let dm = DistanceMatrix::new(vec![vec![0, 1, 9], vec![9, 0, 9], vec![1, 9, 0]]).unwrap();
    assert_eq!(Solution::nearest_neightbor_solution(&dm, 0).path, vec![0, 1, 2]);
    assert_eq!(Solution::backwards_nearest_neightbor_solution(&dm, 0).path, vec![0, 2, 1]);
}

#[test]
fn segment_swap_twice_restores_tour() {
    let initial: Vec<usize> = (0..11).collect();
    for (i, j, len) in [(0, 3, 3), (5, 6, 3), (1, 2, 4), (9, 1, 2), (10, 0, 4), (4, 4, 2)] {
        let mut s = Solution::new(initial.clone());
        s.swap_parts(i, j, len).unwrap();
        assert!(is_permutation(&s.path));
        s.swap_parts(i, j, len).unwrap();
        assert_eq!(s.path, initial);
    }
}

#[test]
fn segment_swap_too_long_is_refused() {
    let mut s = Solution::new(vec![0, 1, 2, 3, 4, 5, 6]);
    assert_eq!(s.swap_parts(0, 3, 4), Err(InvalidMutation { length: 4, size: 7 }));
    assert_eq!(s.path, vec![0, 1, 2, 3, 4, 5, 6]);
    assert!(s.swap_parts(0, 3, 3).is_ok());
}

#[test]
fn find_swap_indices_cases() {
    let s = Solution::new((0..9).collect());
    assert_eq!(s.find_swap_indices(0, 3, 3), (0, 3));
    assert_eq!(s.find_swap_indices(6, 5, 3), (3, 6));
    assert_eq!(s.find_swap_indices(1, 2, 3), (8, 2));
    assert_eq!(s.find_swap_indices(0, 8, 3), (0, 6));
}

#[test]
fn windowed_shuffle_keeps_permutation() {
    for (start, len) in [(0, 0), (3, 4), (8, 5), (9, 10), (2, 30)] {
        let mut s = Solution::new((0..10).collect());
        s.shuffle(start, len);
        assert!(is_permutation(&s.path));
        if len <= 10 {
            for k in 0..10usize {
                if (k + 10 - start) % 10 >= len {
                    assert_eq!(s.path[k], k);
                }
            }
        }
    }
}

#[test]
fn random_solution_is_shuffled() {
    let s = Solution::random_solution(60);
    assert!(is_permutation(&s.path));
    assert_ne!(s.path, (0..60).collect::<Vec<usize>>());
}

#[test]
fn matrix_errors() {
    assert_eq!(DistanceMatrix::new(vec![]).unwrap_err(), ConfigError::EmptyMatrix);
    assert_eq!(DistanceMatrix::new(vec![vec![0, 1], vec![1]]).unwrap_err(), ConfigError::NotSquare);
    assert_eq!(
        DistanceMatrix::new(vec![vec![0, u64::MAX / 2 + 1], vec![1, 0]]).unwrap_err(),
        ConfigError::WeightTooLarge
    );
    assert!(DistanceMatrix::new(vec![vec![0, u64::MAX / 2], vec![1, 0]]).is_ok());
}

#[test]
fn params_errors() {
    assert_eq!(params().validate(), Ok(()));
    let mut p = params();
    p.number_of_states = 0;
    assert_eq!(PtsaAlgorithm::new(p).unwrap_err(), ConfigError::EmptyPopulation);
    let mut p = params();
    p.number_of_concurrent_threads = 0;
    assert_eq!(p.validate(), Err(ConfigError::NoThreads));
    let mut p = params();
    p.min_temperature = 200;
    assert_eq!(p.validate(), Err(ConfigError::InvalidTemperatureRange));
    let mut p = params();
    p.probability_of_heuristic = SCALE + 1;
    assert_eq!(p.validate(), Err(ConfigError::InvalidProbability));
    let mut p = params();
    p.temp_beta_b = 0;
    assert_eq!(p.validate(), Err(ConfigError::InvalidBetaShape));
    let mut p = params();
    p.cooling_rate = 0;
    assert_eq!(p.validate(), Err(ConfigError::InvalidCoolingRate));
}

#[test]
fn mutation_too_long_for_problem() {
    let mut p = params();
    p.max_length_percent_of_cycle = SCALE / 2;
    let engine = PtsaAlgorithm::new(p).unwrap();
    // ceil(10 * 0.5) = 5 and 3 * 5 - 2 > 10.
    assert_eq!(engine.check_problem(&line(10)), Err(ConfigError::MutationTooLong));
    let engine = PtsaAlgorithm::new(params()).unwrap();
    // ceil(10 * 0.25) = 3 and 3 * 3 - 2 <= 10.
    assert_eq!(engine.check_problem(&line(10)), Ok(()));
}

#[test]
fn temperature_bounds() {
    assert_eq!(TemperatureBounds::new(5, 4), Err(ConfigError::InvalidTemperatureRange));
    let b = TemperatureBounds::new(10, 110).unwrap();
    assert_eq!(b.random_temperature(0), 10);
    assert_eq!(b.random_temperature(SCALE), 110);
    assert_eq!(b.random_temperature(SCALE / 4), 35);
    assert_eq!(b.init_temperatures(&vec![0, SCALE / 2, SCALE]), vec![10, 60, 110]);
    assert_eq!(b.cool(100, SCALE / 2), 50);
    assert_eq!(b.cool(15, SCALE / 2), 10);
}

#[test]
fn acceptance_rule() {
    assert!(acceptance(10, 10, 0, 0));
    assert!(acceptance(10, 7, 0, 0));
    // Excess 5 at temperature 10 needs a unit exponential draw above 0.5.
    assert!(!acceptance(10, 15, 10, 500_000));
    assert!(acceptance(10, 15, 10, 500_001));
    assert!(!acceptance(10, 11, 0, u64::MAX));
}

#[test]
fn transition_types_extremes() {
    assert_eq!(initialize_transition_function_types(5, 0), vec![false; 5]);
    assert_eq!(initialize_transition_function_types(4, SCALE), vec![true; 4]);
}

#[test]
fn pool_add_tracks_best() {
    let dm = line(4);
    let pool = pool_of(vec![vec![0, 2, 1, 3], vec![0, 1, 2, 3], vec![0, 3, 1, 2]], vec![5, 6, 7], true, dm);
    assert_eq!(pool.costs, vec![80, 60, 80]);
    assert_eq!(pool.best_cost, 60);
    let best = pool.best().unwrap();
    assert_eq!(best.solution.path, vec![0, 1, 2, 3]);
    assert_eq!(best.cost, 60);
}

#[test]
fn metropolis_never_raises_best() {
    let dm = line(12);
    let tours: Vec<Vec<usize>> = (0..6).map(|_| Solution::random_solution(12).path).collect();
    let mut pool = pool_of(tours, vec![1, 20, 40, 60, 80, 100], false, dm.clone());
    let mut best = pool.best_cost;
    for round in 0..50u64 {
        let draws = vec![round * 100_000; 6];
        pool.metropolis_tranision(SCALE / 4, &draws);
        assert!(pool.best_cost <= best);
        best = pool.best_cost;
        for (state, cost) in pool.states.iter().zip(&pool.costs) {
            assert!(is_permutation(&state.solution.path));
            assert_eq!(state.solution.cost(&dm), *cost);
        }
    }
}

#[test]
fn metropolis_rejects_worse_at_zero_draw() {
    // Every mutation of the best tour on a line is no better; with zero draws
    // a worse candidate is never taken.
    let dm = line(9);
    let best: Vec<usize> = (0..9).collect();
    let mut pool = pool_of(vec![best.clone(), best.clone()], vec![100, 100], true, dm);
    for _ in 0..30 {
        pool.metropolis_tranision(SCALE / 4, &vec![0, 0]);
        assert_eq!(pool.costs, vec![160, 160]);
    }
}

#[test]
fn exchange_touches_only_temperatures() {
    let dm = line(8);
    let tours: Vec<Vec<usize>> = vec![
        (0..8).collect(),
        vec![0, 4, 1, 5, 2, 6, 3, 7],
        vec![7, 0, 6, 1, 5, 2, 4, 3],
    ];
    let mut pool = pool_of(tours, vec![10, 20, 30], false, dm);
    let paths: Vec<Vec<usize>> = pool.states.iter().map(|s| s.solution.path.clone()).collect();
    let costs = pool.costs.clone();
    for _ in 0..40 {
        pool.replica_transition(SCALE, SCALE);
        let now: Vec<Vec<usize>> = pool.states.iter().map(|s| s.solution.path.clone()).collect();
        assert_eq!(now, paths);
        assert_eq!(pool.costs, costs);
        // The best replica never takes part, so its temperature stays.
        assert_eq!(pool.states[0].temperature, 10);
        let mut temps: Vec<u64> = pool.states[1..].iter().map(|s| s.temperature).collect();
        temps.sort();
        assert_eq!(temps, vec![20, 30]);
    }
}

#[test]
fn exchange_swaps_far_replicas() {
    let dm = line(5);
    let tours: Vec<Vec<usize>> = vec![vec![0, 2, 4, 1, 3], vec![0, 3, 1, 4, 2]];
    let mut pool = pool_of(tours, vec![10, 90], false, dm);
    // Both replicas cost more than half the best cost.
    pool.replica_transition(SCALE, SCALE / 2);
    assert_eq!(pool.states[0].temperature, 90);
    assert_eq!(pool.states[1].temperature, 10);
}

#[test]
fn cool_stops_at_minimum() {
    let dm = line(4);
    let mut pool = pool_of(vec![vec![0, 1, 2, 3], vec![3, 2, 1, 0]], vec![100, 3], true, dm);
    pool.cool(SCALE / 2);
    assert_eq!(pool.states[0].temperature, 50);
    assert_eq!(pool.states[1].temperature, 1);
    for _ in 0..20 {
        pool.cool(SCALE / 3);
    }
    assert!(pool.states.iter().all(|s| s.temperature == 1));
}

/// The starts of all greedy tours, ordered by cost and then by start.
fn ranked_starts(dm: &DistanceMatrix, backward: bool) -> Vec<(u64, usize)> {
    let mut ranked: Vec<(u64, usize)> = (0..dm.size)
        .map(|s| {
            let tour = if backward {
                Solution::backwards_nearest_neightbor_solution(dm, s)
            } else {
                Solution::nearest_neightbor_solution(dm, s)
            };
            (tour.cost(dm), s)
        })
        .collect();
    ranked.sort();
    ranked
}

fn scrambled(n: usize) -> DistanceMatrix {
    let rows = (0..n)
        .map(|i| (0..n).map(|j| if i == j { 0 } else { ((i * 5 + j * 11) % 23 + 1) as u64 }).collect())
        .collect();
    DistanceMatrix::new(rows).unwrap()
}

#[test]
fn heuristic_pool_keeps_cheapest_tenth() {
    let dm = scrambled(23);
    let engine = PtsaAlgorithm::new(params()).unwrap();
    for backward in [false, true] {
        let pool = engine.get_best_heuristic_solutions(&dm, backward);
        let ranked = ranked_starts(&dm, backward);
        assert_eq!(pool.len(), 2);
        for (k, tour) in pool.iter().enumerate() {
            assert_eq!(tour.path[0], ranked[k].1);
            assert_eq!(tour.cost(&dm), ranked[k].0);
        }
    }
    let both = engine.heuristic_solutions(&dm);
    assert_eq!(both.len(), 4);
    assert!(both.iter().all(|s| is_permutation(&s.path)));
}

#[test]
fn heuristic_pool_is_sorted() {
    let dm = scrambled(40);
    let engine = PtsaAlgorithm::new(params()).unwrap();
    let pool = engine.get_best_heuristic_solutions(&dm, false);
    assert_eq!(pool.len(), 4);
    let costs: Vec<u64> = pool.iter().map(|s| s.cost(&dm)).collect();
    let ranked = ranked_starts(&dm, false);
    let expected: Vec<u64> = ranked[..4].iter().map(|r| r.0).collect();
    assert_eq!(costs, expected);
    // The pool is not simply the first starts in order.
    let starts: Vec<usize> = pool.iter().map(|s| s.path[0]).collect();
    assert_eq!(starts, vec![3, 5, 7, 26]);
}

#[test]
fn seeding_from_heuristics_only() {
    let dm = line(20);
    let mut p = params();
    p.probability_of_heuristic = SCALE;
    p.probability_of_shuffle = SCALE;
    let engine = PtsaAlgorithm::new(p).unwrap();
    let heuristics = engine.heuristic_solutions(&dm);
    let samples = vec![0, SCALE / 2, SCALE, SCALE / 4, 0, 0];
    let pool = engine.create_inital_states(6, dm.clone(), &heuristics, &samples);
    assert_eq!(pool.states.len(), 6);
    for (state, sample) in pool.states.iter().zip(&samples) {
        assert!(heuristics.iter().any(|h| h.path == state.solution.path));
        assert!(state.is_transion_shuffle);
        assert_eq!(state.temperature, 1 + 99 * sample / SCALE);
    }
    assert_eq!(pool.best_cost, *pool.costs.iter().min().unwrap());
}

#[test]
fn zero_budget_returns_seeded_best() {
    let dm = line(15);
    let engine = PtsaAlgorithm::new(params()).unwrap();
    let heuristics = engine.heuristic_solutions(&dm);
    let samples = vec![SCALE / 3; 6];
    let mut pool = engine.create_inital_states(6, dm.clone(), &heuristics, &samples);
    let seeded_min = *pool.costs.iter().min().unwrap();
    let seeded_paths: Vec<Vec<usize>> = pool.states.iter().map(|s| s.solution.path.clone()).collect();
    let draws = vec![vec![SCALE; 6]; 2];
    // The deadline is now: the worker stops before any sweep.
    assert!(engine.run_thread_step(&mut pool, 1000, 1000, &draws));
    let now: Vec<Vec<usize>> = pool.states.iter().map(|s| s.solution.path.clone()).collect();
    assert_eq!(now, seeded_paths);
    let best = pool.best().unwrap();
    assert_eq!(best.cost, seeded_min);
    assert_eq!(best.solution.cost(&dm), seeded_min);
}

#[test]
fn worker_step_before_deadline() {
    let dm = line(15);
    let engine = PtsaAlgorithm::new(params()).unwrap();
    let heuristics = engine.heuristic_solutions(&dm);
    let mut pool = engine.create_inital_states(6, dm.clone(), &heuristics, &vec![SCALE; 6]);
    let before = pool.best_cost;
    let draws = vec![vec![SCALE; 6]; 2];
    assert!(!engine.run_thread_step(&mut pool, 999, 1000, &draws));
    assert!(pool.best_cost <= before);
    // One cooling step at 0.999 from the maximum temperature.
    assert!(pool.states.iter().all(|s| s.temperature <= 99));
    let best = pool.best().unwrap();
    assert!(is_permutation(&best.solution.path));
    assert_eq!(best.solution.cost(&dm), best.cost);
}

#[test]
fn reduce_picks_cheapest() {
    let a = ComputedSolution { solution: Solution::new(vec![0, 1, 2]), cost: 9 };
    let b = ComputedSolution { solution: Solution::new(vec![0, 2, 1]), cost: 4 };
    let c = ComputedSolution { solution: Solution::new(vec![1, 0, 2]), cost: 4 };
    let r = PtsaAlgorithm::reduce_results(vec![a, b, c]).unwrap();
    assert_eq!(r.cost, 4);
    assert_eq!(r.solution.path, vec![0, 2, 1]);
    assert!(PtsaAlgorithm::reduce_results(vec![]).is_none());
}

#[test]
fn count_unique_values() {
    assert_eq!(vec![3usize, 1, 3, 2, 1].unique(), 3);
    assert_eq!(Vec::<usize>::new().unique(), 0);
}

#[test]
fn prepare_validates_before_work() {
    let engine = PtsaAlgorithm::new(params()).unwrap();
    assert_eq!(engine.prepare(vec![]).unwrap_err(), ConfigError::EmptyMatrix);
    assert_eq!(engine.prepare(vec![vec![0, 1, 2], vec![1, 0]]).unwrap_err(), ConfigError::NotSquare);
    let mut p = params();
    p.max_length_percent_of_cycle = SCALE;
    let greedy = PtsaAlgorithm::new(p).unwrap();
    assert_eq!(greedy.prepare(line(10).matrix).unwrap_err(), ConfigError::MutationTooLong);
    let (dm, pool) = engine.prepare(line(30).matrix).unwrap();
    assert_eq!(dm.size, 30);
    assert_eq!(pool.len(), 6);
    assert!(pool.iter().all(|s| is_permutation(&s.path)));
}

#[test]
fn fisher_yates_steps_on_wrapped_window() {
    let mut s = Solution::new(vec![0, 1, 2, 3, 4, 5]);
    // Window positions 4, 5, 0: exchange 0 with 5, then 5 with 4, then 4 with itself.
    s.shuffle_window_with(4, &vec![0, 0, 1]);
    assert_eq!(s.path, vec![5, 1, 2, 3, 0, 4]);
    let mut s = Solution::new(vec![0, 1, 2, 3, 4, 5]);
    s.shuffle_window_with(1, &vec![0, 1, 2]);
    assert_eq!(s.path, vec![0, 1, 2, 3, 4, 5]);
}

#[test]
fn window_length_is_exact_ceiling() {
    assert_eq!(window_length_of(10, SCALE / 4, 1, 100), 1);
    assert_eq!(window_length_of(10, SCALE / 4, 100, 100), 3);
    assert_eq!(window_length_of(10, SCALE / 4, 40, 100), 1);
    assert_eq!(window_length_of(10, SCALE / 4, 41, 100), 2);
    assert_eq!(window_length_of(10, 0, 5, 10), 0);
    assert_eq!(window_length_of(10, SCALE, 0, 0), 0);
    assert_eq!(window_length_of(usize::MAX, SCALE, u64::MAX, u64::MAX), usize::MAX);
}

#[test]
fn apply_mutation_with_given_choices() {
    let mut shuffle = State {
        solution: Solution::new(vec![0, 1, 2, 3, 4, 5]),
        temperature: 100,
        is_transion_shuffle: true,
    };
    shuffle.apply_mutation(100, SCALE / 2, 4, 0, &vec![0, 0, 1]).unwrap();
    assert_eq!(shuffle.solution.path, vec![5, 1, 2, 3, 0, 4]);
    let mut swap = State {
        solution: Solution::new(vec![1, 2, 3, 4, 5, 6, 7, 8]),
        temperature: 100,
        is_transion_shuffle: false,
    };
    swap.apply_mutation(100, 375_000, 0, 3, &vec![]).unwrap();
    assert_eq!(swap.solution.path, vec![4, 5, 6, 1, 2, 3, 7, 8]);
    let mut too_long = State {
        solution: Solution::new(vec![0, 1, 2, 3, 4, 5, 6, 7]),
        temperature: 100,
        is_transion_shuffle: false,
    };
    assert!(too_long.apply_mutation(100, SCALE / 2, 0, 3, &vec![]).is_err());
    assert_eq!(too_long.solution.path, vec![0, 1, 2, 3, 4, 5, 6, 7]);
}

#[test]
fn metropolis_decision_at_one_replica() {
    let dm = line(5);
    let mut pool = pool_of(vec![vec![0, 2, 4, 1, 3], vec![0, 1, 2, 3, 4]], vec![10, 10], true, dm);
    assert_eq!(pool.costs, vec![120, 80]);
    // A cheaper candidate is taken whatever the draw.
    pool.metropolis_step_at(0, Solution::new(vec![0, 1, 4, 3, 2]), 0);
    assert_eq!(pool.states[0].solution.path, vec![0, 1, 4, 3, 2]);
    assert_eq!(pool.costs[0], 80);
    // The best tour is refreshed only by a sweep.
    assert_eq!(pool.best_cost, 80);
    // A dearer one (excess 40 at temperature 10) needs a draw above 4.
    pool.metropolis_step_at(1, Solution::new(vec![0, 3, 1, 4, 2]), 4 * SCALE);
    assert_eq!(pool.states[1].solution.path, vec![0, 1, 2, 3, 4]);
    assert_eq!(pool.costs[1], 80);
    pool.metropolis_step_at(1, Solution::new(vec![0, 3, 1, 4, 2]), 4 * SCALE + 1);
    assert_eq!(pool.states[1].solution.path, vec![0, 3, 1, 4, 2]);
    assert_eq!(pool.costs[1], 120);
    assert_eq!(pool.states[1].temperature, 10);
}

#[test]
fn exchange_rule_at_given_draw() {
    let dm = line(5);
    let tours = vec![vec![0, 1, 2, 3, 4], vec![0, 2, 4, 1, 3], vec![0, 3, 1, 4, 2]];
    let mut pool = pool_of(tours, vec![10, 20, 30], false, dm);
    // Replicas 1 and 2 cost 120 > 1.0 * 80; replica 0 is the best.
    pool.exchange_at(1, 2, 499_999, SCALE / 2, SCALE);
    assert_eq!(pool.states.iter().map(|s| s.temperature).collect::<Vec<u64>>(), vec![10, 30, 20]);
    pool.exchange_at(1, 2, SCALE / 2, SCALE / 2, SCALE);
    assert_eq!(pool.states.iter().map(|s| s.temperature).collect::<Vec<u64>>(), vec![10, 30, 20]);
    pool.exchange_at(0, 2, 0, SCALE, SCALE);
    assert_eq!(pool.states.iter().map(|s| s.temperature).collect::<Vec<u64>>(), vec![10, 30, 20]);
    assert_eq!(pool.costs, vec![80, 120, 120]);
}

#[test]
fn empty_seeding_has_no_best() {
    let engine = PtsaAlgorithm::new(params()).unwrap();
    let pool = engine.init_states(line(4), vec![], &vec![]);
    assert!(pool.best().is_none());
    assert_eq!(pool.best_cost, u64::MAX);
}
