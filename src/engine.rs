use vstd::prelude::*;

use crate::error::ConfigError;
use crate::matrix::{is_square, weights_bounded, DistanceMatrix};
use crate::params::{params_check, Params, SCALE};
use crate::random::choose_solution;
use crate::solution::{
    is_greedy_tour, is_tour, lemma_greedy_unique, swap_length_fits, tour_cost, Solution,
};
use crate::state::{
    cool_outcome, draw_below, exchange_attempt, metropolis_outcome, mutation_fits, ComputedSolution,
    State, StatesContainer,
};
use crate::temp::{scaled_temperature, TemperatureBounds};

verus! {

/// `a` comes no later than `b` when pairs are ordered by their first item,
/// then by their second.
pub open spec fn pair_le(a: (u64, usize), b: (u64, usize)) -> bool {
    a.0 < b.0 || (a.0 == b.0 && a.1 <= b.1)
}

/// Relies on std's `slice::sort` on pairs of integers: it orders them
/// ascending by the tuples' lexicographic order and only permutes them.
#[verifier::external_body]
fn sort_pairs(v: &mut Vec<(u64, usize)>)
    ensures
        final(v)@.to_multiset() == old(v)@.to_multiset(),
        forall|i: int, j: int|
            0 <= i < j < final(v)@.len() ==> pair_le(#[trigger] final(v)@[i], #[trigger] final(v)@[j]),
{
    v.sort()
}

/// Candidate `t` is the greedy tour from city `t`, of cost `keys[t].0`, keyed
/// by its start.
pub open spec fn candidate_ok(
    m: DistanceMatrix,
    backward: bool,
    tours: Seq<Solution>,
    keys: Seq<(u64, usize)>,
    t: int,
) -> bool {
    &&& tours[t].wf()
    &&& tours[t].size == m.size
    &&& is_greedy_tour(m, t as usize, backward, tours[t]@)
    &&& 0 <= tour_cost(m, tours[t]@) <= u64::MAX
    &&& keys[t] == (tour_cost(m, tours[t]@) as u64, t as usize)
}

/// `p` is the forward or backward greedy tour from some city.
pub open spec fn is_heuristic_tour(m: DistanceMatrix, p: Seq<usize>) -> bool {
    exists|s: usize, backward: bool| s < m.size && is_greedy_tour(m, s, backward, p)
}

/// `r` is the cheapest tenth of the greedy tours over `m` in one direction,
/// cheapest first: one tour per start, from distinct starts, none dearer
/// than a greedy tour left out.
pub open spec fn cheapest_greedy_tours(m: DistanceMatrix, backward: bool, r: Seq<Solution>) -> bool {
    &&& r.len() == m.size / 10
    &&& forall|k: int|
        #![trigger r[k]]
        0 <= k < r.len() ==> r[k].wf() && r[k].size == m.size && exists|s: usize|
            s < m.size && is_greedy_tour(m, s, backward, r[k]@)
    &&& forall|k1: int, k2: int|
        0 <= k1 < k2 < r.len() ==> tour_cost(m, #[trigger] r[k1]@) <= tour_cost(
            m,
            #[trigger] r[k2]@,
        )
    &&& forall|k1: int, k2: int|
        0 <= k1 < k2 < r.len() ==> (#[trigger] r[k1])@[0] != (#[trigger] r[k2])@[0]
    &&& forall|s: usize, p: Seq<usize>|
        s < m.size && #[trigger] is_greedy_tour(m, s, backward, p) && (forall|k: int|
            0 <= k < r.len() ==> r[k]@ != p) ==> forall|k: int|
            0 <= k < r.len() ==> tour_cost(m, #[trigger] r[k]@) <= tour_cost(m, p)
}

/// Every tour of `pool` is a tour of `n` cities.
pub open spec fn tours_of(pool: Seq<Solution>, n: int) -> bool {
    forall|k: int|
        #![trigger pool[k]]
        0 <= k < pool.len() ==> pool[k].wf() && pool[k].size == n && is_tour(pool[k]@)
}

/// Consecutive pools of `trace` are one exchange attempt apart.
pub open spec fn exchange_trace(trace: Seq<StatesContainer>, p: int, closeness: int) -> bool {
    forall|i: int|
        0 <= i < trace.len() - 1 ==> #[trigger] exchange_attempt(trace[i], trace[i + 1], p, closeness)
}

/// `k` exchange attempts lead from `a` to `b`.
pub open spec fn exchange_attempts(
    a: StatesContainer,
    b: StatesContainer,
    k: int,
    p: int,
    closeness: int,
) -> bool {
    exists|trace: Seq<StatesContainer>|
        trace.len() == k + 1 && trace[0] == a && trace[k] == b && #[trigger] exchange_trace(
            trace,
            p,
            closeness,
        )
}

/// Round `i` of a worker leads from `starts[i]` through `mids[i]` to
/// `starts[i + 1]`: a Metropolis sweep with the draws `exp_draws[i]`, then one
/// exchange attempt per replica.
pub open spec fn round_trace(
    starts: Seq<StatesContainer>,
    mids: Seq<StatesContainer>,
    params: Params,
    exp_draws: Seq<Vec<u64>>,
) -> bool {
    forall|i: int|
        0 <= i < mids.len() ==> metropolis_outcome(
            starts[i],
            #[trigger] mids[i],
            params.max_length_percent_of_cycle as int,
            exp_draws[i]@,
        ) && exchange_attempts(
            mids[i],
            starts[i + 1],
            mids[i].states@.len() as int,
            params.swap_states_probability as int,
            params.closeness as int,
        )
}

/// `k` rounds of a worker lead from `a` to `b`.
pub open spec fn sweep_rounds(
    a: StatesContainer,
    b: StatesContainer,
    k: int,
    params: Params,
    exp_draws: Seq<Vec<u64>>,
) -> bool {
    exists|starts: Seq<StatesContainer>, mids: Seq<StatesContainer>|
        starts.len() == k + 1 && mids.len() == k && starts[0] == a && starts[k] == b
            && #[trigger] round_trace(starts, mids, params, exp_draws)
}

/// The search: a validated configuration.
#[derive(Debug, Clone, Copy)]
pub struct PtsaAlgorithm {
    pub params: Params,
}

impl PtsaAlgorithm {
    /// An engine for `params`, refused with the error that validation gives.
    pub fn new(params: Params) -> (r: Result<PtsaAlgorithm, ConfigError>)
        ensures
            params_check(params) is Ok <==> r is Ok,
            r matches Ok(a) ==> a.params == params,
            r matches Err(e) ==> params_check(params) == Err::<(), ConfigError>(e),
    {
        match params.validate() {
            Ok(()) => Ok(PtsaAlgorithm { params }),
            Err(e) => Err(e),
        }
    }

    /// Checks the configuration against a problem: the longest mutation window,
    /// reached at the maximum temperature, must allow a segment swap.
    pub fn check_problem(&self, dmatrix: &DistanceMatrix) -> (r: Result<(), ConfigError>)
        requires
            self.params.valid(),
            dmatrix.wf(),
        ensures
            r is Ok <==> mutation_fits(
                dmatrix.size as int,
                self.params.max_length_percent_of_cycle as int,
                self.params.max_temperature as int,
            ),
            r is Err ==> r == Err::<(), ConfigError>(ConfigError::MutationTooLong),
    {
        let n = dmatrix.size;
        let tmax = self.params.max_temperature;
        let length = crate::state::window_length_of(
            n,
            self.params.max_length_percent_of_cycle,
            tmax,
            tmax,
        );
        if !swap_length_fits(length, n) {
            Err(ConfigError::MutationTooLong)
        } else {
            Ok(())
        }
    }

    /// The greedy tours from every start (in the forward or the backward
    /// direction), of which the cheapest tenth is kept, cheapest first.
    pub fn get_best_heuristic_solutions(&self, dmatrix: &DistanceMatrix, backward: bool) -> (r: Vec<
        Solution,
    >)
        requires
            dmatrix.wf(),
        ensures
            r@.len() == dmatrix.size / 10,
            forall|k: int|
                #![trigger r@[k]]
                0 <= k < r@.len() ==> r@[k].wf() && r@[k].size == dmatrix.size && exists|s: usize|
                    s < dmatrix.size && is_greedy_tour(*dmatrix, s, backward, r@[k]@),
            forall|k1: int, k2: int|
                0 <= k1 < k2 < r@.len() ==> tour_cost(*dmatrix, #[trigger] r@[k1]@) <= tour_cost(
                    *dmatrix,
                    #[trigger] r@[k2]@,
                ),
            forall|k1: int, k2: int|
                0 <= k1 < k2 < r@.len() ==> (#[trigger] r@[k1])@[0] != (#[trigger] r@[k2])@[0],
            forall|s: usize, p: Seq<usize>|
                s < dmatrix.size && #[trigger] is_greedy_tour(*dmatrix, s, backward, p) && (forall|
                    k: int,
                | 0 <= k < r@.len() ==> r@[k]@ != p) ==> forall|k: int|
                    0 <= k < r@.len() ==> tour_cost(*dmatrix, #[trigger] r@[k]@) <= tour_cost(
                        *dmatrix,
                        p,
                    ),
            cheapest_greedy_tours(*dmatrix, backward, r@),
    {
        let n = dmatrix.size;
        let mut tours: Vec<Solution> = Vec::new();
        let mut pairs: Vec<(u64, usize)> = Vec::new();
        let mut s: usize = 0;
        while s < n
            invariant
                dmatrix.wf(),
                n == dmatrix.size,
                s <= n,
                tours@.len() == s,
                pairs@.len() == s,
                forall|t: int|
                    0 <= t < s ==> #[trigger] candidate_ok(*dmatrix, backward, tours@, pairs@, t),
            decreases n - s,
        {
            let tour = if backward {
                Solution::backwards_nearest_neightbor_solution(dmatrix, s)
            } else {
                Solution::nearest_neightbor_solution(dmatrix, s)
            };
            let cost = tour.cost(dmatrix);
            let ghost old_tours = tours@;
            let ghost old_pairs = pairs@;
            pairs.push((cost, s));
            tours.push(tour);
            proof {
                assert forall|t: int| 0 <= t < s + 1 implies #[trigger] candidate_ok(
                    *dmatrix,
                    backward,
                    tours@,
                    pairs@,
                    t,
                ) by {
                    if t < s {
                        assert(candidate_ok(*dmatrix, backward, old_tours, old_pairs, t));
                        assert(tours@[t] == old_tours[t]);
                        assert(pairs@[t] == old_pairs[t]);
                    }
                }
            }
            s = s + 1;
        }
        let ghost unsorted = pairs@;
        sort_pairs(&mut pairs);
        proof {
            unsorted.to_multiset_ensures();
            pairs@.to_multiset_ensures();
            assert forall|k: int| 0 <= k < pairs@.len() implies {
                &&& #[trigger] pairs@[k].1 < n
                &&& pairs@[k] == unsorted[pairs@[k].1 as int]
            } by {
                assert(pairs@.contains(pairs@[k]));
                assert(pairs@.to_multiset().count(pairs@[k]) > 0);
                assert(unsorted.to_multiset().count(pairs@[k]) > 0);
                assert(unsorted.contains(pairs@[k]));
                let t = choose|t: int| 0 <= t < unsorted.len() && unsorted[t] == pairs@[k];
                assert(candidate_ok(*dmatrix, backward, tours@, unsorted, t));
            }
        }
        let takes = n / 10;
        let mut r: Vec<Solution> = Vec::new();
        let mut k: usize = 0;
        while k < takes
            invariant
                dmatrix.wf(),
                n == dmatrix.size,
                takes == n / 10,
                pairs@.len() == n,
                tours@.len() == n,
                k <= takes,
                r@.len() == k,
                forall|t: int|
                    0 <= t < n ==> #[trigger] candidate_ok(*dmatrix, backward, tours@, unsorted, t),
                forall|j: int|
                    0 <= j < pairs@.len() ==> {
                        &&& #[trigger] pairs@[j].1 < n
                        &&& pairs@[j] == unsorted[pairs@[j].1 as int]
                    },
                forall|j: int|
                    0 <= j < k ==> #[trigger] r@[j]@ == tours@[pairs@[j].1 as int]@ && r@[j].size
                        == n && r@[j].wf(),
            decreases takes - k,
        {
            assert(pairs@[k as int].1 < n);
            let t = pairs[k].1;
            let ghost old_r = r@;
            proof {
                assert(candidate_ok(*dmatrix, backward, tours@, unsorted, t as int));
            }
            r.push(tours[t].duplicate());
            proof {
                assert forall|j: int| 0 <= j < k + 1 implies #[trigger] r@[j]@ == tours@[pairs@[j].1 as int]@
                    && r@[j].size == n && r@[j].wf() by {
                    if j < k {
                        assert(r@[j] == old_r[j]);
                    }
                }
            }
            k = k + 1;
        }
        proof {
            assert forall|k: int|
                #![trigger r@[k]]
                0 <= k < r@.len() implies r@[k].wf() && r@[k].size == dmatrix.size && exists|s: usize|
                s < dmatrix.size && is_greedy_tour(*dmatrix, s, backward, r@[k]@) by {
                assert(r@[k]@ == tours@[pairs@[k].1 as int]@);
                assert(pairs@[k].1 < n);
                assert(candidate_ok(*dmatrix, backward, tours@, unsorted, pairs@[k].1 as int));
                let s = pairs@[k].1;
                assert(is_greedy_tour(*dmatrix, s, backward, r@[k]@));
            }
            assert forall|k1: int, k2: int|
                0 <= k1 < k2 < r@.len() implies tour_cost(*dmatrix, #[trigger] r@[k1]@) <= tour_cost(
                *dmatrix,
                #[trigger] r@[k2]@,
            ) by {
                assert(pairs@[k1].1 < n);
                assert(pairs@[k2].1 < n);
                assert(candidate_ok(*dmatrix, backward, tours@, unsorted, pairs@[k1].1 as int));
                assert(candidate_ok(*dmatrix, backward, tours@, unsorted, pairs@[k2].1 as int));
                assert(pair_le(pairs@[k1], pairs@[k2]));
                assert(r@[k1]@ == tours@[pairs@[k1].1 as int]@);
                assert(r@[k2]@ == tours@[pairs@[k2].1 as int]@);
                assert(pairs@[k1] == unsorted[pairs@[k1].1 as int]);
                assert(pairs@[k2] == unsorted[pairs@[k2].1 as int]);
            }
            assert(unsorted.no_duplicates()) by {
                assert forall|a: int, b: int|
                    0 <= a < unsorted.len() && 0 <= b < unsorted.len() && a != b implies unsorted[a]
                    != unsorted[b] by {
                    assert(candidate_ok(*dmatrix, backward, tours@, unsorted, a));
                    assert(candidate_ok(*dmatrix, backward, tours@, unsorted, b));
                }
            }
            unsorted.lemma_multiset_has_no_duplicates();
            pairs@.lemma_multiset_has_no_duplicates_conv();
            assert forall|k1: int, k2: int|
                0 <= k1 < k2 < r@.len() implies (#[trigger] r@[k1])@[0] != (#[trigger] r@[k2])@[0] by {
                let t1 = pairs@[k1].1 as int;
                let t2 = pairs@[k2].1 as int;
                assert(pairs@[k1].1 < n && pairs@[k2].1 < n);
                assert(candidate_ok(*dmatrix, backward, tours@, unsorted, t1));
                assert(candidate_ok(*dmatrix, backward, tours@, unsorted, t2));
                assert(r@[k1]@ == tours@[t1]@);
                assert(r@[k2]@ == tours@[t2]@);
                assert(pairs@[k1] == unsorted[t1]);
                assert(pairs@[k2] == unsorted[t2]);
                assert(pairs@[k1] != pairs@[k2]);
            }
            assert forall|s: usize, p: Seq<usize>|
                s < dmatrix.size && #[trigger] is_greedy_tour(*dmatrix, s, backward, p) && (forall|
                    k: int,
                | 0 <= k < r@.len() ==> r@[k]@ != p) implies forall|k: int|
                0 <= k < r@.len() ==> tour_cost(*dmatrix, #[trigger] r@[k]@) <= tour_cost(
                    *dmatrix,
                    p,
                ) by {
                assert(candidate_ok(*dmatrix, backward, tours@, unsorted, s as int));
                lemma_greedy_unique(*dmatrix, s, backward, p, tours@[s as int]@);
                assert(unsorted.contains(unsorted[s as int]));
                assert(unsorted.to_multiset().count(unsorted[s as int]) > 0);
                assert(pairs@.to_multiset().count(unsorted[s as int]) > 0);
                assert(pairs@.contains(unsorted[s as int]));
                let m = choose|m: int| 0 <= m < pairs@.len() && pairs@[m] == unsorted[s as int];
                assert(pairs@[m].1 == s);
                if m < takes {
                    assert(r@[m]@ == tours@[pairs@[m].1 as int]@);
                    assert(r@[m]@ == p);
                }
                assert forall|k: int| 0 <= k < r@.len() implies tour_cost(
                    *dmatrix,
                    #[trigger] r@[k]@,
                ) <= tour_cost(*dmatrix, p) by {
                    assert(pairs@[k].1 < n);
                    assert(candidate_ok(*dmatrix, backward, tours@, unsorted, pairs@[k].1 as int));
                    assert(pair_le(pairs@[k], pairs@[m]) || k == m);
                    assert(r@[k]@ == tours@[pairs@[k].1 as int]@);
                    assert(pairs@[k] == unsorted[pairs@[k].1 as int]);
                }
            }
        }
        r
    }

    /// The heuristic pool: the cheapest tenth of the forward greedy tours,
    /// followed by the cheapest tenth of the backward ones.
    pub fn heuristic_solutions(&self, dmatrix: &DistanceMatrix) -> (r: Vec<Solution>)
        requires
            dmatrix.wf(),
        ensures
            r@.len() == 2 * (dmatrix.size / 10),
            tours_of(r@, dmatrix.size as int),
            forall|k: int| 0 <= k < r@.len() ==> is_heuristic_tour(*dmatrix, #[trigger] r@[k]@),
            cheapest_greedy_tours(*dmatrix, false, r@.subrange(0, dmatrix.size as int / 10)),
            cheapest_greedy_tours(
                *dmatrix,
                true,
                r@.subrange(dmatrix.size as int / 10, 2 * (dmatrix.size as int / 10)),
            ),
    {
        let mut fwd = self.get_best_heuristic_solutions(dmatrix, false);
        let mut bwd = self.get_best_heuristic_solutions(dmatrix, true);
        let ghost f = fwd@;
        let ghost b = bwd@;
        fwd.append(&mut bwd);
        proof {
            assert(fwd@.subrange(0, dmatrix.size as int / 10) =~= f);
            assert(fwd@.subrange(dmatrix.size as int / 10, 2 * (dmatrix.size as int / 10)) =~= b);
            assert forall|k: int|
                #![trigger fwd@[k]]
                0 <= k < fwd@.len() implies fwd@[k].wf() && fwd@[k].size == dmatrix.size
                && is_tour(fwd@[k]@) && is_heuristic_tour(*dmatrix, fwd@[k]@) by {
                if k < f.len() {
                    assert(f[k] == fwd@[k]);
                    let s = choose|s: usize|
                        s < dmatrix.size && is_greedy_tour(*dmatrix, s, false, f[k]@);
                    assert(is_greedy_tour(*dmatrix, s, false, fwd@[k]@));
                } else {
                    let kb = k - f.len();
                    assert(b[kb] == fwd@[k]);
                    let s = choose|s: usize|
                        s < dmatrix.size && is_greedy_tour(*dmatrix, s, true, b[kb]@);
                    assert(is_greedy_tour(*dmatrix, s, true, fwd@[k]@));
                }
            }
        }
        fwd
    }

    /// Everything a run needs before any worker starts: the validated matrix
    /// of `weights` and the heuristic pool over it. Fails with the matrix's
    /// own error, or with `MutationTooLong` when the configured windows do not
    /// fit the problem.
    pub fn prepare(&self, weights: Vec<Vec<u64>>) -> (r: Result<
        (DistanceMatrix, Vec<Solution>),
        ConfigError,
    >)
        requires
            self.params.valid(),
        ensures
            weights@.len() == 0 ==> r == Err::<(DistanceMatrix, Vec<Solution>), ConfigError>(
                ConfigError::EmptyMatrix,
            ),
            weights@.len() > 0 && !is_square(weights@) ==> r == Err::<
                (DistanceMatrix, Vec<Solution>),
                ConfigError,
            >(ConfigError::NotSquare),
            weights@.len() > 0 && is_square(weights@) && !weights_bounded(weights@) ==> r == Err::<
                (DistanceMatrix, Vec<Solution>),
                ConfigError,
            >(ConfigError::WeightTooLarge),
            weights@.len() > 0 && is_square(weights@) && weights_bounded(weights@) ==> (r is Ok
                <==> mutation_fits(
                weights@.len() as int,
                self.params.max_length_percent_of_cycle as int,
                self.params.max_temperature as int,
            )),
            r is Err && weights@.len() > 0 && is_square(weights@) && weights_bounded(weights@)
                ==> r == Err::<(DistanceMatrix, Vec<Solution>), ConfigError>(
                ConfigError::MutationTooLong,
            ),
            r matches Ok((d, h)) ==> {
                &&& d.wf()
                &&& d.matrix@ == weights@
                &&& h@.len() == 2 * (d.size / 10)
                &&& tours_of(h@, d.size as int)
                &&& forall|k: int| 0 <= k < h@.len() ==> is_heuristic_tour(d, #[trigger] h@[k]@)
                &&& cheapest_greedy_tours(d, false, h@.subrange(0, d.size as int / 10))
                &&& cheapest_greedy_tours(d, true, h@.subrange(d.size as int / 10, 2 * (d.size as int / 10)))
            },
    {
        let dmatrix = match DistanceMatrix::new(weights) {
            Ok(d) => d,
            Err(e) => {
                return Err(e);
            },
        };
        match self.check_problem(&dmatrix) {
            Ok(()) => {},
            Err(e) => {
                return Err(e);
            },
        }
        let heuristics = self.heuristic_solutions(&dmatrix);
        Ok((dmatrix, heuristics))
    }

    /// A pool over `dmatrix` seeded with `starting_solutions`: replica `i`
    /// gets the temperature that `temperature_samples[i]` (a Beta draw in parts
    /// per million) maps to, and the shuffle mode with probability
    /// `probability_of_shuffle`.
    pub fn init_states(
        &self,
        distance_matrix: DistanceMatrix,
        starting_solutions: Vec<Solution>,
        temperature_samples: &Vec<u64>,
    ) -> (r: StatesContainer)
        requires
            self.params.valid(),
            distance_matrix.wf(),
            tours_of(starting_solutions@, distance_matrix.size as int),
            temperature_samples@.len() == starting_solutions@.len(),
            forall|i: int|
                0 <= i < temperature_samples@.len() ==> #[trigger] temperature_samples@[i] <= SCALE,
        ensures
            r.wf(),
            r.distance_matrix == distance_matrix,
            r.temp_bounds.min == self.params.min_temperature,
            r.temp_bounds.max == self.params.max_temperature,
            r.states@.len() == starting_solutions@.len(),
            forall|i: int|
                #![trigger r.states@[i]]
                0 <= i < r.states@.len() ==> {
                    &&& r.states@[i].solution@ == starting_solutions@[i]@
                    &&& r.states@[i].temperature == scaled_temperature(
                        self.params.min_temperature as int,
                        self.params.max_temperature as int,
                        temperature_samples@[i] as int,
                    )
                    &&& self.params.probability_of_shuffle == 0 ==> !r.states@[i].is_transion_shuffle
                    &&& self.params.probability_of_shuffle >= SCALE
                        ==> r.states@[i].is_transion_shuffle
                },
            r.states@.len() > 0 ==> exists|i: int|
                0 <= i < r.costs@.len() && r.best_cost == #[trigger] r.costs@[i],
            r.states@.len() == 0 ==> r.best_solution is None && r.best_cost == u64::MAX,
    {
        let bounds = TemperatureBounds {
            max: self.params.max_temperature,
            min: self.params.min_temperature,
        };
        let mut states = StatesContainer::new(bounds, distance_matrix);
        let mut i: usize = 0;
        while i < starting_solutions.len()
            invariant
                self.params.valid(),
                states.wf(),
                states.distance_matrix == distance_matrix,
                states.temp_bounds == bounds,
                bounds.min == self.params.min_temperature,
                bounds.max == self.params.max_temperature,
                tours_of(starting_solutions@, distance_matrix.size as int),
                temperature_samples@.len() == starting_solutions@.len(),
                forall|j: int|
                    0 <= j < temperature_samples@.len() ==> #[trigger] temperature_samples@[j]
                        <= SCALE,
                i <= starting_solutions@.len(),
                states.states@.len() == i,
                forall|j: int|
                    #![trigger states.states@[j]]
                    0 <= j < i ==> {
                        &&& states.states@[j].solution@ == starting_solutions@[j]@
                        &&& states.states@[j].temperature == scaled_temperature(
                            self.params.min_temperature as int,
                            self.params.max_temperature as int,
                            temperature_samples@[j] as int,
                        )
                        &&& self.params.probability_of_shuffle == 0
                            ==> !states.states@[j].is_transion_shuffle
                        &&& self.params.probability_of_shuffle >= SCALE
                            ==> states.states@[j].is_transion_shuffle
                    },
                i > 0 ==> exists|j: int|
                    0 <= j < states.costs@.len() && states.best_cost == #[trigger] states.costs@[j],
                i == 0 ==> states.best_solution is None,
            decreases starting_solutions@.len() - i,
        {
            assert(starting_solutions@[i as int].wf());
            let temperature = bounds.random_temperature(temperature_samples[i]);
            let is_transion_shuffle = draw_below(self.params.probability_of_shuffle);
            let state = State {
                solution: starting_solutions[i].duplicate(),
                temperature,
                is_transion_shuffle,
            };
            let ghost before = states;
            states.add(state);
            proof {
                assert forall|j: int|
                    #![trigger states.states@[j]]
                    0 <= j < i + 1 implies {
                    &&& states.states@[j].solution@ == starting_solutions@[j]@
                    &&& states.states@[j].temperature == scaled_temperature(
                        self.params.min_temperature as int,
                        self.params.max_temperature as int,
                        temperature_samples@[j] as int,
                    )
                    &&& self.params.probability_of_shuffle == 0
                        ==> !states.states@[j].is_transion_shuffle
                    &&& self.params.probability_of_shuffle >= SCALE
                        ==> states.states@[j].is_transion_shuffle
                } by {
                    if j < i {
                        assert(states.states@[j] == before.states@[j]);
                    }
                }
                if before.best_solution is None || states.best_cost != before.best_cost {
                    assert(states.best_cost == states.costs@[i as int]);
                } else {
                    let j = choose|j: int|
                        0 <= j < before.costs@.len() && before.best_cost == #[trigger] before.costs@[j];
                    assert(states.costs@[j] == before.costs@[j]);
                }
            }
            i = i + 1;
        }
        states
    }

    /// A pool of `n` replicas over `distance_matrix`: each starts, with
    /// probability `probability_of_heuristic`, from a tour drawn from the
    /// heuristic pool (when that pool is not empty), else from a random tour;
    /// temperatures and modes are drawn as in [`PtsaAlgorithm::init_states`].
    pub fn create_inital_states(
        &self,
        n: usize,
        distance_matrix: DistanceMatrix,
        heuristic_solutions: &Vec<Solution>,
        temperature_samples: &Vec<u64>,
    ) -> (r: StatesContainer)
        requires
            self.params.valid(),
            distance_matrix.wf(),
            tours_of(heuristic_solutions@, distance_matrix.size as int),
            temperature_samples@.len() == n,
            forall|i: int|
                0 <= i < temperature_samples@.len() ==> #[trigger] temperature_samples@[i] <= SCALE,
        ensures
            r.wf(),
            r.distance_matrix == distance_matrix,
            r.temp_bounds.min == self.params.min_temperature,
            r.temp_bounds.max == self.params.max_temperature,
            r.states@.len() == n,
            forall|i: int|
                #![trigger r.states@[i]]
                0 <= i < r.states@.len() ==> {
                    &&& r.states@[i].temperature == scaled_temperature(
                        self.params.min_temperature as int,
                        self.params.max_temperature as int,
                        temperature_samples@[i] as int,
                    )
                    &&& self.params.probability_of_heuristic >= SCALE && heuristic_solutions@.len()
                        > 0 ==> exists|k: int|
                        0 <= k < heuristic_solutions@.len() && r.states@[i].solution@
                            == #[trigger] heuristic_solutions@[k]@
                },
            n > 0 ==> exists|i: int| 0 <= i < r.costs@.len() && r.best_cost == #[trigger] r.costs@[i],
            n == 0 ==> r.best_solution is None && r.best_cost == u64::MAX,
    {
        let size = distance_matrix.size;
        let mut solutions: Vec<Solution> = Vec::new();
        let mut i: usize = 0;
        while i < n
            invariant
                distance_matrix.wf(),
                size == distance_matrix.size,
                tours_of(heuristic_solutions@, size as int),
                i <= n,
                solutions@.len() == i,
                tours_of(solutions@, size as int),
                forall|j: int|
                    #![trigger solutions@[j]]
                    0 <= j < i ==> (self.params.probability_of_heuristic >= SCALE
                        && heuristic_solutions@.len() > 0 ==> exists|k: int|
                        0 <= k < heuristic_solutions@.len() && solutions@[j]@
                            == #[trigger] heuristic_solutions@[k]@),
            decreases n - i,
        {
            let take_heuristic = draw_below(self.params.probability_of_heuristic);
            let picked = if take_heuristic {
                choose_solution(heuristic_solutions)
            } else {
                None
            };
            let solution = match picked {
                Some(s) => {
                    proof {
                        let k = choose|k: int|
                            0 <= k < heuristic_solutions@.len() && heuristic_solutions@[k] == *s;
                        assert(heuristic_solutions@[k].wf());
                    }
                    s.duplicate()
                },
                None => Solution::random_solution(size),
            };
            let ghost before = solutions@;
            solutions.push(solution);
            proof {
                assert forall|j: int|
                    #![trigger solutions@[j]]
                    0 <= j < i + 1 implies solutions@[j].wf() && solutions@[j].size == size
                    && is_tour(solutions@[j]@) by {
                    if j < i {
                        assert(solutions@[j] == before[j]);
                    }
                }
                assert forall|j: int|
                    #![trigger solutions@[j]]
                    0 <= j < i + 1 implies (self.params.probability_of_heuristic >= SCALE
                    && heuristic_solutions@.len() > 0 ==> exists|k: int|
                    0 <= k < heuristic_solutions@.len() && solutions@[j]@
                        == #[trigger] heuristic_solutions@[k]@) by {
                    if j < i {
                        assert(solutions@[j] == before[j]);
                    } else if self.params.probability_of_heuristic >= SCALE
                        && heuristic_solutions@.len() > 0 {
                        let k = choose|k: int|
                            0 <= k < heuristic_solutions@.len() && heuristic_solutions@[k]
                                == *picked.unwrap();
                        assert(solutions@[j]@ == heuristic_solutions@[k]@);
                    }
                }
            }
            i = i + 1;
        }
        let ghost seeded = solutions@;
        let r = self.init_states(distance_matrix, solutions, temperature_samples);
        proof {
            assert forall|i: int|
                #![trigger r.states@[i]]
                0 <= i < r.states@.len() implies {
                &&& r.states@[i].temperature == scaled_temperature(
                    self.params.min_temperature as int,
                    self.params.max_temperature as int,
                    temperature_samples@[i] as int,
                )
                &&& self.params.probability_of_heuristic >= SCALE && heuristic_solutions@.len() > 0
                    ==> exists|k: int|
                    0 <= k < heuristic_solutions@.len() && r.states@[i].solution@
                        == #[trigger] heuristic_solutions@[k]@
            } by {
                assert(r.states@[i].solution@ == seeded[i]@);
                if self.params.probability_of_heuristic >= SCALE && heuristic_solutions@.len() > 0 {
                    assert(seeded[i] == seeded[i]);
                    let k = choose|k: int|
                        0 <= k < heuristic_solutions@.len() && seeded[i]@
                            == #[trigger] heuristic_solutions@[k]@;
                    assert(r.states@[i].solution@ == heuristic_solutions@[k]@);
                }
            }
        }
        r
    }

    /// One step of a worker. At or past the deadline it does nothing and
    /// reports that the worker is finished. Otherwise it runs
    /// `number_of_repeats` rounds of one Metropolis sweep (round `k` with the
    /// exponential draws `exp_draws[k]`) followed by one exchange attempt per
    /// replica, then cools the pool once (see [`sweep_rounds`]).
    pub fn run_thread_step(
        &self,
        states: &mut StatesContainer,
        now: i64,
        deadline: i64,
        exp_draws: &Vec<Vec<u64>>,
    ) -> (finished: bool)
        requires
            self.params.valid(),
            old(states).wf(),
            now < deadline ==> mutation_fits(
                old(states).distance_matrix.size as int,
                self.params.max_length_percent_of_cycle as int,
                old(states).temp_bounds.max as int,
            ),
            now < deadline ==> exp_draws@.len() == self.params.number_of_repeats,
            now < deadline ==> forall|k: int|
                0 <= k < exp_draws@.len() ==> (#[trigger] exp_draws@[k])@.len()
                    == old(states).states@.len(),
        ensures
            finished == (now >= deadline),
            finished ==> *final(states) == *old(states),
            !finished ==> exists|pre: StatesContainer|
                #[trigger] sweep_rounds(
                    *old(states),
                    pre,
                    self.params.number_of_repeats as int,
                    self.params,
                    exp_draws@,
                ) && cool_outcome(pre, *final(states), self.params.cooling_rate as int),
            final(states).wf(),
            final(states).states@.len() == old(states).states@.len(),
            final(states).distance_matrix == old(states).distance_matrix,
            final(states).temp_bounds == old(states).temp_bounds,
            old(states).best_solution is Some ==> final(states).best_cost <= old(states).best_cost,
    {
        if now >= deadline {
            return true;
        }
        let ghost mut starts: Seq<StatesContainer> = seq![*states];
        let ghost mut mids: Seq<StatesContainer> = Seq::empty();
        let mut k: usize = 0;
        while k < self.params.number_of_repeats
            invariant
                self.params.valid(),
                states.wf(),
                states.states@.len() == old(states).states@.len(),
                states.distance_matrix == old(states).distance_matrix,
                states.temp_bounds == old(states).temp_bounds,
                mutation_fits(
                    states.distance_matrix.size as int,
                    self.params.max_length_percent_of_cycle as int,
                    states.temp_bounds.max as int,
                ),
                exp_draws@.len() == self.params.number_of_repeats,
                forall|j: int|
                    0 <= j < exp_draws@.len() ==> (#[trigger] exp_draws@[j])@.len()
                        == old(states).states@.len(),
                k <= self.params.number_of_repeats,
                starts.len() == k + 1,
                mids.len() == k,
                starts[0] == *old(states),
                starts[k as int] == *states,
                round_trace(starts, mids, self.params, exp_draws@),
                old(states).best_solution is Some ==> states.best_solution is Some
                    && states.best_cost <= old(states).best_cost,
            decreases self.params.number_of_repeats - k,
        {
            let ghost m1 = *states;
            states.metropolis_tranision(self.params.max_length_percent_of_cycle, &exp_draws[k]);
            let ghost m2 = *states;
            let ghost mut trace: Seq<StatesContainer> = seq![m2];
            let mut e: usize = 0;
            while e < states.states.len()
                invariant
                    states.wf(),
                    states.states@.len() == old(states).states@.len(),
                    m2.states@.len() == old(states).states@.len(),
                    states.distance_matrix == old(states).distance_matrix,
                    states.temp_bounds == old(states).temp_bounds,
                    e <= states.states@.len(),
                    trace.len() == e + 1,
                    trace[0] == m2,
                    trace[e as int] == *states,
                    exchange_trace(
                        trace,
                        self.params.swap_states_probability as int,
                        self.params.closeness as int,
                    ),
                    old(states).best_solution is Some ==> states.best_solution is Some
                        && states.best_cost <= old(states).best_cost,
                decreases states.states@.len() - e,
            {
                let ghost before = *states;
                states.replica_transition(
                    self.params.swap_states_probability,
                    self.params.closeness,
                );
                proof {
                    let old_trace = trace;
                    trace = trace.push(*states);
                    assert forall|i: int| 0 <= i < trace.len() - 1 implies #[trigger] exchange_attempt(
                        trace[i],
                        trace[i + 1],
                        self.params.swap_states_probability as int,
                        self.params.closeness as int,
                    ) by {
                        if i < e {
                            assert(trace[i] == old_trace[i] && trace[i + 1] == old_trace[i + 1]);
                        }
                    }
                }
                e = e + 1;
            }
            proof {
                assert(exchange_attempts(
                    m2,
                    *states,
                    m2.states@.len() as int,
                    self.params.swap_states_probability as int,
                    self.params.closeness as int,
                ));
                let old_starts = starts;
                let old_mids = mids;
                starts = starts.push(*states);
                mids = mids.push(m2);
                assert(starts[k as int] == m1);
                assert forall|i: int| 0 <= i < mids.len() implies metropolis_outcome(
                    starts[i],
                    #[trigger] mids[i],
                    self.params.max_length_percent_of_cycle as int,
                    exp_draws@[i]@,
                ) && exchange_attempts(
                    mids[i],
                    starts[i + 1],
                    mids[i].states@.len() as int,
                    self.params.swap_states_probability as int,
                    self.params.closeness as int,
                ) by {
                    if i < k {
                        assert(mids[i] == old_mids[i]);
                        assert(starts[i] == old_starts[i] && starts[i + 1] == old_starts[i + 1]);
                    }
                }
            }
            k = k + 1;
        }
        let ghost pre = *states;
        states.cool(self.params.cooling_rate);
        assert(sweep_rounds(
            *old(states),
            pre,
            self.params.number_of_repeats as int,
            self.params,
            exp_draws@,
        ));
        false
    }

    /// The cheapest of the workers' results (the first among equally cheap
    /// ones); `None` when there is none.
    pub fn reduce_results(results: Vec<ComputedSolution>) -> (r: Option<ComputedSolution>)
        ensures
            r is None <==> results@.len() == 0,
            r matches Some(c) ==> exists|i: int|
                0 <= i < results@.len() && c.cost == results@[i].cost && c.solution@
                    == results@[i].solution@ && c.solution.size == results@[i].solution.size,
            r matches Some(c) ==> forall|j: int|
                0 <= j < results@.len() ==> c.cost <= #[trigger] results@[j].cost,
    {
        if results.len() == 0 {
            return None;
        }
        let mut best: usize = 0;
        let mut i: usize = 1;
        while i < results.len()
            invariant
                1 <= i <= results@.len(),
                best < i,
                forall|j: int| 0 <= j < i ==> results@[best as int].cost <= #[trigger] results@[j].cost,
            decreases results@.len() - i,
        {
            if results[i].cost < results[best].cost {
                best = i;
            }
            i = i + 1;
        }
        let ghost all = results@;
        let mut results = results;
        let c = results.swap_remove(best);
        assert(c == all[best as int]);
        Some(c)
    }
}

} // verus!
