use vstd::prelude::*;

use crate::error::InvalidMutation;
use crate::matrix::DistanceMatrix;
use crate::params::SCALE;
use crate::random::random_index;
use crate::solution::{
    is_tour, segment_swapped, swap_length_ok, tour_cost, uniform_draws, valid_draws,
    window_fisher_yates, Solution,
};
use crate::temp::{cooled, TemperatureBounds};

verus! {

/// The mutation window at temperature `t`: `ceil(n * pct * t / (tmax * SCALE))`
/// positions, with the fraction `pct` in parts per million; none when
/// `tmax` is zero.
pub open spec fn window_length(n: int, pct: int, t: int, tmax: int) -> int {
    if tmax == 0 {
        0
    } else {
        (n * pct * t + tmax * SCALE - 1) / (tmax * SCALE)
    }
}

/// Every window that a replica of a pool with `n` cities and maximum
/// temperature `tmax` can draw is short enough for a segment swap.
pub open spec fn mutation_fits(n: int, pct: int, tmax: int) -> bool {
    swap_length_ok(window_length(n, pct, tmax, tmax), n)
}

/// The Metropolis criterion: a candidate no worse than the current tour is
/// accepted; a worse one when its excess cost, divided by the temperature, is
/// below the draw `exp_draw / SCALE` of a unit exponential distribution, which
/// happens with probability `exp(-(candidate - current) / temperature)`.
pub open spec fn accepts(current: int, candidate: int, temperature: int, exp_draw: int) -> bool {
    candidate <= current || (candidate - current) * SCALE < temperature * exp_draw
}

/// `new` is one mutation of `old` with windows of `len`: Fisher–Yates steps on
/// the window at some start, or a segment swap at two distinct anchors.
pub open spec fn is_mutation(old: Seq<usize>, new: Seq<usize>, len: int, shuffle: bool) -> bool {
    if shuffle {
        exists|start: int, draws: Seq<usize>|
            0 <= start < old.len() && draws.len() == len && valid_draws(draws) && new
                == #[trigger] window_fisher_yates(old, start, draws, len)
    } else {
        exists|i: int, j: int|
            0 <= i < old.len() && 0 <= j < old.len() && (i != j || old.len() == 1) && new
                == segment_swapped(old, i, j, len)
    }
}

proof fn lemma_window_length_bounds(n: int, pct: int, t: int, tmax: int)
    requires
        n >= 0,
        0 <= pct <= SCALE,
        0 <= t <= tmax,
    ensures
        0 <= window_length(n, pct, t, tmax) <= window_length(n, pct, tmax, tmax) <= n,
{
    if tmax > 0 {
        let d = tmax * SCALE;
        assert(d > 0) by (nonlinear_arith)
            requires
                tmax > 0,
                d == tmax * SCALE,
        ;
        assert(0 <= n * pct * t <= n * pct * tmax) by (nonlinear_arith)
            requires
                n >= 0,
                pct >= 0,
                0 <= t <= tmax,
        ;
        assert(n * pct * tmax <= n * d) by (nonlinear_arith)
            requires
                n >= 0,
                0 <= pct <= SCALE,
                tmax > 0,
                d == tmax * SCALE,
        ;
        vstd::arithmetic::div_mod::lemma_div_is_ordered(
            n * pct * t + d - 1,
            n * pct * tmax + d - 1,
            d,
        );
        vstd::arithmetic::div_mod::lemma_div_is_ordered(n * pct * tmax + d - 1, n * d + d - 1, d);
        vstd::arithmetic::div_mod::lemma_div_is_ordered(0, n * pct * t + d - 1, d);
        vstd::arithmetic::div_mod::lemma_fundamental_div_mod(n * d + d - 1, d);
        assert((n * d + d - 1) / d == n) by (nonlinear_arith)
            requires
                n >= 0,
                d > 0,
                n * d + d - 1 == d * ((n * d + d - 1) / d) + (n * d + d - 1) % d,
                0 <= (n * d + d - 1) % d < d,
        ;
    }
}

/// The window length of [`window_length`], computed without overflow:
/// `ceil(n * pct * t / tmax)` first, then its ceiling in parts per million.
pub fn window_length_of(n: usize, pct: u64, t: u64, tmax: u64) -> (r: usize)
    requires
        pct <= SCALE,
        t <= tmax,
    ensures
        r == window_length(n as int, pct as int, t as int, tmax as int),
        r <= n,
{
    proof {
        lemma_window_length_bounds(n as int, pct as int, t as int, tmax as int);
    }
    if tmax == 0 {
        return 0;
    }
    proof {
        assert(n * pct <= u64::MAX * SCALE) by (nonlinear_arith)
            requires
                pct <= SCALE,
                n <= u64::MAX,
        ;
    }
    let a = (n as u128) * (pct as u128);
    let q1 = a / (tmax as u128);
    let r1 = a % (tmax as u128);
    let ghost ai = a as int;
    let ghost ti = t as int;
    let ghost mi = tmax as int;
    proof {
        vstd::arithmetic::div_mod::lemma_fundamental_div_mod(ai, mi);
        assert(q1 * ti <= ai) by (nonlinear_arith)
            requires
                ai == mi * q1 + r1,
                0 <= r1,
                0 <= q1,
                0 <= ti <= mi,
        ;
        assert(r1 * ti + mi - 1 <= (u64::MAX - 1) * u64::MAX + u64::MAX) by (nonlinear_arith)
            requires
                0 <= r1 < mi,
                0 <= ti <= u64::MAX,
                mi <= u64::MAX,
        ;
    }
    let x = r1 * (t as u128) + (tmax as u128) - 1;
    let q2 = x / (tmax as u128);
    proof {
        vstd::arithmetic::div_mod::lemma_fundamental_div_mod(x as int, mi);
        assert(q2 <= ti) by (nonlinear_arith)
            requires
                x == mi * q2 + (x as int) % mi,
                0 <= (x as int) % mi,
                x == r1 * ti + mi - 1,
                0 <= r1 < mi,
                mi > 0,
                ti >= 0,
        ;
    }
    let c = q1 * (t as u128) + q2;
    proof {
        let y = ai * ti + mi - 1;
        assert(y == x + (q1 * ti) * mi) by (nonlinear_arith)
            requires
                ai == mi * q1 + r1,
                x == r1 * ti + mi - 1,
                y == ai * ti + mi - 1,
        ;
        vstd::arithmetic::div_mod::lemma_hoist_over_denominator(x as int, q1 * ti, mi as nat);
        assert(c == y / mi);
        vstd::arithmetic::div_mod::lemma_hoist_over_denominator(y, SCALE - 1, mi as nat);
        assert(y >= 0) by (nonlinear_arith)
            requires
                ai >= 0,
                ti >= 0,
                mi > 0,
                y == ai * ti + mi - 1,
        ;
        vstd::arithmetic::div_mod::lemma_div_denominator(y + (SCALE - 1) * mi, mi, SCALE as int);
        assert(y + (SCALE - 1) * mi == n * pct * t + tmax * SCALE - 1) by (nonlinear_arith)
            requires
                y == ai * ti + mi - 1,
                ai == n * pct,
                ti == t,
                mi == tmax,
        ;
        assert(mi * SCALE == tmax * SCALE);
    }
    ((c + (SCALE as u128) - 1) / (SCALE as u128)) as usize
}

/// One replica: a tour, its temperature, and its fixed mutation mode
/// (windowed shuffle when `is_transion_shuffle`, else segment swap).
#[derive(Debug, Clone)]
pub struct State {
    pub solution: Solution,
    pub temperature: u64,
    pub is_transion_shuffle: bool,
}

impl State {
    /// The number of cities of the tour.
    pub fn size(&self) -> (r: usize)
        ensures
            r == self.solution.size,
    {
        self.solution.size
    }

    /// Mutates the tour with a window of `window_length` positions at the
    /// given choices: in shuffle mode, the Fisher–Yates steps `draws` on the
    /// window starting at `anchor`; in swap mode, a segment swap at `anchor`
    /// and `other`, which fails and leaves the tour when the window is too
    /// long.
    pub fn apply_mutation(
        &mut self,
        max_temp: u64,
        max_percent: u64,
        anchor: usize,
        other: usize,
        draws: &Vec<usize>,
    ) -> (r: Result<(), InvalidMutation>)
        requires
            old(self).solution.wf(),
            old(self).temperature <= max_temp,
            max_percent <= SCALE,
            anchor < old(self).solution.size,
            other < old(self).solution.size,
            old(self).is_transion_shuffle ==> draws@.len() == window_length(
                old(self).solution.size as int,
                max_percent as int,
                old(self).temperature as int,
                max_temp as int,
            ) && valid_draws(draws@),
        ensures
            final(self).solution.wf(),
            final(self).solution.size == old(self).solution.size,
            final(self).temperature == old(self).temperature,
            final(self).is_transion_shuffle == old(self).is_transion_shuffle,
            old(self).is_transion_shuffle ==> r is Ok && final(self).solution@ == window_fisher_yates(
                old(self).solution@,
                anchor as int,
                draws@,
                draws@.len() as int,
            ),
            !old(self).is_transion_shuffle ==> (r is Ok <==> swap_length_ok(
                window_length(
                    old(self).solution.size as int,
                    max_percent as int,
                    old(self).temperature as int,
                    max_temp as int,
                ),
                old(self).solution.size as int,
            )),
            !old(self).is_transion_shuffle && r is Ok ==> final(self).solution@ == segment_swapped(
                old(self).solution@,
                anchor as int,
                other as int,
                window_length(
                    old(self).solution.size as int,
                    max_percent as int,
                    old(self).temperature as int,
                    max_temp as int,
                ),
            ),
            r is Err ==> final(self).solution@ == old(self).solution@,
            is_tour(old(self).solution@) ==> is_tour(final(self).solution@),
    {
        let n = self.size();
        let length = window_length_of(n, max_percent, self.temperature, max_temp);
        if self.is_transion_shuffle {
            self.solution.shuffle_window_with(anchor, draws);
            Ok(())
        } else {
            self.solution.swap_parts(anchor, other, length)
        }
    }

    /// Mutates the tour in place with a window of `window_length` positions:
    /// a windowed Fisher–Yates shuffle at a random start, or a segment swap at
    /// two random distinct anchors (see [`State::apply_mutation`]).
    pub fn mutate_state(&mut self, max_temp: u64, max_percent: u64) -> (r: Result<
        (),
        InvalidMutation,
    >)
        requires
            old(self).solution.wf(),
            old(self).temperature <= max_temp,
            max_percent <= SCALE,
        ensures
            final(self).solution.wf(),
            final(self).solution.size == old(self).solution.size,
            final(self).temperature == old(self).temperature,
            final(self).is_transion_shuffle == old(self).is_transion_shuffle,
            r is Ok <==> old(self).is_transion_shuffle || swap_length_ok(
                window_length(
                    old(self).solution.size as int,
                    max_percent as int,
                    old(self).temperature as int,
                    max_temp as int,
                ),
                old(self).solution.size as int,
            ),
            r is Ok ==> is_mutation(
                old(self).solution@,
                final(self).solution@,
                window_length(
                    old(self).solution.size as int,
                    max_percent as int,
                    old(self).temperature as int,
                    max_temp as int,
                ),
                old(self).is_transion_shuffle,
            ),
            r is Err ==> final(self).solution@ == old(self).solution@,
            is_tour(old(self).solution@) ==> is_tour(final(self).solution@),
    {
        let n = self.size();
        let length = window_length_of(n, max_percent, self.temperature, max_temp);
        let ghost p0 = self.solution@;
        let anchor = random_index(0, n);
        let other = if n < 2 {
            anchor
        } else {
            let o = random_index(0, n - 1);
            if o >= anchor {
                o + 1
            } else {
                o
            }
        };
        let draws = if self.is_transion_shuffle {
            uniform_draws(length)
        } else {
            Vec::new()
        };
        let r = self.apply_mutation(max_temp, max_percent, anchor, other, &draws);
        proof {
            if self.is_transion_shuffle {
                assert(self.solution@ == window_fisher_yates(
                    p0,
                    anchor as int,
                    draws@,
                    length as int,
                ));
            }
        }
        r
    }
}

/// The Metropolis decision on a candidate of cost `new_solution_length` for
/// a replica at `solution_length` and `temperature`, given a unit exponential
/// draw `exp_draw` in parts per million (see [`accepts`]).
pub fn acceptance(solution_length: u64, new_solution_length: u64, temperature: u64, exp_draw: u64) -> (r:
    bool)
    ensures
        r == accepts(
            solution_length as int,
            new_solution_length as int,
            temperature as int,
            exp_draw as int,
        ),
{
    if new_solution_length <= solution_length {
        return true;
    }
    let excess = (new_solution_length - solution_length) as u128;
    proof {
        assert(excess * SCALE <= u64::MAX * SCALE) by (nonlinear_arith)
            requires
                excess <= u64::MAX,
        ;
        assert(temperature * exp_draw <= u64::MAX * u64::MAX) by (nonlinear_arith)
            requires
                temperature <= u64::MAX,
                exp_draw <= u64::MAX,
        ;
    }
    excess * (SCALE as u128) < (temperature as u128) * (exp_draw as u128)
}

/// Draws `n` mutation modes: each is shuffle (`true`) with probability
/// `probability_of_shuffle` parts per million, else swap.
pub fn initialize_transition_function_types(n: usize, probability_of_shuffle: u64) -> (r: Vec<bool>)
    ensures
        r@.len() == n,
        probability_of_shuffle == 0 ==> forall|i: int| 0 <= i < n ==> !#[trigger] r@[i],
        probability_of_shuffle >= SCALE ==> forall|i: int| 0 <= i < n ==> #[trigger] r@[i],
{
    let mut r: Vec<bool> = Vec::new();
    let mut i: usize = 0;
    while i < n
        invariant
            i <= n,
            r@.len() == i,
            probability_of_shuffle == 0 ==> forall|k: int| 0 <= k < i ==> !#[trigger] r@[k],
            probability_of_shuffle >= SCALE ==> forall|k: int| 0 <= k < i ==> #[trigger] r@[k],
        decreases n - i,
    {
        r.push(draw_below(probability_of_shuffle));
        i = i + 1;
    }
    r
}

/// A tour with its cost.
#[derive(Debug, Clone)]
pub struct ComputedSolution {
    pub solution: Solution,
    pub cost: u64,
}

/// One Metropolis step on a replica with windows of `len`: its temperature
/// and mode stay and, for some mutation `c` of its tour, its tour and cost
/// become `c` and the cost of `c` when the criterion accepts `c` with the draw
/// `exp_draw`, and stay as they were otherwise.
pub open spec fn metropolis_replica(
    m: DistanceMatrix,
    before: State,
    cost_before: u64,
    after: State,
    cost_after: u64,
    len: int,
    exp_draw: int,
) -> bool {
    &&& after.temperature == before.temperature
    &&& after.is_transion_shuffle == before.is_transion_shuffle
    &&& exists|c: Seq<usize>|
        #[trigger] is_mutation(before.solution@, c, len, before.is_transion_shuffle) && (if accepts(
            cost_before as int,
            tour_cost(m, c),
            before.temperature as int,
            exp_draw,
        ) {
            after.solution@ == c && cost_after == tour_cost(m, c)
        } else {
            after == before && cost_after == cost_before
        })
}

/// A Metropolis sweep from `old` to `new` with window fraction `pct` and one
/// exponential draw per replica: each replica takes one Metropolis step, and
/// the best tour becomes the cheapest of the old best and the replicas,
/// staying as it was unless some replica is strictly cheaper.
pub open spec fn metropolis_outcome(
    old: StatesContainer,
    new: StatesContainer,
    pct: int,
    exp_draws: Seq<u64>,
) -> bool {
    &&& new.temp_bounds == old.temp_bounds
    &&& new.distance_matrix == old.distance_matrix
    &&& new.states@.len() == old.states@.len()
    &&& forall|i: int|
        #![trigger new.states@[i]]
        0 <= i < new.states@.len() ==> metropolis_replica(
            old.distance_matrix,
            old.states@[i],
            old.costs@[i],
            new.states@[i],
            new.costs@[i],
            window_length(
                old.distance_matrix.size as int,
                pct,
                old.states@[i].temperature as int,
                old.temp_bounds.max as int,
            ),
            exp_draws[i] as int,
        )
    &&& old.best_solution is Some ==> new.best_cost <= old.best_cost
    &&& new.best_cost == old.best_cost ==> new.best_solution == old.best_solution
    &&& new.best_cost == old.best_cost || exists|i: int|
        0 <= i < new.states@.len() && new.best_cost == new.costs@[i] && (
        new.best_solution matches Some(b) && b@ == new.states@[i].solution@)
}

/// Across a Metropolis sweep the best cost never increases.
pub proof fn lemma_metropolis_best_never_increases(
    old: StatesContainer,
    new: StatesContainer,
    pct: int,
    exp_draws: Seq<u64>,
)
    requires
        old.wf(),
        metropolis_outcome(old, new, pct, exp_draws),
    ensures
        new.best_cost <= old.best_cost,
{
}

/// Replicas `i` and `j` of `old` have exchanged temperatures in `new`;
/// nothing else differs.
pub open spec fn temps_exchanged(old: StatesContainer, new: StatesContainer, i: int, j: int) -> bool {
    &&& new.temp_bounds == old.temp_bounds
    &&& new.distance_matrix == old.distance_matrix
    &&& new.costs@ == old.costs@
    &&& new.best_cost == old.best_cost
    &&& new.best_solution == old.best_solution
    &&& new.states@.len() == old.states@.len()
    &&& forall|k: int|
        #![trigger new.states@[k]]
        0 <= k < new.states@.len() ==> {
            &&& new.states@[k].solution == old.states@[k].solution
            &&& new.states@[k].is_transion_shuffle == old.states@[k].is_transion_shuffle
            &&& new.states@[k].temperature == if k == i {
                old.states@[j].temperature
            } else if k == j {
                old.states@[i].temperature
            } else {
                old.states@[k].temperature
            }
        }
}

/// The exchange rule on replicas `i` and `j` with a uniform draw `draw` (in
/// parts per million): when both are far from the best and the draw is below
/// `p`, they exchange temperatures; otherwise nothing changes.
pub open spec fn exchange_outcome(
    old: StatesContainer,
    new: StatesContainer,
    i: int,
    j: int,
    draw: int,
    p: int,
    closeness: int,
) -> bool {
    if far_from_best(old, i, closeness) && far_from_best(old, j, closeness) && draw < p {
        temps_exchanged(old, new, i, j)
    } else {
        new == old
    }
}

/// Replicas `i` and `j` exchange temperatures exactly when both are far from
/// the best; otherwise nothing changes.
pub open spec fn exchange_when_far(
    old: StatesContainer,
    new: StatesContainer,
    i: int,
    j: int,
    closeness: int,
) -> bool {
    if far_from_best(old, i, closeness) && far_from_best(old, j, closeness) {
        temps_exchanged(old, new, i, j)
    } else {
        new == old
    }
}

/// One exchange attempt: with fewer than two replicas nothing changes;
/// otherwise the exchange rule holds for some two distinct replicas and some
/// draw below one.
pub open spec fn exchange_attempt(old: StatesContainer, new: StatesContainer, p: int, closeness: int) -> bool {
    if old.states@.len() < 2 {
        new == old
    } else {
        exists|i: int, j: int, draw: int|
            0 <= i < old.states@.len() && 0 <= j < old.states@.len() && i != j && 0 <= draw
                < SCALE && #[trigger] exchange_outcome(old, new, i, j, draw, p, closeness)
    }
}

/// One cooling step from `old` to `new` at `rate` parts per million.
pub open spec fn cool_outcome(old: StatesContainer, new: StatesContainer, rate: int) -> bool {
    &&& new.temp_bounds == old.temp_bounds
    &&& new.distance_matrix == old.distance_matrix
    &&& new.costs@ == old.costs@
    &&& new.best_cost == old.best_cost
    &&& new.best_solution == old.best_solution
    &&& new.states@.len() == old.states@.len()
    &&& forall|i: int|
        #![trigger new.states@[i]]
        0 <= i < new.states@.len() ==> {
            &&& new.states@[i].solution == old.states@[i].solution
            &&& new.states@[i].is_transion_shuffle == old.states@[i].is_transion_shuffle
            &&& new.states@[i].temperature == cooled(
                old.states@[i].temperature as int,
                rate,
                old.temp_bounds.min as int,
            )
        }
}

/// Replica `i` of `pool` is far from the best tour: its cost exceeds
/// `closeness` parts per million of the best cost.
pub open spec fn far_from_best(pool: StatesContainer, i: int, closeness: int) -> bool {
    pool.costs@[i] * SCALE > closeness * pool.best_cost
}

/// A population of replicas over one distance matrix, with the cost of each
/// replica's tour and the best tour seen so far.
#[derive(Debug)]
pub struct StatesContainer {
    pub temp_bounds: TemperatureBounds,
    pub distance_matrix: DistanceMatrix,
    pub states: Vec<State>,
    pub costs: Vec<u64>,
    pub best_cost: u64,
    pub best_solution: Option<Solution>,
}

impl StatesContainer {
    /// Replica `i` holds a tour of the pool's cities, its cached cost, and a
    /// temperature within the bounds.
    pub open spec fn replica_ok(&self, i: int) -> bool {
        let s = self.states@[i];
        &&& s.solution.wf()
        &&& s.solution.size == self.distance_matrix.size
        &&& is_tour(s.solution@)
        &&& self.costs@[i] == tour_cost(self.distance_matrix, s.solution@)
        &&& self.temp_bounds.min <= s.temperature <= self.temp_bounds.max
    }

    /// The best tour is a tour of the pool's cities at `best_cost`, no worse
    /// than any replica.
    pub open spec fn best_ok(&self) -> bool {
        match self.best_solution {
            Some(b) => {
                &&& b.wf()
                &&& b.size == self.distance_matrix.size
                &&& is_tour(b@)
                &&& self.best_cost == tour_cost(self.distance_matrix, b@)
                &&& forall|i: int|
                    0 <= i < self.costs@.len() ==> self.best_cost <= #[trigger] self.costs@[i]
            },
            None => self.states@.len() == 0 && self.best_cost == u64::MAX,
        }
    }

    /// Every replica is well formed (the best tour may lag behind).
    pub open spec fn replicas_ok(&self) -> bool {
        &&& self.distance_matrix.wf()
        &&& self.temp_bounds.wf()
        &&& self.states@.len() == self.costs@.len()
        &&& forall|i: int| 0 <= i < self.states@.len() ==> #[trigger] self.replica_ok(i)
    }

    pub open spec fn wf(&self) -> bool {
        &&& self.distance_matrix.wf()
        &&& self.temp_bounds.wf()
        &&& self.states@.len() == self.costs@.len()
        &&& forall|i: int| 0 <= i < self.states@.len() ==> #[trigger] self.replica_ok(i)
        &&& self.best_ok()
    }

    /// An empty pool.
    pub fn new(temp_bounds: TemperatureBounds, distance_matrix: DistanceMatrix) -> (r:
        StatesContainer)
        requires
            temp_bounds.wf(),
            distance_matrix.wf(),
        ensures
            r.wf(),
            r.temp_bounds == temp_bounds,
            r.distance_matrix == distance_matrix,
            r.states@.len() == 0,
            r.best_solution is None,
            r.best_cost == u64::MAX,
    {
        StatesContainer {
            temp_bounds,
            distance_matrix,
            states: Vec::new(),
            costs: Vec::new(),
            best_cost: u64::MAX,
            best_solution: None,
        }
    }

    /// The number of cities.
    pub fn size(&self) -> (r: usize)
        ensures
            r == self.distance_matrix.size,
    {
        self.distance_matrix.size
    }

    /// Adds a replica, caching its cost; its tour becomes the best one when
    /// the pool had none or it is cheaper.
    pub fn add(&mut self, state: State)
        requires
            old(self).wf(),
            state.solution.wf(),
            state.solution.size == old(self).distance_matrix.size,
            is_tour(state.solution@),
            old(self).temp_bounds.min <= state.temperature <= old(self).temp_bounds.max,
        ensures
            final(self).wf(),
            final(self).temp_bounds == old(self).temp_bounds,
            final(self).distance_matrix == old(self).distance_matrix,
            final(self).states@ == old(self).states@.push(state),
            final(self).costs@ == old(self).costs@.push(
                tour_cost(old(self).distance_matrix, state.solution@) as u64,
            ),
            old(self).best_solution is None || tour_cost(
                old(self).distance_matrix,
                state.solution@,
            ) < old(self).best_cost ==> final(self).best_cost == tour_cost(
                old(self).distance_matrix,
                state.solution@,
            ) && (final(self).best_solution matches Some(b) && b@ == state.solution@),
            !(old(self).best_solution is None || tour_cost(
                old(self).distance_matrix,
                state.solution@,
            ) < old(self).best_cost) ==> final(self).best_cost == old(self).best_cost
                && final(self).best_solution == old(self).best_solution,
    {
        let cost = state.solution.cost(&self.distance_matrix);
        if self.best_solution.is_none() || cost < self.best_cost {
            self.best_cost = cost;
            self.best_solution = Some(state.solution.duplicate());
        }
        self.states.push(state);
        self.costs.push(cost);
        assert forall|i: int| 0 <= i < self.states@.len() implies #[trigger] self.replica_ok(i) by {
            if i < old(self).states@.len() {
                assert(old(self).replica_ok(i));
            }
        }
    }

    /// The best tour seen so far and its cost; `None` for an empty pool.
    pub fn best(&self) -> (r: Option<ComputedSolution>)
        requires
            self.wf(),
        ensures
            r is None <==> self.best_solution is None,
            r matches Some(c) ==> c.cost == self.best_cost && (self.best_solution matches Some(b)
                && c.solution@ == b@ && c.solution.size == b.size),
    {
        match &self.best_solution {
            Some(b) => Some(ComputedSolution { solution: b.duplicate(), cost: self.best_cost }),
            None => None,
        }
    }

    /// One cooling step on every replica: each temperature becomes
    /// `max(temperature * cooling_rate, min)`, with the rate in parts per
    /// million. Nothing else changes.
    pub fn cool(&mut self, cooling_rate: u64)
        requires
            old(self).wf(),
            cooling_rate <= SCALE,
        ensures
            final(self).wf(),
            cool_outcome(*old(self), *final(self), cooling_rate as int),
            final(self).temp_bounds == old(self).temp_bounds,
            final(self).distance_matrix == old(self).distance_matrix,
            final(self).costs@ == old(self).costs@,
            final(self).best_cost == old(self).best_cost,
            final(self).best_solution == old(self).best_solution,
            final(self).states@.len() == old(self).states@.len(),
            forall|i: int|
                #![trigger final(self).states@[i]]
                0 <= i < final(self).states@.len() ==> {
                    &&& final(self).states@[i].solution == old(self).states@[i].solution
                    &&& final(self).states@[i].is_transion_shuffle
                        == old(self).states@[i].is_transion_shuffle
                    &&& final(self).states@[i].temperature == cooled(
                        old(self).states@[i].temperature as int,
                        cooling_rate as int,
                        old(self).temp_bounds.min as int,
                    )
                    &&& final(self).states@[i].temperature >= final(self).temp_bounds.min
                },
    {
        let mut i: usize = 0;
        while i < self.states.len()
            invariant
                self.wf(),
                cooling_rate <= SCALE,
                self.temp_bounds == old(self).temp_bounds,
                self.distance_matrix == old(self).distance_matrix,
                self.costs@ == old(self).costs@,
                self.best_cost == old(self).best_cost,
                self.best_solution == old(self).best_solution,
                self.states@.len() == old(self).states@.len(),
                i <= self.states@.len(),
                forall|k: int|
                    0 <= k < self.states@.len() ==> {
                        &&& #[trigger] self.states@[k].solution == old(self).states@[k].solution
                        &&& self.states@[k].is_transion_shuffle
                            == old(self).states@[k].is_transion_shuffle
                    },
                forall|k: int|
                    0 <= k < i ==> #[trigger] self.states@[k].temperature == cooled(
                        old(self).states@[k].temperature as int,
                        cooling_rate as int,
                        old(self).temp_bounds.min as int,
                    ),
                forall|k: int|
                    i <= k < self.states@.len() ==> #[trigger] self.states@[k].temperature
                        == old(self).states@[k].temperature,
            decreases self.states@.len() - i,
        {
            let t = self.temp_bounds.cool(self.states[i].temperature, cooling_rate);
            let ghost before = *self;
            proof {
                assert(before.replica_ok(i as int));
            }
            self.states[i].temperature = t;
            assert(self.states@[i as int].solution == before.states@[i as int].solution);
            assert(self.states@[i as int].is_transion_shuffle
                == before.states@[i as int].is_transion_shuffle);
            assert forall|k: int| 0 <= k < self.states@.len() && k != i implies #[trigger] self.states@[k]
                == before.states@[k] by {}
            assert forall|k: int| 0 <= k < self.states@.len() implies #[trigger] self.replica_ok(
                k,
            ) by {
                assert(before.replica_ok(k));
            }
            i = i + 1;
        }
        assert forall|k: int| #![trigger self.states@[k]] 0 <= k < self.states@.len() implies {
            &&& self.states@[k].solution == old(self).states@[k].solution
            &&& self.states@[k].is_transion_shuffle == old(self).states@[k].is_transion_shuffle
            &&& self.states@[k].temperature == cooled(
                old(self).states@[k].temperature as int,
                cooling_rate as int,
                old(self).temp_bounds.min as int,
            )
            &&& self.states@[k].temperature >= self.temp_bounds.min
        } by {
            assert(self.replica_ok(k));
            assert(self.states@[k].temperature == cooled(
                old(self).states@[k].temperature as int,
                cooling_rate as int,
                old(self).temp_bounds.min as int,
            ));
        }
    }
}

impl StatesContainer {
    /// The Metropolis decision on replica `i` for the proposed tour
    /// `candidate`, with the unit exponential draw `exp_draw` (in parts per
    /// million): the replica takes the candidate and its cost exactly when
    /// [`accepts`] holds. Nothing else changes; the best tour is not
    /// refreshed here.
    pub fn metropolis_step_at(&mut self, i: usize, candidate: Solution, exp_draw: u64)
        requires
            old(self).replicas_ok(),
            i < old(self).states@.len(),
            candidate.wf(),
            candidate.size == old(self).distance_matrix.size,
            is_tour(candidate@),
        ensures
            final(self).replicas_ok(),
            final(self).temp_bounds == old(self).temp_bounds,
            final(self).distance_matrix == old(self).distance_matrix,
            final(self).best_cost == old(self).best_cost,
            final(self).best_solution == old(self).best_solution,
            final(self).states@.len() == old(self).states@.len(),
            forall|k: int|
                0 <= k < final(self).states@.len() && k != i ==> #[trigger] final(self).states@[k]
                    == old(self).states@[k] && final(self).costs@[k] == old(self).costs@[k],
            final(self).states@[i as int].temperature == old(self).states@[i as int].temperature,
            final(self).states@[i as int].is_transion_shuffle
                == old(self).states@[i as int].is_transion_shuffle,
            accepts(
                old(self).costs@[i as int] as int,
                tour_cost(old(self).distance_matrix, candidate@),
                old(self).states@[i as int].temperature as int,
                exp_draw as int,
            ) ==> final(self).states@[i as int].solution@ == candidate@ && final(self).costs@[i as int]
                == tour_cost(old(self).distance_matrix, candidate@),
            !accepts(
                old(self).costs@[i as int] as int,
                tour_cost(old(self).distance_matrix, candidate@),
                old(self).states@[i as int].temperature as int,
                exp_draw as int,
            ) ==> final(self).states@[i as int] == old(self).states@[i as int] && final(self).costs@[i as int] == old(self).costs@[i as int],
    {
        let ghost before = *self;
        proof {
            assert(before.replica_ok(i as int));
        }
        let new_cost = candidate.cost(&self.distance_matrix);
        if acceptance(self.costs[i], new_cost, self.states[i].temperature, exp_draw) {
            let state = State {
                solution: candidate,
                temperature: self.states[i].temperature,
                is_transion_shuffle: self.states[i].is_transion_shuffle,
            };
            self.states[i] = state;
            self.costs[i] = new_cost;
        }
        proof {
            assert forall|k: int| 0 <= k < self.states@.len() implies #[trigger] self.replica_ok(k) by {
                assert(before.replica_ok(k));
            }
        }
    }

    /// One Metropolis sweep: each replica proposes a mutation of its tour and
    /// takes it by [`StatesContainer::metropolis_step_at`] with its own draw
    /// of `exp_draws` (unit exponential draws in parts per million). Then the
    /// best tour is refreshed from the replicas.
    pub fn metropolis_tranision(&mut self, max_percent_of_cycle: u64, exp_draws: &Vec<u64>)
        requires
            old(self).wf(),
            max_percent_of_cycle <= SCALE,
            exp_draws@.len() == old(self).states@.len(),
            mutation_fits(
                old(self).distance_matrix.size as int,
                max_percent_of_cycle as int,
                old(self).temp_bounds.max as int,
            ),
        ensures
            final(self).wf(),
            metropolis_outcome(
                *old(self),
                *final(self),
                max_percent_of_cycle as int,
                exp_draws@,
            ),
    {
        let n = self.distance_matrix.size;
        let tmax = self.temp_bounds.max;
        let mut i: usize = 0;
        while i < self.states.len()
            invariant
                self.replicas_ok(),
                self.temp_bounds == old(self).temp_bounds,
                self.distance_matrix == old(self).distance_matrix,
                n == self.distance_matrix.size,
                tmax == self.temp_bounds.max,
                max_percent_of_cycle <= SCALE,
                mutation_fits(n as int, max_percent_of_cycle as int, tmax as int),
                self.states@.len() == old(self).states@.len(),
                exp_draws@.len() == self.states@.len(),
                self.best_cost == old(self).best_cost,
                self.best_solution == old(self).best_solution,
                old(self).best_ok(),
                i <= self.states@.len(),
                forall|k: int|
                    #![trigger self.states@[k]]
                    0 <= k < i ==> metropolis_replica(
                        old(self).distance_matrix,
                        old(self).states@[k],
                        old(self).costs@[k],
                        self.states@[k],
                        self.costs@[k],
                        window_length(
                            n as int,
                            max_percent_of_cycle as int,
                            old(self).states@[k].temperature as int,
                            tmax as int,
                        ),
                        exp_draws@[k] as int,
                    ),
                forall|k: int|
                    i <= k < self.states@.len() ==> #[trigger] self.states@[k] == old(self).states@[k],
                forall|k: int|
                    i <= k < self.costs@.len() ==> #[trigger] self.costs@[k] == old(self).costs@[k],
            decreases self.states@.len() - i,
        {
            let ghost before = *self;
            proof {
                assert(before.replica_ok(i as int));
                assert(self.states@[i as int] == old(self).states@[i as int]);
                assert(self.costs@[i as int] == old(self).costs@[i as int]);
                lemma_window_length_bounds(
                    n as int,
                    max_percent_of_cycle as int,
                    self.states@[i as int].temperature as int,
                    tmax as int,
                );
            }
            let mut candidate = State {
                solution: self.states[i].solution.duplicate(),
                temperature: self.states[i].temperature,
                is_transion_shuffle: self.states[i].is_transion_shuffle,
            };
            let r = candidate.mutate_state(tmax, max_percent_of_cycle);
            assert(r is Ok);
            let ghost c = candidate.solution@;
            self.metropolis_step_at(i, candidate.solution, exp_draws[i]);
            proof {
                let len = window_length(
                    n as int,
                    max_percent_of_cycle as int,
                    old(self).states@[i as int].temperature as int,
                    tmax as int,
                );
                assert(is_mutation(
                    old(self).states@[i as int].solution@,
                    c,
                    len,
                    old(self).states@[i as int].is_transion_shuffle,
                ));
                assert forall|k: int|
                    #![trigger self.states@[k]]
                    0 <= k < i + 1 implies metropolis_replica(
                    old(self).distance_matrix,
                    old(self).states@[k],
                    old(self).costs@[k],
                    self.states@[k],
                    self.costs@[k],
                    window_length(
                        n as int,
                        max_percent_of_cycle as int,
                        old(self).states@[k].temperature as int,
                        tmax as int,
                    ),
                    exp_draws@[k] as int,
                ) by {
                    if k < i {
                        assert(before.states@[k] == self.states@[k]);
                        assert(before.costs@[k] == self.costs@[k]);
                    }
                }
                assert forall|k: int| i + 1 <= k < self.states@.len() implies #[trigger] self.states@[k]
                    == old(self).states@[k] by {
                    assert(before.states@[k] == old(self).states@[k]);
                }
                assert forall|k: int| i + 1 <= k < self.costs@.len() implies #[trigger] self.costs@[k]
                    == old(self).costs@[k] by {
                    assert(self.states@[k] == before.states@[k]);
                    assert(before.costs@[k] == old(self).costs@[k]);
                }
            }
            i = i + 1;
        }
        let ghost mid = *self;
        let mut k: usize = 0;
        while k < self.costs.len()
            invariant
                self.replicas_ok(),
                self.temp_bounds == old(self).temp_bounds,
                self.distance_matrix == old(self).distance_matrix,
                self.states@.len() == old(self).states@.len(),
                k <= self.costs@.len(),
                old(self).best_ok(),
                self.states@ == mid.states@,
                self.costs@ == mid.costs@,
                self.best_solution is None ==> self.states@.len() == 0 && self.best_cost
                    == u64::MAX,
                self.best_solution matches Some(b) ==> {
                    &&& b.wf()
                    &&& b.size == self.distance_matrix.size
                    &&& is_tour(b@)
                    &&& self.best_cost == tour_cost(self.distance_matrix, b@)
                },
                self.best_solution is Some ==> forall|j: int|
                    0 <= j < k ==> self.best_cost <= #[trigger] self.costs@[j],
                old(self).best_solution is Some ==> self.best_cost <= old(self).best_cost,
                self.best_cost == old(self).best_cost ==> self.best_solution
                    == old(self).best_solution,
                self.best_cost == old(self).best_cost || exists|j: int|
                    0 <= j < self.states@.len() && self.best_cost == self.costs@[j] && (
                    self.best_solution matches Some(b) && b@ == self.states@[j].solution@),
            decreases self.costs@.len() - k,
        {
            if self.best_solution.is_none() || self.costs[k] < self.best_cost {
                let ghost before = *self;
                proof {
                    assert(self.replica_ok(k as int));
                }
                self.best_cost = self.costs[k];
                self.best_solution = Some(self.states[k].solution.duplicate());
                proof {
                    assert forall|j: int| 0 <= j < self.states@.len() implies #[trigger] self.replica_ok(
                        j,
                    ) by {
                        assert(before.replica_ok(j));
                    }
                    assert(self.best_cost == self.costs@[k as int] && (self.best_solution matches Some(
                        b,
                    ) && b@ == self.states@[k as int].solution@));
                }
            }
            k = k + 1;
        }
    }

    /// The exchange rule on replicas `first` and `second` with the uniform
    /// draw `draw` (in parts per million): when both cost more than
    /// `closeness` parts per million of the best cost and `draw` is below
    /// `swap_probabilty`, they exchange temperatures (read both, then write
    /// both); otherwise nothing changes.
    pub fn exchange_at(
        &mut self,
        first: usize,
        second: usize,
        draw: u64,
        swap_probabilty: u64,
        closeness: u64,
    )
        requires
            old(self).wf(),
            first < old(self).states@.len(),
            second < old(self).states@.len(),
            first != second,
        ensures
            final(self).wf(),
            exchange_outcome(
                *old(self),
                *final(self),
                first as int,
                second as int,
                draw as int,
                swap_probabilty as int,
                closeness as int,
            ),
    {
        proof {
            assert(closeness * self.best_cost <= u64::MAX * u64::MAX) by (nonlinear_arith)
                requires
                    closeness <= u64::MAX,
                    self.best_cost <= u64::MAX,
            ;
            assert(self.costs@[first as int] * SCALE <= u64::MAX * SCALE) by (nonlinear_arith)
                requires
                    self.costs@[first as int] <= u64::MAX,
            ;
            assert(self.costs@[second as int] * SCALE <= u64::MAX * SCALE) by (nonlinear_arith)
                requires
                    self.costs@[second as int] <= u64::MAX,
            ;
        }
        let bound = (closeness as u128) * (self.best_cost as u128);
        let first_far = (self.costs[first] as u128) * (SCALE as u128) > bound;
        let second_far = (self.costs[second] as u128) * (SCALE as u128) > bound;
        if first_far && second_far && draw < swap_probabilty {
            let ghost before = *self;
            proof {
                assert(before.replica_ok(first as int));
                assert(before.replica_ok(second as int));
            }
            let t1 = self.states[first].temperature;
            let t2 = self.states[second].temperature;
            self.states[first].temperature = t2;
            self.states[second].temperature = t1;
            proof {
                assert(self.states@[first as int].solution == before.states@[first as int].solution);
                assert(self.states@[second as int].solution
                    == before.states@[second as int].solution);
                assert forall|k: int|
                    0 <= k < self.states@.len() && k != first && k != second implies #[trigger] self.states@[k]
                    == before.states@[k] by {}
                assert forall|k: int| 0 <= k < self.states@.len() implies #[trigger] self.replica_ok(
                    k,
                ) by {
                    assert(before.replica_ok(k));
                }
                assert(far_from_best(before, first as int, closeness as int));
                assert(far_from_best(before, second as int, closeness as int));
                assert(temps_exchanged(before, *self, first as int, second as int));
            }
        }
    }

    /// One exchange attempt: two distinct replicas and a uniform draw are
    /// drawn, and the exchange rule of [`StatesContainer::exchange_at`]
    /// applies to them. Tours, costs and the best tour never change. A pool of
    /// fewer than two replicas is left as it is.
    pub fn replica_transition(&mut self, swap_probabilty: u64, closeness: u64)
        requires
            old(self).wf(),
        ensures
            final(self).wf(),
            exchange_attempt(
                *old(self),
                *final(self),
                swap_probabilty as int,
                closeness as int,
            ),
            old(self).states@.len() >= 2 && swap_probabilty >= SCALE ==> exists|i: int, j: int|
                0 <= i < old(self).states@.len() && 0 <= j < old(self).states@.len() && i != j
                    && #[trigger] exchange_when_far(*old(self), *final(self), i, j, closeness as int),
    {
        let n = self.states.len();
        if n < 2 {
            return ;
        }
        let first = random_index(0, n);
        let other = random_index(0, n - 1);
        let second = if other >= first {
            other + 1
        } else {
            other
        };
        let draw = random_index(0, SCALE as usize) as u64;
        let ghost before = *self;
        assert(before == *old(self));
        self.exchange_at(first, second, draw, swap_probabilty, closeness);
        proof {
            assert(exchange_outcome(
                before,
                *self,
                first as int,
                second as int,
                draw as int,
                swap_probabilty as int,
                closeness as int,
            ));
            if swap_probabilty >= SCALE {
                if far_from_best(before, first as int, closeness as int) && far_from_best(
                    before,
                    second as int,
                    closeness as int,
                ) {
                    assert(temps_exchanged(before, *self, first as int, second as int));
                } else {
                    assert(*self == before);
                }
                assert(exchange_when_far(before, *self, first as int, second as int, closeness as int));
            }
        }
    }
}

/// `true` with probability `p` parts per million.
pub(crate) fn draw_below(p: u64) -> (r: bool)
    ensures
        p == 0 ==> !r,
        p >= SCALE ==> r,
{
    let d = random_index(0, SCALE as usize);
    (d as u64) < p
}

} // verus!
