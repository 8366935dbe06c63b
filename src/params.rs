use vstd::prelude::*;

use crate::error::ConfigError;

verus! {

/// Parts per million: the unit of every probability, fraction and rate.
pub const SCALE: u64 = 1_000_000;

/// The tunable parameters of a search. Probabilities, the window fraction,
/// the closeness factor, the cooling rate and the shape parameters of the
/// temperature distribution are in parts per million of one; temperatures are
/// in the units of the distance matrix.
#[derive(Debug, Clone, Copy, PartialEq, Eq, Structural)]
pub struct Params {
    /// Replicas per worker.
    pub number_of_states: usize,
    /// Sweeps per cooling step and per deadline check.
    pub number_of_repeats: usize,
    /// Independent workers.
    pub number_of_concurrent_threads: usize,
    pub min_temperature: u64,
    pub max_temperature: u64,
    /// Probability that a replica mutates by windowed shuffle (else by swap).
    pub probability_of_shuffle: u64,
    /// Probability that a replica starts from a heuristic tour.
    pub probability_of_heuristic: u64,
    /// First shape parameter of the Beta distribution of initial temperatures.
    pub temp_beta_a: u64,
    /// Second shape parameter of the Beta distribution of initial temperatures.
    pub temp_beta_b: u64,
    /// Largest mutation window, as a fraction of the tour, reached at the
    /// maximum temperature.
    pub max_length_percent_of_cycle: u64,
    /// Probability that two eligible replicas exchange temperatures.
    pub swap_states_probability: u64,
    /// Replicas whose cost exceeds this multiple of the best cost may exchange.
    pub closeness: u64,
    /// Factor applied to every temperature at each cooling step.
    pub cooling_rate: u64,
}

/// What validating `p` gives: the first rule that it breaks, in the order
/// population, workers, temperature range, probabilities, shape parameters,
/// cooling rate.
pub open spec fn params_check(p: Params) -> Result<(), ConfigError> {
    if p.number_of_states == 0 {
        Err(ConfigError::EmptyPopulation)
    } else if p.number_of_concurrent_threads == 0 {
        Err(ConfigError::NoThreads)
    } else if p.min_temperature > p.max_temperature {
        Err(ConfigError::InvalidTemperatureRange)
    } else if p.probability_of_shuffle > SCALE || p.probability_of_heuristic > SCALE
        || p.swap_states_probability > SCALE || p.max_length_percent_of_cycle > SCALE {
        Err(ConfigError::InvalidProbability)
    } else if p.temp_beta_a == 0 || p.temp_beta_b == 0 {
        Err(ConfigError::InvalidBetaShape)
    } else if p.cooling_rate == 0 || p.cooling_rate > SCALE {
        Err(ConfigError::InvalidCoolingRate)
    } else {
        Ok(())
    }
}

impl Params {
    pub open spec fn valid(&self) -> bool {
        params_check(*self) is Ok
    }

    /// Checks every parameter against its range.
    pub fn validate(&self) -> (r: Result<(), ConfigError>)
        ensures
            r == params_check(*self),
    {
        if self.number_of_states == 0 {
            Err(ConfigError::EmptyPopulation)
        } else if self.number_of_concurrent_threads == 0 {
            Err(ConfigError::NoThreads)
        } else if self.min_temperature > self.max_temperature {
            Err(ConfigError::InvalidTemperatureRange)
        } else if self.probability_of_shuffle > SCALE || self.probability_of_heuristic > SCALE
            || self.swap_states_probability > SCALE || self.max_length_percent_of_cycle > SCALE {
            Err(ConfigError::InvalidProbability)
        } else if self.temp_beta_a == 0 || self.temp_beta_b == 0 {
            Err(ConfigError::InvalidBetaShape)
        } else if self.cooling_rate == 0 || self.cooling_rate > SCALE {
            Err(ConfigError::InvalidCoolingRate)
        } else {
            Ok(())
        }
    }
}

} // verus!
