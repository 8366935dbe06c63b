use vstd::prelude::*;

verus! {

/// A configuration or input that the search refuses before any work starts.
#[derive(Debug, Clone, Copy, PartialEq, Eq, Structural)]
pub enum ConfigError {
    /// The distance matrix has no rows.
    EmptyMatrix,
    /// Some row of the distance matrix does not have one entry per row.
    NotSquare,
    /// Some weight is so large that a tour cost could not be represented.
    WeightTooLarge,
    /// Some weight is negative or not a number.
    NegativeWeight,
    /// A probability or fraction lies outside its range.
    InvalidProbability,
    /// The minimum temperature exceeds the maximum temperature.
    InvalidTemperatureRange,
    /// The population per worker is zero.
    EmptyPopulation,
    /// The number of workers is zero.
    NoThreads,
    /// The cooling rate lies outside `(0, 1]`.
    InvalidCoolingRate,
    /// A shape parameter of the temperature distribution is not positive.
    InvalidBetaShape,
    /// The longest mutation window could break the segment-swap precondition.
    MutationTooLong,
}

/// A segment swap whose window length `L` breaks `3L - 2 <= N`.
#[derive(Debug, Clone, Copy, PartialEq, Eq, Structural)]
pub struct InvalidMutation {
    pub length: usize,
    pub size: usize,
}

} // verus!
