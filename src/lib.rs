//! Parallel-tempering search for low-cost Hamiltonian cycles over a complete
//! weighted graph.
//!
//! Costs, temperatures and probabilities are integers: costs are in the units
//! of the distance matrix, temperatures in the same units, and probabilities,
//! fractions and rates in parts per million (see [`params::SCALE`]).

pub mod error;
pub mod matrix;
mod random;
pub mod solution;
pub mod params;
pub mod temp;
pub mod state;
pub mod engine;
pub mod helpers;
