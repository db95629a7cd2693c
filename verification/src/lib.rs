//! A binary genetic algorithm for the OneMax problem: a population of
//! fixed-length bit strings evolves towards the all-ones string.
//!
//! Every operation carries a contract over the bit strings as mathematical
//! sequences. Randomness comes from the `rand` crate through trusted
//! declarations in `random`; what an operation does with a draw is proved
//! for every value of it.

pub mod error;
pub mod gene;
pub mod individual;
pub mod population;
pub mod random;
pub mod rate;
