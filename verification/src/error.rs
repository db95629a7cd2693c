use vstd::prelude::*;

verus! {

/// The ways in which the engine refuses to go on.
#[derive(Clone, Copy, Debug, PartialEq, Eq, Structural)]
pub enum EngineError {
    /// Truncation left at most one individual, so no two parents exist.
    InsufficientSurvivors,
    /// The fittest or the weakest of an empty population was asked for.
    EmptyPopulation,
    /// A size or a rate given at construction is out of range.
    InvalidParameter,
}

} // verus!
