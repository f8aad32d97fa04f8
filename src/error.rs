//! Errors reported by the models, the configuration and the generator.

use vstd::prelude::*;

verus! {

/// Why an operation was refused.
#[derive(Clone, Copy, Debug, PartialEq, Eq, Structural)]
pub enum ModelError {
    /// Two transition tables with different prefixes cannot be merged.
    KeyMismatch,
    /// Two n-gram models of different orders cannot be merged.
    OrderMismatch,
    /// An n-gram model needs an order of at least 2.
    OrderTooSmall,
    /// Randomness lies outside `[0, 1]`.
    InvalidRandomness,
    /// No model of that name is configured.
    UnknownModel,
    /// A model of that name is already loaded.
    ModelAlreadyLoaded,
    /// Nothing has been loaded or learned to generate from.
    NoModels,
    /// No starting seed could be drawn.
    NoSeed,
    /// A seed description is empty or malformed.
    InvalidSeed,
}

} // verus!
