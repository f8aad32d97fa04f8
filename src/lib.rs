//! Character-level, multi-order Markov chain text generation.
//!
//! The library learns transition counts from sentences (`State`,
//! `NGramModel`, `MultiGramModel`), blends several named corpora
//! (`Generator`) and generates new words by sampling from them under a
//! `PredictionInput` configuration.
//!
//! Randomness is given in millionths (`generation::SCALE` is certainty) and
//! model intensities are non-negative integers; probabilities are exact
//! fractions of them.

pub mod counts;
pub mod error;
pub mod generation;
pub mod generator;
pub mod laws;
pub mod multigram_model;
pub mod ngram_model;
pub mod prediction_input;
mod random;
pub mod seed;
pub mod state;
pub mod text;
