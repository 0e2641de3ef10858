//! A discrete-time, finite-state Markov chain over labelled states.
//!
//! The chain stores a square matrix of transition weights, samples successor
//! states in proportion to those weights, and answers reachability and
//! irreducibility questions about the graph of positive-weight transitions.

pub mod chain;
pub mod matrix;
pub mod model;
pub mod sampling;
pub mod search;
pub mod walks;

pub use crate::chain::{ChainError, MarkovChain};
pub use crate::matrix::WeightMatrix;
pub use crate::model::ChainModel;
