pub mod chain;
pub mod model;
pub mod outside;

pub use chain::{join_words, ChainError, MarkovChain, SavedChain, Transition};
