//! A Markov-chain text generator: a transition table trained from raw
//! texts, and a weighted random walk that generates new word sequences
//! from it under seed, length, and terminator constraints.

pub mod chain;
pub mod corpus;
pub mod errors;
pub mod options;
mod rng;
pub mod text;
