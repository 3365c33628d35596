//! A variable-order Markov-chain text model: it learns token-transition
//! statistics from training text and generates continuations by weighted
//! sampling over the longest recorded context, backing off to shorter ones.

pub mod tokenizer;
pub mod vocab;
pub mod freq;
mod rng;
pub mod brain;
