//! Exhaustive shift-reduce parsing of binary (Chomsky normal form) grammars.
//!
//! Two parsing machines share one table-driven grammar:
//! - `GeneratorState` keeps every stack of partial binary trees that the
//!   input read so far admits, and reduces greedily after each shift;
//! - `State` keeps left-corner contexts of complete and incomplete symbols.
//!
//! `bayesian_pcfg_induction` counts rule uses over sampled parses.

pub mod seq_facts;
pub mod token;
pub mod binary_tree;
pub mod binary_grammar;
pub mod stack;
pub mod generator_state;
pub mod context;
pub mod state;
pub mod bayesian_pcfg_induction;
