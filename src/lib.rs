//! Simulation of small finite and pushdown automata.
//!
//! The heart of the library is a nondeterministic pushdown automaton engine:
//! a set of `(state, stack)` configurations is driven through an input word,
//! every branch explored independently, and acceptance is decided by an
//! epsilon-closure search once the input is exhausted.

pub mod config;
pub mod pda;
pub mod bottom_up;
pub mod grammar;
pub mod grammar_driven;
pub mod simple;
pub mod binary_string;
pub mod magic_door;
pub mod palindrome;
